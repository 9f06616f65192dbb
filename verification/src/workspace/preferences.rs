//! The preferences: how choices of the dialog stand for settings, and how the
//! settings make the window look.

use vstd::prelude::*;

use crate::config::{Accent, AppearanceConfig, NoteListDensity, Theme};
use crate::text::{chars_of, decimal, push_decimal, trim, trimmed};

verus! {

// Choices.

pub open spec fn theme_at(index: int) -> Theme {
    if index == 1 {
        Theme::Light
    } else if index == 2 {
        Theme::Dark
    } else {
        Theme::System
    }
}

/// The choice of the dialog for a theme.
pub fn theme_index(theme: Theme) -> (index: u32)
    ensures
        index <= 2,
        theme_at(index as int) == theme,
{
    match theme {
        Theme::System => 0,
        Theme::Light => 1,
        Theme::Dark => 2,
    }
}

/// The theme for a choice of the dialog.
pub fn theme_of_index(index: u32) -> (theme: Theme)
    ensures
        theme == theme_at(index as int),
{
    match index {
        1 => Theme::Light,
        2 => Theme::Dark,
        _ => Theme::System,
    }
}

pub open spec fn density_at(index: int) -> NoteListDensity {
    if index == 0 {
        NoteListDensity::Compact
    } else if index == 2 {
        NoteListDensity::Spacious
    } else {
        NoteListDensity::Comfortable
    }
}

/// The choice of the dialog for a density.
pub fn density_index(density: NoteListDensity) -> (index: u32)
    ensures
        index <= 2,
        density_at(index as int) == density,
{
    match density {
        NoteListDensity::Compact => 0,
        NoteListDensity::Comfortable => 1,
        NoteListDensity::Spacious => 2,
    }
}

/// The density for a choice of the dialog.
pub fn density_of_index(index: u32) -> (density: NoteListDensity)
    ensures
        density == density_at(index as int),
{
    match index {
        0 => NoteListDensity::Compact,
        2 => NoteListDensity::Spacious,
        _ => NoteListDensity::Comfortable,
    }
}

pub open spec fn accent_at(index: int) -> Accent {
    if index == 1 {
        Accent::Teal
    } else if index == 2 {
        Accent::Green
    } else if index == 3 {
        Accent::Purple
    } else if index == 4 {
        Accent::Orange
    } else {
        Accent::Blue
    }
}

/// The choice of the dialog for an accent.
pub fn accent_index(accent: Accent) -> (index: u32)
    ensures
        index <= 4,
        accent_at(index as int) == accent,
{
    match accent {
        Accent::Blue => 0,
        Accent::Teal => 1,
        Accent::Green => 2,
        Accent::Purple => 3,
        Accent::Orange => 4,
    }
}

/// The accent for a choice of the dialog.
pub fn accent_of_index(index: u32) -> (accent: Accent)
    ensures
        accent == accent_at(index as int),
{
    match index {
        1 => Accent::Teal,
        2 => Accent::Green,
        3 => Accent::Purple,
        4 => Accent::Orange,
        _ => Accent::Blue,
    }
}

/// The choice of the dialog for a width of the editor.
pub open spec fn width_choice(width: int) -> int {
    if width <= 90 {
        0
    } else if width <= 114 {
        1
    } else {
        2
    }
}

/// The choice of the dialog for a width of the editor.
pub fn width_index(width: u32) -> (index: u32)
    ensures
        index == width_choice(width as int),
{
    if width <= 90 {
        0
    } else if width <= 114 {
        1
    } else {
        2
    }
}

/// The width of the editor for a choice of the dialog.
pub open spec fn width_at(index: int) -> int {
    if index == 0 {
        88
    } else if index == 2 {
        120
    } else {
        108
    }
}

/// The width of the editor for a choice of the dialog.
pub fn width_of_index(index: u32) -> (width: u32)
    ensures
        width == width_at(index as int),
{
    match index {
        0 => 88,
        2 => 120,
        _ => 108,
    }
}

/// A choice that was made is the one that the dialog shows the next time.
pub proof fn law_chosen_width_is_shown(index: int)
    requires
        0 <= index <= 2,
    ensures
        width_choice(width_at(index)) == index,
{
}

/// The font for what was entered. A blank entry changes nothing.
pub fn entered_font(entry: &str) -> (font: Option<String>)
    ensures
        match font {
            Some(font) => trimmed(entry@).len() > 0 && font@ == trimmed(entry@),
            None => trimmed(entry@).len() == 0,
        },
{
    let inner = trim(entry);
    if inner.as_str().is_empty() {
        None
    } else {
        Some(inner)
    }
}

// Looks.

/// The margin beside the text of the editor.
pub fn side_margin(width: u32) -> (margin: i32)
    ensures
        margin == (if width_choice(width as int) == 0 {
            44i32
        } else if width_choice(width as int) == 1 {
            26i32
        } else {
            14i32
        }),
{
    if width <= 90 {
        44
    } else if width <= 114 {
        26
    } else {
        14
    }
}

/// The space above and below a line of the editor.
pub fn line_padding(spacing: u32) -> (pixels: i32)
    ensures
        pixels == spacing / 2,
{
    (spacing / 2) as i32
}

pub open spec fn accent_color(accent: Accent) -> Seq<char> {
    match accent {
        Accent::Blue => "#3584e4"@,
        Accent::Teal => "#2190a4"@,
        Accent::Green => "#3a944a"@,
        Accent::Purple => "#9141ac"@,
        Accent::Orange => "#e66100"@,
    }
}

pub open spec fn accent_shade(accent: Accent) -> Seq<char> {
    match accent {
        Accent::Blue => "alpha(#3584e4, 0.20)"@,
        Accent::Teal => "alpha(#2190a4, 0.20)"@,
        Accent::Green => "alpha(#3a944a, 0.20)"@,
        Accent::Purple => "alpha(#9141ac, 0.20)"@,
        Accent::Orange => "alpha(#e66100, 0.20)"@,
    }
}

/// The color of an accent, and its shade behind selected rows.
pub fn accent_colors(accent: Accent) -> (colors: (&'static str, &'static str))
    ensures
        colors.0@ == accent_color(accent),
        colors.1@ == accent_shade(accent),
{
    match accent {
        Accent::Blue => ("#3584e4", "alpha(#3584e4, 0.20)"),
        Accent::Teal => ("#2190a4", "alpha(#2190a4, 0.20)"),
        Accent::Green => ("#3a944a", "alpha(#3a944a, 0.20)"),
        Accent::Purple => ("#9141ac", "alpha(#9141ac, 0.20)"),
        Accent::Orange => ("#e66100", "alpha(#e66100, 0.20)"),
    }
}

/// Whether a character could end the quoted name of a font in a style sheet.
pub open spec fn breaks_quotes(character: char) -> bool {
    character == '"' || character == '\'' || character == '\\'
}

/// The name of a font without what could end it in a style sheet.
pub open spec fn safe_font(family: Seq<char>) -> Seq<char>
    decreases family.len(),
{
    if family.len() == 0 {
        seq![]
    } else if breaks_quotes(family.last()) {
        safe_font(family.drop_last())
    } else {
        safe_font(family.drop_last()).push(family.last())
    }
}

/// The size of the editor's font, within bounds.
pub open spec fn safe_size(size: nat) -> nat {
    if size < 10 {
        10
    } else if size > 36 {
        36
    } else {
        size
    }
}

fn push_safe_font(css: &mut String, family: &str)
    ensures
        final(css)@ == old(css)@ + safe_font(family@),
{
    let chars = chars_of(family);
    let mut index: usize = 0;
    proof {
        assert(css@ + safe_font(chars@.take(0)) =~= css@);
    }
    while index < chars.len()
        invariant
            index <= chars@.len(),
            css@ == old(css)@ + safe_font(chars@.take(index as int)),
        decreases chars@.len() - index,
    {
        let character = chars[index];
        proof {
            let next = chars@.take(index + 1);
            assert(next.drop_last() =~= chars@.take(index as int));
            assert(next.last() == character);
        }
        if character != '"' && character != '\'' && character != '\\' {
            css.push(character);
            proof {
                assert(css@ =~= old(css)@ + safe_font(chars@.take(index + 1)));
            }
        }
        index += 1;
    }
    proof {
        assert(chars@.take(index as int) == chars@);
    }
}

/// The style sheet for the settings.
pub open spec fn style_sheet(family: Seq<char>, size: nat, accent: Accent) -> Seq<char> {
    ".editor-view { font-family: \""@ + safe_font(family) + "\"; font-size: "@ + decimal(
        safe_size(size),
    ) + "px; }\n.brand-accent { color: "@ + accent_color(accent)
        + "; }\n.note-list row:selected { background-color: "@ + accent_shade(accent)
        + "; }\n.sidebar-selected { background-color: "@ + accent_shade(accent) + "; }"@
}

/// The style sheet for the settings.
pub fn appearance_css(config: &AppearanceConfig) -> (css: String)
    ensures
        css@ == style_sheet(
            config.editor_font_family@,
            config.editor_font_size as nat,
            config.accent,
        ),
{
    let size: u32 = if config.editor_font_size < 10 {
        10
    } else if config.editor_font_size > 36 {
        36
    } else {
        config.editor_font_size
    };
    let (color, shade) = accent_colors(config.accent);
    let mut css: String = ".editor-view { font-family: \"".to_owned();
    push_safe_font(&mut css, &config.editor_font_family);
    css.append("\"; font-size: ");
    push_decimal(&mut css, size as u64);
    css.append("px; }\n.brand-accent { color: ");
    css.append(color);
    css.append("; }\n.note-list row:selected { background-color: ");
    css.append(shade);
    css.append("; }\n.sidebar-selected { background-color: ");
    css.append(shade);
    css.append("; }");
    css
}

/// Nothing in the name of a font can end its quotes in the style sheet.
pub proof fn law_fonts_stay_quoted(family: Seq<char>, at: int)
    requires
        0 <= at < safe_font(family).len(),
    ensures
        !breaks_quotes(safe_font(family)[at]),
    decreases family.len(),
{
    if family.len() > 0 {
        let before = safe_font(family.drop_last());
        if at < before.len() {
            law_fonts_stay_quoted(family.drop_last(), at);
        }
    }
}

} // verus!
