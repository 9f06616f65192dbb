use senatorial_notes::formatting::{apply_markdown_format, FormatAction};
use senatorial_notes::markdown_spans::{compute_spans, SpanKind};

fn apply(source: &str, start: usize, end: usize, action: FormatAction) -> (String, usize, usize) {
    let edit = apply_markdown_format(source, start, end, action);
    (edit.text, edit.selection_start, edit.selection_end)
}

fn text(source: &str, start: usize, end: usize, action: FormatAction) -> String {
    apply(source, start, end, action).0
}

#[test]
fn a_selected_word_is_wrapped_and_unwrapped() {
    let (once, start, end) = apply("a word b", 2, 6, FormatAction::Bold);
    assert_eq!(once, "a **word** b");
    assert_eq!((start, end), (4, 8));
    let (twice, start, end) = apply(&once, start, end, FormatAction::Bold);
    assert_eq!(twice, "a word b");
    assert_eq!((start, end), (2, 6));
}

#[test]
fn a_selection_with_its_markers_is_unwrapped() {
    assert_eq!(text("**word**", 0, 8, FormatAction::Bold), "word");
    assert_eq!(text("~~word~~", 0, 8, FormatAction::Strikethrough), "word");
    assert_eq!(text("==word==", 0, 8, FormatAction::Highlight), "word");
    assert_eq!(text("`word`", 0, 6, FormatAction::InlineCode), "word");
}

#[test]
fn a_cursor_gets_a_placeholder() {
    let (made, start, end) = apply("", 0, 0, FormatAction::Bold);
    assert_eq!(made, "**bold text**");
    assert_eq!((start, end), (2, 11));
    assert_eq!(text("", 0, 0, FormatAction::Italic), "*italic text*");
    assert_eq!(text("", 0, 0, FormatAction::Strikethrough), "~~struck text~~");
    assert_eq!(text("", 0, 0, FormatAction::Highlight), "==highlighted text==");
    assert_eq!(text("", 0, 0, FormatAction::InlineCode), "`code`");
    assert_eq!(text("", 0, 0, FormatAction::CodeBlock), "```\ncode\n```");
    assert_eq!(text("", 0, 0, FormatAction::Link), "[link text](https://)");
}

#[test]
fn bold_is_not_taken_for_italic() {
    assert_eq!(text("**word**", 2, 6, FormatAction::Italic), "***word***");
    assert_eq!(text("***word***", 3, 7, FormatAction::Italic), "**word**");
}

#[test]
fn headings_replace_each_other() {
    assert_eq!(text("Title", 0, 0, FormatAction::Heading1), "# Title");
    assert_eq!(text("# Title", 3, 3, FormatAction::Heading3), "### Title");
    assert_eq!(text("### Title", 0, 0, FormatAction::Heading3), "Title");
    assert_eq!(text("## Title", 0, 0, FormatAction::Normal), "Title");
}

#[test]
fn lists_prefix_every_line() {
    assert_eq!(
        text("one\ntwo", 0, 7, FormatAction::BulletedList),
        "- one\n- two"
    );
    assert_eq!(text("one", 0, 3, FormatAction::NumberedList), "1. one");
    assert_eq!(text("one", 0, 3, FormatAction::Checklist), "- [ ] one");
    assert_eq!(text("one", 0, 3, FormatAction::Quote), "> one");
    assert_eq!(text("ab", 1, 1, FormatAction::HorizontalDivider), "a\n---\nb");
}

#[test]
fn positions_inside_a_character_go_back_to_its_start() {
    // The first character takes two bytes.
    assert_eq!(text("éa", 1, 3, FormatAction::Link), "[éa](https://)");
    assert_eq!(text("éa", 99, 99, FormatAction::InlineCode), "éa`code`");
}

#[test]
fn a_marker_goes_round_wide_characters() {
    let edit = apply_markdown_format("日本", 0, 6, FormatAction::Bold);
    assert_eq!(edit.text, "**日本**");
    assert_eq!((edit.selection_start, edit.selection_end), (2, 8));
    assert_eq!(text("é", 0, 2, FormatAction::InlineCode), "`é`");
    assert_eq!(text("aéé", 0, 5, FormatAction::Bold), "**aéé**");
}

#[test]
fn an_odd_run_of_stars_is_italic_already() {
    let edit = apply_markdown_format("***word***", 0, 10, FormatAction::Italic);
    assert_eq!(edit.text, "**word**");
    assert_eq!((edit.selection_start, edit.selection_end), (0, 8));
    let again = apply_markdown_format("**word**", 0, 8, FormatAction::Italic);
    assert_eq!(again.text, "***word***");
    assert_eq!(text("*word**", 0, 7, FormatAction::Italic), "**word***");
}

#[test]
fn a_cursor_between_two_spans_is_in_neither() {
    let edit = apply_markdown_format("**a** x **b**", 6, 6, FormatAction::Bold);
    assert_eq!(edit.text, "**a** **bold text**x **b**");
    assert_eq!((edit.selection_start, edit.selection_end), (8, 17));
    assert_eq!(text("**a** x **b**", 3, 3, FormatAction::Bold), "a x **b**");
    assert_eq!(text("**a** x **b**", 11, 11, FormatAction::Bold), "**a** x b");
    assert_eq!(text("*a* **b** *c*", 11, 11, FormatAction::Italic), "*a* **b** c");
    assert_eq!(text("***word***", 5, 5, FormatAction::Bold), "*word*");
}

#[test]
fn a_selection_acts_as_its_floor() {
    let edit = apply_markdown_format("abc", 10, 20, FormatAction::Bold);
    assert_eq!(edit.text, "abc**bold text**");
    assert_eq!((edit.selection_start, edit.selection_end), (5, 14));
    assert_eq!(text("abcd", 3, 1, FormatAction::Bold), "abc**bold text**d");
}

fn kinds(source: &str) -> Vec<SpanKind> {
    compute_spans(source).into_iter().map(|span| span.kind).collect()
}

#[test]
fn emphasis_is_found_with_its_markers() {
    let spans = compute_spans("a **bold** z");
    assert_eq!(spans.len(), 1);
    assert_eq!(spans[0].kind, SpanKind::Bold);
    assert_eq!(spans[0].marker_ranges, vec![2..4, 8..10]);
    assert_eq!(spans[0].content_range, 4..8);
}

#[test]
fn lines_have_their_kinds() {
    assert_eq!(kinds("# One"), vec![SpanKind::Heading1]);
    assert_eq!(kinds("## Two"), vec![SpanKind::Heading2]);
    assert_eq!(kinds("### Three"), vec![SpanKind::Heading3]);
    assert_eq!(kinds("> quoted"), vec![SpanKind::Quote]);
    assert_eq!(kinds("- item"), vec![SpanKind::BulletItem]);
    assert_eq!(kinds("1. item"), vec![SpanKind::NumberedItem]);
    assert_eq!(
        kinds("- [x] done"),
        vec![SpanKind::ChecklistItem { checked: true }]
    );
    assert_eq!(
        kinds("- [ ] open"),
        vec![SpanKind::ChecklistItem { checked: false }]
    );
    assert_eq!(kinds("---"), vec![SpanKind::Divider]);
    assert_eq!(kinds("plain"), vec![]);
}

#[test]
fn inline_kinds_are_found() {
    assert_eq!(kinds("*i*"), vec![SpanKind::Italic]);
    assert_eq!(kinds("~~s~~"), vec![SpanKind::Strikethrough]);
    assert_eq!(kinds("==h=="), vec![SpanKind::Highlight]);
    assert_eq!(kinds("`c`"), vec![SpanKind::InlineCode]);
    assert_eq!(kinds("[l](u)"), vec![SpanKind::Link]);
}

#[test]
fn unfinished_markup_and_code_get_no_emphasis() {
    assert_eq!(kinds("**open"), vec![]);
    assert_eq!(kinds("`**no**`"), vec![SpanKind::InlineCode]);
}

#[test]
fn ranges_are_in_bytes_and_cut_no_character() {
    let source = "é **ü** ende";
    for span in compute_spans(source) {
        assert!(source.is_char_boundary(span.content_range.start));
        assert!(source.is_char_boundary(span.content_range.end));
        assert_eq!(&source[span.content_range.clone()], "ü");
    }
}

#[test]
fn code_hides_the_marks_of_links() {
    let spans = compute_spans("[a `](b)`");
    assert_eq!(spans.len(), 1);
    assert_eq!(spans[0].kind, SpanKind::InlineCode);
    assert_eq!(spans[0].marker_ranges, vec![3..4, 8..9]);
    assert_eq!(spans[0].content_range, 4..8);
    assert_eq!(kinds("[a](b `)`"), vec![SpanKind::InlineCode]);
    assert_eq!(
        kinds("[a `]` b](c)"),
        vec![SpanKind::InlineCode, SpanKind::Link]
    );
}

#[test]
fn lines_are_styled_apart() {
    let (first, second) = ("# Ä *b*\n> `c`", "- [x] **d**\n~~é~~");
    let by = first.len() + 1;
    let mut expected = compute_spans(first);
    expected.extend(compute_spans(second).into_iter().map(|mut span| {
        for range in &mut span.marker_ranges {
            *range = range.start + by..range.end + by;
        }
        span.content_range = span.content_range.start + by..span.content_range.end + by;
        span
    }));
    assert_eq!(compute_spans(&format!("{first}\n{second}")), expected);
    assert!(expected.len() > 5);
}
