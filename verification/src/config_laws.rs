//! What is remembered of the vaults and of their use.

use vstd::prelude::*;

use crate::config::{
    first_of_each, forgets_vault, keeps_session, law_secure_vaults_are_listed_in_order,
    listed_before, listed_secure, names_vault, opens_vault, path_among, present_of, put_in_front,
    remembered, remembers_vault, without_id, without_key, AppConfig, IndexEntry, VaultKind,
    VaultSessionState, RECENT_VAULTS_LIMIT,
};
use crate::ident::Uuid;
use crate::paths::same_path;
use crate::text::{text_before, texts, trimmed};

verus! {

/// Opening a note puts it in front of the history and takes its earlier place away;
/// the others keep their order, and only the oldest fall out where there is no room.
pub proof fn law_history_keeps_its_order(list: Seq<Uuid>, id: Uuid, limit: int)
    requires
        limit > 0,
    ensures
        ({
            let all = seq![id] + list.filter(|other: Uuid| other != id);
            put_in_front(list, id, limit) == all.take(
                if all.len() <= limit {
                    all.len() as int
                } else {
                    limit
                },
            )
        }),
{
    lemma_without_id_filters(list, id);
    let all = seq![id] + list.filter(|other: Uuid| other != id);
    assert(all.take(all.len() as int) =~= all);
}

proof fn lemma_without_id_filters(list: Seq<Uuid>, id: Uuid)
    ensures
        without_id(list, id) == list.filter(|other: Uuid| other != id),
    decreases list.len(),
{
    reveal(Seq::filter);
    if list.len() > 0 {
        lemma_without_id_filters(list.drop_last(), id);
    } else {
        assert(without_id(list, id) =~= list.filter(|other: Uuid| other != id));
    }
}

/// Every vault with another key stays among those that were opened last, in the
/// order that they had, and no vault with the key does.
pub proof fn law_other_vaults_stay_in_order(
    list: Seq<Seq<char>>,
    keys: Seq<Seq<char>>,
    key: Seq<char>,
    at: int,
)
    requires
        keys.len() == list.len(),
        0 <= at < list.len(),
    ensures
        ({
            let earlier = without_key(list.take(at), keys, key).len() as int;
            let kept = without_key(list, keys, key);
            &&& !same_path(keys[at], key) ==> earlier < kept.len() && kept[earlier] == list[at]
            &&& !same_path(keys[at], key) ==> without_key(list.take(at + 1), keys, key).len()
                == earlier + 1
            &&& same_path(keys[at], key) ==> without_key(list.take(at + 1), keys, key).len()
                == earlier
        }),
    decreases list.len(),
{
    let upto = list.take(at + 1);
    assert(upto.drop_last() =~= list.take(at));
    assert(upto.last() == list[at]);
    if at + 1 == list.len() {
        assert(upto =~= list);
    } else {
        lemma_prefix_stays(list, keys, key, at + 1);
    }
}

proof fn lemma_prefix_stays(list: Seq<Seq<char>>, keys: Seq<Seq<char>>, key: Seq<char>, upto: int)
    requires
        0 <= upto <= list.len(),
    ensures
        ({
            let some = without_key(list.take(upto), keys, key);
            let all = without_key(list, keys, key);
            some.len() <= all.len() && forall|i: int|
                0 <= i < some.len() ==> #[trigger] all[i] == some[i]
        }),
    decreases list.len() - upto,
{
    if upto == list.len() {
        assert(list.take(upto) =~= list);
    } else {
        lemma_prefix_stays(list, keys, key, upto + 1);
        let next = list.take(upto + 1);
        assert(next.drop_last() =~= list.take(upto));
        let some = without_key(list.take(upto), keys, key);
        let more = without_key(next, keys, key);
        let all = without_key(list, keys, key);
        assert forall|i: int| 0 <= i < some.len() implies #[trigger] all[i] == some[i] by {
            assert(more[i] == some[i]);
        }
    }
}

/// A vault that was opened is the last one and the first of the recent ones, its kind
/// is known, and it keeps the name that it had; what is known of other vaults, and
/// what is kept of the use of any, does not change.
pub proof fn law_an_opened_vault_is_remembered(
    before: AppConfig,
    key: Seq<char>,
    keys: Seq<Seq<char>>,
    kind: VaultKind,
    after: AppConfig,
    other: Seq<char>,
    id: Uuid,
)
    requires
        opens_vault(before, key, keys, kind, after),
    ensures
        after.last_vault matches Some(last) && last@ == key,
        texts(after.recent_vaults@).len() > 0,
        texts(after.recent_vaults@)[0] == key,
        texts(after.recent_vaults@).len() <= RECENT_VAULTS_LIMIT,
        after.info_of(key) matches Some(info) && info.kind == kind && info.last_opened is Some,
        after.info_of(key) matches Some(info) && (before.info_of(key) matches Some(known)
            ==> info.display_name == known.display_name),
        other != key ==> after.info_of(other) == before.info_of(other),
        after.session_of(id) == before.session_of(id),
        after.same_settings(before),
{
    let list = texts(before.recent_vaults@);
    let all = seq![key] + without_key(list, keys, key);
    assert(all[0] == key);
    assert(remembered(list, keys, key)[0] == key);
}

/// A vault that is merely remembered is the last one and the first of the recent
/// ones, and nothing else changes.
pub proof fn law_a_remembered_vault_comes_first(
    before: AppConfig,
    key: Seq<char>,
    keys: Seq<Seq<char>>,
    after: AppConfig,
    other: Seq<char>,
    id: Uuid,
)
    requires
        remembers_vault(before, key, keys, after),
    ensures
        after.last_vault matches Some(last) && last@ == key,
        texts(after.recent_vaults@).len() > 0,
        texts(after.recent_vaults@)[0] == key,
        after.info_of(other) == before.info_of(other),
        after.session_of(id) == before.session_of(id),
{
    let list = texts(before.recent_vaults@);
    let all = seq![key] + without_key(list, keys, key);
    assert(all[0] == key);
    assert(remembered(list, keys, key)[0] == key);
}

/// A vault shows the name that it was given, without the whitespace round it, and
/// none once it is given a blank one; its kind and when it was opened do not change,
/// and other vaults keep their names.
pub proof fn law_a_vault_shows_its_name(
    before: AppConfig,
    key: Seq<char>,
    name: Seq<char>,
    after: AppConfig,
    other: Seq<char>,
)
    requires
        names_vault(before, key, name, after),
    ensures
        trimmed(name).len() > 0 ==> (after.info_of(key) matches Some(info)
            && info.display_name matches Some(given) && given@ == trimmed(name)),
        trimmed(name).len() == 0 ==> (after.info_of(key) matches Some(info) && info.display_name
            is None),
        before.info_of(key) matches Some(known) ==> (after.info_of(key) matches Some(info)
            && info.kind == known.kind && info.last_opened == known.last_opened),
        other != key ==> after.info_of(other) == before.info_of(other),
        after.recent_vaults == before.recent_vaults,
        after.last_vault == before.last_vault,
{
}

/// A name stays through an opening: a vault that was named and then opened shows the
/// name, and one that was forgotten and then opened shows none.
pub proof fn law_names_last_until_forgotten(
    before: AppConfig,
    key: Seq<char>,
    name: Seq<char>,
    named: AppConfig,
    keys: Seq<Seq<char>>,
    kind: VaultKind,
    opened: AppConfig,
    more_keys: Seq<Seq<char>>,
    last_key: Option<Seq<char>>,
    forgotten: AppConfig,
    keys_again: Seq<Seq<char>>,
    again: AppConfig,
)
    requires
        names_vault(before, key, name, named),
        opens_vault(named, key, keys, kind, opened),
        forgets_vault(opened, key, more_keys, last_key, forgotten),
        opens_vault(forgotten, key, keys_again, kind, again),
        trimmed(name).len() > 0,
    ensures
        opened.info_of(key) matches Some(info) && info.display_name matches Some(given) && given@
            == trimmed(name),
        again.info_of(key) matches Some(info) && info.display_name is None,
{
}

/// What was kept of the use of a vault is read back, unless there was nothing to
/// keep; what was kept of the use of others does not change.
pub proof fn law_a_session_is_read_back(
    before: AppConfig,
    vault_id: Uuid,
    session: VaultSessionState,
    after: AppConfig,
    other: Uuid,
    key: Seq<char>,
)
    requires
        keeps_session(before, vault_id, session, after),
    ensures
        !session.is_empty_state() ==> after.session_of(vault_id) == Some(session),
        session.is_empty_state() ==> after.session_of(vault_id) is None,
        other != vault_id ==> after.session_of(other) == before.session_of(other),
        after.info_of(key) == before.info_of(key),
        after.recent_vaults == before.recent_vaults,
        after.last_vault == before.last_vault,
{
}

/// Nothing is known of a vault that was forgotten, it is no more the last one, and no
/// recent one has its key; other vaults and what was kept of their use stay.
pub proof fn law_a_forgotten_vault_is_gone(
    before: AppConfig,
    key: Seq<char>,
    keys: Seq<Seq<char>>,
    last_key: Option<Seq<char>>,
    after: AppConfig,
    other: Seq<char>,
    id: Uuid,
    i: int,
)
    requires
        forgets_vault(before, key, keys, last_key, after),
        keys.len() == before.recent_vaults@.len(),
    ensures
        after.info_of(key) is None,
        last_key matches Some(last) && same_path(last, key) ==> after.last_vault is None,
        last_key matches Some(last) && !same_path(last, key) ==> after.last_vault
            == before.last_vault,
        other != key ==> after.info_of(other) == before.info_of(other),
        after.session_of(id) == before.session_of(id),
        0 <= i < after.recent_vaults@.len() ==> exists|j: int|
            0 <= j < keys.len() && !same_path(keys[j], key) && texts(after.recent_vaults@)[i]
                == #[trigger] texts(before.recent_vaults@)[j],
        0 <= i < before.recent_vaults@.len() && !same_path(keys[i], key) ==> texts(
            after.recent_vaults@,
        ).contains(texts(before.recent_vaults@)[i]),
{
    let list = texts(before.recent_vaults@);
    let kept = without_key(list, keys, key);
    if 0 <= i < after.recent_vaults@.len() {
        lemma_kept_from(list, keys, key, i);
    }
    if 0 <= i < before.recent_vaults@.len() && !same_path(keys[i], key) {
        law_other_vaults_stay_in_order(list, keys, key, i);
        let at = without_key(list.take(i), keys, key).len() as int;
        assert(kept[at] == list[i]);
    }
}

proof fn lemma_kept_from(list: Seq<Seq<char>>, keys: Seq<Seq<char>>, key: Seq<char>, i: int)
    requires
        0 <= i < without_key(list, keys, key).len(),
    ensures
        exists|j: int|
            0 <= j < list.len() && !same_path(keys[j], key) && without_key(list, keys, key)[i]
                == #[trigger] list[j],
    decreases list.len(),
{
    if list.len() > 0 {
        let front = list.drop_last();
        let before = without_key(front, keys, key);
        if i < before.len() {
            lemma_kept_from(front, keys, key, i);
            let j = choose|j: int|
                0 <= j < front.len() && !same_path(keys[j], key) && before[i] == #[trigger] front[j];
            assert(list[j] == front[j]);
        } else {
            assert(list[list.len() - 1] == list.last());
        }
    }
}

/// Every recent vault is offered: itself, or an earlier one with the same key.
pub proof fn law_every_recent_vault_is_offered(
    list: Seq<Seq<char>>,
    keys: Seq<Seq<char>>,
    at: int,
)
    requires
        0 <= at < list.len(),
        keys.len() >= list.len(),
    ensures
        exists|j: int|
            0 <= j <= at && same_path(keys[j], keys[at]) && first_of_each(list, keys).contains(
                #[trigger] list[j],
            ),
    decreases list.len(), at,
{
    let front = list.drop_last();
    let before = first_of_each(front, keys);
    let all = first_of_each(list, keys);
    if at < list.len() - 1 {
        law_every_recent_vault_is_offered(front, keys, at);
        let j = choose|j: int|
            0 <= j <= at && same_path(keys[j], keys[at]) && before.contains(#[trigger] front[j]);
        let k = choose|k: int| 0 <= k < before.len() && before[k] == front[j];
        assert(all[k] == list[j]);
        assert(all.contains(list[j]));
    } else if path_among(keys.take(at), keys[at]) {
        let earlier = choose|i: int|
            0 <= i < at && same_path(#[trigger] keys.take(at)[i], keys[at]);
        assert(keys.take(at)[earlier] == keys[earlier]);
        law_every_recent_vault_is_offered(front, keys, earlier);
        let j = choose|j: int|
            0 <= j <= earlier && same_path(keys[j], keys[earlier]) && before.contains(
                #[trigger] front[j],
            );
        let k = choose|k: int| 0 <= k < before.len() && before[k] == front[j];
        assert(all[k] == list[j]);
        assert(all.contains(list[j]));
        assert(same_path(keys[j], keys[at]));
    } else {
        assert(all[before.len() as int] == list[at]);
        assert(all.contains(list[at]));
    }
}

/// The vaults that are there are kept, in their order, and those that are not are
/// left out.
pub proof fn law_absent_vaults_are_left_out(
    list: Seq<Seq<char>>,
    present: Seq<bool>,
    more: Seq<char>,
    there: bool,
)
    requires
        present.len() == list.len(),
    ensures
        there ==> present_of(list.push(more), present.push(there)) == present_of(
            list,
            present,
        ).push(more),
        !there ==> present_of(list.push(more), present.push(there)) == present_of(list, present),
        present_of(Seq::<Seq<char>>::empty(), present) == Seq::<Seq<char>>::empty(),
{
    let all = list.push(more);
    assert(all.drop_last() =~= list);
    lemma_present_prefix(list, present, present.push(there));
}

proof fn lemma_present_prefix(list: Seq<Seq<char>>, one: Seq<bool>, two: Seq<bool>)
    requires
        one.len() >= list.len(),
        two.len() >= list.len(),
        forall|i: int| 0 <= i < list.len() ==> one[i] == two[i],
    ensures
        present_of(list, one) == present_of(list, two),
    decreases list.len(),
{
    if list.len() > 0 {
        lemma_present_prefix(list.drop_last(), one, two);
    }
}

/// The encrypted vaults are listed with the one that was opened last first, and those
/// that were never opened last; of those that were opened at the same moment, or
/// never, the one with the smaller path comes first.
pub proof fn law_the_latest_secure_vault_comes_first(index: Seq<IndexEntry>, i: int, j: int)
    requires
        0 <= i < j < listed_secure(index, index.len() as int).len(),
    ensures
        ({
            let list = listed_secure(index, index.len() as int);
            let one = index[list[i]];
            let two = index[list[j]];
            &&& one.info.kind == VaultKind::Encrypted
            &&& two.info.last_opened is Some ==> one.info.last_opened is Some
            &&& one.info.last_opened matches Some(first) ==> (
            two.info.last_opened matches Some(second) ==> first.seconds > second.seconds
                || first.seconds == second.seconds && first.nanos >= second.nanos)
            &&& one.info.last_opened == two.info.last_opened ==> !text_before(two.key@, one.key@)
        }),
{
    law_secure_vaults_are_listed_in_order(index, index.len() as int);
    let list = listed_secure(index, index.len() as int);
    assert(list.contains(list[i]));
    assert(index[list[i]].info.kind == VaultKind::Encrypted);
    assert(!listed_before(index[list[j]], index[list[i]]));
}

} // verus!
