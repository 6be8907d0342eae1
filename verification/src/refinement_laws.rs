//! How the groups that come of different keys stand to each other.

use crate::grouping::{
    all_keep_text, grouped, keeps_text, key_if, key_of, keyed_by, large_groups, lemma_grouped,
    refined, refined_by, selected, tag_groups, tag_key, under_key, GroupKey, TagField,
};
use crate::music_entry::EntryModel;
use crate::params::{MusicSimilarity, SameMusicParameters};
use crate::simplified_name::law_only_a_blank_title_has_an_empty_name;
use crate::sorted_map::{has_key, lemma_rank_parts, rank, value_at};
use crate::sound_laws::total_similar;
use crate::tag_laws::{
    agree, comes_from, has_pair, law_groups_have_two_members, lemma_refined, lemma_under_key, occurrences,
};
use crate::text::lemma_trimmed_empty;
use vstd::prelude::*;

verus! {

/// The files of a list that agree with a file on all keys, in their order.
pub open spec fn alike(list: Seq<EntryModel>, a: EntryModel, keys: Seq<GroupKey>) -> Seq<EntryModel>
    decreases list.len(),
{
    if list.len() == 0 {
        Seq::empty()
    } else if agree(a, list.last(), keys) {
        alike(list.drop_last(), a, keys).push(list.last())
    } else {
        alike(list.drop_last(), a, keys)
    }
}

/// Whether every file occurs in one list at most as often as in another.
pub open spec fn is_within(inner: Seq<EntryModel>, outer: Seq<EntryModel>) -> bool {
    forall|entry: EntryModel| #[trigger]
        occurrences(inner, entry) <= occurrences(outer, entry)
}

/// Whether every group is within one group of other groups.
pub open spec fn are_within(
    inner: Seq<Seq<EntryModel>>,
    outer: Seq<Seq<EntryModel>>,
) -> bool {
    forall|i: int| 0 <= i < inner.len() ==> is_within_some(#[trigger] inner[i], outer)
}

/// Whether a group is within one of other groups.
pub open spec fn is_within_some(group: Seq<EntryModel>, outer: Seq<Seq<EntryModel>>) -> bool {
    exists|j: int| 0 <= j < outer.len() && is_within(group, #[trigger] outer[j])
}

/// Whether every key of one list is in another.
pub open spec fn covers(more: Seq<GroupKey>, keys: Seq<GroupKey>) -> bool {
    forall|i: int| 0 <= i < keys.len() ==> more.contains(#[trigger] keys[i])
}

/// Agreeing on more keys is agreeing on fewer.
proof fn lemma_agree_on_fewer(
    a: EntryModel,
    b: EntryModel,
    more: Seq<GroupKey>,
    keys: Seq<GroupKey>,
)
    requires
        covers(more, keys),
        agree(a, b, more),
    ensures
        agree(a, b, keys),
{
    assert forall|i: int| 0 <= i < keys.len() implies key_of(a, #[trigger] keys[i]) == key_of(
        b,
        keys[i],
    ) && key_of(a, keys[i]).len() > 0 by {
        assert(more.contains(keys[i]));
        let j = choose|j: int| 0 <= j < more.len() && more[j] == keys[i];
        assert(key_of(a, more[j]) == key_of(b, more[j]));
    }
}

/// Agreeing on some keys and one more is agreeing on all of them.
proof fn lemma_agree_push(a: EntryModel, b: EntryModel, keys: Seq<GroupKey>, key: GroupKey)
    ensures
        agree(a, b, keys.push(key)) <==> agree(a, b, keys) && agree(a, b, seq![key]),
{
    let all = keys.push(key);
    if agree(a, b, all) {
        assert forall|i: int| 0 <= i < keys.len() implies all.contains(#[trigger] keys[i]) by {
            assert(all[i] == keys[i]);
        }
        lemma_agree_on_fewer(a, b, all, keys);
        assert forall|i: int| 0 <= i < seq![key].len() implies all.contains(
            #[trigger] seq![key][i],
        ) by {
            assert(all[keys.len() as int] == key);
        }
        lemma_agree_on_fewer(a, b, all, seq![key]);
    }
    if agree(a, b, keys) && agree(a, b, seq![key]) {
        assert forall|i: int| 0 <= i < all.len() implies key_of(a, #[trigger] all[i]) == key_of(
            b,
            all[i],
        ) && key_of(a, all[i]).len() > 0 by {
            if i < keys.len() {
                assert(all[i] == keys[i]);
            } else {
                assert(seq![key][0] == key);
                assert(key_of(a, seq![key][0]) == key_of(b, seq![key][0]));
            }
        }
    }
}

/// Agreeing on one key.
proof fn lemma_agree_one(a: EntryModel, b: EntryModel, key: GroupKey)
    ensures
        agree(a, b, seq![key]) <==> key_of(a, key) == key_of(b, key) && key_of(a, key).len() > 0,
{
    assert(seq![key][0] == key);
    if agree(a, b, seq![key]) {
        assert(key_of(a, seq![key][0]) == key_of(b, seq![key][0]));
    }
}

proof fn lemma_alike_one(list: Seq<EntryModel>, a: EntryModel, key: GroupKey)
    requires
        key_of(a, key).len() > 0,
    ensures
        alike(list, a, seq![key]) == under_key(keyed_by(list, key), key_of(a, key)),
    decreases list.len(),
{
    if list.len() > 0 {
        let rest = list.drop_last();
        assert(keyed_by(list, key).drop_last() =~= keyed_by(rest, key));
        lemma_alike_one(rest, a, key);
        lemma_agree_one(a, list.last(), key);
    }
}

proof fn lemma_alike_twice(
    list: Seq<EntryModel>,
    a: EntryModel,
    keys: Seq<GroupKey>,
    key: GroupKey,
)
    ensures
        alike(alike(list, a, keys), a, seq![key]) == alike(list, a, keys.push(key)),
    decreases list.len(),
{
    if list.len() > 0 {
        let rest = list.drop_last();
        let before = alike(rest, a, keys);
        lemma_alike_twice(rest, a, keys, key);
        lemma_agree_push(a, list.last(), keys, key);
        if agree(a, list.last(), keys) {
            assert(before.push(list.last()).drop_last() =~= before);
        }
    }
}

proof fn lemma_alike_all(list: Seq<EntryModel>, a: EntryModel)
    ensures
        alike(list, a, Seq::empty()) == list,
    decreases list.len(),
{
    if list.len() > 0 {
        lemma_alike_all(list.drop_last(), a);
        assert(list.drop_last().push(list.last()) =~= list);
    }
}

/// A group is made of all compared files that agree with any of its members.
pub proof fn law_group_is_complete(
    entries: Seq<EntryModel>,
    keys: Seq<GroupKey>,
    g: int,
    a: EntryModel,
)
    requires
        0 <= g < tag_groups(entries, keys).len(),
        tag_groups(entries, keys)[g].contains(a),
    ensures
        tag_groups(entries, keys)[g] == alike(entries, a, keys),
    decreases keys.len(),
{
    let groups = tag_groups(entries, keys);
    if keys.len() == 0 {
        assert(groups[g] == entries);
        lemma_alike_all(entries, a);
        assert(keys =~= Seq::empty());
    } else {
        let key = keys.last();
        let earlier = keys.drop_last();
        let before = tag_groups(entries, earlier);
        lemma_refined(before, key);
        assert(comes_from(groups[g], before, key));
        let (h, k) = choose|h: int, k: Seq<char>|
            0 <= h < before.len() && k.len() > 0 && groups[g].len() > 1 && groups[g]
                == #[trigger] under_key(keyed_by(before[h], key), k);
        lemma_under_key(before[h], key, k);
        let p = choose|p: int| 0 <= p < groups[g].len() && groups[g][p] == a;
        assert(under_key(keyed_by(before[h], key), k)[p] == a);
        law_group_is_complete(entries, earlier, h, a);
        lemma_alike_one(before[h], a, key);
        lemma_alike_twice(entries, a, earlier, key);
        assert(earlier.push(key) =~= keys);
    }
}

/// Two or more of the compared files that agree with a file are a group.
proof fn lemma_alike_is_group(entries: Seq<EntryModel>, keys: Seq<GroupKey>, a: EntryModel)
    requires
        alike(entries, a, keys).len() >= 2,
    ensures
        tag_groups(entries, keys).contains(alike(entries, a, keys)),
    decreases keys.len(),
{
    let groups = tag_groups(entries, keys);
    if keys.len() == 0 {
        assert(keys =~= Seq::empty());
        lemma_alike_all(entries, a);
        assert(groups[0] == entries);
    } else {
        let key = keys.last();
        let earlier = keys.drop_last();
        let before = tag_groups(entries, earlier);
        let list = alike(entries, a, earlier);
        assert(earlier.push(key) =~= keys);
        lemma_alike_twice(entries, a, earlier, key);
        lemma_alike_shorter(list, a, seq![key]);
        lemma_alike_members(list, a, seq![key]);
        let x = alike(list, a, seq![key])[0];
        assert(agree(a, x, seq![key]));
        lemma_agree_one(a, x, key);
        lemma_alike_one(list, a, key);
        lemma_alike_is_group(entries, earlier, a);
        let h = choose|h: int| 0 <= h < before.len() && before[h] == list;
        lemma_refined(before, key);
        assert(under_key(keyed_by(before[h], key), key_of(a, key)).len() > 1);
    }
}

proof fn lemma_alike_shorter(list: Seq<EntryModel>, a: EntryModel, keys: Seq<GroupKey>)
    ensures
        alike(list, a, keys).len() <= list.len(),
    decreases list.len(),
{
    if list.len() > 0 {
        lemma_alike_shorter(list.drop_last(), a, keys);
    }
}

proof fn lemma_alike_members(list: Seq<EntryModel>, a: EntryModel, keys: Seq<GroupKey>)
    ensures
        forall|p: int|
            0 <= p < alike(list, a, keys).len() ==> agree(
                a,
                #[trigger] alike(list, a, keys)[p],
                keys,
            ),
    decreases list.len(),
{
    if list.len() > 0 {
        let before = alike(list.drop_last(), a, keys);
        let all = alike(list, a, keys);
        lemma_alike_members(list.drop_last(), a, keys);
        assert forall|p: int| 0 <= p < all.len() implies agree(a, #[trigger] all[p], keys) by {
            if p < before.len() {
                assert(all[p] == before[p]);
            }
        }
    }
}

/// The files that agree with a file are those of the list that do.
pub proof fn lemma_alike_contains(
    list: Seq<EntryModel>,
    a: EntryModel,
    keys: Seq<GroupKey>,
    other: EntryModel,
)
    ensures
        alike(list, a, keys).contains(other) <==> list.contains(other) && agree(a, other, keys),
    decreases list.len(),
{
    let all = alike(list, a, keys);
    if list.len() > 0 {
        let rest = list.drop_last();
        let before = alike(rest, a, keys);
        lemma_alike_contains(rest, a, keys, other);
        lemma_alike_members(list, a, keys);
        if all.contains(other) {
            let p = choose|p: int| 0 <= p < all.len() && all[p] == other;
            assert(agree(a, all[p], keys));
            if p < before.len() {
                assert(before[p] == other);
                let i = choose|i: int| 0 <= i < rest.len() && rest[i] == other;
                assert(list[i] == other);
            } else {
                assert(list[list.len() - 1] == other);
            }
        }
        if list.contains(other) && agree(a, other, keys) {
            let i = choose|i: int| 0 <= i < list.len() && list[i] == other;
            if i < rest.len() {
                assert(rest[i] == other);
                let p = choose|p: int| 0 <= p < before.len() && before[p] == other;
                assert(all[p] == other);
            } else {
                assert(all[before.len() as int] == other);
            }
        }
    }
}

/// The files that agree with a file stand in the order of the list.
pub proof fn lemma_alike_keeps_order(
    list: Seq<EntryModel>,
    a: EntryModel,
    keys: Seq<GroupKey>,
    p: int,
    q: int,
)
    requires
        0 <= p < q < alike(list, a, keys).len(),
    ensures
        has_pair(list, alike(list, a, keys)[p], alike(list, a, keys)[q]),
    decreases list.len(),
{
    let all = alike(list, a, keys);
    let rest = list.drop_last();
    let before = alike(rest, a, keys);
    if q < before.len() {
        lemma_alike_keeps_order(rest, a, keys, p, q);
        let (i, j) = choose|i: int, j: int|
            0 <= i < j < rest.len() && #[trigger] rest[i] == before[p] && #[trigger] rest[j]
                == before[q];
        assert(list[i] == all[p] && list[j] == all[q]);
    } else {
        assert(before.contains(before[p]));
        lemma_alike_contains(rest, a, keys, before[p]);
        let i = choose|i: int| 0 <= i < rest.len() && rest[i] == before[p];
        assert(list[i] == all[p] && list[list.len() - 1] == all[q]);
    }
}

/// Where agreement on some keys entails agreement on others, the files that agree on the former are
/// within those that agree on the latter.
proof fn lemma_alike_within(
    list: Seq<EntryModel>,
    a: EntryModel,
    more: Seq<GroupKey>,
    keys: Seq<GroupKey>,
)
    requires
        forall|p: int|
            0 <= p < list.len() && agree(a, #[trigger] list[p], more) ==> agree(a, list[p], keys),
    ensures
        is_within(alike(list, a, more), alike(list, a, keys)),
        alike(list, a, more).len() <= alike(list, a, keys).len(),
    decreases list.len(),
{
    if list.len() > 0 {
        let rest = list.drop_last();
        let last = list.last();
        let inner = alike(rest, a, more);
        let outer = alike(rest, a, keys);
        assert forall|p: int| 0 <= p < rest.len() && agree(
            a,
            #[trigger] rest[p],
            more,
        ) implies agree(a, rest[p], keys) by {
            assert(rest[p] == list[p]);
        }
        lemma_alike_within(rest, a, more, keys);
        assert(list[list.len() - 1] == last);
        assert(inner.push(last).drop_last() =~= inner);
        assert(outer.push(last).drop_last() =~= outer);
        assert forall|entry: EntryModel| #[trigger]
            occurrences(alike(list, a, more), entry) <= occurrences(
            alike(list, a, keys),
            entry,
        ) by {
            assert(occurrences(inner, entry) <= occurrences(outer, entry));
        }
    }
}

/// Comparing by more keys only splits groups: each group is within one of those that come of fewer
/// keys.
pub proof fn law_more_keys_split_groups(
    entries: Seq<EntryModel>,
    more: Seq<GroupKey>,
    keys: Seq<GroupKey>,
)
    requires
        covers(more, keys),
        entries.len() > 0,
    ensures
        are_within(tag_groups(entries, more), tag_groups(entries, keys)),
{
    let inner = tag_groups(entries, more);
    let outer = tag_groups(entries, keys);
    assert forall|g: int| 0 <= g < inner.len() implies is_within_some(#[trigger] inner[g], outer) by {
        if more.len() == 0 {
            if keys.len() > 0 {
                assert(more.contains(keys[0]));
            }
            assert(inner[g] == entries && outer[0] == entries);
        } else {
            law_groups_have_two_members(entries, more, g);
            let a = inner[g][0];
            assert(inner[g].contains(a));
            law_group_is_complete(entries, more, g, a);
            assert forall|p: int| 0 <= p < entries.len() && agree(
                a,
                #[trigger] entries[p],
                more,
            ) implies agree(a, entries[p], keys) by {
                lemma_agree_on_fewer(a, entries[p], more, keys);
            }
            lemma_alike_within(entries, a, more, keys);
            lemma_alike_is_group(entries, keys, a);
            let j = choose|j: int| 0 <= j < outer.len() && outer[j] == alike(entries, a, keys);
            assert(is_within(inner[g], outer[j]));
        }
    }
}

/// Whether the last file of a list agrees with an earlier one.
pub open spec fn has_earlier_twin(list: Seq<EntryModel>, keys: Seq<GroupKey>) -> bool {
    exists|j: int| 0 <= j < list.len() - 1 && agree(list.last(), #[trigger] list[j], keys)
}

/// How many files of a list agree with an earlier one.
pub open spec fn twins(list: Seq<EntryModel>, keys: Seq<GroupKey>) -> nat
    decreases list.len(),
{
    if list.len() == 0 {
        0
    } else {
        twins(list.drop_last(), keys) + (if has_earlier_twin(list, keys) {
            1nat
        } else {
            0
        })
    }
}

/// How many files of groups agree with an earlier one of the same group.
pub open spec fn group_twins(groups: Seq<Seq<EntryModel>>, keys: Seq<GroupKey>) -> nat
    decreases groups.len(),
{
    if groups.len() == 0 {
        0
    } else {
        group_twins(groups.drop_last(), keys) + twins(groups.last(), keys)
    }
}

spec fn paired_twins(pairs: Seq<(Seq<char>, Seq<EntryModel>)>, keys: Seq<GroupKey>) -> nat
    decreases pairs.len(),
{
    if pairs.len() == 0 {
        0
    } else {
        paired_twins(pairs.drop_last(), keys) + twins(pairs.last().1, keys)
    }
}

proof fn lemma_paired_twins_update(
    pairs: Seq<(Seq<char>, Seq<EntryModel>)>,
    keys: Seq<GroupKey>,
    r: int,
    x: (Seq<char>, Seq<EntryModel>),
)
    requires
        0 <= r < pairs.len(),
    ensures
        paired_twins(pairs.update(r, x), keys) + twins(pairs[r].1, keys) == paired_twins(
            pairs,
            keys,
        ) + twins(x.1, keys),
    decreases pairs.len(),
{
    let new = pairs.update(r, x);
    if r < pairs.len() - 1 {
        lemma_paired_twins_update(pairs.drop_last(), keys, r, x);
        assert(new.drop_last() =~= pairs.drop_last().update(r, x));
    } else {
        assert(new.drop_last() =~= pairs.drop_last());
    }
}

proof fn lemma_paired_twins_insert(
    pairs: Seq<(Seq<char>, Seq<EntryModel>)>,
    keys: Seq<GroupKey>,
    r: int,
    x: (Seq<char>, Seq<EntryModel>),
)
    requires
        0 <= r <= pairs.len(),
    ensures
        paired_twins(pairs.insert(r, x), keys) == paired_twins(pairs, keys) + twins(x.1, keys),
    decreases pairs.len(),
{
    let new = pairs.insert(r, x);
    if r < pairs.len() {
        lemma_paired_twins_insert(pairs.drop_last(), keys, r, x);
        assert(new.drop_last() =~= pairs.drop_last().insert(r, x));
        assert(new.last() == pairs.last());
    } else {
        assert(new.drop_last() =~= pairs);
    }
}

/// Agreeing on one key and some more.
proof fn lemma_agree_first(a: EntryModel, b: EntryModel, key: GroupKey, rest: Seq<GroupKey>)
    ensures
        agree(a, b, seq![key] + rest) <==> key_of(a, key) == key_of(b, key) && key_of(a, key).len()
            > 0 && agree(a, b, rest),
{
    let all = seq![key] + rest;
    assert(all[0] == key);
    if agree(a, b, all) {
        assert(key_of(a, all[0]) == key_of(b, all[0]));
        assert forall|i: int| 0 <= i < rest.len() implies all.contains(#[trigger] rest[i]) by {
            assert(all[i + 1] == rest[i]);
        }
        lemma_agree_on_fewer(a, b, all, rest);
    }
    if key_of(a, key) == key_of(b, key) && key_of(a, key).len() > 0 && agree(a, b, rest) {
        assert forall|i: int| 0 <= i < all.len() implies key_of(a, #[trigger] all[i]) == key_of(
            b,
            all[i],
        ) && key_of(a, all[i]).len() > 0 by {
            if i > 0 {
                assert(all[i] == rest[i - 1]);
            }
        }
    }
}

/// Twins are counted alike in a list and in the groups that a key makes of it.
proof fn lemma_grouped_twins(list: Seq<EntryModel>, key: GroupKey, rest: Seq<GroupKey>)
    ensures
        paired_twins(grouped(keyed_by(list, key)), rest) == twins(list, seq![key] + rest),
    decreases list.len(),
{
    if list.len() > 0 {
        let start = list.drop_last();
        let x = list.last();
        let keyed = keyed_by(list, key);
        let earlier_keyed = keyed_by(start, key);
        let before = grouped(earlier_keyed);
        let k = key_of(x, key);
        let all = seq![key] + rest;
        assert(keyed.drop_last() =~= earlier_keyed);
        lemma_grouped_twins(start, key, rest);
        lemma_grouped(earlier_keyed);
        let under = under_key(keyed, k);
        let earlier = under_key(earlier_keyed, k);
        assert(under == earlier.push(x));
        assert(under.drop_last() =~= earlier);
        assert(k.len() > 0 ==> (has_earlier_twin(list, all) <==> has_earlier_twin(under, rest)))
            by {
            lemma_under_key(start, key, k);
            if k.len() > 0 && has_earlier_twin(list, all) {
                let j = choose|j: int| 0 <= j < list.len() - 1 && agree(x, #[trigger] list[j], all);
                lemma_agree_first(x, list[j], key, rest);
                assert(start[j] == list[j]);
                assert(start.contains(list[j]));
                let p = choose|p: int| 0 <= p < earlier.len() && earlier[p] == list[j];
                assert(under[p] == list[j]);
            }
            if k.len() > 0 && has_earlier_twin(under, rest) {
                let p = choose|p: int|
                    0 <= p < under.len() - 1 && agree(x, #[trigger] under[p], rest);
                assert(under[p] == earlier[p]);
                assert(start.contains(earlier[p]) && key_of(earlier[p], key) == k);
                let j = choose|j: int| 0 <= j < start.len() && start[j] == earlier[p];
                assert(list[j] == under[p]);
                lemma_agree_first(x, list[j], key, rest);
            }
        }
        if k.len() > 0 {
            lemma_rank_parts(before, k);
            let r = rank(before, k);
            if has_key(before, k) {
                assert(value_at(before, k) == earlier);
                assert(before[r].1 == earlier);
                lemma_paired_twins_update(before, rest, r, (k, under));
            } else {
                assert(earlier.len() == 0);
                lemma_paired_twins_insert(before, rest, r, (k, under));
                assert(twins(earlier, rest) == 0);
            }
        } else {
            assert(!has_earlier_twin(list, all)) by {
                if has_earlier_twin(list, all) {
                    let j = choose|j: int|
                        0 <= j < list.len() - 1 && agree(x, #[trigger] list[j], all);
                    lemma_agree_first(x, list[j], key, rest);
                }
            }
        }
    }
}

proof fn lemma_large_twins(pairs: Seq<(Seq<char>, Seq<EntryModel>)>, keys: Seq<GroupKey>)
    ensures
        group_twins(large_groups(pairs), keys) == paired_twins(pairs, keys),
    decreases pairs.len(),
{
    if pairs.len() > 0 {
        let before = large_groups(pairs.drop_last());
        let list = pairs.last().1;
        lemma_large_twins(pairs.drop_last(), keys);
        if list.len() > 1 {
            assert(before.push(list).drop_last() =~= before);
        } else if list.len() == 1 {
            assert(twins(list.drop_last(), keys) == 0);
        }
    }
}

proof fn lemma_group_twins_add(
    a: Seq<Seq<EntryModel>>,
    b: Seq<Seq<EntryModel>>,
    keys: Seq<GroupKey>,
)
    ensures
        group_twins(a + b, keys) == group_twins(a, keys) + group_twins(b, keys),
    decreases b.len(),
{
    if b.len() == 0 {
        assert(a + b =~= a);
    } else {
        assert((a + b).drop_last() =~= a + b.drop_last());
        lemma_group_twins_add(a, b.drop_last(), keys);
    }
}

proof fn lemma_refined_twins(groups: Seq<Seq<EntryModel>>, key: GroupKey, rest: Seq<GroupKey>)
    ensures
        group_twins(refined(groups, key), rest) == group_twins(groups, seq![key] + rest),
    decreases groups.len(),
{
    if groups.len() > 0 {
        let pairs = grouped(keyed_by(groups.last(), key));
        lemma_refined_twins(groups.drop_last(), key, rest);
        lemma_grouped_twins(groups.last(), key, rest);
        lemma_large_twins(pairs, rest);
        lemma_group_twins_add(refined(groups.drop_last(), key), large_groups(pairs), rest);
    }
}

proof fn lemma_refined_by_twins(
    groups: Seq<Seq<EntryModel>>,
    keys: Seq<GroupKey>,
    rest: Seq<GroupKey>,
)
    ensures
        group_twins(refined_by(groups, keys), rest) == group_twins(groups, keys + rest),
    decreases keys.len(),
{
    if keys.len() == 0 {
        assert(keys + rest =~= rest);
    } else {
        let earlier = keys.drop_last();
        let key = keys.last();
        lemma_refined_twins(refined_by(groups, earlier), key, rest);
        lemma_refined_by_twins(groups, earlier, seq![key] + rest);
        assert(earlier + (seq![key] + rest) =~= keys + rest);
    }
}

proof fn lemma_twins_without_keys(list: Seq<EntryModel>)
    requires
        list.len() > 0,
    ensures
        twins(list, Seq::empty()) == list.len() - 1,
    decreases list.len(),
{
    let none = Seq::<GroupKey>::empty();
    if list.len() > 1 {
        lemma_twins_without_keys(list.drop_last());
        assert(agree(list.last(), list[0], none));
    } else {
        assert(twins(list.drop_last(), none) == 0);
    }
}

proof fn lemma_group_twins_without_keys(groups: Seq<Seq<EntryModel>>)
    requires
        forall|g: int| 0 <= g < groups.len() ==> (#[trigger] groups[g]).len() > 0,
    ensures
        group_twins(groups, Seq::empty()) == total_similar(groups),
    decreases groups.len(),
{
    if groups.len() > 0 {
        let rest = groups.drop_last();
        assert forall|g: int| 0 <= g < rest.len() implies (#[trigger] rest[g]).len() > 0 by {
            assert(rest[g] == groups[g]);
        }
        lemma_group_twins_without_keys(rest);
        assert(groups[groups.len() - 1] == groups.last());
        lemma_twins_without_keys(groups.last());
    }
}

proof fn lemma_fewer_keys_more_twins(
    list: Seq<EntryModel>,
    more: Seq<GroupKey>,
    keys: Seq<GroupKey>,
)
    requires
        covers(more, keys),
    ensures
        twins(list, more) <= twins(list, keys),
    decreases list.len(),
{
    if list.len() > 0 {
        lemma_fewer_keys_more_twins(list.drop_last(), more, keys);
        if has_earlier_twin(list, more) {
            let j = choose|j: int|
                0 <= j < list.len() - 1 && agree(list.last(), #[trigger] list[j], more);
            lemma_agree_on_fewer(list.last(), list[j], more, keys);
        }
    }
}

/// The duplicates are the compared files that agree with an earlier one.
pub proof fn law_duplicates_agree_with_an_earlier_file(
    entries: Seq<EntryModel>,
    keys: Seq<GroupKey>,
)
    requires
        entries.len() > 0,
    ensures
        total_similar(tag_groups(entries, keys)) == twins(entries, keys),
{
    let groups = tag_groups(entries, keys);
    let none = Seq::<GroupKey>::empty();
    let start = seq![entries];
    assert forall|g: int| 0 <= g < groups.len() implies (#[trigger] groups[g]).len() > 0 by {
        if keys.len() > 0 {
            law_groups_have_two_members(entries, keys, g);
        } else {
            assert(groups[g] == entries);
        }
    }
    lemma_group_twins_without_keys(groups);
    lemma_refined_by_twins(start, keys, none);
    assert(keys + none =~= keys);
    assert(start.drop_last() =~= Seq::empty());
    assert(group_twins(start.drop_last(), keys) == 0);
    assert(group_twins(start, keys) == twins(entries, keys));
}

/// Comparing by more keys never adds a duplicate.
pub proof fn law_more_keys_find_fewer_duplicates(
    entries: Seq<EntryModel>,
    more: Seq<GroupKey>,
    keys: Seq<GroupKey>,
)
    requires
        covers(more, keys),
        entries.len() > 0,
    ensures
        total_similar(tag_groups(entries, more)) <= total_similar(tag_groups(entries, keys)),
{
    law_duplicates_agree_with_an_earlier_file(entries, more);
    law_duplicates_agree_with_an_earlier_file(entries, keys);
    lemma_fewer_keys_more_twins(entries, more, keys);
}

/// The parameters of a search that asks for more tags to agree.
pub open spec fn asking_for_more(params: SameMusicParameters, tags: u32) -> SameMusicParameters {
    SameMusicParameters {
        music_similarity: MusicSimilarity { bits: params.music_similarity.bits | tags },
        ..params
    }
}

proof fn lemma_bits_stay(bits: u32, tags: u32, tag: u32)
    requires
        bits & tag == tag,
    ensures
        (bits | tags) & tag == tag,
{
    assert(bits & tag == tag ==> (bits | tags) & tag == tag) by (bit_vector);
}

/// A search that asks for more tags compares by more keys.
proof fn lemma_asking_for_more_covers(params: SameMusicParameters, tags: u32)
    ensures
        covers(selected(asking_for_more(params, tags)), selected(params)),
{
    let keys = selected(params);
    let more = selected(asking_for_more(params, tags));
    let a = params.music_similarity;
    let b = asking_for_more(params, tags).music_similarity;
    assert forall|tag: u32| a.has(tag) implies #[trigger] b.has(tag) by {
        lemma_bits_stay(a.bits, tags, tag);
    }
    assert forall|i: int| 0 <= i < keys.len() implies more.contains(#[trigger] keys[i]) by {
        lemma_selected(params, keys[i]);
        lemma_selected(asking_for_more(params, tags), keys[i]);
        assert(keys.contains(keys[i]));
    }
}

/// Whether a search compares by a key.
pub open spec fn is_selected(params: SameMusicParameters, key: GroupKey) -> bool {
    let tags = params.music_similarity;
    let approximate = params.approximate_comparison;
    ||| (tags.has(MusicSimilarity::TRACK_TITLE) && key == tag_key(
        TagField::TrackTitle,
        approximate,
    ))
    ||| (tags.has(MusicSimilarity::TRACK_ARTIST) && key == tag_key(
        TagField::TrackArtist,
        approximate,
    ))
    ||| (tags.has(MusicSimilarity::YEAR) && key == GroupKey::Exact(TagField::Year))
    ||| (tags.has(MusicSimilarity::LENGTH) && key == GroupKey::Exact(TagField::Length))
    ||| (tags.has(MusicSimilarity::GENRE) && key == GroupKey::Exact(TagField::Genre))
    ||| (tags.has(MusicSimilarity::BITRATE) && key == GroupKey::Bitrate)
}

/// A search compares by a key exactly if its tag is asked for.
pub proof fn lemma_selected(params: SameMusicParameters, key: GroupKey)
    ensures
        selected(params).contains(key) <==> is_selected(params, key),
{
    let tags = params.music_similarity;
    let approximate = params.approximate_comparison;
    let a = key_if(
        tags.has(MusicSimilarity::TRACK_TITLE),
        tag_key(TagField::TrackTitle, approximate),
    );
    let b = key_if(
        tags.has(MusicSimilarity::TRACK_ARTIST),
        tag_key(TagField::TrackArtist, approximate),
    );
    let c = key_if(
        tags.has(MusicSimilarity::YEAR),
        GroupKey::Exact(TagField::Year),
    );
    let d = key_if(
        tags.has(MusicSimilarity::LENGTH),
        GroupKey::Exact(TagField::Length),
    );
    let e = key_if(
        tags.has(MusicSimilarity::GENRE),
        GroupKey::Exact(TagField::Genre),
    );
    let f = key_if(tags.has(MusicSimilarity::BITRATE), GroupKey::Bitrate);
    lemma_contains_either(a, b, key);
    lemma_contains_either(a + b, c, key);
    lemma_contains_either(a + b + c, d, key);
    lemma_contains_either(a + b + c + d, e, key);
    lemma_contains_either(a + b + c + d + e, f, key);
    lemma_contains_one(
        tags.has(MusicSimilarity::TRACK_TITLE),
        tag_key(TagField::TrackTitle, approximate),
        key,
    );
    lemma_contains_one(
        tags.has(MusicSimilarity::TRACK_ARTIST),
        tag_key(TagField::TrackArtist, approximate),
        key,
    );
    lemma_contains_one(
        tags.has(MusicSimilarity::YEAR),
        GroupKey::Exact(TagField::Year),
        key,
    );
    lemma_contains_one(
        tags.has(MusicSimilarity::LENGTH),
        GroupKey::Exact(TagField::Length),
        key,
    );
    lemma_contains_one(
        tags.has(MusicSimilarity::GENRE),
        GroupKey::Exact(TagField::Genre),
        key,
    );
    lemma_contains_one(tags.has(MusicSimilarity::BITRATE), GroupKey::Bitrate, key);
}

proof fn lemma_contains_either(a: Seq<GroupKey>, b: Seq<GroupKey>, key: GroupKey)
    ensures
        (a + b).contains(key) <==> a.contains(key) || b.contains(key),
{
    let all = a + b;
    if a.contains(key) {
        let i = choose|i: int| 0 <= i < a.len() && a[i] == key;
        assert(all[i] == key);
    }
    if b.contains(key) {
        let i = choose|i: int| 0 <= i < b.len() && b[i] == key;
        assert(all[a.len() + i] == key);
    }
    if all.contains(key) {
        let i = choose|i: int| 0 <= i < all.len() && all[i] == key;
        if i < a.len() {
            assert(a[i] == key);
        } else {
            assert(b[i - a.len()] == key);
        }
    }
}

proof fn lemma_contains_one(wanted: bool, one: GroupKey, key: GroupKey)
    ensures
        key_if(wanted, one).contains(key) <==> wanted && key == one,
{
    let list = key_if(wanted, one);
    if wanted {
        assert(list[0] == one);
    }
}

/// Asking for more equal tags only splits groups, and never adds a duplicate.
pub proof fn law_asking_for_more_finds_less(
    entries: Seq<EntryModel>,
    params: SameMusicParameters,
    tags: u32,
)
    requires
        entries.len() > 0,
    ensures
        are_within(
            tag_groups(entries, selected(asking_for_more(params, tags))),
            tag_groups(entries, selected(params)),
        ),
        total_similar(tag_groups(entries, selected(asking_for_more(params, tags))))
            <= total_similar(tag_groups(entries, selected(params))),
{
    lemma_asking_for_more_covers(params, tags);
    law_more_keys_split_groups(
        entries,
        selected(asking_for_more(params, tags)),
        selected(params),
    );
    law_more_keys_find_fewer_duplicates(
        entries,
        selected(asking_for_more(params, tags)),
        selected(params),
    );
}

/// Files that agree on a tag exactly agree on it approximately.
proof fn lemma_agree_approximately(a: EntryModel, b: EntryModel, field: TagField)
    requires
        keeps_text(a, field),
        agree(a, b, seq![GroupKey::Exact(field)]),
    ensures
        agree(a, b, seq![GroupKey::Approximate(field)]),
{
    let key = key_of(a, GroupKey::Exact(field));
    lemma_agree_one(a, b, GroupKey::Exact(field));
    lemma_agree_one(a, b, GroupKey::Approximate(field));
    lemma_trimmed_empty(key);
    law_only_a_blank_title_has_an_empty_name(key);
}

/// An approximate comparison of a tag only merges the groups that an exact one finds: it never
/// loses a pair.
pub proof fn law_approximate_keys_merge_groups(groups: Seq<Seq<EntryModel>>, field: TagField)
    requires
        forall|g: int| 0 <= g < groups.len() ==> all_keep_text(#[trigger] groups[g], field),
    ensures
        are_within(
            refined(groups, GroupKey::Exact(field)),
            refined(groups, GroupKey::Approximate(field)),
        ),
{
    let exact = GroupKey::Exact(field);
    let approximate = GroupKey::Approximate(field);
    let inner = refined(groups, exact);
    let outer = refined(groups, approximate);
    lemma_refined(groups, exact);
    lemma_refined(groups, approximate);
    assert forall|i: int| 0 <= i < inner.len() implies is_within_some(#[trigger] inner[i], outer) by {
        assert(comes_from(inner[i], groups, exact));
        let (g, k) = choose|g: int, k: Seq<char>|
            0 <= g < groups.len() && k.len() > 0 && inner[i].len() > 1 && inner[i]
                == #[trigger] under_key(keyed_by(groups[g], exact), k);
        let list = groups[g];
        lemma_under_key(list, exact, k);
        let a = under_key(keyed_by(list, exact), k)[0];
        assert(list.contains(a) && key_of(a, exact) == k);
        let x = choose|x: int| 0 <= x < list.len() && list[x] == a;
        assert(all_keep_text(list, field));
        assert(keeps_text(list[x], field));
        assert forall|p: int| 0 <= p < list.len() && agree(
            a,
            #[trigger] list[p],
            seq![exact],
        ) implies agree(a, list[p], seq![approximate]) by {
            lemma_agree_approximately(a, list[p], field);
        }
        lemma_alike_one(list, a, exact);
        lemma_alike_within(list, a, seq![exact], seq![approximate]);
        lemma_agree_one(a, a, exact);
        lemma_agree_approximately(a, a, field);
        lemma_agree_one(a, a, approximate);
        lemma_alike_one(list, a, approximate);
        let merged = under_key(keyed_by(groups[g], approximate), key_of(a, approximate));
        assert(merged.len() > 1);
        let j = choose|j: int| 0 <= j < outer.len() && outer[j] == merged;
        assert(is_within(inner[i], outer[j]));
    }
}

} // verus!
