//! What holds of the groups that a comparison of tags finds.

use crate::grouping::{
    grouped, key_of, keyed_by, large_groups, lemma_grouped, refined, tag_groups,
    under_key, GroupKey,
};
use crate::music_entry::EntryModel;
use crate::sorted_map::{has_key, lemma_rank_parts, rank, value_at, with_value};
use vstd::prelude::*;

verus! {

/// Whether two files agree on all keys, none of which is empty.
pub open spec fn agree(a: EntryModel, b: EntryModel, keys: Seq<GroupKey>) -> bool {
    forall|i: int|
        0 <= i < keys.len() ==> key_of(a, #[trigger] keys[i]) == key_of(b, keys[i]) && key_of(
            a,
            keys[i],
        ).len() > 0
}

/// Whether two files stand in a list, one before the other.
pub open spec fn has_pair(list: Seq<EntryModel>, a: EntryModel, b: EntryModel) -> bool {
    exists|p: int, q: int|
        0 <= p < q < list.len() && #[trigger] list[p] == a && #[trigger] list[q] == b
}

/// The files under a key are those of the list that have it.
pub proof fn lemma_under_key(list: Seq<EntryModel>, key: GroupKey, k: Seq<char>)
    ensures
        forall|p: int|
            #![trigger under_key(keyed_by(list, key), k)[p]]
            0 <= p < under_key(keyed_by(list, key), k).len() ==> list.contains(
                under_key(keyed_by(list, key), k)[p],
            ) && key_of(under_key(keyed_by(list, key), k)[p], key) == k,
        forall|a: EntryModel|
            #![trigger list.contains(a)]
            list.contains(a) && key_of(a, key) == k ==> under_key(keyed_by(list, key), k).contains(
                a,
            ),
    decreases list.len(),
{
    let keyed = keyed_by(list, key);
    let under = under_key(keyed, k);
    if list.len() > 0 {
        let rest = list.drop_last();
        let last = list.last();
        assert(keyed.drop_last() =~= keyed_by(rest, key));
        lemma_under_key(rest, key, k);
        let before = under_key(keyed_by(rest, key), k);
        assert forall|p: int| 0 <= p < under.len() implies list.contains(#[trigger] under[p])
            && key_of(under[p], key) == k by {
            if p < before.len() {
                assert(under[p] == before[p]);
                assert(rest.contains(before[p]));
                let i = choose|i: int| 0 <= i < rest.len() && rest[i] == before[p];
                assert(list[i] == before[p]);
            } else {
                assert(under[p] == last);
                assert(list[list.len() - 1] == last);
            }
        }
        assert forall|a: EntryModel| #[trigger] list.contains(a) && key_of(a, key)
            == k implies under.contains(a) by {
            let i = choose|i: int| 0 <= i < list.len() && list[i] == a;
            if i < rest.len() {
                assert(rest[i] == a);
                assert(rest.contains(a));
                assert(before.contains(a));
                let p = choose|p: int| 0 <= p < before.len() && before[p] == a;
                assert(under[p] == a);
            } else {
                assert(under[under.len() - 1] == a);
            }
        }
    }
}

/// The files under a key stand in the order of the list.
pub proof fn lemma_under_key_keeps_order(
    list: Seq<EntryModel>,
    key: GroupKey,
    k: Seq<char>,
    p: int,
    q: int,
)
    requires
        0 <= p < q < under_key(keyed_by(list, key), k).len(),
    ensures
        has_pair(
            list,
            under_key(keyed_by(list, key), k)[p],
            under_key(keyed_by(list, key), k)[q],
        ),
    decreases list.len(),
{
    let keyed = keyed_by(list, key);
    let under = under_key(keyed, k);
    let rest = list.drop_last();
    assert(keyed.drop_last() =~= keyed_by(rest, key));
    let before = under_key(keyed_by(rest, key), k);
    if q < before.len() {
        lemma_under_key_keeps_order(rest, key, k, p, q);
        let (i, j) = choose|i: int, j: int|
            0 <= i < j < rest.len() && #[trigger] rest[i] == before[p] && #[trigger] rest[j]
                == before[q];
        assert(list[i] == under[p] && list[j] == under[q]);
    } else {
        lemma_under_key(rest, key, k);
        assert(rest.contains(before[p]));
        let i = choose|i: int| 0 <= i < rest.len() && rest[i] == before[p];
        assert(list[i] == under[p] && list[list.len() - 1] == under[q]);
    }
}

proof fn lemma_under_key_pair(
    list: Seq<EntryModel>,
    key: GroupKey,
    k: Seq<char>,
    a: EntryModel,
    b: EntryModel,
)
    requires
        has_pair(list, a, b),
        key_of(a, key) == k,
        key_of(b, key) == k,
    ensures
        has_pair(under_key(keyed_by(list, key), k), a, b),
    decreases list.len(),
{
    let (p, q) = choose|p: int, q: int|
        0 <= p < q < list.len() && #[trigger] list[p] == a && #[trigger] list[q] == b;
    let keyed = keyed_by(list, key);
    let rest = list.drop_last();
    let under = under_key(keyed, k);
    let before = under_key(keyed_by(rest, key), k);
    assert(keyed.drop_last() =~= keyed_by(rest, key));
    if q < rest.len() {
        assert(rest[p] == a && rest[q] == b);
        lemma_under_key_pair(rest, key, k, a, b);
        let (x, y) = choose|x: int, y: int|
            0 <= x < y < before.len() && #[trigger] before[x] == a && #[trigger] before[y] == b;
        assert(under[x] == a && under[y] == b);
    } else {
        assert(rest[p] == a);
        assert(rest.contains(a));
        lemma_under_key(rest, key, k);
        let x = choose|x: int| 0 <= x < before.len() && before[x] == a;
        assert(under == before.push(b));
        assert(under[x] == a && under[before.len() as int] == b);
    }
}

proof fn lemma_large_groups(pairs: Seq<(Seq<char>, Seq<EntryModel>)>)
    ensures
        forall|i: int|
            0 <= i < large_groups(pairs).len() ==> (#[trigger] large_groups(pairs)[i]).len() > 1
                && exists|j: int|
                0 <= j < pairs.len() && (#[trigger] pairs[j]).1 == large_groups(pairs)[i],
        forall|j: int|
            0 <= j < pairs.len() && (#[trigger] pairs[j]).1.len() > 1 ==> large_groups(
                pairs,
            ).contains(pairs[j].1),
    decreases pairs.len(),
{
    let large = large_groups(pairs);
    if pairs.len() > 0 {
        let rest = pairs.drop_last();
        let before = large_groups(rest);
        lemma_large_groups(rest);
        assert forall|i: int| 0 <= i < large.len() implies (#[trigger] large[i]).len() > 1
            && exists|j: int| 0 <= j < pairs.len() && (#[trigger] pairs[j]).1 == large[i] by {
            if i < before.len() {
                assert(large[i] == before[i]);
                let j = choose|j: int| 0 <= j < rest.len() && (#[trigger] rest[j]).1 == before[i];
                assert(pairs[j].1 == large[i]);
            } else {
                assert(pairs[pairs.len() - 1].1 == large[i]);
            }
        }
        assert forall|j: int| 0 <= j < pairs.len() && (#[trigger] pairs[j]).1.len()
            > 1 implies large.contains(pairs[j].1) by {
            if j < rest.len() {
                assert(rest[j] == pairs[j]);
                assert(before.contains(pairs[j].1));
                let i = choose|i: int| 0 <= i < before.len() && before[i] == pairs[j].1;
                assert(large[i] == pairs[j].1);
            } else {
                assert(large[large.len() - 1] == pairs[j].1);
            }
        }
    }
}

/// Whether a list is what one of the groups has under some key, and more than one file.
pub open spec fn comes_from(
    list: Seq<EntryModel>,
    groups: Seq<Seq<EntryModel>>,
    key: GroupKey,
) -> bool {
    exists|g: int, k: Seq<char>|
        0 <= g < groups.len() && k.len() > 0 && list.len() > 1 && list == #[trigger] under_key(
            keyed_by(groups[g], key),
            k,
        )
}

/// What splitting groups by a key comes to: the lists of two files or more under the keys of each.
pub proof fn lemma_refined(groups: Seq<Seq<EntryModel>>, key: GroupKey)
    ensures
        forall|i: int|
            0 <= i < refined(groups, key).len() ==> comes_from(
                #[trigger] refined(groups, key)[i],
                groups,
                key,
            ),
        forall|g: int, k: Seq<char>|
            0 <= g < groups.len() && k.len() > 0 && (#[trigger] under_key(
                keyed_by(groups[g], key),
                k,
            )).len() > 1 ==> refined(groups, key).contains(under_key(keyed_by(groups[g], key), k)),
    decreases groups.len(),
{
    let new = refined(groups, key);
    if groups.len() > 0 {
        let rest = groups.drop_last();
        let n = groups.len() - 1;
        let before = refined(rest, key);
        let keyed = keyed_by(groups[n], key);
        let pairs = grouped(keyed);
        let large = large_groups(pairs);
        lemma_refined(rest, key);
        lemma_grouped(keyed);
        lemma_large_groups(pairs);
        assert forall|i: int| 0 <= i < new.len() implies comes_from(#[trigger] new[i], groups, key) by {
            if i < before.len() {
                assert(new[i] == before[i]);
                assert(comes_from(before[i], rest, key));
                let (g, k) = choose|g: int, k: Seq<char>|
                    0 <= g < rest.len() && k.len() > 0 && before[i].len() > 1 && before[i]
                        == #[trigger] under_key(keyed_by(rest[g], key), k);
                assert(rest[g] == groups[g]);
                assert(new[i] == under_key(keyed_by(groups[g], key), k));
            } else {
                let m = i - before.len();
                assert(new[i] == large[m]);
                let j = choose|j: int| 0 <= j < pairs.len() && (#[trigger] pairs[j]).1 == large[m];
                assert(new[i] == under_key(keyed_by(groups[n], key), pairs[j].0));
            }
        }
        assert forall|g: int, k: Seq<char>|
            0 <= g < groups.len() && k.len() > 0 && (#[trigger] under_key(
                keyed_by(groups[g], key),
                k,
            )).len() > 1 implies new.contains(under_key(keyed_by(groups[g], key), k)) by {
            let list = under_key(keyed_by(groups[g], key), k);
            if g < n {
                assert(rest[g] == groups[g]);
                assert(under_key(keyed_by(rest[g], key), k) == list);
                assert(before.contains(list));
                let i = choose|i: int| 0 <= i < before.len() && before[i] == list;
                assert(new[i] == list);
            } else {
                assert(has_key(pairs, k));
                lemma_rank_parts(pairs, k);
                let j = rank(pairs, k);
                assert(pairs[j].1 == list);
                assert(large.contains(list));
                let i = choose|i: int| 0 <= i < large.len() && large[i] == list;
                assert(new[before.len() + i] == list);
            }
        }
    }
}

/// The files of a group are among those compared, and agree on every key that was compared.
pub proof fn law_group_members_agree(
    entries: Seq<EntryModel>,
    keys: Seq<GroupKey>,
    g: int,
    p: int,
    q: int,
)
    requires
        0 <= g < tag_groups(entries, keys).len(),
        0 <= p < tag_groups(entries, keys)[g].len(),
        0 <= q < tag_groups(entries, keys)[g].len(),
    ensures
        entries.contains(tag_groups(entries, keys)[g][p]),
        agree(tag_groups(entries, keys)[g][p], tag_groups(entries, keys)[g][q], keys),
    decreases keys.len(),
{
    let groups = tag_groups(entries, keys);
    if keys.len() == 0 {
        assert(groups[g] == entries);
    } else {
        let key = keys.last();
        let earlier = keys.drop_last();
        let before = tag_groups(entries, earlier);
        lemma_refined(before, key);
        assert(comes_from(groups[g], before, key));
        let (h, k) = choose|h: int, k: Seq<char>|
            0 <= h < before.len() && k.len() > 0 && groups[g].len() > 1 && groups[g]
                == #[trigger] under_key(keyed_by(before[h], key), k);
        lemma_under_key(before[h], key, k);
        let a = groups[g][p];
        let b = groups[g][q];
        assert(under_key(keyed_by(before[h], key), k)[p] == a);
        assert(under_key(keyed_by(before[h], key), k)[q] == b);
        let x = choose|x: int| 0 <= x < before[h].len() && before[h][x] == a;
        let y = choose|y: int| 0 <= y < before[h].len() && before[h][y] == b;
        law_group_members_agree(entries, earlier, h, x, y);
        assert forall|i: int| 0 <= i < keys.len() implies key_of(a, #[trigger] keys[i]) == key_of(
            b,
            keys[i],
        ) && key_of(a, keys[i]).len() > 0 by {
            if i < earlier.len() {
                assert(earlier[i] == keys[i]);
            }
        }
    }
}

/// A group holds at least two files, once anything has been compared.
pub proof fn law_groups_have_two_members(entries: Seq<EntryModel>, keys: Seq<GroupKey>, g: int)
    requires
        keys.len() > 0,
        0 <= g < tag_groups(entries, keys).len(),
    ensures
        tag_groups(entries, keys)[g].len() >= 2,
{
    let before = tag_groups(entries, keys.drop_last());
    lemma_refined(before, keys.last());
    assert(comes_from(tag_groups(entries, keys)[g], before, keys.last()));
}

/// Two of the compared files that agree on every key are found in one group.
pub proof fn law_agreeing_files_share_a_group(
    entries: Seq<EntryModel>,
    keys: Seq<GroupKey>,
    a: EntryModel,
    b: EntryModel,
)
    requires
        has_pair(entries, a, b),
        agree(a, b, keys),
    ensures
        exists|g: int|
            0 <= g < tag_groups(entries, keys).len() && has_pair(
                #[trigger] tag_groups(entries, keys)[g],
                a,
                b,
            ),
    decreases keys.len(),
{
    let groups = tag_groups(entries, keys);
    if keys.len() == 0 {
        assert(groups[0] == entries);
    } else {
        let key = keys.last();
        let earlier = keys.drop_last();
        let before = tag_groups(entries, earlier);
        assert(agree(a, b, earlier)) by {
            assert forall|i: int| 0 <= i < earlier.len() implies key_of(a, #[trigger] earlier[i])
                == key_of(b, earlier[i]) && key_of(a, earlier[i]).len() > 0 by {
                assert(earlier[i] == keys[i]);
            }
        }
        law_agreeing_files_share_a_group(entries, earlier, a, b);
        let h = choose|h: int|
            0 <= h < before.len() && has_pair(#[trigger] before[h], a, b);
        assert(keys[keys.len() - 1] == key);
        let k = key_of(a, key);
        lemma_under_key_pair(before[h], key, k, a, b);
        lemma_refined(before, key);
        let list = under_key(keyed_by(before[h], key), k);
        assert(groups.contains(list));
        let g = choose|g: int| 0 <= g < groups.len() && groups[g] == list;
        assert(has_pair(groups[g], a, b));
    }
}

/// The sum of the weights of a list of files.
pub open spec fn weight(list: Seq<EntryModel>, w: spec_fn(EntryModel) -> nat) -> nat
    decreases list.len(),
{
    if list.len() == 0 {
        0
    } else {
        weight(list.drop_last(), w) + w(list.last())
    }
}

/// The sum of the weights of all files in a list of groups.
pub open spec fn total_weight(groups: Seq<Seq<EntryModel>>, w: spec_fn(EntryModel) -> nat) -> nat
    decreases groups.len(),
{
    if groups.len() == 0 {
        0
    } else {
        total_weight(groups.drop_last(), w) + weight(groups.last(), w)
    }
}

/// The sum of the weights of all files in groups under their keys.
pub open spec fn paired_weight(
    pairs: Seq<(Seq<char>, Seq<EntryModel>)>,
    w: spec_fn(EntryModel) -> nat,
) -> nat
    decreases pairs.len(),
{
    if pairs.len() == 0 {
        0
    } else {
        paired_weight(pairs.drop_last(), w) + weight(pairs.last().1, w)
    }
}

proof fn lemma_paired_weight_update(
    pairs: Seq<(Seq<char>, Seq<EntryModel>)>,
    w: spec_fn(EntryModel) -> nat,
    r: int,
    x: (Seq<char>, Seq<EntryModel>),
)
    requires
        0 <= r < pairs.len(),
    ensures
        paired_weight(pairs.update(r, x), w) + weight(pairs[r].1, w) == paired_weight(pairs, w)
            + weight(x.1, w),
    decreases pairs.len(),
{
    let new = pairs.update(r, x);
    if r < pairs.len() - 1 {
        lemma_paired_weight_update(pairs.drop_last(), w, r, x);
        assert(new.drop_last() =~= pairs.drop_last().update(r, x));
    } else {
        assert(new.drop_last() =~= pairs.drop_last());
    }
}

proof fn lemma_paired_weight_insert(
    pairs: Seq<(Seq<char>, Seq<EntryModel>)>,
    w: spec_fn(EntryModel) -> nat,
    r: int,
    x: (Seq<char>, Seq<EntryModel>),
)
    requires
        0 <= r <= pairs.len(),
    ensures
        paired_weight(pairs.insert(r, x), w) == paired_weight(pairs, w) + weight(x.1, w),
    decreases pairs.len(),
{
    let new = pairs.insert(r, x);
    if r < pairs.len() {
        lemma_paired_weight_insert(pairs.drop_last(), w, r, x);
        assert(new.drop_last() =~= pairs.drop_last().insert(r, x));
        assert(new.last() == pairs.last());
    } else {
        assert(new.drop_last() =~= pairs);
    }
}

/// However files are weighed, the groups under all keys together weigh no more than the files.
pub proof fn lemma_grouped_weight(
    list: Seq<EntryModel>,
    key: GroupKey,
    w: spec_fn(EntryModel) -> nat,
)
    ensures
        paired_weight(grouped(keyed_by(list, key)), w) <= weight(list, w),
    decreases list.len(),
{
    if list.len() > 0 {
        let rest = list.drop_last();
        let keyed = keyed_by(list, key);
        let before = grouped(keyed_by(rest, key));
        assert(keyed.drop_last() =~= keyed_by(rest, key));
        lemma_grouped_weight(rest, key, w);
        lemma_grouped(keyed_by(rest, key));
        let k = keyed.last().0;
        let under = under_key(keyed, k);
        let earlier = under_key(keyed_by(rest, key), k);
        if k.len() > 0 {
            assert(under == earlier.push(list.last()));
            assert(under.drop_last() =~= earlier);
            lemma_rank_parts(before, k);
            let r = rank(before, k);
            assert(weight(under, w) == weight(earlier, w) + w(list.last()));
            assert(grouped(keyed) == with_value(before, k, under));
            if has_key(before, k) {
                assert(value_at(before, k) == earlier);
                lemma_paired_weight_update(before, w, r, (k, under));
            } else {
                assert(earlier.len() == 0);
                lemma_paired_weight_insert(before, w, r, (k, under));
            }
        }
    }
}

proof fn lemma_large_weight(
    pairs: Seq<(Seq<char>, Seq<EntryModel>)>,
    w: spec_fn(EntryModel) -> nat,
)
    ensures
        total_weight(large_groups(pairs), w) <= paired_weight(pairs, w),
    decreases pairs.len(),
{
    if pairs.len() > 0 {
        let before = large_groups(pairs.drop_last());
        lemma_large_weight(pairs.drop_last(), w);
        if pairs.last().1.len() > 1 {
            assert(before.push(pairs.last().1).drop_last() =~= before);
        }
    }
}

/// The weight of two lists of groups together is the sum of their weights.
pub proof fn lemma_total_weight_add(
    a: Seq<Seq<EntryModel>>,
    b: Seq<Seq<EntryModel>>,
    w: spec_fn(EntryModel) -> nat,
)
    ensures
        total_weight(a + b, w) == total_weight(a, w) + total_weight(b, w),
    decreases b.len(),
{
    if b.len() == 0 {
        assert(a + b =~= a);
    } else {
        assert((a + b).drop_last() =~= a + b.drop_last());
        lemma_total_weight_add(a, b.drop_last(), w);
    }
}

proof fn lemma_refined_weight(
    groups: Seq<Seq<EntryModel>>,
    key: GroupKey,
    w: spec_fn(EntryModel) -> nat,
)
    ensures
        total_weight(refined(groups, key), w) <= total_weight(groups, w),
    decreases groups.len(),
{
    if groups.len() > 0 {
        let rest = groups.drop_last();
        let pairs = grouped(keyed_by(groups.last(), key));
        lemma_refined_weight(rest, key, w);
        lemma_grouped_weight(groups.last(), key, w);
        lemma_large_weight(pairs, w);
        lemma_total_weight_add(refined(rest, key), large_groups(pairs), w);
    }
}

/// However files are weighed, the groups together weigh no more than the files compared.
pub proof fn lemma_tag_groups_weight(
    entries: Seq<EntryModel>,
    keys: Seq<GroupKey>,
    w: spec_fn(EntryModel) -> nat,
)
    ensures
        total_weight(tag_groups(entries, keys), w) <= weight(entries, w),
    decreases keys.len(),
{
    if keys.len() == 0 {
        let one = seq![entries];
        assert(one.drop_last() =~= Seq::empty());
        assert(total_weight(one.drop_last(), w) == 0);
    } else {
        lemma_tag_groups_weight(entries, keys.drop_last(), w);
        lemma_refined_weight(tag_groups(entries, keys.drop_last()), keys.last(), w);
    }
}

/// One for a given file and zero for all others.
pub open spec fn is_entry(entry: EntryModel) -> spec_fn(EntryModel) -> nat {
    |e: EntryModel|
        if e == entry {
            1
        } else {
            0
        }
}

/// How often a file occurs in a list.
pub open spec fn occurrences(list: Seq<EntryModel>, entry: EntryModel) -> nat {
    weight(list, is_entry(entry))
}

/// How often a file occurs in a list of groups.
pub open spec fn group_occurrences(groups: Seq<Seq<EntryModel>>, entry: EntryModel) -> nat {
    total_weight(groups, is_entry(entry))
}

/// No file is counted twice: all groups together hold it no more often than it was compared.
pub proof fn law_files_are_not_multiplied(
    entries: Seq<EntryModel>,
    keys: Seq<GroupKey>,
    entry: EntryModel,
)
    ensures
        group_occurrences(tag_groups(entries, keys), entry) <= occurrences(entries, entry),
{
    lemma_tag_groups_weight(entries, keys, is_entry(entry));
}

/// The files under a key of one list and then another are those of the former and then those of the
/// latter; and a single file is under its own key alone.
pub proof fn law_files_under_a_key_add_up(
    a: Seq<EntryModel>,
    b: Seq<EntryModel>,
    key: GroupKey,
    k: Seq<char>,
    entry: EntryModel,
)
    ensures
        under_key(keyed_by(a + b, key), k) == under_key(keyed_by(a, key), k) + under_key(
            keyed_by(b, key),
            k,
        ),
        under_key(keyed_by(seq![entry], key), k) == if key_of(entry, key) == k {
            seq![entry]
        } else {
            Seq::empty()
        },
    decreases b.len(),
{
    let one = keyed_by(seq![entry], key);
    assert(one.drop_last() =~= Seq::empty());
    assert(under_key(one.drop_last(), k) =~= Seq::empty());
    assert(under_key(one, k) =~= if key_of(entry, key) == k {
        seq![entry]
    } else {
        Seq::empty()
    });
    if b.len() == 0 {
        assert(a + b =~= a);
        assert(under_key(keyed_by(b, key), k) =~= Seq::empty());
        assert(under_key(keyed_by(a, key), k) + under_key(keyed_by(b, key), k) =~= under_key(
            keyed_by(a, key),
            k,
        ));
    } else {
        let rest = b.drop_last();
        law_files_under_a_key_add_up(a, rest, key, k, entry);
        assert(keyed_by(a + b, key).drop_last() =~= keyed_by(a + rest, key));
        assert(keyed_by(b, key).drop_last() =~= keyed_by(rest, key));
        assert(keyed_by(a + b, key).last() == keyed_by(b, key).last());
        assert(under_key(keyed_by(a + b, key), k) =~= under_key(keyed_by(a, key), k) + under_key(
            keyed_by(b, key),
            k,
        ));
    }
}

} // verus!
