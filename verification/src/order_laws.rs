//! The order in which a search gives its groups.

use crate::grouping::{
    grouped, key_if, key_of, keyed_by, large_groups, lemma_grouped, refined, selected,
    tag_groups, tag_key, under_key, GroupKey, TagField,
};
use crate::music_entry::EntryModel;
use crate::params::SameMusicParameters;
use crate::same_music::SameMusicModel;
use crate::simplified_name::simplified;
use crate::tag_laws::{law_group_members_agree, lemma_under_key};
use crate::tag_search_laws::groups_by_tags;
use crate::text::{decimal, lowercase, text_less, trimmed};
use vstd::prelude::*;

verus! {

/// Whether a file comes before another by the first of several keys in which they differ.
pub open spec fn comes_before(a: EntryModel, b: EntryModel, keys: Seq<GroupKey>) -> bool
    decreases keys.len(),
{
    if keys.len() == 0 {
        false
    } else {
        comes_before(a, b, keys.drop_last()) || (agree_on(a, b, keys.drop_last()) && text_less(
            key_of(a, keys.last()),
            key_of(b, keys.last()),
        ))
    }
}

/// Whether two files have the same keys.
pub open spec fn agree_on(a: EntryModel, b: EntryModel, keys: Seq<GroupKey>) -> bool {
    forall|i: int| 0 <= i < keys.len() ==> key_of(a, #[trigger] keys[i]) == key_of(b, keys[i])
}

/// Files with the same keys are before the same files.
proof fn lemma_same_keys(
    a: EntryModel,
    b: EntryModel,
    c: EntryModel,
    d: EntryModel,
    keys: Seq<GroupKey>,
)
    requires
        agree_on(a, c, keys),
        agree_on(b, d, keys),
    ensures
        comes_before(a, b, keys) == comes_before(c, d, keys),
        agree_on(a, b, keys) == agree_on(c, d, keys),
    decreases keys.len(),
{
    assert forall|i: int| 0 <= i < keys.len() implies (key_of(a, #[trigger] keys[i]) == key_of(
        b,
        keys[i],
    )) == (key_of(c, keys[i]) == key_of(d, keys[i])) by {
        assert(key_of(a, keys[i]) == key_of(c, keys[i]));
        assert(key_of(b, keys[i]) == key_of(d, keys[i]));
    }
    if keys.len() > 0 {
        let rest = keys.drop_last();
        assert forall|i: int| 0 <= i < rest.len() implies key_of(a, #[trigger] rest[i]) == key_of(
            c,
            rest[i],
        ) && key_of(b, rest[i]) == key_of(d, rest[i]) by {
            assert(rest[i] == keys[i]);
            assert(key_of(a, keys[i]) == key_of(c, keys[i]));
        }
        lemma_same_keys(a, b, c, d, rest);
        assert(keys[keys.len() - 1] == keys.last());
    }
}

/// Where a group of several comes from: the place of its key among the keys.
proof fn lemma_large_places(pairs: Seq<(Seq<char>, Seq<EntryModel>)>, g: int) -> (i: int)
    requires
        0 <= g < large_groups(pairs).len(),
    ensures
        0 <= i < pairs.len(),
        large_groups(pairs)[g] == pairs[i].1,
        pairs[i].1.len() > 1,
        g == large_groups(pairs.take(i)).len(),
    decreases pairs.len(),
{
    let before = large_groups(pairs.drop_last());
    let n = pairs.len() - 1;
    assert(pairs.take(n) =~= pairs.drop_last());
    if g < before.len() {
        let i = lemma_large_places(pairs.drop_last(), g);
        assert(pairs.drop_last()[i] == pairs[i]);
        assert(pairs.drop_last().take(i) =~= pairs.take(i));
        i
    } else {
        n
    }
}

proof fn lemma_large_grows(pairs: Seq<(Seq<char>, Seq<EntryModel>)>, i: int, j: int)
    requires
        0 <= i <= j <= pairs.len(),
    ensures
        large_groups(pairs.take(i)).len() <= large_groups(pairs.take(j)).len(),
    decreases j - i,
{
    if i < j {
        lemma_large_grows(pairs, i, j - 1);
        assert(pairs.take(j).drop_last() =~= pairs.take(j - 1));
    }
}

/// The groups that a list is split into by a key stand in the order of their keys.
pub proof fn law_split_groups_are_in_order(list: Seq<EntryModel>, key: GroupKey, g: int, h: int)
    requires
        0 <= g < h < large_groups(grouped(keyed_by(list, key))).len(),
    ensures
        ({
            let groups = large_groups(grouped(keyed_by(list, key)));
            &&& groups[g].len() > 1
            &&& groups[h].len() > 1
            &&& text_less(key_of(groups[g][0], key), key_of(groups[h][0], key))
        }),
{
    let keyed = keyed_by(list, key);
    let pairs = grouped(keyed);
    lemma_grouped(keyed);
    let i = lemma_large_places(pairs, g);
    let j = lemma_large_places(pairs, h);
    if j <= i {
        lemma_large_grows(pairs, j, i);
    }
    assert(pairs[i].1 == under_key(keyed, pairs[i].0));
    assert(pairs[j].1 == under_key(keyed, pairs[j].0));
    lemma_under_key(list, key, pairs[i].0);
    lemma_under_key(list, key, pairs[j].0);
    assert(key_of(under_key(keyed, pairs[i].0)[0], key) == pairs[i].0);
    assert(key_of(under_key(keyed, pairs[j].0)[0], key) == pairs[j].0);
    assert(text_less(pairs[i].0, pairs[j].0));
}

/// Splitting some groups and then others is splitting the former and then the latter.
pub proof fn law_splitting_adds_up(a: Seq<Seq<EntryModel>>, b: Seq<Seq<EntryModel>>, key: GroupKey)
    ensures
        refined(a + b, key) == refined(a, key) + refined(b, key),
    decreases b.len(),
{
    if b.len() == 0 {
        assert(a + b =~= a);
        assert(refined(a, key) + refined(b, key) =~= refined(a, key));
    } else {
        law_splitting_adds_up(a, b.drop_last(), key);
        assert((a + b).drop_last() =~= a + b.drop_last());
        assert((a + b).last() == b.last());
        assert(refined(a + b, key) =~= refined(a, key) + refined(b, key));
    }
}

/// Which group a group was split off, and where it stands among those split off that one.
proof fn lemma_split_off(groups: Seq<Seq<EntryModel>>, key: GroupKey, g: int) -> (r: (int, int))
    requires
        0 <= g < refined(groups, key).len(),
    ensures
        ({
            let (o, p) = r;
            let parts = large_groups(grouped(keyed_by(groups[o], key)));
            &&& 0 <= o < groups.len()
            &&& 0 <= p < parts.len()
            &&& refined(groups, key)[g] == parts[p]
            &&& g == refined(groups.take(o), key).len() + p
        }),
    decreases groups.len(),
{
    let n = groups.len() - 1;
    let before = refined(groups.drop_last(), key);
    assert(groups.take(n) =~= groups.drop_last());
    if g < before.len() {
        let (o, p) = lemma_split_off(groups.drop_last(), key, g);
        assert(groups.drop_last()[o] == groups[o]);
        assert(groups.drop_last().take(o) =~= groups.take(o));
        (o, p)
    } else {
        (n, g - before.len())
    }
}

proof fn lemma_split_grows(groups: Seq<Seq<EntryModel>>, key: GroupKey, i: int, j: int)
    requires
        0 <= i < j <= groups.len(),
    ensures
        refined(groups.take(i), key).len() + large_groups(grouped(keyed_by(groups[i], key))).len()
            <= refined(groups.take(j), key).len(),
    decreases j - i,
{
    assert(groups.take(j).drop_last() =~= groups.take(j - 1));
    assert(groups.take(j).last() == groups[j - 1]);
    if i < j - 1 {
        lemma_split_grows(groups, key, i, j - 1);
    }
}

proof fn lemma_part_members(list: Seq<EntryModel>, key: GroupKey, p: int)
    requires
        0 <= p < large_groups(grouped(keyed_by(list, key))).len(),
    ensures
        ({
            let part = large_groups(grouped(keyed_by(list, key)))[p];
            &&& part.len() > 1
            &&& list.contains(part[0])
        }),
{
    let keyed = keyed_by(list, key);
    let pairs = grouped(keyed);
    lemma_grouped(keyed);
    let i = lemma_large_places(pairs, p);
    lemma_under_key(list, key, pairs[i].0);
    assert(pairs[i].1 == under_key(keyed, pairs[i].0));
    assert(list.contains(under_key(keyed, pairs[i].0)[0]));
}

/// The groups of files that agree on several keys stand in the order of the first key in which they
/// differ.
pub proof fn law_groups_are_in_order_of_keys(
    entries: Seq<EntryModel>,
    keys: Seq<GroupKey>,
    g: int,
    h: int,
)
    requires
        0 <= g < h < tag_groups(entries, keys).len(),
    ensures
        tag_groups(entries, keys)[g].len() > 0,
        tag_groups(entries, keys)[h].len() > 0,
        comes_before(tag_groups(entries, keys)[g][0], tag_groups(entries, keys)[h][0], keys),
    decreases keys.len(),
{
    if keys.len() > 0 {
        let rest = keys.drop_last();
        let key = keys.last();
        let before = tag_groups(entries, rest);
        let after = tag_groups(entries, keys);
        let (o, p) = lemma_split_off(before, key, g);
        let (q, r) = lemma_split_off(before, key, h);
        lemma_part_members(before[o], key, p);
        lemma_part_members(before[q], key, r);
        let a = after[g][0];
        let b = after[h][0];
        if q < o {
            lemma_split_grows(before, key, q, o);
        }
        let i = choose|i: int| 0 <= i < before[o].len() && before[o][i] == a;
        let j = choose|j: int| 0 <= j < before[q].len() && before[q][j] == b;
        law_group_members_agree(entries, rest, o, i, 0);
        law_group_members_agree(entries, rest, q, j, 0);
        assert(agree_on(a, before[o][0], rest));
        assert(agree_on(b, before[q][0], rest));
        if o == q {
            law_split_groups_are_in_order(before[o], key, p, r);
            assert(agree_on(a, b, rest)) by {
                lemma_same_keys(a, b, before[o][0], before[o][0], rest);
            }
        } else {
            law_groups_are_in_order_of_keys(entries, rest, o, q);
            lemma_same_keys(a, b, before[o][0], before[q][0], rest);
        }
    }
}

/// Whether a text comes before another, or is the same and something else decides.
pub open spec fn before_or(x: Seq<char>, y: Seq<char>, otherwise: bool) -> bool {
    text_less(x, y) || (x == y && otherwise)
}

/// What a title or an artist is ordered by.
pub open spec fn ordered_by(text: Seq<char>, approximate: bool) -> Seq<char> {
    if approximate {
        simplified(lowercase(trimmed(text)))
    } else {
        lowercase(trimmed(text))
    }
}

/// Whether a file comes before another by the tags that a search asks for: by title, then artist,
/// year, length, genre and the digits of the bitrate, each only if it is asked for.
pub open spec fn is_before_by_tags(
    a: EntryModel,
    b: EntryModel,
    params: SameMusicParameters,
) -> bool {
    let bits = params.music_similarity.bits;
    let approximate = params.approximate_comparison;
    let by_bitrate = bits & 32 == 32 && text_less(
        bitrate_text(a.bitrate),
        bitrate_text(b.bitrate),
    );
    let by_genre = if bits & 16 == 16 {
        before_or(ordered_by(a.genre, false), ordered_by(b.genre, false), by_bitrate)
    } else {
        by_bitrate
    };
    let by_length = if bits & 8 == 8 {
        before_or(ordered_by(a.length, false), ordered_by(b.length, false), by_genre)
    } else {
        by_genre
    };
    let by_year = if bits & 4 == 4 {
        before_or(ordered_by(a.year, false), ordered_by(b.year, false), by_length)
    } else {
        by_length
    };
    let by_artist = if bits & 2 == 2 {
        before_or(
            ordered_by(a.track_artist, approximate),
            ordered_by(b.track_artist, approximate),
            by_year,
        )
    } else {
        by_year
    };
    if bits & 1 == 1 {
        before_or(
            ordered_by(a.track_title, approximate),
            ordered_by(b.track_title, approximate),
            by_artist,
        )
    } else {
        by_artist
    }
}

/// The digits of a bitrate; nothing if it is not known.
pub open spec fn bitrate_text(bitrate: u32) -> Seq<char> {
    if bitrate == 0 {
        Seq::empty()
    } else {
        decimal(bitrate as nat)
    }
}

/// One more key in front: it decides, and the others decide where it does not.
proof fn lemma_key_in_front(
    a: EntryModel,
    b: EntryModel,
    wanted: bool,
    key: GroupKey,
    rest: Seq<GroupKey>,
)
    ensures
        comes_before(a, b, key_if(wanted, key) + rest) == if wanted {
            before_or(key_of(a, key), key_of(b, key), comes_before(a, b, rest))
        } else {
            comes_before(a, b, rest)
        },
        agree_on(a, b, key_if(wanted, key) + rest) <==> (wanted ==> key_of(a, key) == key_of(b, key))
            && agree_on(a, b, rest),
    decreases rest.len(),
{
    let front = key_if(wanted, key);
    let all = front + rest;
    if wanted {
        assert(all[0] == key);
        if agree_on(a, b, all) {
            assert(key_of(a, all[0]) == key_of(b, all[0]));
        }
    }
    assert forall|i: int| 0 <= i < rest.len() implies #[trigger] rest[i] == all[front.len() + i] by {}
    if agree_on(a, b, all) {
        assert forall|i: int| 0 <= i < rest.len() implies key_of(a, #[trigger] rest[i]) == key_of(
            b,
            rest[i],
        ) by {
            assert(key_of(a, all[front.len() + i]) == key_of(b, all[front.len() + i]));
        }
    }
    if (wanted ==> key_of(a, key) == key_of(b, key)) && agree_on(a, b, rest) {
        assert forall|i: int| 0 <= i < all.len() implies key_of(a, #[trigger] all[i]) == key_of(
            b,
            all[i],
        ) by {
            if i >= front.len() {
                assert(rest[i - front.len()] == all[i]);
                assert(key_of(a, rest[i - front.len()]) == key_of(b, rest[i - front.len()]));
            }
        }
    }
    if rest.len() == 0 {
        assert(all =~= front);
        if wanted {
            assert(front.drop_last() =~= Seq::empty());
            assert(!comes_before(a, b, front.drop_last()));
            assert(agree_on(a, b, front.drop_last()));
            assert(front.last() == key);
        } else {
            assert(all =~= Seq::empty());
        }
    } else {
        lemma_key_in_front(a, b, wanted, key, rest.drop_last());
        assert(all.drop_last() =~= front + rest.drop_last());
        assert(all.last() == rest.last());
    }
}

proof fn lemma_six_lists(
    a: Seq<GroupKey>,
    b: Seq<GroupKey>,
    c: Seq<GroupKey>,
    d: Seq<GroupKey>,
    e: Seq<GroupKey>,
    f: Seq<GroupKey>,
)
    ensures
        a + b + c + d + e + f == a + (b + (c + (d + (e + (f + Seq::empty()))))),
{
    assert(a + b + c + d + e + f =~= a + (b + (c + (d + (e + (f + Seq::empty()))))));
}

/// The order by the keys of a search is the order by the tags that it asks for.
proof fn lemma_order_by_tags(a: EntryModel, b: EntryModel, params: SameMusicParameters)
    ensures
        comes_before(a, b, selected(params)) == is_before_by_tags(a, b, params),
{
    let bits = params.music_similarity.bits;
    let approximate = params.approximate_comparison;
    let k1 = tag_key(TagField::TrackTitle, approximate);
    let k2 = tag_key(TagField::TrackArtist, approximate);
    let k3 = GroupKey::Exact(TagField::Year);
    let k4 = GroupKey::Exact(TagField::Length);
    let k5 = GroupKey::Exact(TagField::Genre);
    let k6 = GroupKey::Bitrate;
    let s7: Seq<GroupKey> = Seq::empty();
    let s6 = key_if(bits & 32 == 32, k6) + s7;
    let s5 = key_if(bits & 16 == 16, k5) + s6;
    let s4 = key_if(bits & 8 == 8, k4) + s5;
    let s3 = key_if(bits & 4 == 4, k3) + s4;
    let s2 = key_if(bits & 2 == 2, k2) + s3;
    let s1 = key_if(bits & 1 == 1, k1) + s2;
    assert(selected(params) == s1) by {
        lemma_six_lists(
            key_if(bits & 1 == 1, k1),
            key_if(bits & 2 == 2, k2),
            key_if(bits & 4 == 4, k3),
            key_if(bits & 8 == 8, k4),
            key_if(bits & 16 == 16, k5),
            key_if(bits & 32 == 32, k6),
        );
    }
    lemma_key_in_front(a, b, bits & 1 == 1, k1, s2);
    lemma_key_in_front(a, b, bits & 2 == 2, k2, s3);
    lemma_key_in_front(a, b, bits & 4 == 4, k3, s4);
    lemma_key_in_front(a, b, bits & 8 == 8, k4, s5);
    lemma_key_in_front(a, b, bits & 16 == 16, k5, s6);
    lemma_key_in_front(a, b, bits & 32 == 32, k6, s7);
    assert(!comes_before(a, b, s7));
}

/// The groups that a search by tags finds stand in the order of their titles, then artists, years,
/// lengths, genres and bitrates, as far as these are asked for.
pub proof fn law_groups_are_in_order_of_tags(tool: SameMusicModel, g: int, h: int)
    requires
        tool.music_entries.len() > 0,
        0 <= g < h < groups_by_tags(tool).len(),
    ensures
        groups_by_tags(tool)[g].len() > 0,
        groups_by_tags(tool)[h].len() > 0,
        is_before_by_tags(groups_by_tags(tool)[g][0], groups_by_tags(tool)[h][0], tool.params),
{
    let a = groups_by_tags(tool)[g][0];
    let b = groups_by_tags(tool)[h][0];
    law_groups_are_in_order_of_keys(tool.music_entries, selected(tool.params), g, h);
    lemma_order_by_tags(a, b, tool.params);
}

} // verus!
