//! What each step of a search does to its state, and what it leaves alone.

use crate::cache::{
    bare_entries, cached_part, law_cache_parts_files, law_saved_cache_holds_everything, map_models,
    missing_part, with_entries, EntryMap,
};
use crate::common::{CommonModel, MessagesModel, TextMessages};
use crate::fingerprint_matching::{PairModel, PairOutcome};
use crate::fingerprinting::{EventModel, StreamEvent};
use crate::grouping::{grouped, keyed_by, large_groups, lemma_grouped, under_key, GroupKey};
use crate::music_entry::{EntryModel, MusicEntry};
use crate::params::WorkContinueStatus;
use crate::same_music::{
    after_deleting, after_loading, after_walk, files_to_fingerprint, is_cache_of,
    law_compared_files_are_fingerprinted, lemma_nothing_cached, readable, total_referenced,
    with_cache_messages, with_files_to_fingerprint, with_referenced, with_results, without_groups,
    DirTraversalResult, LoadedCache, SameMusicModel,
};
use crate::search_stages::{begun, with_stopped_search};
use crate::simplified_name::simplified;
use crate::sorted_map::{has_key, is_ascending, lemma_rank_parts, lemma_with_value, value_at};
use crate::splitting::GroupedFilesToCheck;
use crate::tag_laws::{has_pair, lemma_under_key, lemma_under_key_keeps_order};
use vstd::prelude::*;

verus! {

/// What a music file is known by, in its model.
pub proof fn law_model_has_every_field(entry: MusicEntry)
    ensures
        entry@.size == entry.size,
        entry@.path == entry.path@,
        entry@.modified_date == entry.modified_date,
        entry@.fingerprint == entry.fingerprint@,
        entry@.track_title == entry.track_title@,
        entry@.track_artist == entry.track_artist@,
        entry@.year == entry.year@,
        entry@.length == entry.length@,
        entry@.genre == entry.genre@,
        entry@.bitrate == entry.bitrate,
{
}

/// What else is handed in and out, in its model.
pub proof fn law_models_tell_what_is_there(
    group: GroupedFilesToCheck,
    i: int,
    messages: TextMessages,
    event: StreamEvent,
    outcome: PairOutcome,
)
    ensures
        group@.base_files.len() == group.base_files@.len(),
        group@.files_to_compare.len() == group.files_to_compare@.len(),
        0 <= i < group.base_files@.len() ==> group@.base_files[i] == group.base_files@[i]@,
        0 <= i < group.files_to_compare@.len() ==> group@.files_to_compare[i]
            == group.files_to_compare@[i]@,
        messages@.messages.len() == messages.messages@.len(),
        messages@.warnings.len() == messages.warnings@.len(),
        messages@.errors.len() == messages.errors@.len(),
        0 <= i < messages.messages@.len() ==> messages@.messages[i] == messages.messages@[i]@,
        0 <= i < messages.warnings@.len() ==> messages@.warnings[i] == messages.warnings@[i]@,
        0 <= i < messages.errors@.len() ==> messages@.errors[i] == messages.errors@[i]@,
        event is EndOfStream <==> event@ is EndOfStream,
        event is DamagedPacket <==> event@ is DamagedPacket,
        event is DecoderFailed <==> event@ is DecoderFailed,
        event matches StreamEvent::Packet { track_id } ==> event@ == (EventModel::Packet {
            track_id,
        }),
        event matches StreamEvent::Samples(samples) ==> event@ == EventModel::Samples(samples@),
        outcome is Similar <==> outcome@ is Similar,
        outcome is Nothing <==> outcome@ is Nothing,
        outcome matches PairOutcome::Failed(message) ==> outcome@ == PairModel::Failed(message@),
{
}

/// Whether a file is the last of its path in a list.
pub open spec fn is_last_of_path(entries: Seq<EntryModel>, j: int) -> bool {
    &&& 0 <= j < entries.len()
    &&& forall|i: int| j < i < entries.len() ==> (#[trigger] entries[i]).path != entries[j].path
}

/// A list that is stored in an empty map leaves the last file of each path there, under its path,
/// and nothing else.
pub proof fn law_stored_list(entries: Seq<EntryModel>)
    ensures
        ({
            let pairs = with_entries(Seq::empty(), entries);
            &&& is_ascending(pairs)
            &&& forall|j: int|
                is_last_of_path(entries, j) ==> pairs.contains(
                    ((#[trigger] entries[j]).path, entries[j]),
                )
            &&& forall|k: int|
                0 <= k < pairs.len() ==> {
                    &&& (#[trigger] pairs[k]).0 == pairs[k].1.path
                    &&& entries.contains(pairs[k].1)
                }
        }),
{
    let pairs = with_entries(Seq::empty(), entries);
    law_saved_cache_holds_everything(Seq::empty(), entries);
    assert forall|j: int| is_last_of_path(entries, j) implies pairs.contains(
        ((#[trigger] entries[j]).path, entries[j]),
    ) by {
        assert(has_key(pairs, entries[j].path));
        assert(value_at(pairs, entries[j].path) == entries[j]);
        lemma_rank_parts(pairs, entries[j].path);
    }
    lemma_stored_list(entries);
}

proof fn lemma_stored_list(entries: Seq<EntryModel>)
    ensures
        ({
            let pairs = with_entries(Seq::empty(), entries);
            &&& is_ascending(pairs)
            &&& forall|k: int|
                0 <= k < pairs.len() ==> {
                    &&& (#[trigger] pairs[k]).0 == pairs[k].1.path
                    &&& entries.contains(pairs[k].1)
                }
        }),
    decreases entries.len(),
{
    let pairs = with_entries(Seq::empty(), entries);
    if entries.len() > 0 {
        let rest = entries.drop_last();
        let last = entries.last();
        let before = with_entries(Seq::empty(), rest);
        lemma_stored_list(rest);
        lemma_with_value(before, last.path, last);
        lemma_rank_parts(before, last.path);
        assert forall|k: int| 0 <= k < pairs.len() implies {
            &&& (#[trigger] pairs[k]).0 == pairs[k].1.path
            &&& entries.contains(pairs[k].1)
        } by {
            if pairs[k] == (last.path, last) {
                assert(entries[entries.len() - 1] == last);
            } else {
                assert(before.contains(pairs[k]));
                let b = choose|b: int| 0 <= b < before.len() && before[b] == pairs[k];
                assert(before[b].0 == before[b].1.path);
                assert(rest.contains(before[b].1));
                let i = choose|i: int| 0 <= i < rest.len() && rest[i] == before[b].1;
                assert(entries[i] == pairs[k].1);
            }
        }
    }
}

/// Whether a music file is one as it was found: with path, size and date, and nothing read of it.
pub open spec fn is_as_found(
    entry: EntryModel,
    path: Seq<char>,
    size: u64,
    modified_date: u64,
) -> bool {
    &&& entry.path == path
    &&& entry.size == size
    &&& entry.modified_date == modified_date
    &&& entry.fingerprint.len() == 0
    &&& entry.track_title.len() == 0
    &&& entry.track_artist.len() == 0
    &&& entry.year.len() == 0
    &&& entry.length.len() == 0
    &&& entry.genre.len() == 0
    &&& entry.bitrate == 0
}

/// After a walk the files to check are the files found, each under its path and with nothing read of
/// it; of two with one path the later counts. The warnings are added to those there were. A walk that
/// was stopped, or had no extensions to look for, changes nothing.
pub proof fn law_found_files_are_to_be_checked(tool: SameMusicModel, walk: DirTraversalResult)
    ensures
        ({
            let (after, status) = after_walk(tool, walk@);
            match walk {
                DirTraversalResult::NoExtensions => after == tool && status
                    == WorkContinueStatus::Continue,
                DirTraversalResult::Stopped => after == tool && status == WorkContinueStatus::Stop,
                DirTraversalResult::SuccessFiles { file_entries, warnings } => {
                    let files = file_entries@;
                    let to_check = after.music_to_check;
                    let messages = after.common_data.text_messages;
                    let old_messages = tool.common_data.text_messages;
                    &&& status == WorkContinueStatus::Continue
                    &&& forall|j: int|
                        0 <= j < files.len() && (forall|i: int|
                            j < i < files.len() ==> (#[trigger] files[i]).path@ != files[j].path@)
                            ==> exists|k: int|
                            0 <= k < to_check.len() && (#[trigger] to_check[k]).0 == (
                            #[trigger] files[j]).path@ && is_as_found(
                                to_check[k].1,
                                files[j].path@,
                                files[j].size,
                                files[j].modified_date,
                            )
                    &&& forall|k: int|
                        0 <= k < to_check.len() ==> exists|j: int|
                            0 <= j < files.len() && (#[trigger] to_check[k]).0 == (
                            #[trigger] files[j]).path@ && is_as_found(
                                to_check[k].1,
                                files[j].path@,
                                files[j].size,
                                files[j].modified_date,
                            )
                    &&& is_ascending(to_check)
                    &&& messages.warnings.len() == old_messages.warnings.len() + warnings@.len()
                    &&& old_messages.warnings.is_prefix_of(messages.warnings)
                    &&& forall|i: int|
                        0 <= i < warnings@.len() ==> messages.warnings[old_messages.warnings.len()
                            + i] == (#[trigger] warnings@[i])@
                    &&& after == (SameMusicModel {
                        music_to_check: to_check,
                        common_data: CommonModel {
                            text_messages: MessagesModel {
                                warnings: messages.warnings,
                                ..old_messages
                            },
                            ..tool.common_data
                        },
                        ..tool
                    })
                },
            }
        }),
{
    if let DirTraversalResult::SuccessFiles { file_entries, warnings } = walk {
        let files = file_entries@;
        let entries = bare_entries(files);
        let to_check = with_entries(Seq::empty(), entries);
        law_stored_list(entries);
        assert forall|j: int|
            0 <= j < files.len() && (forall|i: int|
                j < i < files.len() ==> (#[trigger] files[i]).path@ != files[j].path@) implies exists|
            k: int,
        |
            0 <= k < to_check.len() && (#[trigger] to_check[k]).0 == (#[trigger] files[j]).path@
                && is_as_found(
                to_check[k].1,
                files[j].path@,
                files[j].size,
                files[j].modified_date,
            ) by {
            assert forall|i: int| j < i < entries.len() implies (#[trigger] entries[i]).path
                != entries[j].path by {
                assert(files[i].path@ != files[j].path@);
            }
            assert(is_last_of_path(entries, j));
            assert(to_check.contains((entries[j].path, entries[j])));
            let k = choose|k: int|
                0 <= k < to_check.len() && to_check[k] == (entries[j].path, entries[j]);
            assert(to_check[k].0 == files[j].path@);
        }
        assert forall|k: int| 0 <= k < to_check.len() implies exists|j: int|
            0 <= j < files.len() && (#[trigger] to_check[k]).0 == (#[trigger] files[j]).path@
                && is_as_found(
                to_check[k].1,
                files[j].path@,
                files[j].size,
                files[j].modified_date,
            ) by {
            assert(entries.contains(to_check[k].1));
            let j = choose|j: int| 0 <= j < entries.len() && entries[j] == to_check[k].1;
            assert(to_check[k].0 == files[j].path@);
        }
    }
}

/// What came of reading some files and then others is what came of the former and then the latter; a
/// file that could not be read is left out.
pub proof fn law_read_files_add_up(a: Seq<Option<EntryModel>>, b: Seq<Option<EntryModel>>)
    ensures
        readable(a + b) == readable(a) + readable(b),
        forall|entry: EntryModel| #[trigger] readable(seq![Some(entry)]) == seq![entry],
        readable(seq![None]) == Seq::<EntryModel>::empty(),
    decreases b.len(),
{
    assert(readable(Seq::empty()) =~= Seq::empty());
    assert(seq![None::<EntryModel>].drop_last() =~= Seq::empty());
    assert forall|entry: EntryModel| #[trigger] readable(seq![Some(entry)]) == seq![entry] by {
        assert(seq![Some(entry)].drop_last() =~= Seq::empty());
        assert(readable(seq![Some(entry)]) =~= seq![entry]);
    }
    if b.len() == 0 {
        assert(a + b =~= a);
        assert(readable(a) + readable(b) =~= readable(a));
    } else {
        law_read_files_add_up(a, b.drop_last());
        assert((a + b).drop_last() =~= a + b.drop_last());
        assert(readable(a + b) =~= readable(a) + readable(b));
    }
}

/// The files to compare are those that were read, in their order, and then those that the cache had,
/// in the order of their paths. Everything else is as it was.
pub proof fn law_files_to_compare_are_read_or_cached(
    tool: SameMusicModel,
    results: Seq<Option<EntryModel>>,
    cached: Seq<(Seq<char>, EntryModel)>,
)
    ensures
        ({
            let after = with_results(tool, results, cached);
            let n = readable(results).len();
            &&& after.music_entries.len() == n + cached.len()
            &&& after.music_entries.take(n as int) == readable(results)
            &&& forall|i: int|
                0 <= i < cached.len() ==> after.music_entries[n + i] == (#[trigger] cached[i]).1
            &&& after == (SameMusicModel { music_entries: after.music_entries, ..tool })
        }),
{
    let after = with_results(tool, results, cached);
    assert(after.music_entries.take(readable(results).len() as int) =~= readable(results));
}

/// Whether messages are others with some more at the end of each kind.
pub open spec fn are_extended(
    after: MessagesModel,
    before: MessagesModel,
    more: MessagesModel,
) -> bool {
    &&& after.messages == before.messages + more.messages
    &&& after.warnings == before.warnings + more.warnings
    &&& after.errors == before.errors + more.errors
}

/// The messages of a cache are added, each to those of its kind, if caches are used; otherwise they
/// are dropped. Nothing else changes, except that loading a cache takes the files to check away.
pub proof fn law_cache_messages_are_added(tool: SameMusicModel, messages: MessagesModel)
    ensures
        ({
            let after = with_cache_messages(tool, messages);
            let loaded = after_loading(tool, messages);
            &&& tool.common_data.use_cache ==> are_extended(
                after.common_data.text_messages,
                tool.common_data.text_messages,
                messages,
            )
            &&& !tool.common_data.use_cache ==> after == tool
            &&& after == (SameMusicModel {
                common_data: CommonModel {
                    text_messages: after.common_data.text_messages,
                    ..tool.common_data
                },
                ..tool
            })
            &&& loaded == (SameMusicModel { music_to_check: Seq::empty(), ..after })
        }),
{
}

/// Deleting does nothing unless it is asked for. Then it adds its messages, each to those of its
/// kind, and ends as the deletion ended; the results stay.
pub proof fn law_deleting_adds_messages(
    tool: SameMusicModel,
    messages: MessagesModel,
    status: WorkContinueStatus,
)
    ensures
        ({
            let (after, end) = after_deleting(tool, (messages, status));
            &&& !tool.common_data.delete_requested ==> after == tool && end
                == WorkContinueStatus::Continue
            &&& tool.common_data.delete_requested ==> end == status && are_extended(
                after.common_data.text_messages,
                tool.common_data.text_messages,
                messages,
            )
            &&& after == (SameMusicModel {
                common_data: CommonModel {
                    text_messages: after.common_data.text_messages,
                    ..tool.common_data
                },
                ..tool
            })
        }),
{
}

/// With a cache, a file to check is parted from the others exactly if the cache has a record under
/// its path, and that record takes its place; the others are to be read as they are. Without a cache
/// all are to be read as they are.
pub proof fn law_cache_decides_what_is_read(
    tool: SameMusicModel,
    loaded_items: Option<EntryMap>,
    cache: LoadedCache,
    key: Seq<char>,
    entry: EntryModel,
)
    requires
        is_cache_of(tool, loaded_items, cache),
        is_ascending(tool.music_to_check),
        loaded_items matches Some(items) ==> is_ascending(map_models(items@)),
    ensures
        ({
            let files = tool.music_to_check;
            let cached = map_models(cache.records_already_cached@);
            let missing = map_models(cache.non_cached_files_to_check@);
            let loaded = map_models(cache.loaded@);
            let is_file = exists|i: int| 0 <= i < files.len() && (#[trigger] files[i]).0 == key;
            let is_loaded = exists|i: int| 0 <= i < loaded.len() && (#[trigger] loaded[i]).0 == key;
            &&& tool.common_data.use_cache && loaded_items is Some ==> loaded == map_models(
                loaded_items->0@,
            )
            &&& !tool.common_data.use_cache || loaded_items is None ==> loaded.len() == 0
            &&& cached.contains((key, entry)) <==> is_file && loaded.contains((key, entry))
            &&& missing.contains((key, entry)) <==> files.contains((key, entry)) && !is_loaded
            &&& !tool.common_data.use_cache ==> missing == files && cached.len() == 0
        }),
{
    let files = tool.music_to_check;
    let loaded = map_models(cache.loaded@);
    let cached = cached_part(files, loaded);
    law_cache_parts_files(files, loaded, key);
    lemma_contains(files, key, entry);
    lemma_contains(loaded, key, entry);
    lemma_contains(cached, key, entry);
    lemma_contains(missing_part(files, loaded), key, entry);
    if !tool.common_data.use_cache {
        lemma_nothing_cached(files);
        assert(loaded =~= Seq::empty());
    }
}

/// In ascending pairs there is a pair exactly if its key is there with its value.
proof fn lemma_contains(pairs: Seq<(Seq<char>, EntryModel)>, key: Seq<char>, entry: EntryModel)
    requires
        is_ascending(pairs),
    ensures
        pairs.contains((key, entry)) <==> has_key(pairs, key) && value_at(pairs, key) == entry,
{
    lemma_rank_parts(pairs, key);
    if pairs.contains((key, entry)) {
        let i = choose|i: int| 0 <= i < pairs.len() && pairs[i] == (key, entry);
        assert(pairs[i].0 == key);
    }
}

/// Whether another file of a list has the same simplified title as one of it, and not an empty one.
pub open spec fn has_title_mate(entries: Seq<EntryModel>, i: int) -> bool {
    &&& simplified(entries[i].track_title).len() > 0
    &&& exists|j: int|
        0 <= j < entries.len() && j != i && simplified((#[trigger] entries[j]).track_title)
            == simplified(entries[i].track_title)
}

/// Whether a file stands at some place of a list where it has a mate with the same simplified title.
pub open spec fn is_mated(entries: Seq<EntryModel>, entry: EntryModel) -> bool {
    exists|k: int|
        0 <= k < entries.len() && entries[k] == entry && #[trigger] has_title_mate(entries, k)
}

/// The files that fingerprints are wanted of are all files to compare, or, if only similar titles
/// are compared, those that have a mate with the same simplified title. They go to the files to
/// check, under their paths, and no files to compare are left. Everything else is as it was.
pub proof fn law_files_with_mates_are_fingerprinted(tool: SameMusicModel, i: int)
    requires
        0 <= i < tool.music_entries.len(),
    ensures
        ({
            let entries = tool.music_entries;
            let only_similar = tool.params.compare_fingerprints_only_with_similar_titles;
            let wanted = files_to_fingerprint(entries, only_similar);
            let after = with_files_to_fingerprint(tool);
            &&& !only_similar ==> wanted == entries
            &&& only_similar ==> {
                &&& has_title_mate(entries, i) ==> wanted.contains(entries[i])
                &&& forall|p: int|
                    0 <= p < wanted.len() ==> is_mated(entries, #[trigger] wanted[p])
            }
            &&& forall|j: int|
                is_last_of_path(wanted, j) ==> after.music_to_check.contains(
                    ((#[trigger] wanted[j]).path, wanted[j]),
                )
            &&& forall|k: int|
                0 <= k < after.music_to_check.len() ==> {
                    &&& (#[trigger] after.music_to_check[k]).0 == after.music_to_check[k].1.path
                    &&& wanted.contains(after.music_to_check[k].1)
                }
            &&& is_ascending(after.music_to_check)
            &&& after == (SameMusicModel {
                music_to_check: after.music_to_check,
                music_entries: Seq::empty(),
                ..tool
            })
        }),
{
    let entries = tool.music_entries;
    let only_similar = tool.params.compare_fingerprints_only_with_similar_titles;
    law_stored_list(files_to_fingerprint(entries, only_similar));
    if only_similar {
        lemma_fingerprinted_have_mates(entries);
        if has_title_mate(entries, i) {
            let j = choose|j: int|
                0 <= j < entries.len() && j != i && simplified(
                    (#[trigger] entries[j]).track_title,
                ) == simplified(entries[i].track_title);
            let keys = seq![GroupKey::SimilarTitle];
            let (p, q) = if i < j {
                (i, j)
            } else {
                (j, i)
            };
            assert(has_pair(entries, entries[p], entries[q]));
            law_compared_files_are_fingerprinted(
                entries,
                true,
                entries[p],
                entries[q],
            );
        }
    }
}

proof fn lemma_fingerprinted_have_mates(entries: Seq<EntryModel>)
    ensures
        forall|p: int|
            0 <= p < files_to_fingerprint(entries, true).len() ==> is_mated(
                entries,
                #[trigger] files_to_fingerprint(entries, true)[p],
            ),
{
    let keyed = keyed_by(entries, GroupKey::SimilarTitle);
    let pairs = grouped(keyed);
    let groups = large_groups(pairs);
    let wanted = files_to_fingerprint(entries, true);
    lemma_grouped(keyed);
    assert forall|p: int| 0 <= p < wanted.len() implies is_mated(entries, #[trigger] wanted[p]) by {
        assert(wanted.contains(wanted[p]));
        let g = lemma_flatten_member(groups, wanted[p]);
        let i = lemma_large_origin(pairs, g);
        let title = pairs[i].0;
        let list = pairs[i].1;
        assert(list == under_key(keyed, title));
        let m = choose|m: int| 0 <= m < list.len() && list[m] == wanted[p];
        let other: int = if m == 0 {
            1
        } else {
            0
        };
        let (a, b) = if m < other {
            (m, other)
        } else {
            (other, m)
        };
        lemma_under_key_keeps_order(
            entries,
            GroupKey::SimilarTitle,
            title,
            a,
            b,
        );
        lemma_under_key(entries, GroupKey::SimilarTitle, title);
        assert(entries.contains(under_key(keyed, title)[m]));
        assert(entries.contains(under_key(keyed, title)[other]));
        let (x, y) = choose|x: int, y: int|
            0 <= x < y < entries.len() && #[trigger] entries[x] == list[a] && #[trigger] entries[y]
                == list[b];
        let (k, j) = if m < other {
            (x, y)
        } else {
            (y, x)
        };
        assert(simplified(entries[k].track_title) == title);
        assert(simplified(entries[j].track_title) == title);
        assert(has_title_mate(entries, k));
    }
}

proof fn lemma_flatten_member(groups: Seq<Seq<EntryModel>>, entry: EntryModel) -> (g: int)
    requires
        groups.flatten().contains(entry),
    ensures
        0 <= g < groups.len(),
        groups[g].contains(entry),
    decreases groups.len(),
{
    let all = groups.flatten();
    let n = choose|n: int| 0 <= n < all.len() && all[n] == entry;
    if groups.len() == 0 {
        assert(all =~= Seq::empty());
        0
    } else {
        let first = groups.first();
        let rest = groups.drop_first();
        assert(all == first + rest.flatten());
        if n < first.len() {
            assert(first[n] == entry);
            0
        } else {
            assert(rest.flatten()[n - first.len()] == entry);
            let g = lemma_flatten_member(rest, entry);
            assert(groups[g + 1] == rest[g]);
            g + 1
        }
    }
}

proof fn lemma_large_origin(pairs: Seq<(Seq<char>, Seq<EntryModel>)>, g: int) -> (i: int)
    requires
        0 <= g < large_groups(pairs).len(),
    ensures
        0 <= i < pairs.len(),
        large_groups(pairs)[g] == pairs[i].1,
        pairs[i].1.len() > 1,
    decreases pairs.len(),
{
    let before = large_groups(pairs.drop_last());
    if g < before.len() {
        let i = lemma_large_origin(pairs.drop_last(), g);
        assert(pairs.drop_last()[i] == pairs[i]);
        i
    } else {
        pairs.len() - 1
    }
}

/// The files beside reference files, one list after the other.
pub open spec fn referenced_files(referenced: Seq<(EntryModel, Seq<EntryModel>)>) -> Seq<
    EntryModel,
> {
    Seq::new(referenced.len(), |i: int| referenced[i].1).flatten()
}

/// Reference files take the place of groups: each counts as a group, and every file beside one as a
/// duplicate. Everything else is as it was.
pub proof fn law_reference_files_are_counted(
    tool: SameMusicModel,
    referenced: Seq<(EntryModel, Seq<EntryModel>)>,
)
    ensures
        with_referenced(without_groups(tool), referenced) == (SameMusicModel {
            duplicated_music_entries: Seq::empty(),
            duplicated_music_entries_referenced: referenced,
            number_of_groups: tool.number_of_groups + referenced.len(),
            number_of_duplicates: tool.number_of_duplicates + referenced_files(referenced).len(),
            ..tool
        }),
{
    lemma_referenced_files(referenced);
}

proof fn lemma_referenced_files(referenced: Seq<(EntryModel, Seq<EntryModel>)>)
    ensures
        total_referenced(referenced) == referenced_files(referenced).len(),
    decreases referenced.len(),
{
    let lists = Seq::new(referenced.len(), |i: int| referenced[i].1);
    lists.lemma_flatten_and_flatten_alt_are_equivalent();
    if referenced.len() > 0 {
        let rest = referenced.drop_last();
        let rest_lists = Seq::new(rest.len(), |i: int| rest[i].1);
        lemma_referenced_files(rest);
        assert(lists.drop_last() =~= rest_lists);
        rest_lists.lemma_flatten_and_flatten_alt_are_equivalent();
    }
}

/// A search begins with reference folders in use exactly if there are any, and with nothing else
/// changed; and a search that is stopped changes nothing but that it remembers so.
pub proof fn law_beginning_and_stopping(tool: SameMusicModel)
    ensures
        begun(tool).common_data.use_reference_folders <==> tool.common_data.reference_directories.len()
            > 0,
        begun(tool) == (SameMusicModel {
            common_data: CommonModel {
                use_reference_folders: begun(tool).common_data.use_reference_folders,
                ..tool.common_data
            },
            ..tool
        }),
        with_stopped_search(tool, true).common_data.stopped_search,
        with_stopped_search(tool, true) == (SameMusicModel {
            common_data: CommonModel { stopped_search: true, ..tool.common_data },
            ..tool
        }),
{
}

} // verus!
