//! Which files are known from an earlier search.

use crate::music_entry::{bare_entry, models, EntryModel, FileEntry, MusicEntry};
use crate::sorted_map::{
    has_key, is_ascending, lemma_mapped, lemma_mapped_with_value, lemma_with_value, mapped,
    value_at, with_value, SortedMap,
};
use vstd::prelude::*;

verus! {

/// Files under their paths.
pub type EntryMap = SortedMap<MusicEntry>;

/// The model of files under their paths.
pub open spec fn map_models(pairs: Seq<(Seq<char>, MusicEntry)>) -> Seq<(Seq<char>, EntryModel)> {
    mapped(pairs, |entry: MusicEntry| entry@)
}

/// The files of a map in the order of their keys.
pub open spec fn values<V>(pairs: Seq<(Seq<char>, V)>) -> Seq<V> {
    Seq::new(pairs.len(), |i: int| pairs[i].1)
}

/// Stores files under their paths, on top of what is there. Of two files with one path the later
/// one counts.
pub open spec fn with_entries(pairs: Seq<(Seq<char>, EntryModel)>, entries: Seq<EntryModel>) -> Seq<
    (Seq<char>, EntryModel),
>
    decreases entries.len(),
{
    if entries.len() == 0 {
        pairs
    } else {
        with_value(
            with_entries(pairs, entries.drop_last()),
            entries.last().path,
            entries.last(),
        )
    }
}

/// What goes to a cache is all that it had and all that is new: its keys are the old ones and the
/// paths of the files, each with the last file of that path, or else with what was there.
pub proof fn law_saved_cache_holds_everything(
    pairs: Seq<(Seq<char>, EntryModel)>,
    entries: Seq<EntryModel>,
)
    requires
        is_ascending(pairs),
    ensures
        is_ascending(with_entries(pairs, entries)),
        forall|k: Seq<char>|
            (forall|i: int| 0 <= i < entries.len() ==> (#[trigger] entries[i]).path != k)
                ==> #[trigger] has_key(with_entries(pairs, entries), k) == has_key(pairs, k),
        forall|k: Seq<char>|
            (forall|i: int| 0 <= i < entries.len() ==> (#[trigger] entries[i]).path != k)
                && has_key(pairs, k) ==> #[trigger] value_at(with_entries(pairs, entries), k)
                == value_at(pairs, k),
        forall|j: int|
            0 <= j < entries.len() && (forall|i: int|
                j < i < entries.len() ==> (#[trigger] entries[i]).path != entries[j].path)
                ==> has_key(with_entries(pairs, entries), (#[trigger] entries[j]).path) && value_at(
                with_entries(pairs, entries),
                entries[j].path,
            ) == entries[j],
    decreases entries.len(),
{
    if entries.len() > 0 {
        let rest = entries.drop_last();
        let last = entries.last();
        let n = entries.len() - 1;
        let before = with_entries(pairs, rest);
        law_saved_cache_holds_everything(pairs, rest);
        lemma_with_value(before, last.path, last);
        let after = with_entries(pairs, entries);
        assert(entries[n] == last);
        assert forall|k: Seq<char>|
            (forall|i: int| 0 <= i < entries.len() ==> (#[trigger] entries[i]).path
                != k) implies #[trigger] has_key(after, k) == has_key(pairs, k) by {
            assert(k != last.path);
            assert forall|i: int| 0 <= i < rest.len() implies (#[trigger] rest[i]).path != k by {
                assert(rest[i] == entries[i]);
            }
            assert(has_key(before, k) == has_key(pairs, k));
        }
        assert forall|k: Seq<char>|
            (forall|i: int| 0 <= i < entries.len() ==> (#[trigger] entries[i]).path != k)
                && has_key(pairs, k) implies #[trigger] value_at(after, k) == value_at(pairs, k) by {
            assert(k != last.path);
            assert forall|i: int| 0 <= i < rest.len() implies (#[trigger] rest[i]).path != k by {
                assert(rest[i] == entries[i]);
            }
            assert(has_key(before, k) == has_key(pairs, k));
            assert(value_at(before, k) == value_at(pairs, k));
        }
        assert forall|j: int|
            0 <= j < entries.len() && (forall|i: int|
                j < i < entries.len() ==> (#[trigger] entries[i]).path
                    != entries[j].path) implies has_key(after, (#[trigger] entries[j]).path)
            && value_at(after, entries[j].path) == entries[j] by {
            if j < n {
                assert(entries[j].path != last.path);
                assert(rest[j] == entries[j]);
                assert forall|i: int| j < i < rest.len() implies (#[trigger] rest[i]).path
                    != rest[j].path by {
                    assert(rest[i] == entries[i]);
                }
                assert(has_key(before, rest[j].path));
                assert(value_at(before, rest[j].path) == rest[j]);
            }
        }
    }
}

/// Stores one more file under its path.
pub fn store_entry(map: &mut EntryMap, entry: MusicEntry)
    ensures
        map_models(final(map)@) == with_value(map_models(old(map)@), entry@.path, entry@),
        is_ascending(final(map)@),
{
    let ghost before = map@;
    map.insert(entry.path.clone(), entry);
    proof {
        lemma_mapped_with_value(before, |e: MusicEntry| e@, entry.path@, entry);
    }
}

/// Stores files under their paths.
pub fn store_entries(map: &mut EntryMap, entries: Vec<MusicEntry>)
    ensures
        map_models(final(map)@) == with_entries(map_models(old(map)@), models(entries@)),
{
    let ghost before = map_models(map@);
    let ghost all = models(entries@);
    assert(with_entries(before, all.take(0)) == before);
    for entry in it: entries.into_iter()
        invariant
            it.seq() == entries@,
            all == models(entries@),
            map_models(map@) == with_entries(before, all.take(it.index())),
    {
        proof {
            let i = it.index();
            assert(all.take(i + 1).drop_last() =~= all.take(i));
            assert(all.take(i + 1).last() == entry@);
        }
        store_entry(map, entry);
    }
    assert(all.take(all.len() as int) =~= all);
}

/// Found files under their paths, with nothing read of them yet.
pub open spec fn bare_entries(files: Seq<FileEntry>) -> Seq<EntryModel> {
    Seq::new(files.len(), |i: int| bare_entry(files[i].path@, files[i].size, files[i].modified_date))
}

/// Puts found files under their paths.
pub fn entries_to_check(files: Vec<FileEntry>) -> (r: EntryMap)
    ensures
        map_models(r@) == with_entries(Seq::empty(), bare_entries(files@)),
{
    let mut entries: Vec<MusicEntry> = Vec::new();
    for file in it: files.into_iter()
        invariant
            it.seq() == files@,
            entries@.len() == it.index(),
            forall|j: int|
                0 <= j < it.index() ==> (#[trigger] entries@[j])@ == bare_entries(files@)[j],
    {
        entries.push(file.into_music_entry());
    }
    assert(models(entries@) =~= bare_entries(files@));
    let mut r: EntryMap = SortedMap::new();
    assert(map_models(r@) =~= Seq::empty());
    store_entries(&mut r, entries);
    r
}

/// The files of a map in the order of their paths.
pub fn into_values(map: EntryMap) -> (r: Vec<MusicEntry>)
    ensures
        models(r@) == values(map_models(map@)),
{
    let ghost pairs = map@;
    let list = map.into_pairs();
    let mut r: Vec<MusicEntry> = Vec::new();
    for pair in it: list.into_iter()
        invariant
            it.seq() == list@,
            list@.len() == pairs.len(),
            forall|i: int| 0 <= i < list@.len() ==> pairs[i] == (#[trigger] list@[i].0@, list@[i].1),
            r@.len() == it.index(),
            forall|j: int| 0 <= j < it.index() ==> (#[trigger] r@[j]) == pairs[j].1,
    {
        assert(pairs[it.index()] == (list@[it.index()].0@, list@[it.index()].1));
        r.push(pair.1);
    }
    assert(models(r@) =~= values(map_models(pairs)));
    r
}

/// The records of a cache for those files that it has.
pub open spec fn cached_part(
    files: Seq<(Seq<char>, EntryModel)>,
    loaded: Seq<(Seq<char>, EntryModel)>,
) -> Seq<(Seq<char>, EntryModel)>
    decreases files.len(),
{
    if files.len() == 0 {
        Seq::empty()
    } else {
        let before = cached_part(files.drop_last(), loaded);
        let key = files.last().0;
        if has_key(loaded, key) {
            with_value(before, key, value_at(loaded, key))
        } else {
            before
        }
    }
}

/// The files that a cache does not have.
pub open spec fn missing_part(
    files: Seq<(Seq<char>, EntryModel)>,
    loaded: Seq<(Seq<char>, EntryModel)>,
) -> Seq<(Seq<char>, EntryModel)>
    decreases files.len(),
{
    if files.len() == 0 {
        Seq::empty()
    } else {
        let before = missing_part(files.drop_last(), loaded);
        if has_key(loaded, files.last().0) {
            before
        } else {
            with_value(before, files.last().0, files.last().1)
        }
    }
}

/// Parts the files to check into those that a cache has, with the records of the cache, and the
/// others.
pub fn extract_loaded_cache(loaded: &EntryMap, files_to_check: EntryMap) -> (r: (EntryMap, EntryMap))
    ensures
        map_models(r.0@) == cached_part(map_models(files_to_check@), map_models(loaded@)),
        map_models(r.1@) == missing_part(map_models(files_to_check@), map_models(loaded@)),
{
    let ghost all = map_models(files_to_check@);
    let ghost known = map_models(loaded@);
    let ghost pairs = files_to_check@;
    let list = files_to_check.into_pairs();
    let mut cached: EntryMap = SortedMap::new();
    let mut missing: EntryMap = SortedMap::new();
    assert(map_models(cached@) =~= cached_part(all.take(0), known));
    assert(map_models(missing@) =~= missing_part(all.take(0), known));
    for pair in it: list.into_iter()
        invariant
            it.seq() == list@,
            list@.len() == pairs.len(),
            forall|i: int| 0 <= i < list@.len() ==> pairs[i] == (#[trigger] list@[i].0@, list@[i].1),
            all == map_models(pairs),
            known == map_models(loaded@),
            map_models(cached@) == cached_part(all.take(it.index()), known),
            map_models(missing@) == missing_part(all.take(it.index()), known),
    {
        proof {
            let i = it.index();
            assert(pairs[i] == (list@[i].0@, list@[i].1));
            assert(all.take(i + 1).drop_last() =~= all.take(i));
            assert(all.take(i + 1).last() == (pair.0@, pair.1@));
        }
        let (key, entry) = pair;
        let ghost before_cached = cached@;
        let ghost before_missing = missing@;
        let found = loaded.get(key.as_str());
        proof {
            lemma_mapped(loaded@, |e: MusicEntry| e@, key@);
        }
        match found {
            Some(record) => {
                let record = record.clone();
                cached.insert(key, record);
                proof {
                    lemma_mapped_with_value(before_cached, |e: MusicEntry| e@, key@, record);
                }
            },
            None => {
                missing.insert(key, entry);
                proof {
                    lemma_mapped_with_value(before_missing, |e: MusicEntry| e@, key@, entry);
                }
            },
        }
    }
    assert(all.take(all.len() as int) =~= all);
    (cached, missing)
}

/// Every file to check goes to exactly one of the two parts; a file goes to the cached part, with
/// the record of the cache, exactly if the cache has its path.
pub proof fn law_cache_parts_files(
    files: Seq<(Seq<char>, EntryModel)>,
    loaded: Seq<(Seq<char>, EntryModel)>,
    key: Seq<char>,
)
    requires
        is_ascending(files),
    ensures
        is_ascending(cached_part(files, loaded)),
        is_ascending(missing_part(files, loaded)),
        has_key(cached_part(files, loaded), key) <==> has_key(files, key) && has_key(loaded, key),
        has_key(missing_part(files, loaded), key) <==> has_key(files, key) && !has_key(loaded, key),
        has_key(files, key) && has_key(loaded, key) ==> value_at(cached_part(files, loaded), key)
            == value_at(loaded, key),
        has_key(files, key) && !has_key(loaded, key) ==> value_at(missing_part(files, loaded), key)
            == value_at(files, key),
    decreases files.len(),
{
    if files.len() > 0 {
        let n = files.len() - 1;
        let rest = files.drop_last();
        let (last_key, last_value) = files.last();
        assert(is_ascending(rest)) by {
            assert forall|i: int, j: int| 0 <= i < j < rest.len() implies crate::text::text_less(
                #[trigger] rest[i].0,
                #[trigger] rest[j].0,
            ) by {
                assert(rest[i] == files[i] && rest[j] == files[j]);
            }
        }
        law_cache_parts_files(rest, loaded, key);
        if has_key(loaded, last_key) {
            lemma_with_value(cached_part(rest, loaded), last_key, value_at(loaded, last_key));
        } else {
            lemma_with_value(missing_part(rest, loaded), last_key, last_value);
        }
        assert(files[n].0 == last_key);
        crate::sorted_map::lemma_rank_parts(files, key);
        crate::sorted_map::lemma_rank_parts(rest, key);
        if has_key(rest, key) {
            let i = choose|i: int| 0 <= i < rest.len() && #[trigger] rest[i].0 == key;
            assert(files[i].0 == key);
            assert(crate::text::text_less(files[i].0, files[n].0));
            crate::text::lemma_text_order(key, last_key, key);
        }
        if has_key(files, key) && key != last_key {
            let i = choose|i: int| 0 <= i < files.len() && #[trigger] files[i].0 == key;
            assert(rest[i].0 == key);
        }
    }
}

/// What was saved is found again: a file to check whose path is that of a saved file comes with the
/// last such file.
pub proof fn law_saved_files_are_found_again(
    files: Seq<(Seq<char>, EntryModel)>,
    loaded: Seq<(Seq<char>, EntryModel)>,
    entries: Seq<EntryModel>,
    j: int,
)
    requires
        is_ascending(files),
        is_ascending(loaded),
        0 <= j < entries.len(),
        forall|i: int| j < i < entries.len() ==> (#[trigger] entries[i]).path != entries[j].path,
        has_key(files, entries[j].path),
    ensures
        has_key(cached_part(files, with_entries(loaded, entries)), entries[j].path),
        value_at(cached_part(files, with_entries(loaded, entries)), entries[j].path) == entries[j],
        !has_key(missing_part(files, with_entries(loaded, entries)), entries[j].path),
{
    law_saved_cache_holds_everything(loaded, entries);
    law_cache_parts_files(files, with_entries(loaded, entries), entries[j].path);
    assert(has_key(with_entries(loaded, entries), entries[j].path));
}

} // verus!
