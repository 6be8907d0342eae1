# czkawka

Finds duplicated music files, by their tags or by how they sound.

`src/` is a library verified with Verus:

| modules | what they hold |
| --- | --- |
| `text`, `simplified_name`, `name_laws`, `sorted_map`, `ieee` | texts, simplified titles and what holds of them, ordered maps, the order of floating point bit patterns |
| `music_entry`, `params`, `common`, `progress`, `cache` | files, settings, messages, stopping and counting, what is known from an earlier search |
| `tags`, `grouping`, `tag_laws`, `refinement_laws` | reading tags, groups of files that agree on them, what holds of those groups and how they stand to each other |
| `preset`, `fingerprinting`, `fingerprint_matching`, `sound_laws`, `splitting`, `sound_search` | fingerprints, which files are compared by sound, the groups that come of it, and what holds of them |
| `same_music`, `search_stages`, `report`, `path_laws`, `search_laws` | the search itself, its stages, its results as text, and what holds of a whole search |
| `about_buttons`, `notebook`, `taskbar_progress_dummy` | small parts of the graphical interface |

`app/` is ordinary Rust around it: files, threads, audio decoders, windows. What belongs to the
program as a whole (walking directories, cache files, deleting, showing progress) it takes from the
`Host` trait.

`tests/` runs the library.
