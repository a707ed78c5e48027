# dupe-rs

A duplicate-file finder for Windows, with its logic verified by
[Verus](https://github.com/verus-lang/verus).

- **Exact duplicates**: byte-identical files found via content hashing (blake3), with a cheap
  partial-hash pre-filter so large trees don't pay for a full read of every file.
- **Similar media**: images and videos that look like the same shot at a different resolution,
  found via perceptual hashing. Needs ffmpeg on `PATH` to compare videos.
- **Matching files**: everything that passes the size, extension and name filters.
- **Reverse search**: an index of file hashes over all drives, to find the copies of one file.
- **Drive fill**: the set of folders that fills a drive best, copied and indexed.
- **Re-encode**: images and videos in more efficient formats, kept only when smaller.
- **Flatten**: the files of all subfolders in one folder, with undo.

## Layout

`src/` is the library. It reads no file, draws nothing and starts no thread: it takes what was
read and decides what follows.

| module | what it holds |
| --- | --- |
| `text`, `paths`, `sorting`, `grouping`, `sets` | texts, Windows paths, stable sorting and grouping, sets of paths |
| `picture` | pictures as they are decoded, shrunk, compared and encoded |
| `archive`, `namematch`, `config`, `volume` | names of split archives and of copies, filters, drives |
| `scanner` | walking, hashing, grouping, similarity, indexing |
| `selection`, `stats`, `view_cache` | what is shown of the results |
| `index_db`, `reverse_search` | the index and looking a file up in it |
| `drive_fill`, `flatten`, `reencode` | the other tabs, each with its state, plan and worker steps |
| `control`, `taskbar`, `sound` | pausing and clocks, progress, audible cues |
| `app`, `ui` | the state of the window and what its panels say |

Each job is a state and functions that take an event and give the next request: the window runs
the request on a thread and hands its events back.

`app/` is the window around it: egui, threads, files, ffmpeg, the index on disk, and everything
that needs floating-point numbers.

`tests/` runs the library on concrete values.

## What is trusted

Calls into `blake3`, `image`, `humansize` and the standard library that the verifier has no
specification for stand behind small wrappers, each with a comment that says what is claimed of
the call. Everything else in `src/` is proved.
