# chd

Reading and writing MAME compressed hunks of data (CHD) images, verified with Verus.

- `src/` is the library. It works on files in memory.
  - `header`, `map`, `metadata`, `chdfile`: what a file is made of, and how it is read.
  - `write`, `hunk_index`: how a file is made.
  - `compression`, `codec`, `huffman*`, `bitstream`: the codecs. Deflate, LZMA, Zstandard and FLAC
    themselves, the digests and the bit reader come from other crates; each call into one of those
    stands in a small function that says what is relied on.
  - `hd`, `dvd`, `cd`, `cue`, `copy`: kinds of images, and how they are created and extracted.
  - `report`: what a tool shows of a file.
  - `read_back`, `write_laws`, `digest_laws`, `metadata_laws`, `disk_laws`, `diff_laws`: what holds
    of several operations together, such as that what is written is read back.
- `app/` is a program around the library: arguments, files and progress.
- `tests/` runs the library.
