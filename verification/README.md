# cam

Content-addressable memory records: a 64-word header (metadata and a 2048-bit
fingerprint) in front of 128-word content quanta. The library is written in
Verus; every function states what it returns and is proved to do so.

| Module | What it holds |
| --- | --- |
| `layout` | sizes and the places of the metadata words |
| `kind` | container kinds and vector widths |
| `bits` | counting ones, fields of a word |
| `bitpack`, `width_16k` | the vectors that records are made from |
| `fingerprint` | folding content to a fingerprint, Hamming distance |
| `header` | the header, its fields and its stored form |
| `record` | records, their constructors and their stored form |
| `index` | deduplication by fingerprint |
| `prefilter` | the closest candidates for a search |

`app/` holds the functions that work with floating-point similarities.

Two statements are taken on trust: that `u64::count_ones` counts the ones of a
word (`bits`), and that `u64::to_ne_bytes` gives the bytes of a word from one
end to the other (`header`).
