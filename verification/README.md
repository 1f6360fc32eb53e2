# DiskBytes

A disk-space analyzer for Windows and macOS. It shows where every byte of a drive
is and cleans up only through the Recycle Bin.

`src/` is a library verified with Verus. It holds everything that decides: the
tree of a scan and its totals, the views of it, the rules of quick wins,
duplicates, installed applications and the cleanup queue, and the meaning of what
Windows and macOS answer. Each public function states in its contract what it
returns; what holds across functions stands in public proof functions.

`app/` is the program around it: it lists directories, reads files, calls the
system and talks to the window. It reads the labels, colours and extensions of
the nine file categories from `categories.json` in its data directory.

`tests/` runs the library on concrete values.

## Layout of the library

| Module | What it holds |
| --- | --- |
| `tree`, `builder`, `rollup`, `totals`, `surgery` | the tree: walking, growing, rolling up, taking nodes out |
| `engine`, `scan`, `progress` | building a tree from listings; the state of scans, turbo, hooks |
| `paths`, `locate`, `navigate`, `names` | display paths and finding nodes by them |
| `explore`, `top`, `age`, `shares`, `layout` | folder views, rankings, ages, shares, the levels and colours of charts |
| `quickwins`, `catalog`, `sidebar` | quick wins and the sidebar |
| `dupes`, `dupescan`, `digest` | duplicates in three passes |
| `applications`, `leftovers` | installed applications, uninstalling, what stays behind |
| `cleanup`, `recycling` | the cleanup queue |
| `cache` | what is kept between requests |
| `platform` | the answers of Windows and macOS |
| `text`, `bytes`, `order`, `seqs`, `category` | texts, numbers in buffers, rankings, sequences, categories |

## What is trusted

SHA-256 (`sha2`), the PNG encoder (`png`) and four functions of the standard
library (`String::push`, `char::from_u32`, `String::from_utf8`,
`String::from_utf8_lossy`) are called behind contracts that are not proved. Each
stands beside its doc comment in `digest`, `platform::icon` and `text`.
