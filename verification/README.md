# rsl

Wire and on-disk formats of a replicated state machine log, verified with Verus.

A replica exchanges Paxos messages, appends the ones that matter to a log, and
now and then saves its state as a checkpoint. The library holds the byte-level
rules of all three, the policy for which files of a data directory are still
needed, a model of what a crash leaves of a file system, and the rings of blocks
that keep sequential I/O busy. Everything in `src/` is proved against its
contract, but for one item that is taken on trust: `utf8_text`, which hands bytes
to `std::str::from_utf8` and claims of it what its documentation says.

| Module | What it holds |
| --- | --- |
| `marshal`, `version`, `types`, `messages` | the wire format, from integers to whole messages |
| `fprint` | the 64-bit fingerprint that messages and blocks carry |
| `text` | numbers as text |
| `source`, `path`, `durability` | where bytes come from and how they get to a disk |
| `sim` | a shadow file system, and what each kind of crash leaves of it |
| `log` | records, scanning, the decree index, appending, what a crash leaves |
| `checkpoint` | headers, checksummed blocks, reading and writing |
| `dir`, `gc` | data directories and retention |
| `seqread`, `seqwrite`, `seqio_bench` | sequential I/O and its benchmark |

Functions named `law_...` state what holds across functions, such as that
nothing acknowledged is lost in a crash, or that what is written is read back.

`app/` is the benchmark program, with real files and threads around the library.
`tests/` runs the library.
