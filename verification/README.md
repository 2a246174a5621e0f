# gfs

The core of a filesystem that mounts one commit of a Git repository, with local
changes kept in an overlay.

- `src/` is the library. Every item is verified with Verus: contracts say what
  a function returns, and the `law_` proof functions say what holds across
  functions. It does no I/O.
- `app/` drives the library: FUSE, sockets, disk, libgit2 and the network.
- `tests/` runs the library on concrete values.

The modules fall into five groups:

| Group | Modules |
| --- | --- |
| Bytes and text | `bytes`, `bytemap`, `text`, `strings`, `base64url`, `varint`, `hashing`, `sorting`, `time`, `limits` |
| Git formats | `object`, `path`, `entry`, `glob`, `attributes`, `index`, `ewah`, `workspace`, `gitdir` |
| The mounted view | `node`, `inode`, `listing`, `directory`, `decide`, `fs`, `fetch`, `errno`, `subtree`, `status` |
| Stores | `cache`, `budget`, `blobs`, `residency`, `odb`, `blockfile`, `repository`, `local` |
| The service | `error`, `client`, `control`, `search`, `lease`, `mount`, `host` |

What is believed rather than proved stands in the functions marked
`external_body`: hashing (`hashing`), lossy and quoted text (`text`), one JSON
field (`strings`), an HTTP status line (`client`), and libgit2's object names
and signatures (`repository`). Each says what it claims of the function it
calls.
