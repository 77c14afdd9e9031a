# trie_storage

Storage of tries that are indexed by block. A forest of blocks is kept in a
directory, with one file for the trie of each block; the trie that was extended
last is built in RAM and goes to its file when the storage is flushed.

The library in `src/` is verified with Verus. It decides and computes: where a
node is, which file a block has, how a trie is laid out in its file, what
follows when a file operation succeeds or fails. File operations and the table
of forks belong to the caller. Where they are needed, a function takes an event
and returns an action that says what to do next; the caller does it, and reports
what came of it in the next event. `app/` does so on a file system.

| module     | what it is about |
|------------|------------------|
| `error`    | errors, and how a failed file operation is reported |
| `hash`     | the hashes of blocks and nodes, and their hexadecimal form |
| `node`     | trie nodes and the pointers between them |
| `stats`    | counts of reads and writes |
| `index`    | a map keyed by hashes, on top of `hashbrown` |
| `ram`      | the trie in RAM |
| `dump`     | how a trie is laid out in its file |
| `layout`   | what holds of that file |
| `walk`     | whether a trie can be written out |
| `paths`    | where the file of a block is |
| `storage`  | the state of the storage, and reading and writing nodes |
| `setup`    | opening the storage in a directory, and emptying it |
| `blocks`   | adding a block, opening one, walking back to an ancestor |
| `flush`    | saving the trie in RAM |
| `scan`     | making sense of the files in the directory |
| `roots`    | root hashes, and the way from them to their blocks |
| `runs`     | what holds of a whole series of steps |
| `forest`   | what is read back of the blocks that were saved |
| `transfer` | moving a buffer through several reads or writes |

What is taken on trust is in `index` (three methods of `hashbrown::HashMap`) and
in `scan` (one pattern of `regex`).
