# MHWs Tex Decompressor

A tool to make a pak with uncompressed textures for Monster Hunter: Wilds.

`src/` is the verified library: it reads archive names, lists and sorts the
archives of the game, plans the archives to write, decides what goes into them,
and plans how earlier runs are taken back. `app/` asks the user, reads and
writes files, and does what the library decided. `tests/` runs the library.

| module | what it is about |
| --- | --- |
| `text`, `path`, `files` | text, places of files, changes to files |
| `chunk`, `order` | names of archives and their order |
| `selection` | which archives a run works on |
| `output` | where the processed archives go |
| `pack`, `metadata`, `util` | what is written into an archive, and its mark |
| `restore` | how earlier runs are taken back |
| `undo`, `runs` | what whole restores and whole runs change, and that one takes back the other |
| `mode`, `error` | what a run is for, and why it ends early |
