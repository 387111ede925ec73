# onedrive-davfs

The verified core of a WebDAV server for OneDrive. A WebDAV client such as
davfs2 talks to it on one side, Microsoft Graph on the other; a host supplies
files, clocks and HTTP.

- `src/` is the library. It holds every decision: what a request leads to, what
  Graph is asked, what is made of its replies, how the namespace index follows
  the delta feed, and how snapshots of it are laid out. Contracts state what
  each function returns; the modules whose names end in `laws` state what holds
  of several functions together. Nothing in it performs input or output: where
  an operation needs the outside world, it is a function from how far it is and
  what was last heard to what is to be done next.
- `app/` performs what the library decides, on a host behind a trait, and reads
  and writes the JSON documents.
- `tests/` runs the library on concrete values.
