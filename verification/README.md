# page_store

The page store of a database file, with its behaviour proved by Verus.

A file holds a header, a region allocator and regions of pages. The header has two commit slots, one
of them primary; a commit fills the other slot and makes it primary by the change of one byte. Pages
are allocated in blocks of a power of two by a buddy allocator per region, whose state is part of the
file. A mark in the header says whether that state may be out of date, in which case it is rebuilt
from the pages that are in use.

## Layout

- `src/` is the verified library. It works on the memory of a file and asks its caller for the work
  outside the memory: an operation returns an action (flush, resize, done), and is called again with
  what came of it.
  - `bytes`, `math`, `grouped_bitmap`, `page_number`: numbers and bits in byte images.
  - `buddy_tree`, `buddy_allocator`: which blocks of a region are free.
  - `layout`: where the parts of a file lie, and how a file grows.
  - `header`: the header, the commit slots and the marks in it.
  - `regions`: the allocator states of all regions inside the memory.
  - `journal`: the changes since the last commit.
  - `page_manager`: the memory of an open file and its invariant.
  - `opening`, `sound_file`, `close`: opening and closing a file.
  - `allocation`, `growth`, `freeing`, `pages`: allocating, freeing and accessing pages.
  - `trimming`: taking pages that the last commit does not have out of the allocator state.
  - `commit`, `rollback`, `repair`, `statistics`: the other operations.
  - `checks`: tests of what the operations ask of their caller.
  - `laws`: what the operations promise together.
- `tests/` runs the library on files in memory.
- `app/` puts the library on a file on disk, for use by several threads.
