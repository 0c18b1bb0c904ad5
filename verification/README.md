# rustdb

A small embedded document database. Documents are JSON objects, kept in named
collections; fields of the documents can be indexed. All data lives in pages of
one file, and a write ahead log makes each transaction atomic.

`src/` is the verified library:

| Modules | |
| --- | --- |
| `util`, `record_array`, `vararray` | numbers in pages, checksums, queues of slots, arrays of records in a page |
| `page_cache`, `wal`, `recovery` | cached pages and transactions, the write ahead log, what is left after a crash |
| `superblock`, `page_allocator` | the head of the file, and which pages are free |
| `key_order`, `btree_node`, `btree_model`, `btree_place`, `btree_insert`, `btree_delete`, `btree`, `btree_print` | the B+ tree: its nodes, the tree as a mathematical object, and how changes of pages change it |
| `value`, `field_path`, `key_encoding` | JSON values, paths to fields, and values as keys with the same order |
| `records`, `documents`, `layout`, `collection`, `metadata`, `scan`, `query` | documents in trees, indices, scans, expressions and filters |
| `slots`, `cost`, `needs` | how many slots of the cache and how many pages a change of a tree or a collection takes |
| `page_counts` | how many pages trees and collections have, and that the counters of the allocator agree |
| `catalog`, `database`, `room`, `attempt` | the database, and changes that are made only where there is room |

Functions whose names start with `law_` state what holds of the library as a
whole, such as that a transaction that was cut short is either all there or not
there at all, that an index lists just the documents that have a key, or how many slots of the
cache a change takes at most.

`app/` is the program around the library: it keeps a database in a file.
