# layered

A store kept as a stack of layers. A layer holds rows in key order; a stack reads several layers
through windows on commit order, as one view. Flattening materializes the net effect of one view
into the top layer of another stack: a merge-down, a changeset or a cherry-pick, depending on the
windows.

`src/` is the library, verified with Verus:

- `order`, `codec`: the order of keys and how a versioned key is laid out
- `layer`, `content`: rows, and the maps they stand for
- `iter`: windows, the merge of a stack, raw and frontier scans
- `catalog`: what the catalog says about a relation
- `stack`: stacks of layers, and the store as one transaction sees it
- `scan`: resolving a source view and deciding each row against a destination
- `flatten`: plans, pages and the flatten itself
- `report`: what a refused flatten says
- `measure`, `net`, `keys`, `frontier`, `aftermath`: proofs about the above
- `laws`: what holds over several calls and in every state

`tests/` runs the library. `app/` puts it on RocksDB: it reads the layers, hands out stamps under
the commit lock, commits what a flatten writes, and decodes rows with the columns of its caller.
