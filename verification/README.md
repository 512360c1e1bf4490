# bptree

A persistent B+ tree whose node and tree logic is verified with Verus.

The tree keeps its nodes in numbered blocks, the root always in block 1, and
records which blocks each change wrote or emptied, so that a storage layer can
write back exactly those blocks. Keys are integers (`u8`, `u16`, `u32`, `u64`, `usize`, `i32`, `i64`) or
`String`s, ordered by their UTF-8 bytes; values are generic.

## Layout

- `src/` — the verified library.
  - `node.rs`: `UniversalNode`, a leaf or internal node, with its search,
    insertion, removal, split, merge and borrow operations.
  - `model.rs`, `model_update.rs`, `model_delete.rs`, `model_check.rs`,
    `model_fill.rs`: the
    mathematical model of a tree laid out in blocks (which blocks a subtree
    occupies, which entries it holds, when it is well formed) and the lemmas
    that the tree's operations rest on.
  - `tree.rs`: `BPTree` — `get`, `insert`/`upsert`/`update`, `delete` (with
    borrowing, merging and root collapse), `delete_batch`, `range`, walks
    through a range (`iter`, `iter_range`), `validate`, `clear`, `get_all_block_ids`, and the metadata checks. Each
    operation's contract is stated over the tree's view, a map from key rank
    to value, and keeps the tree's invariant: all leaves at one depth, every
    node below the root at least half full, and a root that holds a key.
  - `range.rs`: range bounds and the specification of a range listing.
  - `touch.rs`: the record of touched blocks and what it guarantees.
  - `ser.rs`: block framing (padding, size checks) of encoded nodes.
  - `laws.rs`: properties of the operations taken together.
- `app/` — ordinary Rust around the library: the block-storage trait, the
  file-based storage, the serde/bincode encoding of nodes and metadata, and an
  async tree that loads its blocks from a storage and writes back what each
  change touched.
- `tests/` — tests of the library.
