# A persistent red-black tree map

A persistent map with structural sharing, kept as a red-black tree (Okasaki's
insertion, Kahrs' deletion), written in Verus and proved against a model: the
tree stands for the sorted sequence of its entries and for the map they form.

- `src/order.rs`: the order on keys read off `Ord::cmp`, and its laws.
- `src/entries.rs`: sorted sequences of pairs and the maps they stand for.
- `src/node.rs`: nodes, the red-black invariants, lookup, insertion and `balance`.
- `src/remove.rs`: removal, fusing and rebalancing after a lost black node.
- `src/map.rs`: `RedBlackTreeMap`, the public map.
- `src/iter.rs`, `src/iter_utils.rs`: iteration from both ends, and stack sizing.
- `src/laws.rs`: properties of the map as a whole.
- `src/shared.rs`: the calls into `std::sync::Arc` that the proofs take on trust.
- `app/lib.rs`: formatting, hashing and comparison, which rest on the key and
  value types' own impls.
