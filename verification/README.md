# aper

A verified core for keeping state in sync between a server and its clients.

- `store`, `handle`, `iter`, `prefix_map`, `listener`: a layered key-value
  store addressed by prefixes, with overlays that can be folded down or
  dropped, handles to places in it, ordered iteration and listeners.
- `aper`, `connection`, `convergence`: servers that apply intents and send the
  mutations they made, clients that apply intents speculatively and then the
  server's mutations beneath them, the messages between them, and the proof
  that a client applying the server's mutations reads what the server reads.
  What a user's state does with an intent is its `outcome`, a spec function
  that an implementation of `Aper` states; the contracts of the server, the
  client and the connections are stated over it.
- `state_machine`, `client`, `server`, `messages`: a second synchronisation
  scheme for values that change by transitions, with its convergence laws.
- `counter`, `atom_rc`, `constant`, `list`, `state_map`: state machines.
- `zeno_index`, `opaque_index`: fractional indices for ordering list items.
- `treemap`: a simpler layered store.

`app/` holds what runs outside the verified library: typed values encoded
with bincode, listener callbacks, serde wire forms of the messages, and the
connections that send them.

Maps are kept in `sorted_map::SortedMap`, a vector of entries in strictly
increasing key order whose map view and invariant are proved. The keys here
are byte strings and sequences of them (prefixes, list locations). vstd's
specifications of `BTreeMap` say something only for key types whose ordering
has a specification (`key_obeys_cmp_spec`), which vstd gives for integers,
tuples and `Option` but not for `Vec`, and a crate may not supply one
itself; nothing about such maps could be proved. The same holds of the
ordered and hashed maps of `im_rc`, whose keys would be the library's own
types and whose contents are generic.
