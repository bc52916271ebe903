# priv_rec_cert

Private Record Certification: a client obtains a server-signed Pedersen commitment to a
record of a two-dimensional bit database, while the servers, running a multiparty
computation on xor-shared queries, do not learn which record was asked for.

The library under `src/` is verified with Verus:

- `simd_array`: byte storage padded to 32-byte chunks, bit arrays and sequences of bit
  arrays with the bitwise operations, sharing and reconstruction used by the protocol.
- `cor_rnd`: correlated randomness (Beaver triplets, daBits) with their dealer relations,
  boolean and arithmetic shares, and scalars modulo the Ristretto group order.
- `prc`: the database and its first-level PIR, the layered GMW engine (tickets,
  operations, AND gates with Beaver triplets, one-hot encoding), the boolean-to-arithmetic
  conversion, commitments, the wire format of the messages, the client and the server.
- `rng`: the seeded ChaCha8 generator that supplies all randomness.

Outside crates (`curve25519-dalek`, `sha2`, `ed25519-dalek`, `rand`, `rand_chacha`) are
reached through small trusted wrappers whose contracts state what the crates' sources show.
Points of the Ristretto group are reasoned about through their discrete logarithm to the
base point: the group has prime order and the base point generates it, so a point is told
by its logarithm, and the wrappers of the group operations say how they act on it. This is
what lets the library prove that aggregated commitments open to the summed openings.

The one-hot encoding of a shared index is specified by where its operations stand in the
layers (`ohe_placed`), and `lemma_ohe_one_hot` proves that the parties' outputs of such an
encoding xor to the vector that is one exactly at the xor of their index shares, once the
parties have run its gates.

`app/` is the executable around the library: TCP and in-memory connections, the async
loops that run the MPC layers and exchanges between the parties, and the benchmark driver.
