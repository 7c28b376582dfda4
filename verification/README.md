# phoenix

Transactions of the Phoenix model of private payments, verified with Verus.

A transaction spends up to `MAX_INPUT_NOTES_PER_TRANSACTION` notes and creates
up to `MAX_OUTPUT_NOTES_PER_TRANSACTION` notes, plus a fee note. Notes are
either transparent (the value is public) or obfuscated (the value and its
blinding factors travel encrypted to a one-time stealth address, and only
Pedersen commitments to the value are public). A transaction is proven with a
bulletproofs R1CS proof over the commitments to its items, once its inputs
balance its outputs and fee.

Layout of `src/`:

- `curve`: scalars and Ristretto points as 32-byte encodings, and the calls
  into `curve25519-dalek`, `sha2` and `rand_chacha` they are computed with.
- `keys`: secret, view and public keys; the stealth point a note is sent to.
- `crypto`: the stream cipher that note secrets are encrypted with.
- `note`, `transparent`, `item`: notes and the transaction items built on them.
- `value`: Pedersen commitments and the opening proof (`bulletproofs`).
- `transaction`: the transaction, its hash, its proof and its byte encoding.
- `encoding`, `wire`: writing and reading byte encodings.
- `order`: the order that items are sorted in, by the hash of their note.
- `text`, `error`: hexadecimal text and the error type.

`app/` holds what the library's types cannot carry themselves: serde copies,
`Display` and the `std::io` stream traits.
