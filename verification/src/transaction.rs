//! A phoenix transaction: a fee, up to `MAX_INPUT_NOTES_PER_TRANSACTION`
//! inputs and up to `MAX_OUTPUT_NOTES_PER_TRANSACTION` outputs, held in
//! fixed-size slots of which a prefix is in use, and the proof over them.
use vstd::prelude::*;
use vstd::relations::sorted_by;
use vstd::slice::slice_subrange;

use crate::curve::{sha256, spec_base_mul, spec_point_mul, spec_sha256, CompressedPoint, Scalar};
use crate::keys::spec_stealth;
use crate::note::NoteUtxoType;
use crate::value::{
    cs_parameters, opening_commitments, pedersen_commit, point_views, prove_openings, spec_openings_valid, spec_pedersen_commit,
    spec_value_scalar, value_scalar, verify_openings,
};
use crate::encoding::{
    digest_views, flatten_points, push_bytes, push_digests, push_points, push_prefixed, push_u64,
    spec_prefixed,
};
use crate::error::{invalid_data, Error};
use crate::item::{
    is_placeholder_input, is_placeholder_output, output_key_valid, spec_input_bytes,
    spec_note_bytes, spec_note_hash, spec_output_bytes, spec_public_bytes, Note,
    TransactionInput, TransactionOutput,
};
use crate::wire::{
    inputs_bytes, lemma_starts_with_split, lemma_u64_bytes, outputs_bytes, read_inputs,
    read_output, read_outputs, read_points, read_prefixed, read_u64, read_u8, same_input,
    same_inputs, same_output, same_outputs, starts_with_at,
};
use vstd::bytes::spec_u64_to_le_bytes;
use crate::curve::random_below;
use crate::text::{hex_lower, hex_upper, spec_hex};
use crate::value::{parse_proof, spec_proof_parses};
use crate::keys::{PublicKey, SecretKey};
use crate::note::{sent_to, ObfuscatedNote};
use crate::crypto::spec_encrypt;
use crate::order::{
    bytes_leq, digests_sorted, keys_of, lemma_bytes_total_ordering, lemma_map_values_to_multiset,
    lemma_sort_by_permutation, sort_by_digest, values_of,
};
use crate::transparent::TransparentNote;
use crate::{MAX_INPUT_NOTES_PER_TRANSACTION, MAX_OUTPUT_NOTES_PER_TRANSACTION};

verus! {

/// The public inputs of a transaction's proof: the commitments it is made over.
#[derive(Clone, Debug)]
pub struct ZkPublicInputs {
    pub commitments: Vec<CompressedPoint>,
}

impl ZkPublicInputs {
    /// No commitments.
    pub fn default() -> (pi: ZkPublicInputs)
        ensures
            pi.commitments@.len() == 0,
    {
        ZkPublicInputs { commitments: Vec::new() }
    }
}

/// The hashes of the notes of a sequence of inputs.
pub open spec fn input_hashes(s: Seq<TransactionInput>) -> Seq<Seq<u8>> {
    s.map_values(|i: TransactionInput| spec_note_hash(i.spec_note()))
}

/// The hashes of the notes of a sequence of outputs.
pub open spec fn output_hashes(s: Seq<TransactionOutput>) -> Seq<Seq<u8>> {
    s.map_values(|o: TransactionOutput| spec_note_hash(o.spec_note()))
}

/// The hash of a transaction: SHA-256 of the fee note's hash, then the input
/// note hashes in increasing order, then the output note hashes in increasing
/// order.
pub open spec fn spec_transaction_hash(
    fee: TransactionOutput,
    inputs: Seq<TransactionInput>,
    outputs: Seq<TransactionOutput>,
) -> Seq<u8> {
    spec_sha256(
        spec_note_hash(fee.spec_note()) + input_hashes(inputs).sort_by(bytes_leq()).flatten()
            + output_hashes(outputs).sort_by(bytes_leq()).flatten(),
    )
}

/// The sum of the values of a sequence of inputs.
pub open spec fn sum_inputs(s: Seq<TransactionInput>) -> int
    decreases s.len(),
{
    if s.len() == 0 {
        0
    } else {
        sum_inputs(s.drop_last()) + s.last().spec_value()
    }
}

/// The sum of the values of a sequence of outputs.
pub open spec fn sum_outputs(s: Seq<TransactionOutput>) -> int
    decreases s.len(),
{
    if s.len() == 0 {
        0
    } else {
        sum_outputs(s.drop_last()) + s.last().spec_value()
    }
}

/// The hashes of the notes of the first `n` inputs.
fn prefix_input_hashes(all: &Vec<TransactionInput>, n: usize) -> (h: Vec<[u8; 32]>)
    requires
        n <= all@.len(),
    ensures
        h@.map_values(|d: [u8; 32]| d@) == input_hashes(all@.subrange(0, n as int)),
{
    let mut h: Vec<[u8; 32]> = Vec::new();
    let mut k: usize = 0;
    while k < n
        invariant
            k <= n,
            n <= all@.len(),
            h@.map_values(|d: [u8; 32]| d@) == input_hashes(all@.subrange(0, k as int)),
        decreases n - k,
    {
        let d = all[k].hash();
        let ghost prev = h@;
        h.push(d);
        proof {
            assert(h@.map_values(|d: [u8; 32]| d@) =~= prev.map_values(|d: [u8; 32]| d@).push(d@));
            assert(input_hashes(all@.subrange(0, k + 1)) =~= input_hashes(all@.subrange(0, k as int)).push(
                spec_note_hash(all@[k as int].spec_note()),
            ));
        }
        k = k + 1;
    }
    h
}

/// The hashes of the notes of the first `n` outputs.
fn prefix_output_hashes(all: &Vec<TransactionOutput>, n: usize) -> (h: Vec<[u8; 32]>)
    requires
        n <= all@.len(),
    ensures
        h@.map_values(|d: [u8; 32]| d@) == output_hashes(all@.subrange(0, n as int)),
{
    let mut h: Vec<[u8; 32]> = Vec::new();
    let mut k: usize = 0;
    while k < n
        invariant
            k <= n,
            n <= all@.len(),
            h@.map_values(|d: [u8; 32]| d@) == output_hashes(all@.subrange(0, k as int)),
        decreases n - k,
    {
        let d = all[k].hash();
        let ghost prev = h@;
        h.push(d);
        proof {
            assert(h@.map_values(|d: [u8; 32]| d@) =~= prev.map_values(|d: [u8; 32]| d@).push(d@));
            assert(output_hashes(all@.subrange(0, k + 1)) =~= output_hashes(all@.subrange(0, k as int)).push(
                spec_note_hash(all@[k as int].spec_note()),
            ));
        }
        k = k + 1;
    }
    h
}

/// Sorts the first `n` inputs by the hash of their note; the rest stay as they are.
/// Inputs already in order are left as they are.
fn sort_input_prefix(all: Vec<TransactionInput>, n: usize) -> (r: Vec<TransactionInput>)
    requires
        n <= all@.len(),
    ensures
        r@.len() == all@.len(),
        r@.subrange(n as int, r@.len() as int) == all@.subrange(n as int, all@.len() as int),
        r@.subrange(0, n as int).to_multiset() == all@.subrange(0, n as int).to_multiset(),
        sorted_by(input_hashes(r@.subrange(0, n as int)), bytes_leq()),
        sorted_by(input_hashes(all@.subrange(0, n as int)), bytes_leq()) ==> r@ == all@,
{
    let current = prefix_input_hashes(&all, n);
    if digests_sorted(&current) {
        return all;
    }
    let ghost orig = all@;
    let mut live = all;
    let mut tail = live.split_off(n);
    let ghost live0 = live@;
    let mut pairs: Vec<([u8; 32], TransactionInput)> = Vec::new();
    while live.len() > 0
        invariant
            values_of(pairs@) + live@ == live0,
            forall|i: int|
                0 <= i < pairs@.len() ==> (#[trigger] pairs@[i]).0@ == spec_note_hash(
                    pairs@[i].1.spec_note(),
                ),
        decreases live@.len(),
    {
        let ghost before = live@;
        let it = live.remove(0);
        let h = it.hash();
        pairs.push((h, it));
        assert(values_of(pairs@) + live@ =~= live0) by {
            assert(before =~= seq![it] + live@);
            assert(values_of(pairs@) =~= values_of(pairs@.drop_last()).push(it));
        }
    }
    assert(values_of(pairs@) =~= live0);
    let ghost pairs0 = pairs@;
    let sorted = sort_by_digest(pairs);
    proof {
        assert forall|i: int| 0 <= i < sorted@.len() implies (#[trigger] sorted@[i]).0@
            == spec_note_hash(sorted@[i].1.spec_note()) by {
            assert(pairs0.contains(sorted@[i]));
        }
        assert(input_hashes(values_of(sorted@)) =~= keys_of(sorted@));
    }
    let mut rest = sorted;
    let mut out: Vec<TransactionInput> = Vec::new();
    let ghost sorted_vals = values_of(rest@);
    while rest.len() > 0
        invariant
            out@ + values_of(rest@) == sorted_vals,
        decreases rest@.len(),
    {
        let ghost before = rest@;
        let p = rest.remove(0);
        out.push(p.1);
        assert(out@ + values_of(rest@) =~= sorted_vals) by {
            assert(values_of(before) =~= seq![p.1] + values_of(rest@));
        }
    }
    assert(out@ =~= sorted_vals);
    let ghost live_sorted = out@;
    out.append(&mut tail);
    assert(out@.subrange(0, n as int) =~= live_sorted);
    assert(out@.subrange(n as int, out@.len() as int) =~= orig.subrange(n as int, orig.len() as int));
    assert(orig.subrange(0, n as int) =~= live0);
    out
}

/// Sorts the first `n` outputs by the hash of their note; the rest stay as they are.
/// Outputs already in order are left as they are.
fn sort_output_prefix(all: Vec<TransactionOutput>, n: usize) -> (r: Vec<TransactionOutput>)
    requires
        n <= all@.len(),
    ensures
        r@.len() == all@.len(),
        r@.subrange(n as int, r@.len() as int) == all@.subrange(n as int, all@.len() as int),
        r@.subrange(0, n as int).to_multiset() == all@.subrange(0, n as int).to_multiset(),
        sorted_by(output_hashes(r@.subrange(0, n as int)), bytes_leq()),
        sorted_by(output_hashes(all@.subrange(0, n as int)), bytes_leq()) ==> r@ == all@,
{
    let current = prefix_output_hashes(&all, n);
    if digests_sorted(&current) {
        return all;
    }
    let ghost orig = all@;
    let mut live = all;
    let mut tail = live.split_off(n);
    let ghost live0 = live@;
    let mut pairs: Vec<([u8; 32], TransactionOutput)> = Vec::new();
    while live.len() > 0
        invariant
            values_of(pairs@) + live@ == live0,
            forall|i: int|
                0 <= i < pairs@.len() ==> (#[trigger] pairs@[i]).0@ == spec_note_hash(
                    pairs@[i].1.spec_note(),
                ),
        decreases live@.len(),
    {
        let ghost before = live@;
        let it = live.remove(0);
        let h = it.hash();
        pairs.push((h, it));
        assert(values_of(pairs@) + live@ =~= live0) by {
            assert(before =~= seq![it] + live@);
            assert(values_of(pairs@) =~= values_of(pairs@.drop_last()).push(it));
        }
    }
    assert(values_of(pairs@) =~= live0);
    let ghost pairs0 = pairs@;
    let sorted = sort_by_digest(pairs);
    proof {
        assert forall|i: int| 0 <= i < sorted@.len() implies (#[trigger] sorted@[i]).0@
            == spec_note_hash(sorted@[i].1.spec_note()) by {
            assert(pairs0.contains(sorted@[i]));
        }
        assert(output_hashes(values_of(sorted@)) =~= keys_of(sorted@));
    }
    let mut rest = sorted;
    let mut out: Vec<TransactionOutput> = Vec::new();
    let ghost sorted_vals = values_of(rest@);
    while rest.len() > 0
        invariant
            out@ + values_of(rest@) == sorted_vals,
        decreases rest@.len(),
    {
        let ghost before = rest@;
        let p = rest.remove(0);
        out.push(p.1);
        assert(out@ + values_of(rest@) =~= sorted_vals) by {
            assert(values_of(before) =~= seq![p.1] + values_of(rest@));
        }
    }
    assert(out@ =~= sorted_vals);
    let ghost live_sorted = out@;
    out.append(&mut tail);
    assert(out@.subrange(0, n as int) =~= live_sorted);
    assert(out@.subrange(n as int, out@.len() as int) =~= orig.subrange(n as int, orig.len() as int));
    assert(orig.subrange(0, n as int) =~= live0);
    out
}

/// The sorted hashes of the notes of the first `n` inputs.
fn sorted_input_hashes(all: &Vec<TransactionInput>, n: usize) -> (r: Vec<[u8; 32]>)
    requires
        n <= all@.len(),
    ensures
        digest_views(r@) == input_hashes(all@.subrange(0, n as int)).sort_by(bytes_leq()),
{
    let ghost live = all@.subrange(0, n as int);
    let mut pairs: Vec<([u8; 32], ())> = Vec::new();
    let mut k: usize = 0;
    while k < n
        invariant
            k <= n,
            n <= all@.len(),
            live == all@.subrange(0, n as int),
            keys_of(pairs@) == input_hashes(live).subrange(0, k as int),
        decreases n - k,
    {
        assert(live[k as int] == all@[k as int]);
        let ghost prev = pairs@;
        let h = all[k].hash();
        pairs.push((h, ()));
        assert(keys_of(pairs@) =~= keys_of(prev).push(h@));
        k = k + 1;
        assert(keys_of(pairs@) =~= input_hashes(live).subrange(0, k as int));
    }
    assert(keys_of(pairs@) =~= input_hashes(live));
    let ghost pairs0 = pairs@;
    let sorted = sort_by_digest(pairs);
    proof {
        lemma_bytes_total_ordering();
        input_hashes(live).lemma_sort_by_ensures(bytes_leq());
        vstd::seq_lib::lemma_sorted_unique(
            keys_of(sorted@),
            input_hashes(live).sort_by(bytes_leq()),
            bytes_leq(),
        );
    }
    let mut rest = sorted;
    let mut out: Vec<[u8; 32]> = Vec::new();
    let ghost sorted_keys = keys_of(rest@);
    while rest.len() > 0
        invariant
            digest_views(out@) + keys_of(rest@) == sorted_keys,
        decreases rest@.len(),
    {
        let ghost before = rest@;
        let p = rest.remove(0);
        out.push(p.0);
        assert(digest_views(out@) + keys_of(rest@) =~= sorted_keys) by {
            assert(keys_of(before) =~= seq![p.0@] + keys_of(rest@));
            assert(digest_views(out@) =~= digest_views(out@.drop_last()).push(p.0@));
        }
    }
    assert(digest_views(out@) =~= sorted_keys);
    out
}

/// The sorted hashes of the notes of the first `n` outputs.
fn sorted_output_hashes(all: &Vec<TransactionOutput>, n: usize) -> (r: Vec<[u8; 32]>)
    requires
        n <= all@.len(),
    ensures
        digest_views(r@) == output_hashes(all@.subrange(0, n as int)).sort_by(bytes_leq()),
{
    let ghost live = all@.subrange(0, n as int);
    let mut pairs: Vec<([u8; 32], ())> = Vec::new();
    let mut k: usize = 0;
    while k < n
        invariant
            k <= n,
            n <= all@.len(),
            live == all@.subrange(0, n as int),
            keys_of(pairs@) == output_hashes(live).subrange(0, k as int),
        decreases n - k,
    {
        assert(live[k as int] == all@[k as int]);
        let ghost prev = pairs@;
        let h = all[k].hash();
        pairs.push((h, ()));
        assert(keys_of(pairs@) =~= keys_of(prev).push(h@));
        k = k + 1;
        assert(keys_of(pairs@) =~= output_hashes(live).subrange(0, k as int));
    }
    assert(keys_of(pairs@) =~= output_hashes(live));
    let sorted = sort_by_digest(pairs);
    proof {
        lemma_bytes_total_ordering();
        output_hashes(live).lemma_sort_by_ensures(bytes_leq());
        vstd::seq_lib::lemma_sorted_unique(
            keys_of(sorted@),
            output_hashes(live).sort_by(bytes_leq()),
            bytes_leq(),
        );
    }
    let mut rest = sorted;
    let mut out: Vec<[u8; 32]> = Vec::new();
    let ghost sorted_keys = keys_of(rest@);
    while rest.len() > 0
        invariant
            digest_views(out@) + keys_of(rest@) == sorted_keys,
        decreases rest@.len(),
    {
        let ghost before = rest@;
        let p = rest.remove(0);
        out.push(p.0);
        assert(digest_views(out@) + keys_of(rest@) =~= sorted_keys) by {
            assert(keys_of(before) =~= seq![p.0@] + keys_of(rest@));
            assert(digest_views(out@) =~= digest_views(out@.drop_last()).push(p.0@));
        }
    }
    assert(digest_views(out@) =~= sorted_keys);
    out
}

/// The commitment an input's value and blinding factor open.
pub open spec fn input_commitment(i: TransactionInput) -> Seq<u8> {
    spec_pedersen_commit(spec_value_scalar(i.spec_value()), i.spec_blinding_factor())
}

/// The commitment an output's value and blinding factor open.
pub open spec fn output_commitment(o: TransactionOutput) -> Seq<u8> {
    spec_pedersen_commit(spec_value_scalar(o.spec_value()), o.spec_blinding_factor())
}

/// The public inputs a proof over these items is made for: the commitments
/// of the inputs, then of the outputs, then of the fee.
pub open spec fn spec_item_commitments(
    inputs: Seq<TransactionInput>,
    outputs: Seq<TransactionOutput>,
    fee: TransactionOutput,
) -> Seq<Seq<u8>> {
    inputs.map_values(|i: TransactionInput| input_commitment(i)) + outputs.map_values(
        |o: TransactionOutput| output_commitment(o),
    ) + seq![output_commitment(fee)]
}

/// The commitments a proof sent with the given items is checked against:
/// those of the inputs, then of the outputs, then of the fee, where a missing
/// fee stands for the placeholder output (value zero, blinding factor zero).
pub open spec fn rpc_commitments(
    inputs: Seq<TransactionInput>,
    outputs: Seq<TransactionOutput>,
    fee: Option<TransactionOutput>,
) -> Seq<Seq<u8>> {
    inputs.map_values(|i: TransactionInput| input_commitment(i)) + outputs.map_values(
        |o: TransactionOutput| output_commitment(o),
    ) + seq![
        match fee {
            Some(f) => output_commitment(f),
            None => spec_pedersen_commit(spec_value_scalar(0), Seq::new(32, |k: int| 0u8)),
        },
    ]
}

/// Whether the inputs' values add up to the outputs' values and the fee.
pub open spec fn balanced(
    inputs: Seq<TransactionInput>,
    outputs: Seq<TransactionOutput>,
    fee: TransactionOutput,
) -> bool {
    sum_inputs(inputs) == sum_outputs(outputs) + fee.spec_value()
}

/// The sum of the values of the first `n` inputs.
fn sum_input_values(all: &Vec<TransactionInput>, n: usize) -> (s: u128)
    requires
        n <= all@.len(),
        n <= 4,
    ensures
        s == sum_inputs(all@.subrange(0, n as int)),
        s <= n * 0xffff_ffff_ffff_ffffu128,
{
    let mut s: u128 = 0;
    let mut k: usize = 0;
    while k < n
        invariant
            k <= n,
            n <= all@.len(),
            n <= 4,
            s == sum_inputs(all@.subrange(0, k as int)),
            s <= k * 0xffff_ffff_ffff_ffffu128,
        decreases n - k,
    {
        s = s + all[k].value() as u128;
        k = k + 1;
        assert(all@.subrange(0, k as int).drop_last() =~= all@.subrange(0, k - 1));
    }
    s
}

/// The sum of the values of the first `n` outputs.
fn sum_output_values(all: &Vec<TransactionOutput>, n: usize) -> (s: u128)
    requires
        n <= all@.len(),
        n <= 4,
    ensures
        s == sum_outputs(all@.subrange(0, n as int)),
        s <= n * 0xffff_ffff_ffff_ffffu128,
{
    let mut s: u128 = 0;
    let mut k: usize = 0;
    while k < n
        invariant
            k <= n,
            n <= all@.len(),
            n <= 4,
            s == sum_outputs(all@.subrange(0, k as int)),
            s <= k * 0xffff_ffff_ffff_ffffu128,
        decreases n - k,
    {
        s = s + all[k].value() as u128;
        k = k + 1;
        assert(all@.subrange(0, k as int).drop_last() =~= all@.subrange(0, k - 1));
    }
    s
}

/// The inputs whose value is not zero, in order.
pub open spec fn nonzero_inputs(s: Seq<TransactionInput>) -> Seq<TransactionInput>
    decreases s.len(),
{
    if s.len() == 0 {
        s
    } else if s.last().spec_value() > 0 {
        nonzero_inputs(s.drop_last()).push(s.last())
    } else {
        nonzero_inputs(s.drop_last())
    }
}

/// The outputs whose value is not zero, in order.
pub open spec fn nonzero_outputs(s: Seq<TransactionOutput>) -> Seq<TransactionOutput>
    decreases s.len(),
{
    if s.len() == 0 {
        s
    } else if s.last().spec_value() > 0 {
        nonzero_outputs(s.drop_last()).push(s.last())
    } else {
        nonzero_outputs(s.drop_last())
    }
}

/// The positive values of a sequence, in order.
pub open spec fn positive_values(s: Seq<u64>) -> Seq<u64>
    decreases s.len(),
{
    if s.len() == 0 {
        s
    } else if s.last() > 0 {
        positive_values(s.drop_last()).push(s.last())
    } else {
        positive_values(s.drop_last())
    }
}

/// The sum of a sequence of values.
pub open spec fn sum_values(s: Seq<u64>) -> int
    decreases s.len(),
{
    if s.len() == 0 {
        0
    } else {
        sum_values(s.drop_last()) + s.last()
    }
}

/// Random input values, each below `u64::MAX / MAX_INPUT_NOTES_PER_TRANSACTION - 1`.
fn random_input_values() -> (v: Vec<u64>)
    ensures
        v@.len() == MAX_INPUT_NOTES_PER_TRANSACTION,
        sum_values(v@) <= u64::MAX,
{
    let max: u64 = u64::MAX / (MAX_INPUT_NOTES_PER_TRANSACTION as u64) - 1;
    assert(max > 0 && MAX_INPUT_NOTES_PER_TRANSACTION * max <= u64::MAX);
    let mut v: Vec<u64> = Vec::new();
    let mut k: usize = 0;
    while k < MAX_INPUT_NOTES_PER_TRANSACTION
        invariant
            k <= MAX_INPUT_NOTES_PER_TRANSACTION,
            v@.len() == k,
            max > 0,
            MAX_INPUT_NOTES_PER_TRANSACTION * max <= u64::MAX,
            sum_values(v@) <= k * max,
        decreases MAX_INPUT_NOTES_PER_TRANSACTION - k,
    {
        let x = random_below(max);
        let ghost prev = v@;
        v.push(x);
        k = k + 1;
        assert(v@.drop_last() =~= prev);
    }
    v
}

/// Random output values that together do not exceed `total`; what is left
/// of `total` is the fee. Each value is drawn below what is still left, and
/// is zero once nothing is left.
fn random_output_values(total: u64) -> (res: (Vec<u64>, u64))
    ensures
        res.0@.len() == MAX_OUTPUT_NOTES_PER_TRANSACTION,
        sum_values(res.0@) + res.1 == total,
{
    let mut v: Vec<u64> = Vec::new();
    let mut left: u64 = total;
    let mut k: usize = 0;
    while k < MAX_OUTPUT_NOTES_PER_TRANSACTION
        invariant
            k <= MAX_OUTPUT_NOTES_PER_TRANSACTION,
            v@.len() == k,
            sum_values(v@) + left == total,
        decreases MAX_OUTPUT_NOTES_PER_TRANSACTION - k,
    {
        let o = if left > 0 {
            random_below(left)
        } else {
            0
        };
        left = left - o;
        let ghost prev = v@;
        v.push(o);
        k = k + 1;
        assert(v@.drop_last() =~= prev);
    }
    (v, left)
}

/// An input as `random` makes it: a positive value, spent with a key from
/// a transparent note that opens to the same value and blinding factor.
pub open spec fn random_input_item(i: TransactionInput) -> bool {
    &&& i.spec_value() > 0
    &&& i.spec_has_secret()
    &&& i.spec_note() matches Note::Transparent(n) && n.spec_value() == i.spec_value()
        && n.spec_blinding_factor() == i.spec_blinding_factor()
}

/// An output as `random` makes it: a positive value sent, as an obfuscated
/// note, to the key the output is addressed to; the note commits to the value
/// under the output's blinding factor and holds the value encrypted under its
/// stealth point.
pub open spec fn random_output_item(o: TransactionOutput) -> bool {
    &&& o.spec_value() > 0
    &&& o.spec_pk() matches Some(k) && o.spec_note() matches Note::Obfuscated(n) && sent_to(
        n,
        k.spec_a_p(),
        k.spec_b_p(),
    ) && n.spec_commitments().len() == 1 && n.spec_commitments()[0].0@ == spec_pedersen_commit(
        spec_value_scalar(o.spec_value()),
        o.spec_blinding_factor(),
    ) && n.spec_encrypted_value() == spec_encrypt(n.spec_pk_r(), spec_u64_to_le_bytes(o.spec_value()))
}

/// A fee as `random` makes it: addressed to a key, as a transparent note that
/// opens to the fee's value and blinding factor.
pub open spec fn random_fee_item(f: TransactionOutput) -> bool {
    &&& f.spec_pk() is Some
    &&& f.spec_note() matches Note::Transparent(n) && n.spec_value() == f.spec_value()
        && n.spec_blinding_factor() == f.spec_blinding_factor()
}

/// `after` is `before` with the sensitive parts of every item slot removed:
/// the notes, the keys outputs are addressed to, the counts in use, the fee,
/// the proof and the public inputs stay; values and blinding factors are zero
/// and no input holds a spending key.
pub open spec fn sensitive_info_cleared(after: Transaction, before: Transaction) -> bool {
    &&& after.spec_inputs().len() == before.spec_inputs().len()
    &&& after.spec_outputs().len() == before.spec_outputs().len()
    &&& after.spec_all_inputs().len() == before.spec_all_inputs().len()
    &&& after.spec_all_outputs().len() == before.spec_all_outputs().len()
    &&& forall|j: int|
        0 <= j < after.spec_all_inputs().len() ==> {
            &&& (#[trigger] after.spec_all_inputs()[j]).spec_note() == before.spec_all_inputs()[j].spec_note()
            &&& after.spec_all_inputs()[j].spec_value() == 0
            &&& after.spec_all_inputs()[j].spec_blinding_factor() == Seq::new(32, |k: int| 0u8)
            &&& !after.spec_all_inputs()[j].spec_has_secret()
        }
    &&& forall|j: int|
        0 <= j < after.spec_all_outputs().len() ==> {
            &&& (#[trigger] after.spec_all_outputs()[j]).spec_note() == before.spec_all_outputs()[j].spec_note()
            &&& after.spec_all_outputs()[j].spec_pk() == before.spec_all_outputs()[j].spec_pk()
            &&& after.spec_all_outputs()[j].spec_value() == 0
            &&& after.spec_all_outputs()[j].spec_blinding_factor() == Seq::new(32, |k: int| 0u8)
        }
    &&& after.spec_fee() == before.spec_fee()
    &&& after.spec_proof() == before.spec_proof()
    &&& after.spec_public_inputs() == before.spec_public_inputs()
}

/// A phoenix transaction.
#[derive(Clone, Debug)]
pub struct Transaction {
    fee: TransactionOutput,
    idx_inputs: usize,
    inputs: Vec<TransactionInput>,
    idx_outputs: usize,
    outputs: Vec<TransactionOutput>,
    proof: Option<Vec<u8>>,
    public_inputs: ZkPublicInputs,
}

impl Transaction {
    /// The slots hold exactly the maximum number of items, and the counts of
    /// items in use do not exceed them.
    pub closed spec fn wf(&self) -> bool {
        &&& self.inputs@.len() == MAX_INPUT_NOTES_PER_TRANSACTION
        &&& self.outputs@.len() == MAX_OUTPUT_NOTES_PER_TRANSACTION
        &&& self.idx_inputs <= MAX_INPUT_NOTES_PER_TRANSACTION
        &&& self.idx_outputs <= MAX_OUTPUT_NOTES_PER_TRANSACTION
    }

    /// The inputs in use.
    pub closed spec fn spec_inputs(&self) -> Seq<TransactionInput> {
        self.inputs@.subrange(0, self.idx_inputs as int)
    }

    /// All input slots, the unused ones included.
    pub closed spec fn spec_all_inputs(&self) -> Seq<TransactionInput> {
        self.inputs@
    }

    /// The outputs in use.
    pub closed spec fn spec_outputs(&self) -> Seq<TransactionOutput> {
        self.outputs@.subrange(0, self.idx_outputs as int)
    }

    /// All output slots, the unused ones included.
    pub closed spec fn spec_all_outputs(&self) -> Seq<TransactionOutput> {
        self.outputs@
    }

    pub closed spec fn spec_fee(&self) -> TransactionOutput {
        self.fee
    }

    pub closed spec fn spec_proof(&self) -> Option<Seq<u8>> {
        match self.proof {
            Some(p) => Some(p@),
            None => None,
        }
    }

    pub closed spec fn spec_public_inputs(&self) -> Seq<CompressedPoint> {
        self.public_inputs.commitments@
    }

    /// There are exactly `MAX_INPUT_NOTES_PER_TRANSACTION` input slots and
    /// `MAX_OUTPUT_NOTES_PER_TRANSACTION` output slots; the items in use are
    /// the first slots, as many as are in use, and never more than the slots.
    pub proof fn lemma_slots(&self)
        requires
            self.wf(),
        ensures
            self.spec_all_inputs().len() == MAX_INPUT_NOTES_PER_TRANSACTION,
            self.spec_all_outputs().len() == MAX_OUTPUT_NOTES_PER_TRANSACTION,
            self.spec_inputs().len() <= MAX_INPUT_NOTES_PER_TRANSACTION,
            self.spec_outputs().len() <= MAX_OUTPUT_NOTES_PER_TRANSACTION,
            self.spec_inputs() == self.spec_all_inputs().subrange(0, self.spec_inputs().len() as int),
            self.spec_outputs() == self.spec_all_outputs().subrange(0, self.spec_outputs().len() as int),
    {
    }

    /// The empty transaction: every slot holds the placeholder item, none is
    /// in use, the fee is the placeholder output, there is no proof.
    pub fn default() -> (tx: Transaction)
        ensures
            tx.wf(),
            tx.spec_inputs().len() == 0,
            tx.spec_outputs().len() == 0,
            forall|i: int|
                0 <= i < MAX_INPUT_NOTES_PER_TRANSACTION ==> (#[trigger] tx.spec_all_inputs()[i]).spec_value()
                    == 0,
            forall|i: int|
                0 <= i < MAX_OUTPUT_NOTES_PER_TRANSACTION ==> (
                #[trigger] tx.spec_all_outputs()[i]).spec_value() == 0,
            tx.spec_fee().spec_value() == 0,
            tx.spec_fee().spec_pk() is None,
            tx.spec_proof() is None,
            tx.spec_public_inputs().len() == 0,
            tx.spec_all_inputs().len() == MAX_INPUT_NOTES_PER_TRANSACTION,
            tx.spec_all_outputs().len() == MAX_OUTPUT_NOTES_PER_TRANSACTION,
            forall|i: int|
                0 <= i < MAX_INPUT_NOTES_PER_TRANSACTION ==> is_placeholder_input(
                    #[trigger] tx.spec_all_inputs()[i],
                ),
            forall|i: int|
                0 <= i < MAX_OUTPUT_NOTES_PER_TRANSACTION ==> is_placeholder_output(
                    #[trigger] tx.spec_all_outputs()[i],
                ),
            is_placeholder_output(tx.spec_fee()),
    {
        let mut inputs: Vec<TransactionInput> = Vec::new();
        let mut k: usize = 0;
        while k < MAX_INPUT_NOTES_PER_TRANSACTION
            invariant
                k <= MAX_INPUT_NOTES_PER_TRANSACTION,
                inputs@.len() == k,
                forall|i: int| 0 <= i < k ==> (#[trigger] inputs@[i]).spec_value() == 0 && is_placeholder_input(inputs@[i]),
            decreases MAX_INPUT_NOTES_PER_TRANSACTION - k,
        {
            inputs.push(TransactionInput::default());
            k = k + 1;
        }
        let mut outputs: Vec<TransactionOutput> = Vec::new();
        let mut k: usize = 0;
        while k < MAX_OUTPUT_NOTES_PER_TRANSACTION
            invariant
                k <= MAX_OUTPUT_NOTES_PER_TRANSACTION,
                outputs@.len() == k,
                forall|i: int| 0 <= i < k ==> (#[trigger] outputs@[i]).spec_value() == 0 && is_placeholder_output(outputs@[i]),
            decreases MAX_OUTPUT_NOTES_PER_TRANSACTION - k,
        {
            outputs.push(TransactionOutput::default());
            k = k + 1;
        }
        Transaction {
            fee: TransactionOutput::default(),
            idx_inputs: 0,
            inputs,
            idx_outputs: 0,
            outputs,
            proof: None,
            public_inputs: ZkPublicInputs::default(),
        }
    }

    /// Appends an input. Fails with `MaximumNotes`, changing nothing, when
    /// all input slots are in use.
    pub fn push_input(&mut self, item: TransactionInput) -> (r: Result<(), Error>)
        requires
            old(self).wf(),
        ensures
            final(self).wf(),
            r is Ok <==> old(self).spec_inputs().len() < MAX_INPUT_NOTES_PER_TRANSACTION,
            r matches Err(e) ==> e is MaximumNotes,
            r is Ok ==> final(self).spec_inputs() == old(self).spec_inputs().push(item),
            r is Ok ==> final(self).spec_all_inputs() == old(self).spec_all_inputs().update(
                old(self).spec_inputs().len() as int,
                item,
            ),
            r is Err ==> final(self).spec_inputs() == old(self).spec_inputs()
                && final(self).spec_all_inputs() == old(self).spec_all_inputs(),
            final(self).spec_all_outputs() == old(self).spec_all_outputs(),
            final(self).spec_outputs() == old(self).spec_outputs(),
            final(self).spec_fee() == old(self).spec_fee(),
            final(self).spec_proof() == old(self).spec_proof(),
            final(self).spec_public_inputs() == old(self).spec_public_inputs(),
    {
        if self.idx_inputs >= MAX_INPUT_NOTES_PER_TRANSACTION {
            return Err(Error::MaximumNotes);
        }
        let ghost item_ = item;
        self.inputs.set(self.idx_inputs, item);
        self.idx_inputs = self.idx_inputs + 1;
        assert(self.spec_inputs() =~= old(self).spec_inputs().push(item_));
        Ok(())
    }

    /// Appends an output. Fails with `MaximumNotes`, changing nothing, when
    /// all output slots are in use.
    pub fn push_output(&mut self, item: TransactionOutput) -> (r: Result<(), Error>)
        requires
            old(self).wf(),
        ensures
            final(self).wf(),
            r is Ok <==> old(self).spec_outputs().len() < MAX_OUTPUT_NOTES_PER_TRANSACTION,
            r matches Err(e) ==> e is MaximumNotes,
            r is Ok ==> final(self).spec_outputs() == old(self).spec_outputs().push(item),
            r is Ok ==> final(self).spec_all_outputs() == old(self).spec_all_outputs().update(
                old(self).spec_outputs().len() as int,
                item,
            ),
            r is Err ==> final(self).spec_outputs() == old(self).spec_outputs()
                && final(self).spec_all_outputs() == old(self).spec_all_outputs(),
            final(self).spec_all_inputs() == old(self).spec_all_inputs(),
            final(self).spec_inputs() == old(self).spec_inputs(),
            final(self).spec_fee() == old(self).spec_fee(),
            final(self).spec_proof() == old(self).spec_proof(),
            final(self).spec_public_inputs() == old(self).spec_public_inputs(),
    {
        if self.idx_outputs >= MAX_OUTPUT_NOTES_PER_TRANSACTION {
            return Err(Error::MaximumNotes);
        }
        let ghost item_ = item;
        self.outputs.set(self.idx_outputs, item);
        self.idx_outputs = self.idx_outputs + 1;
        assert(self.spec_outputs() =~= old(self).spec_outputs().push(item_));
        Ok(())
    }

    /// The fee output.
    ///
    /// A transaction is created with a random public key for the fee. The
    /// pre-image of the fee note is not validated by the proof, so the public
    /// key can later be changed by a block generator.
    pub fn fee(&self) -> (fee: &TransactionOutput)
        ensures
            *fee == self.spec_fee(),
    {
        &self.fee
    }

    /// Sets the fee output.
    pub fn set_fee(&mut self, fee: TransactionOutput)
        requires
            old(self).wf(),
        ensures
            final(self).wf(),
            final(self).spec_fee() == fee,
            final(self).spec_all_inputs() == old(self).spec_all_inputs(),
            final(self).spec_inputs() == old(self).spec_inputs(),
            final(self).spec_all_outputs() == old(self).spec_all_outputs(),
            final(self).spec_outputs() == old(self).spec_outputs(),
            final(self).spec_proof() == old(self).spec_proof(),
            final(self).spec_public_inputs() == old(self).spec_public_inputs(),
    {
        self.fee = fee;
    }

    /// Readdresses the fee to the block generator `pk`: a new transparent
    /// note of the same value, to `pk`. This does not affect the proof.
    pub fn set_fee_pk(&mut self, pk: PublicKey)
        requires
            old(self).wf(),
        ensures
            final(self).wf(),
            final(self).spec_fee().spec_value() == old(self).spec_fee().spec_value(),
            final(self).spec_fee().spec_pk() == Some(pk),
            final(self).spec_fee().spec_note() matches Note::Transparent(n) && n.spec_value()
                == old(self).spec_fee().spec_value() && n.spec_blinding_factor()
                == final(self).spec_fee().spec_blinding_factor(),
            final(self).spec_fee().spec_note() matches Note::Transparent(n) && n.spec_utxo()
                == NoteUtxoType::Output && exists|r: Seq<u8>|
                n.spec_r_p() == spec_base_mul(r) && n.spec_pk_r() == spec_stealth(
                    spec_point_mul(r, pk.spec_a_p()),
                    pk.spec_b_p(),
                ),
            final(self).spec_all_inputs() == old(self).spec_all_inputs(),
            final(self).spec_inputs() == old(self).spec_inputs(),
            final(self).spec_all_outputs() == old(self).spec_all_outputs(),
            final(self).spec_outputs() == old(self).spec_outputs(),
            final(self).spec_proof() == old(self).spec_proof(),
            final(self).spec_public_inputs() == old(self).spec_public_inputs(),
    {
        let value = self.fee.value();
        let (note, blinding_factor) = TransparentNote::output(&pk, value);
        self.fee = note.to_transaction_output(value, blinding_factor, pk);
    }

    /// All input slots, the unused ones included.
    pub fn all_inputs(&self) -> (s: &[TransactionInput])
        requires
            self.wf(),
        ensures
            s@ == self.spec_all_inputs(),
    {
        let s = slice_subrange(self.inputs.as_slice(), 0, MAX_INPUT_NOTES_PER_TRANSACTION);
        assert(s@ =~= self.spec_all_inputs());
        s
    }

    /// The inputs in use.
    pub fn inputs(&self) -> (s: &[TransactionInput])
        requires
            self.wf(),
        ensures
            s@ == self.spec_inputs(),
    {
        slice_subrange(self.inputs.as_slice(), 0, self.idx_inputs)
    }

    /// All output slots, the unused ones included.
    pub fn all_outputs(&self) -> (s: &[TransactionOutput])
        requires
            self.wf(),
        ensures
            s@ == self.spec_all_outputs(),
    {
        let s = slice_subrange(self.outputs.as_slice(), 0, MAX_OUTPUT_NOTES_PER_TRANSACTION);
        assert(s@ =~= self.spec_all_outputs());
        s
    }

    /// The outputs in use.
    pub fn outputs(&self) -> (s: &[TransactionOutput])
        requires
            self.wf(),
        ensures
            s@ == self.spec_outputs(),
    {
        slice_subrange(self.outputs.as_slice(), 0, self.idx_outputs)
    }

    /// Removes the input in use at `idx` and returns it, if there is one. The
    /// last input in use takes its place and the slot it leaves holds the
    /// placeholder input.
    pub fn remove_input(&mut self, idx: usize) -> (r: Option<TransactionInput>)
        requires
            old(self).wf(),
        ensures
            final(self).wf(),
            r is Some <==> idx < old(self).spec_inputs().len(),
            r is None ==> final(self).spec_all_inputs() == old(self).spec_all_inputs()
                && final(self).spec_inputs() == old(self).spec_inputs(),
            r matches Some(item) ==> {
                let n = old(self).spec_inputs().len() - 1;
                let s = old(self).spec_inputs();
                &&& item == s[idx as int]
                &&& final(self).spec_inputs() == s.update(idx as int, s[n]).drop_last()
                &&& final(self).spec_all_inputs()[n].spec_value() == 0
                &&& !final(self).spec_all_inputs()[n].spec_has_secret()
                &&& is_placeholder_input(final(self).spec_all_inputs()[n])
                &&& forall|j: int|
                    n < j < MAX_INPUT_NOTES_PER_TRANSACTION ==> #[trigger] final(self).spec_all_inputs()[j] == old(self).spec_all_inputs()[j]
            },
            final(self).spec_all_outputs() == old(self).spec_all_outputs(),
            final(self).spec_outputs() == old(self).spec_outputs(),
            final(self).spec_fee() == old(self).spec_fee(),
            final(self).spec_proof() == old(self).spec_proof(),
            final(self).spec_public_inputs() == old(self).spec_public_inputs(),
    {
        let n = self.idx_inputs;
        if n == 0 || idx >= n {
            return None;
        }
        let last = n - 1;
        let mut slot = TransactionInput::default();
        self.inputs.set_and_swap(last, &mut slot);
        if idx != last {
            self.inputs.set_and_swap(idx, &mut slot);
        }
        self.idx_inputs = last;
        assert(self.spec_inputs() =~= old(self).spec_inputs().update(
            idx as int,
            old(self).spec_inputs()[last as int],
        ).drop_last());
        Some(slot)
    }

    /// Removes the output in use at `idx` and returns it, if there is one.
    /// The last output in use takes its place and the slot it leaves holds
    /// the placeholder output.
    pub fn remove_output(&mut self, idx: usize) -> (r: Option<TransactionOutput>)
        requires
            old(self).wf(),
        ensures
            final(self).wf(),
            r is Some <==> idx < old(self).spec_outputs().len(),
            r is None ==> final(self).spec_all_outputs() == old(self).spec_all_outputs()
                && final(self).spec_outputs() == old(self).spec_outputs(),
            r matches Some(item) ==> {
                let n = old(self).spec_outputs().len() - 1;
                let s = old(self).spec_outputs();
                &&& item == s[idx as int]
                &&& final(self).spec_outputs() == s.update(idx as int, s[n]).drop_last()
                &&& final(self).spec_all_outputs()[n].spec_value() == 0
                &&& final(self).spec_all_outputs()[n].spec_pk() is None
                &&& is_placeholder_output(final(self).spec_all_outputs()[n])
                &&& forall|j: int|
                    n < j < MAX_OUTPUT_NOTES_PER_TRANSACTION ==> #[trigger] final(self).spec_all_outputs()[j] == old(self).spec_all_outputs()[j]
            },
            final(self).spec_all_inputs() == old(self).spec_all_inputs(),
            final(self).spec_inputs() == old(self).spec_inputs(),
            final(self).spec_fee() == old(self).spec_fee(),
            final(self).spec_proof() == old(self).spec_proof(),
            final(self).spec_public_inputs() == old(self).spec_public_inputs(),
    {
        let n = self.idx_outputs;
        if n == 0 || idx >= n {
            return None;
        }
        let last = n - 1;
        let mut slot = TransactionOutput::default();
        self.outputs.set_and_swap(last, &mut slot);
        if idx != last {
            self.outputs.set_and_swap(idx, &mut slot);
        }
        self.idx_outputs = last;
        assert(self.spec_outputs() =~= old(self).spec_outputs().update(
            idx as int,
            old(self).spec_outputs()[last as int],
        ).drop_last());
        Some(slot)
    }

    /// Sorts the inputs in use, and the outputs in use, by the hash of their
    /// note. The unused slots, the fee and the proof stay as they are.
    pub fn sort_items(&mut self)
        requires
            old(self).wf(),
        ensures
            final(self).wf(),
            final(self).spec_inputs().len() == old(self).spec_inputs().len(),
            final(self).spec_outputs().len() == old(self).spec_outputs().len(),
            final(self).spec_inputs().to_multiset() == old(self).spec_inputs().to_multiset(),
            final(self).spec_outputs().to_multiset() == old(self).spec_outputs().to_multiset(),
            sorted_by(input_hashes(final(self).spec_inputs()), bytes_leq()),
            sorted_by(output_hashes(final(self).spec_outputs()), bytes_leq()),
            spec_transaction_hash(final(self).spec_fee(), final(self).spec_inputs(), final(self).spec_outputs())
                == spec_transaction_hash(old(self).spec_fee(), old(self).spec_inputs(), old(self).spec_outputs()),
            forall|j: int|
                old(self).spec_inputs().len() <= j < MAX_INPUT_NOTES_PER_TRANSACTION
                    ==> #[trigger] final(self).spec_all_inputs()[j] == old(self).spec_all_inputs()[j],
            forall|j: int|
                old(self).spec_outputs().len() <= j < MAX_OUTPUT_NOTES_PER_TRANSACTION
                    ==> #[trigger] final(self).spec_all_outputs()[j] == old(self).spec_all_outputs()[j],
            final(self).spec_fee() == old(self).spec_fee(),
            final(self).spec_proof() == old(self).spec_proof(),
            final(self).spec_public_inputs() == old(self).spec_public_inputs(),
            sorted_by(input_hashes(old(self).spec_inputs()), bytes_leq())
                ==> final(self).spec_all_inputs() == old(self).spec_all_inputs(),
            sorted_by(output_hashes(old(self).spec_outputs()), bytes_leq())
                ==> final(self).spec_all_outputs() == old(self).spec_all_outputs(),
    {
        let mut ins: Vec<TransactionInput> = Vec::new();
        std::mem::swap(&mut ins, &mut self.inputs);
        self.inputs = sort_input_prefix(ins, self.idx_inputs);
        let mut outs: Vec<TransactionOutput> = Vec::new();
        std::mem::swap(&mut outs, &mut self.outputs);
        self.outputs = sort_output_prefix(outs, self.idx_outputs);
        proof {
            assert forall|j: int|
                old(self).spec_inputs().len() <= j < MAX_INPUT_NOTES_PER_TRANSACTION
                    implies #[trigger] self.spec_all_inputs()[j] == old(self).spec_all_inputs()[j] by {
                let n = self.idx_inputs as int;
                assert(self.inputs@.subrange(n, self.inputs@.len() as int)[j - n] == self.inputs@[j]);
            }
            assert forall|j: int|
                old(self).spec_outputs().len() <= j < MAX_OUTPUT_NOTES_PER_TRANSACTION
                    implies #[trigger] self.spec_all_outputs()[j] == old(self).spec_all_outputs()[j] by {
                let n = self.idx_outputs as int;
                assert(self.outputs@.subrange(n, self.outputs@.len() as int)[j - n] == self.outputs@[j]);
            }
            lemma_hash_order_independent(
                self.spec_fee(),
                self.spec_inputs(),
                old(self).spec_inputs(),
                self.spec_outputs(),
                old(self).spec_outputs(),
            );
        }
    }

    /// The hash of the fee, the inputs in use and the outputs in use: it does
    /// not depend on the order the items were pushed in.
    pub fn hash(&self) -> (h: [u8; 32])
        requires
            self.wf(),
        ensures
            h@ == spec_transaction_hash(self.spec_fee(), self.spec_inputs(), self.spec_outputs()),
            exists|rest: Seq<u8>| h@ == spec_sha256(spec_note_hash(self.spec_fee().spec_note()) + rest),
    {
        let mut buf: Vec<u8> = Vec::new();
        let fee_hash = self.fee.hash();
        push_bytes(&mut buf, &fee_hash);
        let ins = sorted_input_hashes(&self.inputs, self.idx_inputs);
        push_digests(&mut buf, &ins);
        let outs = sorted_output_hashes(&self.outputs, self.idx_outputs);
        push_digests(&mut buf, &outs);
        proof {
            let a = spec_note_hash(self.spec_fee().spec_note());
            let b = input_hashes(self.spec_inputs()).sort_by(bytes_leq()).flatten();
            let c = output_hashes(self.spec_outputs()).sort_by(bytes_leq()).flatten();
            assert(buf@ =~= a + b + c);
            lemma_hash_starts_with_fee(self.spec_fee(), self.spec_inputs(), self.spec_outputs());
        }
        sha256(buf.as_slice())
    }

    /// Removes the sensitive parts (values, blinding factors, spending keys)
    /// of every input and output slot, so that the transaction can be
    /// broadcast. The notes, the fee and the proof stay.
    pub fn clear_sensitive_info(&mut self)
        requires
            old(self).wf(),
        ensures
            final(self).wf(),
            sensitive_info_cleared(*final(self), *old(self)),
            spec_transaction_hash(final(self).spec_fee(), final(self).spec_inputs(), final(self).spec_outputs())
                == spec_transaction_hash(old(self).spec_fee(), old(self).spec_inputs(), old(self).spec_outputs()),
    {
        let mut k: usize = 0;
        while k < MAX_INPUT_NOTES_PER_TRANSACTION
            invariant
                k <= MAX_INPUT_NOTES_PER_TRANSACTION,
                self.inputs@.len() == MAX_INPUT_NOTES_PER_TRANSACTION,
                self.wf(),
                self.idx_inputs == old(self).idx_inputs,
                self.idx_outputs == old(self).idx_outputs,
                self.outputs == old(self).outputs,
                self.fee == old(self).fee,
                self.proof == old(self).proof,
                self.public_inputs == old(self).public_inputs,
                forall|j: int| k <= j < MAX_INPUT_NOTES_PER_TRANSACTION ==> #[trigger] self.inputs@[j] == old(self).inputs@[j],
                forall|j: int|
                    0 <= j < k ==> {
                        &&& (#[trigger] self.inputs@[j]).spec_note() == old(self).inputs@[j].spec_note()
                        &&& self.inputs@[j].spec_value() == 0
                        &&& self.inputs@[j].spec_blinding_factor() == Seq::new(32, |k: int| 0u8)
                        &&& !self.inputs@[j].spec_has_secret()
                    },
            decreases MAX_INPUT_NOTES_PER_TRANSACTION - k,
        {
            let mut item = TransactionInput::default();
            self.inputs.set_and_swap(k, &mut item);
            item.clear_sensitive_info();
            self.inputs.set(k, item);
            k = k + 1;
        }
        let mut k: usize = 0;
        while k < MAX_OUTPUT_NOTES_PER_TRANSACTION
            invariant
                k <= MAX_OUTPUT_NOTES_PER_TRANSACTION,
                self.outputs@.len() == MAX_OUTPUT_NOTES_PER_TRANSACTION,
                self.wf(),
                self.idx_inputs == old(self).idx_inputs,
                self.idx_outputs == old(self).idx_outputs,
                self.fee == old(self).fee,
                self.proof == old(self).proof,
                self.public_inputs == old(self).public_inputs,
                forall|j: int|
                    0 <= j < MAX_INPUT_NOTES_PER_TRANSACTION ==> {
                        &&& (#[trigger] self.inputs@[j]).spec_note() == old(self).inputs@[j].spec_note()
                        &&& self.inputs@[j].spec_value() == 0
                        &&& self.inputs@[j].spec_blinding_factor() == Seq::new(32, |k: int| 0u8)
                        &&& !self.inputs@[j].spec_has_secret()
                    },
                forall|j: int| k <= j < MAX_OUTPUT_NOTES_PER_TRANSACTION ==> #[trigger] self.outputs@[j] == old(self).outputs@[j],
                forall|j: int|
                    0 <= j < k ==> {
                        &&& (#[trigger] self.outputs@[j]).spec_note() == old(self).outputs@[j].spec_note()
                        &&& self.outputs@[j].spec_pk() == old(self).outputs@[j].spec_pk()
                        &&& self.outputs@[j].spec_value() == 0
                        &&& self.outputs@[j].spec_blinding_factor() == Seq::new(32, |k: int| 0u8)
                    },
            decreases MAX_OUTPUT_NOTES_PER_TRANSACTION - k,
        {
            let mut item = TransactionOutput::default();
            self.outputs.set_and_swap(k, &mut item);
            item.clear_sensitive_info();
            self.outputs.set(k, item);
            k = k + 1;
        }
        proof {
            assert(input_hashes(self.spec_inputs()) =~= input_hashes(old(self).spec_inputs()));
            assert(output_hashes(self.spec_outputs()) =~= output_hashes(old(self).spec_outputs()));
        }
    }

    /// A random balanced transaction: random input values, each below
    /// `u64::MAX / MAX_INPUT_NOTES_PER_TRANSACTION - 1`; random output values,
    /// each below what the inputs leave after the ones before it; and what is
    /// left as the fee. The transaction is built from them by `from_values`.
    pub fn random() -> (tx: Transaction)
        ensures
            tx.wf(),
            balanced(tx.spec_inputs(), tx.spec_outputs(), tx.spec_fee()),
            tx.spec_proof() is None,
            tx.spec_public_inputs().len() == 0,
            forall|j: int| 0 <= j < tx.spec_inputs().len() ==> random_input_item(#[trigger] tx.spec_inputs()[j]),
            forall|j: int| 0 <= j < tx.spec_outputs().len() ==> random_output_item(#[trigger] tx.spec_outputs()[j]),
            random_fee_item(tx.spec_fee()),
    {
        let input_values = random_input_values();
        let mut inputs: u64 = 0;
        let mut k: usize = 0;
        while k < MAX_INPUT_NOTES_PER_TRANSACTION
            invariant
                k <= MAX_INPUT_NOTES_PER_TRANSACTION,
                input_values@.len() == MAX_INPUT_NOTES_PER_TRANSACTION,
                sum_values(input_values@) <= u64::MAX,
                inputs == sum_values(input_values@.subrange(0, k as int)),
            decreases MAX_INPUT_NOTES_PER_TRANSACTION - k,
        {
            proof {
                lemma_sum_values_prefix_le(input_values@, k + 1);
                assert(input_values@.subrange(0, k + 1).drop_last() =~= input_values@.subrange(0, k as int));
            }
            inputs = inputs + input_values[k];
            k = k + 1;
        }
        assert(input_values@.subrange(0, MAX_INPUT_NOTES_PER_TRANSACTION as int) =~= input_values@);
        let (output_values, fee) = random_output_values(inputs);
        Transaction::from_values(&input_values, &output_values, fee)
    }

    /// The transaction of the given values: each positive input value spent,
    /// in order, from a transparent note of its own to a fresh key; each
    /// positive output value sent, in order, as an obfuscated note to a fresh
    /// key; and the fee as a transparent note of `fee` to a fresh key. Zero
    /// values get no item; there is no proof.
    pub fn from_values(input_values: &Vec<u64>, output_values: &Vec<u64>, fee: u64) -> (tx: Transaction)
        requires
            input_values@.len() <= MAX_INPUT_NOTES_PER_TRANSACTION,
            output_values@.len() <= MAX_OUTPUT_NOTES_PER_TRANSACTION,
        ensures
            tx.wf(),
            tx.spec_inputs().map_values(|i: TransactionInput| i.spec_value()) == positive_values(input_values@),
            tx.spec_outputs().map_values(|o: TransactionOutput| o.spec_value()) == positive_values(output_values@),
            tx.spec_fee().spec_value() == fee,
            sum_inputs(tx.spec_inputs()) == sum_values(input_values@),
            sum_outputs(tx.spec_outputs()) == sum_values(output_values@),
            tx.spec_proof() is None,
            tx.spec_public_inputs().len() == 0,
            forall|j: int| 0 <= j < tx.spec_inputs().len() ==> random_input_item(#[trigger] tx.spec_inputs()[j]),
            forall|j: int| 0 <= j < tx.spec_outputs().len() ==> random_output_item(#[trigger] tx.spec_outputs()[j]),
            random_fee_item(tx.spec_fee()),
    {
        let mut tx = Transaction::default();
        assert(tx.spec_inputs() =~= Seq::<TransactionInput>::empty());
        assert(input_values@.subrange(0, 0) =~= Seq::<u64>::empty());
        assert(tx.spec_inputs().map_values(|i: TransactionInput| i.spec_value()) =~= Seq::<u64>::empty());
        let mut k: usize = 0;
        while k < input_values.len()
            invariant
                k <= input_values@.len(),
                input_values@.len() <= MAX_INPUT_NOTES_PER_TRANSACTION,
                tx.wf(),
                tx.spec_inputs().len() <= k,
                tx.spec_outputs().len() == 0,
                tx.spec_proof() is None,
                tx.spec_public_inputs().len() == 0,
                forall|j: int| 0 <= j < tx.spec_inputs().len() ==> random_input_item(#[trigger] tx.spec_inputs()[j]),
                sum_inputs(tx.spec_inputs()) == sum_values(input_values@.subrange(0, k as int)),
                tx.spec_inputs().map_values(|i: TransactionInput| i.spec_value())
                    == positive_values(input_values@.subrange(0, k as int)),
            decreases input_values@.len() - k,
        {
            let value = input_values[k];
            let ghost before = tx.spec_inputs();
            if value > 0 {
                let sk = SecretKey::default();
                let pk = sk.public_key();
                let note = TransparentNote::output(&pk, value).0;
                let item = note.to_transaction_input(sk);
                let _ = tx.push_input(item);
                assert(tx.spec_inputs().drop_last() == before);
                assert(tx.spec_inputs().map_values(|i: TransactionInput| i.spec_value())
                    =~= before.map_values(|i: TransactionInput| i.spec_value()).push(value));
            }
            k = k + 1;
            assert(input_values@.subrange(0, k as int).drop_last() =~= input_values@.subrange(0, k - 1));
        }
        assert(input_values@.subrange(0, k as int) =~= input_values@);
        assert(tx.spec_outputs() =~= Seq::<TransactionOutput>::empty());
        assert(output_values@.subrange(0, 0) =~= Seq::<u64>::empty());
        assert(tx.spec_outputs().map_values(|o: TransactionOutput| o.spec_value()) =~= Seq::<u64>::empty());
        let mut k: usize = 0;
        while k < output_values.len()
            invariant
                k <= output_values@.len(),
                output_values@.len() <= MAX_OUTPUT_NOTES_PER_TRANSACTION,
                tx.wf(),
                tx.spec_outputs().len() <= k,
                tx.spec_proof() is None,
                tx.spec_public_inputs().len() == 0,
                forall|j: int| 0 <= j < tx.spec_inputs().len() ==> random_input_item(#[trigger] tx.spec_inputs()[j]),
                forall|j: int| 0 <= j < tx.spec_outputs().len() ==> random_output_item(#[trigger] tx.spec_outputs()[j]),
                sum_inputs(tx.spec_inputs()) == sum_values(input_values@),
                tx.spec_inputs().map_values(|i: TransactionInput| i.spec_value()) == positive_values(input_values@),
                sum_outputs(tx.spec_outputs()) == sum_values(output_values@.subrange(0, k as int)),
                tx.spec_outputs().map_values(|o: TransactionOutput| o.spec_value())
                    == positive_values(output_values@.subrange(0, k as int)),
            decreases output_values@.len() - k,
        {
            let value = output_values[k];
            let ghost before = tx.spec_outputs();
            if value > 0 {
                let sk = SecretKey::default();
                let pk = sk.public_key();
                let (note, blinding_factor) = ObfuscatedNote::output(&pk, value);
                let item = note.to_transaction_output(value, blinding_factor, pk);
                let _ = tx.push_output(item);
                assert(tx.spec_outputs().drop_last() == before);
                assert(tx.spec_outputs().map_values(|o: TransactionOutput| o.spec_value())
                    =~= before.map_values(|o: TransactionOutput| o.spec_value()).push(value));
            }
            k = k + 1;
            assert(output_values@.subrange(0, k as int).drop_last() =~= output_values@.subrange(0, k - 1));
        }
        assert(output_values@.subrange(0, k as int) =~= output_values@);
        let sk = SecretKey::default();
        let pk = sk.public_key();
        let (note, blinding_factor) = TransparentNote::output(&pk, fee);
        tx.set_fee(note.to_transaction_output(fee, blinding_factor, pk));
        tx
    }

    /// The transaction's hash in lower-case hexadecimal.
    pub fn to_hex_lower(&self) -> (s: String)
        requires
            self.wf(),
        ensures
            s@ == spec_hex(spec_transaction_hash(self.spec_fee(), self.spec_inputs(), self.spec_outputs()), false),
    {
        let h = self.hash();
        hex_lower(&h)
    }

    /// The transaction's hash in upper-case hexadecimal.
    pub fn to_hex_upper(&self) -> (s: String)
        requires
            self.wf(),
        ensures
            s@ == spec_hex(spec_transaction_hash(self.spec_fee(), self.spec_inputs(), self.spec_outputs()), true),
    {
        let h = self.hash();
        hex_upper(&h)
    }

    /// The parts a transaction is sent as: the input and output slots whose
    /// value is not zero, in slot order, the fee, and the proof's bytes
    /// (none when there is no proof).
    pub fn to_rpc_parts(self) -> (parts: (Vec<TransactionInput>, Vec<TransactionOutput>, TransactionOutput, Vec<u8>))
        requires
            self.wf(),
        ensures
            parts.0@ == nonzero_inputs(self.spec_all_inputs()),
            parts.1@ == nonzero_outputs(self.spec_all_outputs()),
            parts.2 == self.spec_fee(),
            parts.3@ == (match self.spec_proof() {
                Some(p) => p,
                None => Seq::<u8>::empty(),
            }),
    {
        let ghost all_in = self.inputs@;
        let ghost all_out = self.outputs@;
        assert(all_in.len() <= 4 && all_out.len() <= 4);
        let Transaction { fee, inputs, outputs, proof: maybe_proof, .. } = self;
        let mut rest = inputs;
        let mut ins: Vec<TransactionInput> = Vec::new();
        let mut k: usize = 0;
        while rest.len() > 0
            invariant
                k <= all_in.len(),
                all_in.len() <= 4,
                rest@ == all_in.subrange(k as int, all_in.len() as int),
                ins@ == nonzero_inputs(all_in.subrange(0, k as int)),
            decreases rest@.len(),
        {
            let it = rest.remove(0);
            if it.value() > 0 {
                ins.push(it);
            }
            proof {
                assert(all_in.subrange(0, k + 1).drop_last() =~= all_in.subrange(0, k as int));
                assert(all_in.subrange(0, k + 1).last() == all_in[k as int]);
                assert(it == all_in[k as int]);
            }
            k = k + 1;
        }
        assert(all_in.subrange(0, k as int) =~= all_in);
        let mut rest = outputs;
        let mut outs: Vec<TransactionOutput> = Vec::new();
        let mut k: usize = 0;
        while rest.len() > 0
            invariant
                k <= all_out.len(),
                all_out.len() <= 4,
                rest@ == all_out.subrange(k as int, all_out.len() as int),
                outs@ == nonzero_outputs(all_out.subrange(0, k as int)),
            decreases rest@.len(),
        {
            let it = rest.remove(0);
            if it.value() > 0 {
                outs.push(it);
            }
            proof {
                assert(all_out.subrange(0, k + 1).drop_last() =~= all_out.subrange(0, k as int));
                assert(all_out.subrange(0, k + 1).last() == all_out[k as int]);
                assert(it == all_out[k as int]);
            }
            k = k + 1;
        }
        assert(all_out.subrange(0, k as int) =~= all_out);
        let bytes = match maybe_proof {
            Some(p) => p,
            None => Vec::new(),
        };
        (ins, outs, fee, bytes)
    }

    /// A transaction made of the given inputs and outputs and a transparent
    /// fee note of `fee_value` to a fresh key, proven and verified. Fails with
    /// `MaximumNotes` when there are more inputs or outputs than slots, and
    /// with `Generic` when the inputs do not add up to the outputs and the
    /// fee, or when the verifier refuses the proof made for them. The items
    /// come out sorted by their note's hash.
    pub fn try_from_rpc_io(
        fee_value: u64,
        inputs: Vec<TransactionInput>,
        outputs: Vec<TransactionOutput>,
    ) -> (r: Result<Transaction, Error>)
        ensures
            (inputs@.len() > MAX_INPUT_NOTES_PER_TRANSACTION || outputs@.len()
                > MAX_OUTPUT_NOTES_PER_TRANSACTION) <==> (r matches Err(e) && e is MaximumNotes),
            r matches Ok(tx) ==> {
                &&& tx.wf()
                &&& tx.spec_inputs().to_multiset() == inputs@.to_multiset()
                &&& tx.spec_outputs().to_multiset() == outputs@.to_multiset()
                &&& tx.spec_fee().spec_value() == fee_value
                &&& tx.spec_fee().spec_note() matches Note::Transparent(n) && n.spec_value() == fee_value
                    && n.spec_blinding_factor() == tx.spec_fee().spec_blinding_factor()
                &&& tx.spec_fee().spec_pk() is Some
                &&& balanced(tx.spec_inputs(), tx.spec_outputs(), tx.spec_fee())
                &&& sum_inputs(tx.spec_inputs()) == sum_outputs(tx.spec_outputs()) + fee_value
                &&& tx.spec_proof() matches Some(p) && spec_proof_parses(p)
                &&& point_views(tx.spec_public_inputs()) == spec_item_commitments(
                    tx.spec_inputs(),
                    tx.spec_outputs(),
                    tx.spec_fee(),
                )
                &&& sorted_by(input_hashes(tx.spec_inputs()), bytes_leq())
                &&& sorted_by(output_hashes(tx.spec_outputs()), bytes_leq())
            },
            (inputs@.len() <= MAX_INPUT_NOTES_PER_TRANSACTION && outputs@.len()
                <= MAX_OUTPUT_NOTES_PER_TRANSACTION && sum_inputs(inputs@) != sum_outputs(outputs@) + fee_value)
                ==> (r matches Err(e) && e is Generic),
            r matches Err(e) ==> (e is MaximumNotes || e is Generic),
    {
        let mut tx = Transaction::default();
        let ghost ins = inputs@;
        let ghost outs = outputs@;
        if inputs.len() > MAX_INPUT_NOTES_PER_TRANSACTION || outputs.len()
            > MAX_OUTPUT_NOTES_PER_TRANSACTION {
            return Err(Error::MaximumNotes);
        }
        tx.push_all(inputs, outputs);
        let sk = SecretKey::default();
        let pk = sk.public_key();
        let (note, blinding_factor) = TransparentNote::output(&pk, fee_value);
        tx.set_fee(note.to_transaction_output(fee_value, blinding_factor, pk));
        let ghost before = tx;
        match tx.prove() {
            Ok(()) => {},
            Err(e) => {
                return Err(e);
            },
        }
        proof {
            lemma_sum_inputs_permutation(before.spec_inputs(), tx.spec_inputs());
            lemma_sum_outputs_permutation(before.spec_outputs(), tx.spec_outputs());
        }
        match tx.verify() {
            Ok(()) => {},
            Err(e) => {
                return Err(e);
            },
        }
        Ok(tx)
    }

    /// A transaction made of the given fee (the placeholder output if there
    /// is none), inputs and outputs, and the proof when `proof_bytes` is not
    /// empty; a proof that is given is verified against the commitments of
    /// the items, which become the public inputs. Fails with `MaximumNotes`
    /// when there are more inputs or outputs than slots, with `R1CS` when the
    /// proof's bytes do not parse as a proof, and with `Generic` when the
    /// verifier refuses it; a valid proof is accepted.
    pub fn try_from_rpc_transaction(
        fee: Option<TransactionOutput>,
        inputs: Vec<TransactionInput>,
        outputs: Vec<TransactionOutput>,
        proof_bytes: Vec<u8>,
    ) -> (r: Result<Transaction, Error>)
        ensures
            (inputs@.len() > MAX_INPUT_NOTES_PER_TRANSACTION || outputs@.len()
                > MAX_OUTPUT_NOTES_PER_TRANSACTION) ==> (r matches Err(e) && e is MaximumNotes),
            (inputs@.len() <= MAX_INPUT_NOTES_PER_TRANSACTION && outputs@.len()
                <= MAX_OUTPUT_NOTES_PER_TRANSACTION && (proof_bytes@.len() == 0 || spec_openings_valid(
                rpc_commitments(inputs@, outputs@, fee),
                proof_bytes@,
            ))) ==> r is Ok,
            r is Ok ==> (proof_bytes@.len() == 0 || spec_proof_parses(proof_bytes@)),
            (inputs@.len() <= MAX_INPUT_NOTES_PER_TRANSACTION && outputs@.len()
                <= MAX_OUTPUT_NOTES_PER_TRANSACTION && proof_bytes@.len() > 0 && !spec_proof_parses(
                proof_bytes@,
            )) ==> (r matches Err(e) && e is R1CS),
            r matches Err(e) ==> (e is MaximumNotes || e is R1CS || e is Generic),
            r matches Ok(tx) ==> {
                &&& tx.wf()
                &&& tx.spec_inputs() == inputs@
                &&& tx.spec_outputs() == outputs@
                &&& (fee matches Some(f) ==> tx.spec_fee() == f)
                &&& (fee is None ==> is_placeholder_output(tx.spec_fee()))
                &&& tx.spec_proof() == (if proof_bytes@.len() == 0 {
                    None
                } else {
                    Some(proof_bytes@)
                })
                &&& (proof_bytes@.len() == 0 ==> tx.spec_public_inputs().len() == 0)
                &&& (proof_bytes@.len() > 0 ==> point_views(tx.spec_public_inputs())
                    == spec_item_commitments(tx.spec_inputs(), tx.spec_outputs(), tx.spec_fee()))
            },
    {
        let mut tx = Transaction::default();
        let ghost fee_given = fee;
        if let Some(f) = fee {
            tx.set_fee(f);
        }
        if inputs.len() > MAX_INPUT_NOTES_PER_TRANSACTION || outputs.len()
            > MAX_OUTPUT_NOTES_PER_TRANSACTION {
            return Err(Error::MaximumNotes);
        }
        tx.push_all(inputs, outputs);
        proof {
            assert(spec_item_commitments(tx.spec_inputs(), tx.spec_outputs(), tx.spec_fee())
                =~= rpc_commitments(tx.spec_inputs(), tx.spec_outputs(), fee_given));
        }
        if proof_bytes.len() > 0 {
            match parse_proof(proof_bytes.as_slice()) {
                Ok(()) => {},
                Err(e) => {
                    return Err(Error::from(e));
                },
            }
            let (_openings, commitments) = tx.item_openings();
            let (label, gens, parties) = cs_parameters();
            match verify_openings(label, gens, parties, &commitments, proof_bytes.as_slice()) {
                Ok(()) => {},
                Err(_) => {
                    return Err(Error::Generic);
                },
            }
            tx.public_inputs = ZkPublicInputs { commitments };
            tx.set_proof(proof_bytes);
        }
        Ok(tx)
    }

    /// Pushes all the inputs and outputs into an empty transaction.
    fn push_all(&mut self, inputs: Vec<TransactionInput>, outputs: Vec<TransactionOutput>)
        requires
            old(self).wf(),
            old(self).spec_inputs().len() == 0,
            old(self).spec_outputs().len() == 0,
            inputs@.len() <= MAX_INPUT_NOTES_PER_TRANSACTION,
            outputs@.len() <= MAX_OUTPUT_NOTES_PER_TRANSACTION,
        ensures
            final(self).wf(),
            final(self).spec_inputs() == inputs@,
            final(self).spec_outputs() == outputs@,
            final(self).spec_fee() == old(self).spec_fee(),
            final(self).spec_proof() == old(self).spec_proof(),
            final(self).spec_public_inputs() == old(self).spec_public_inputs(),
    {
        let ghost ins = inputs@;
        let ghost outs = outputs@;
        let mut rest = inputs;
        let mut k: usize = 0;
        assert(self.spec_inputs() =~= ins.subrange(0, 0));
        while rest.len() > 0
            invariant
                self.wf(),
                k <= ins.len(),
                ins.len() <= MAX_INPUT_NOTES_PER_TRANSACTION,
                rest@ == ins.subrange(k as int, ins.len() as int),
                self.spec_inputs() == ins.subrange(0, k as int),
                self.spec_outputs().len() == 0,
                self.spec_fee() == old(self).spec_fee(),
                self.spec_proof() == old(self).spec_proof(),
                self.spec_public_inputs() == old(self).spec_public_inputs(),
            decreases rest@.len(),
        {
            let it = rest.remove(0);
            let _ = self.push_input(it);
            k = k + 1;
            assert(ins.subrange(0, k as int) =~= ins.subrange(0, k - 1).push(it));
        }
        assert(ins.subrange(0, k as int) =~= ins);
        let mut rest = outputs;
        let mut k: usize = 0;
        assert(self.spec_outputs() =~= outs.subrange(0, 0));
        while rest.len() > 0
            invariant
                self.wf(),
                k <= outs.len(),
                outs.len() <= MAX_OUTPUT_NOTES_PER_TRANSACTION,
                rest@ == outs.subrange(k as int, outs.len() as int),
                self.spec_outputs() == outs.subrange(0, k as int),
                self.spec_inputs() == ins,
                self.spec_fee() == old(self).spec_fee(),
                self.spec_proof() == old(self).spec_proof(),
                self.spec_public_inputs() == old(self).spec_public_inputs(),
            decreases rest@.len(),
        {
            let it = rest.remove(0);
            let _ = self.push_output(it);
            k = k + 1;
            assert(outs.subrange(0, k as int) =~= outs.subrange(0, k - 1).push(it));
        }
        assert(outs.subrange(0, k as int) =~= outs);
    }

    /// Proves the transaction: sorts the items, then, when the inputs add up
    /// to the outputs and the fee, commits to every item (inputs, outputs,
    /// fee), keeps the commitments as the public inputs and proves knowledge
    /// of their openings; the proof's bytes parse as a proof. Fails with
    /// `Generic`, changing nothing else, exactly when the values do not
    /// balance.
    ///
    /// Depends on the secret data of the transaction items.
    pub fn prove(&mut self) -> (r: Result<(), Error>)
        requires
            old(self).wf(),
        ensures
            final(self).wf(),
            final(self).spec_inputs().to_multiset() == old(self).spec_inputs().to_multiset(),
            final(self).spec_outputs().to_multiset() == old(self).spec_outputs().to_multiset(),
            sorted_by(input_hashes(final(self).spec_inputs()), bytes_leq()),
            sorted_by(output_hashes(final(self).spec_outputs()), bytes_leq()),
            final(self).spec_fee() == old(self).spec_fee(),
            spec_transaction_hash(final(self).spec_fee(), final(self).spec_inputs(), final(self).spec_outputs())
                == spec_transaction_hash(old(self).spec_fee(), old(self).spec_inputs(), old(self).spec_outputs()),
            r is Ok ==> balanced(old(self).spec_inputs(), old(self).spec_outputs(), old(self).spec_fee()),
            r is Ok ==> sum_inputs(old(self).spec_inputs()) == sum_outputs(old(self).spec_outputs())
                + old(self).spec_fee().spec_value(),
            sum_inputs(old(self).spec_inputs()) != sum_outputs(old(self).spec_outputs())
                + old(self).spec_fee().spec_value() ==> (r matches Err(e) && e is Generic),
            !balanced(old(self).spec_inputs(), old(self).spec_outputs(), old(self).spec_fee()) ==> (r matches Err(e) && e is Generic),
            balanced(old(self).spec_inputs(), old(self).spec_outputs(), old(self).spec_fee()) ==> r is Ok,
            r is Ok ==> final(self).spec_proof() is Some && point_views(final(self).spec_public_inputs())
                == spec_item_commitments(final(self).spec_inputs(), final(self).spec_outputs(), final(self).spec_fee()),
            r is Ok ==> (final(self).spec_proof() matches Some(p) && spec_proof_parses(p)),
            r is Err ==> final(self).spec_proof() == old(self).spec_proof() && final(self).spec_public_inputs() == old(self).spec_public_inputs(),
    {
        if self.idx_inputs > MAX_INPUT_NOTES_PER_TRANSACTION || self.idx_outputs
            > MAX_OUTPUT_NOTES_PER_TRANSACTION {
            return Err(Error::MaximumNotes);
        }
        self.sort_items();
        let ghost sorted = *self;
        proof {
            lemma_sum_inputs_permutation(old(self).spec_inputs(), self.spec_inputs());
            lemma_sum_outputs_permutation(old(self).spec_outputs(), self.spec_outputs());
        }
        let total_in = sum_input_values(&self.inputs, self.idx_inputs);
        let total_out = sum_output_values(&self.outputs, self.idx_outputs);
        if total_in != total_out + self.fee.value() as u128 {
            return Err(Error::Generic);
        }
        let (openings, commitments) = self.item_openings();
        let (label, gens, parties) = cs_parameters();
        match prove_openings(label, gens, parties, &openings) {
            Ok(p) => {
                self.public_inputs = ZkPublicInputs { commitments };
                self.proof = Some(p);
                Ok(())
            },
            Err(e) => Err(Error::from(e)),
        }
    }

    /// The openings `(value, blinding factor)` of the inputs in use, the
    /// outputs in use and the fee, in that order, and their commitments.
    fn item_openings(&self) -> (res: (Vec<(Scalar, Scalar)>, Vec<CompressedPoint>))
        requires
            self.wf(),
        ensures
            point_views(res.1@) == spec_item_commitments(self.spec_inputs(), self.spec_outputs(), self.spec_fee()),
            opening_commitments(res.0@) == point_views(res.1@),
    {
        let mut openings: Vec<(Scalar, Scalar)> = Vec::new();
        let mut commitments: Vec<CompressedPoint> = Vec::new();
        let ghost ins = self.spec_inputs();
        let ghost outs = self.spec_outputs();
        let mut k: usize = 0;
        while k < self.idx_inputs
            invariant
                self.wf(),
                ins == self.spec_inputs(),
                k <= self.idx_inputs,
                point_views(commitments@) == ins.subrange(0, k as int).map_values(|i: TransactionInput| input_commitment(i)),
                opening_commitments(openings@) == point_views(commitments@),
            decreases self.idx_inputs - k,
        {
            assert(self.inputs@[k as int] == ins[k as int]);
            let v = value_scalar(self.inputs[k].value());
            let b = self.inputs[k].blinding_factor();
            let ghost prev = commitments@;
            let ghost prev_openings = openings@;
            let c = pedersen_commit(&v, &b);
            commitments.push(c);
            openings.push((v, b));
            proof {
                assert(point_views(commitments@) =~= point_views(prev).push(c.0@));
                assert(opening_commitments(openings@) =~= opening_commitments(prev_openings).push(c.0@));
                assert(ins.subrange(0, k + 1).map_values(|i: TransactionInput| input_commitment(i)) =~= ins.subrange(0, k as int).map_values(|i: TransactionInput| input_commitment(i)).push(input_commitment(ins[k as int])));
            }
            k = k + 1;
            assert(point_views(commitments@) =~= ins.subrange(0, k as int).map_values(|i: TransactionInput| input_commitment(i)));
        }
        let ghost c_in = commitments@;
        let mut k: usize = 0;
        while k < self.idx_outputs
            invariant
                self.wf(),
                ins == self.spec_inputs(),
                outs == self.spec_outputs(),
                k <= self.idx_outputs,
                point_views(commitments@) == ins.map_values(|i: TransactionInput| input_commitment(i))
                    + outs.subrange(0, k as int).map_values(|o: TransactionOutput| output_commitment(o)),
                opening_commitments(openings@) == point_views(commitments@),
            decreases self.idx_outputs - k,
        {
            assert(self.outputs@[k as int] == outs[k as int]);
            let v = value_scalar(self.outputs[k].value());
            let b = self.outputs[k].blinding_factor();
            let ghost prev = commitments@;
            let ghost prev_openings = openings@;
            let c = pedersen_commit(&v, &b);
            commitments.push(c);
            openings.push((v, b));
            proof {
                assert(point_views(commitments@) =~= point_views(prev).push(c.0@));
                assert(opening_commitments(openings@) =~= opening_commitments(prev_openings).push(c.0@));
                assert(outs.subrange(0, k + 1).map_values(|o: TransactionOutput| output_commitment(o)) =~= outs.subrange(0, k as int).map_values(|o: TransactionOutput| output_commitment(o)).push(output_commitment(outs[k as int])));
            }
            k = k + 1;
            assert(point_views(commitments@) =~= ins.map_values(|i: TransactionInput| input_commitment(i))
                + outs.subrange(0, k as int).map_values(|o: TransactionOutput| output_commitment(o)));
        }
        let v = value_scalar(self.fee.value());
        let b = self.fee.blinding_factor();
        let ghost prev = commitments@;
        let ghost prev_openings = openings@;
        let c = pedersen_commit(&v, &b);
        commitments.push(c);
        openings.push((v, b));
        proof {
            assert(point_views(commitments@) =~= point_views(prev).push(c.0@));
            assert(opening_commitments(openings@) =~= opening_commitments(prev_openings).push(c.0@));
            assert(ins.subrange(0, ins.len() as int) =~= ins);
            assert(outs.subrange(0, outs.len() as int) =~= outs);
            assert(point_views(commitments@) =~= spec_item_commitments(ins, outs, self.spec_fee()));
        }
        (openings, commitments)
    }

    /// Verifies a proven transaction against its public inputs: `Ok` when
    /// there is a proof and the verifier accepts it; `Generic` otherwise. A
    /// transaction without a proof, or whose proof's bytes do not parse, is
    /// refused; one with a valid proof is accepted.
    ///
    /// Does not depend on the secret data of the items.
    pub fn verify(&self) -> (r: Result<(), Error>)
        ensures
            self.spec_proof() is None ==> r is Err,
            self.spec_proof() matches Some(p) && !spec_proof_parses(p) ==> r is Err,
            self.spec_proof() matches Some(p) && spec_openings_valid(point_views(self.spec_public_inputs()), p)
                ==> r is Ok,
            r matches Err(e) ==> e is Generic,
    {
        let (label, gens, parties) = cs_parameters();
        match &self.proof {
            None => Err(Error::Generic),
            Some(p) => match verify_openings(label, gens, parties, &self.public_inputs.commitments, p.as_slice()) {
                Ok(()) => Ok(()),
                Err(_) => Err(Error::Generic),
            },
        }
    }

    /// Two transactions are equal when their hashes are.
    pub fn eq(&self, other: &Transaction) -> (r: bool)
        requires
            self.wf(),
            other.wf(),
        ensures
            r == (spec_transaction_hash(self.spec_fee(), self.spec_inputs(), self.spec_outputs())
                == spec_transaction_hash(other.spec_fee(), other.spec_inputs(), other.spec_outputs())),
    {
        let a = self.hash();
        let b = other.hash();
        let mut i: usize = 0;
        while i < 32
            invariant
                i <= 32,
                a@ == spec_transaction_hash(self.spec_fee(), self.spec_inputs(), self.spec_outputs()),
                b@ == spec_transaction_hash(other.spec_fee(), other.spec_inputs(), other.spec_outputs()),
                a@.subrange(0, i as int) == b@.subrange(0, i as int),
            decreases 32 - i,
        {
            if a[i] != b[i] {
                assert(a@[i as int] != b@[i as int]);
                assert(a@ != b@);
                return false;
            }
            i = i + 1;
            assert(a@.subrange(0, i as int) =~= a@.subrange(0, i - 1).push(a@[i - 1]));
            assert(b@.subrange(0, i as int) =~= b@.subrange(0, i - 1).push(b@[i - 1]));
        }
        assert(a@ =~= a@.subrange(0, 32));
        assert(b@ =~= b@.subrange(0, 32));
        true
    }

    /// The public inputs of the proof.
    pub fn public_inputs(&self) -> (pi: &ZkPublicInputs)
        ensures
            pi.commitments@ == self.spec_public_inputs(),
    {
        &self.public_inputs
    }

    /// The proof, if the transaction was proven or given one.
    pub fn get_proof(&self) -> (p: Option<&Vec<u8>>)
        ensures
            match p {
                Some(b) => self.spec_proof() == Some(b@),
                None => self.spec_proof() is None,
            },
    {
        match &self.proof {
            Some(b) => Some(b),
            None => None,
        }
    }

    /// Replaces the proof, if any.
    pub fn set_proof(&mut self, bytes: Vec<u8>)
        requires
            old(self).wf(),
        ensures
            final(self).wf(),
            final(self).spec_proof() == Some(bytes@),
            final(self).spec_all_inputs() == old(self).spec_all_inputs(),
            final(self).spec_inputs() == old(self).spec_inputs(),
            final(self).spec_all_outputs() == old(self).spec_all_outputs(),
            final(self).spec_outputs() == old(self).spec_outputs(),
            final(self).spec_fee() == old(self).spec_fee(),
            final(self).spec_public_inputs() == old(self).spec_public_inputs(),
    {
        self.proof = Some(bytes);
    }
}

/// The encoding of an optional proof: 0, or 1 and the length-prefixed bytes.
pub open spec fn spec_proof_bytes(p: Option<Seq<u8>>) -> Seq<u8> {
    match p {
        None => seq![0u8],
        Some(b) => seq![1u8] + spec_prefixed(b),
    }
}

/// The encoding of a list of points: their number, then the points.
pub open spec fn spec_points_part(s: Seq<CompressedPoint>) -> Seq<u8> {
    spec_u64_to_le_bytes(s.len() as u64) + flatten_points(s)
}

/// The encoding of input slots of which `n` are in use: `n`, then every slot.
pub open spec fn spec_inputs_part(n: nat, s: Seq<TransactionInput>) -> Seq<u8> {
    spec_u64_to_le_bytes(n as u64) + inputs_bytes(s)
}

/// The encoding of output slots of which `n` are in use: `n`, then every slot.
pub open spec fn spec_outputs_part(n: nat, s: Seq<TransactionOutput>) -> Seq<u8> {
    spec_u64_to_le_bytes(n as u64) + outputs_bytes(s)
}

/// The encoding of a transaction: the proof; the public inputs; the number
/// of inputs in use and every input slot; the number of outputs in use and
/// every output slot; the fee.
pub open spec fn spec_transaction_bytes(tx: Transaction) -> Seq<u8> {
    spec_proof_bytes(tx.spec_proof()) + spec_points_part(tx.spec_public_inputs())
        + spec_inputs_part(tx.spec_inputs().len(), tx.spec_all_inputs()) + spec_outputs_part(
        tx.spec_outputs().len(),
        tx.spec_all_outputs(),
    ) + spec_output_bytes(tx.spec_fee())
}

/// Every output slot and the fee are addressed, if to a key at all, to one
/// that holds two points.
pub open spec fn tx_keys_valid(tx: Transaction) -> bool {
    &&& forall|j: int|
        0 <= j < tx.spec_all_outputs().len() ==> output_key_valid(#[trigger] tx.spec_all_outputs()[j])
    &&& output_key_valid(tx.spec_fee())
}

/// Appends the encodings of the inputs, one after another.
fn push_inputs(out: &mut Vec<u8>, items: &Vec<TransactionInput>)
    ensures
        final(out)@ == old(out)@ + inputs_bytes(items@),
{
    let ghost start = out@;
    let mut k: usize = 0;
    proof {
        assert(items@.subrange(0, 0).map_values(|i: TransactionInput| spec_input_bytes(i))
            =~= Seq::<Seq<u8>>::empty());
    }
    while k < items.len()
        invariant
            k <= items@.len(),
            out@ == start + inputs_bytes(items@.subrange(0, k as int)),
        decreases items@.len() - k,
    {
        let b = items[k].to_bytes();
        push_bytes(out, b.as_slice());
        proof {
            let m = items@.subrange(0, k as int).map_values(|i: TransactionInput| spec_input_bytes(i));
            assert(items@.subrange(0, k + 1).map_values(|i: TransactionInput| spec_input_bytes(i))
                =~= m.push(spec_input_bytes(items@[k as int])));
            m.lemma_flatten_push(spec_input_bytes(items@[k as int]));
        }
        k = k + 1;
    }
    assert(items@.subrange(0, k as int) =~= items@);
}

/// Appends the encodings of the outputs, one after another.
fn push_outputs(out: &mut Vec<u8>, items: &Vec<TransactionOutput>)
    ensures
        final(out)@ == old(out)@ + outputs_bytes(items@),
{
    let ghost start = out@;
    let mut k: usize = 0;
    proof {
        assert(items@.subrange(0, 0).map_values(|o: TransactionOutput| spec_output_bytes(o))
            =~= Seq::<Seq<u8>>::empty());
    }
    while k < items.len()
        invariant
            k <= items@.len(),
            out@ == start + outputs_bytes(items@.subrange(0, k as int)),
        decreases items@.len() - k,
    {
        let b = items[k].to_bytes();
        push_bytes(out, b.as_slice());
        proof {
            let m = items@.subrange(0, k as int).map_values(|o: TransactionOutput| spec_output_bytes(o));
            assert(items@.subrange(0, k + 1).map_values(|o: TransactionOutput| spec_output_bytes(o))
                =~= m.push(spec_output_bytes(items@[k as int])));
            m.lemma_flatten_push(spec_output_bytes(items@[k as int]));
        }
        k = k + 1;
    }
    assert(items@.subrange(0, k as int) =~= items@);
}

/// The bytes that start with a transaction's encoding start with each of its
/// five parts, one after the other.
proof fn lemma_transaction_bytes_parts(b: Seq<u8>, tx: Transaction)
    requires
        starts_with_at(b, 0, spec_transaction_bytes(tx)),
    ensures
        ({
            let x0 = spec_proof_bytes(tx.spec_proof());
            let x1 = spec_points_part(tx.spec_public_inputs());
            let x2 = spec_inputs_part(tx.spec_inputs().len(), tx.spec_all_inputs());
            let x3 = spec_outputs_part(tx.spec_outputs().len(), tx.spec_all_outputs());
            &&& starts_with_at(b, 0, x0)
            &&& starts_with_at(b, x0.len() as int, x1)
            &&& starts_with_at(b, (x0.len() + x1.len()) as int, x2)
            &&& starts_with_at(b, (x0.len() + x1.len() + x2.len()) as int, x3)
            &&& starts_with_at(b, (x0.len() + x1.len() + x2.len() + x3.len()) as int, spec_output_bytes(tx.spec_fee()))
        }),
{
    let x0 = spec_proof_bytes(tx.spec_proof());
    let x1 = spec_points_part(tx.spec_public_inputs());
    let x2 = spec_inputs_part(tx.spec_inputs().len(), tx.spec_all_inputs());
    let x3 = spec_outputs_part(tx.spec_outputs().len(), tx.spec_all_outputs());
    let x4 = spec_output_bytes(tx.spec_fee());
    lemma_starts_with_split(b, 0, x0 + x1 + x2 + x3, x4);
    lemma_starts_with_split(b, 0, x0 + x1 + x2, x3);
    lemma_starts_with_split(b, 0, x0 + x1, x2);
    lemma_starts_with_split(b, 0, x0, x1);
}

/// The proof part at the start of the bytes.
fn read_proof_part(bytes: &[u8]) -> (r: Option<(Option<Vec<u8>>, usize)>)
    ensures
        r matches Some((o, p)) ==> p <= bytes@.len() && spec_proof_bytes(opt_view(o))
            == bytes@.subrange(0, p as int),
        forall|q: Option<Seq<u8>>|
            #![trigger starts_with_at(bytes@, 0, spec_proof_bytes(q))]
            starts_with_at(bytes@, 0, spec_proof_bytes(q)) ==> (r matches Some((o, p)) && opt_view(o)
                == q),
{
    let ghost b = bytes@;
    let (tag, p0) = match read_u8(bytes, 0) {
        None => return None,
        Some(x) => x,
    };
    proof {
        assert forall|q: Option<Seq<u8>>| #[trigger] starts_with_at(b, 0, spec_proof_bytes(q))
            implies tag == spec_proof_bytes(q)[0] by {
            assert(b.subrange(0, spec_proof_bytes(q).len() as int)[0] == b[0]);
        }
    }
    if tag == 0 {
        assert(spec_proof_bytes(None) =~= b.subrange(0, 1));
        Some((None, p0))
    } else if tag == 1 {
        proof {
            assert forall|q: Option<Seq<u8>>| #[trigger] starts_with_at(b, 0, spec_proof_bytes(q))
                implies q matches Some(c) && starts_with_at(b, 1, spec_prefixed(c)) by {
                if let Some(c) = q {
                    lemma_starts_with_split(b, 0, seq![1u8], spec_prefixed(c));
                }
            }
        }
        match read_prefixed(bytes, p0) {
            None => None,
            Some((v, q)) => {
                assert(spec_proof_bytes(Some(v@)) =~= b.subrange(0, q as int));
                Some((Some(v), q))
            },
        }
    } else {
        None
    }
}

/// The view of an optional byte vector.
pub open spec fn opt_view(o: Option<Vec<u8>>) -> Option<Seq<u8>> {
    match o {
        Some(v) => Some(v@),
        None => None,
    }
}

/// The public inputs part at `pos`.
fn read_points_part(bytes: &[u8], pos: usize) -> (r: Option<(Vec<CompressedPoint>, usize)>)
    ensures
        r matches Some((v, p)) ==> pos <= p <= bytes@.len() && spec_points_part(v@)
            == bytes@.subrange(pos as int, p as int),
        forall|s: Seq<CompressedPoint>|
            #![trigger starts_with_at(bytes@, pos as int, spec_points_part(s))]
            starts_with_at(bytes@, pos as int, spec_points_part(s)) ==> (r matches Some((v, p))
                && v@ == s),
{
    let ghost b = bytes@;
    let len = bytes.len();
    proof {
        lemma_u64_bytes();
    }
    let (n, p) = match read_u64(bytes, pos) {
        None => return None,
        Some(x) => x,
    };
    proof {
        assert forall|s: Seq<CompressedPoint>| #[trigger] starts_with_at(b, pos as int, spec_points_part(s))
            implies s.len() == n && starts_with_at(b, p as int, flatten_points(s)) by {
            assert(flatten_points(s).len() <= len);
            assert(s.len() as u64 == s.len());
            lemma_starts_with_split(b, pos as int, spec_u64_to_le_bytes(s.len() as u64), flatten_points(s));
        }
    }
    match read_points(bytes, p, n) {
        None => None,
        Some((v, q)) => {
            assert(spec_points_part(v@) =~= b.subrange(pos as int, q as int));
            Some((v, q))
        },
    }
}

/// The input slots part at `pos`: the number in use, which must not exceed
/// the slots, and every slot.
fn read_inputs_part(bytes: &[u8], pos: usize) -> (r: Option<(usize, Vec<TransactionInput>, usize)>)
    requires
        pos <= bytes@.len(),
    ensures
        r matches Some((n, v, p)) ==> pos <= p <= bytes@.len() && n <= MAX_INPUT_NOTES_PER_TRANSACTION
            && v@.len() == MAX_INPUT_NOTES_PER_TRANSACTION && spec_inputs_part(n as nat, v@)
            == bytes@.subrange(pos as int, p as int),
        forall|k: nat, s: Seq<TransactionInput>|
            #![trigger starts_with_at(bytes@, pos as int, spec_inputs_part(k, s))]
            k <= MAX_INPUT_NOTES_PER_TRANSACTION && s.len() == MAX_INPUT_NOTES_PER_TRANSACTION
                && starts_with_at(bytes@, pos as int, spec_inputs_part(k, s)) ==> (r matches Some(
                (n, v, p),
            ) && n == k && inputs_bytes(v@) == inputs_bytes(s) && same_inputs(v@, s)),
        forall|m: u64|
            #![trigger starts_with_at(bytes@, pos as int, spec_u64_to_le_bytes(m))]
            m > MAX_INPUT_NOTES_PER_TRANSACTION && starts_with_at(bytes@, pos as int, spec_u64_to_le_bytes(m))
                ==> r is None,
{
    let ghost b = bytes@;
    proof {
        lemma_u64_bytes();
    }
    let (n, p) = match read_u64(bytes, pos) {
        None => return None,
        Some(x) => x,
    };
    proof {
        assert forall|m: u64| #[trigger] starts_with_at(b, pos as int, spec_u64_to_le_bytes(m)) implies m == n by {
            assert(spec_u64_to_le_bytes(m) == spec_u64_to_le_bytes(n));
        }
    }
    proof {
        assert forall|k: nat, s: Seq<TransactionInput>|
            k <= MAX_INPUT_NOTES_PER_TRANSACTION && #[trigger] starts_with_at(b, pos as int, spec_inputs_part(k, s))
            implies k == n && starts_with_at(b, p as int, inputs_bytes(s)) by {
            lemma_starts_with_split(b, pos as int, spec_u64_to_le_bytes(k as u64), inputs_bytes(s));
        }
    }
    if n > MAX_INPUT_NOTES_PER_TRANSACTION as u64 {
        return None;
    }
    match read_inputs(bytes, p, MAX_INPUT_NOTES_PER_TRANSACTION) {
        None => None,
        Some((v, q)) => {
            assert(spec_inputs_part(n as nat, v@) =~= b.subrange(pos as int, q as int));
            Some((n as usize, v, q))
        },
    }
}

/// The output slots part at `pos`: the number in use, which must not exceed
/// the slots, and every slot.
fn read_outputs_part(bytes: &[u8], pos: usize) -> (r: Option<(usize, Vec<TransactionOutput>, usize)>)
    requires
        pos <= bytes@.len(),
    ensures
        r matches Some((n, v, p)) ==> pos <= p <= bytes@.len() && n <= MAX_OUTPUT_NOTES_PER_TRANSACTION
            && v@.len() == MAX_OUTPUT_NOTES_PER_TRANSACTION && spec_outputs_part(n as nat, v@)
            == bytes@.subrange(pos as int, p as int),
        forall|k: nat, s: Seq<TransactionOutput>|
            #![trigger starts_with_at(bytes@, pos as int, spec_outputs_part(k, s))]
            k <= MAX_OUTPUT_NOTES_PER_TRANSACTION && s.len() == MAX_OUTPUT_NOTES_PER_TRANSACTION
                && (forall|j: int| 0 <= j < s.len() ==> output_key_valid(#[trigger] s[j]))
                && starts_with_at(bytes@, pos as int, spec_outputs_part(k, s)) ==> (r matches Some(
                (n, v, p),
            ) && n == k && outputs_bytes(v@) == outputs_bytes(s) && same_outputs(v@, s)),
        forall|m: u64|
            #![trigger starts_with_at(bytes@, pos as int, spec_u64_to_le_bytes(m))]
            m > MAX_OUTPUT_NOTES_PER_TRANSACTION && starts_with_at(bytes@, pos as int, spec_u64_to_le_bytes(m))
                ==> r is None,
{
    let ghost b = bytes@;
    proof {
        lemma_u64_bytes();
    }
    let (n, p) = match read_u64(bytes, pos) {
        None => return None,
        Some(x) => x,
    };
    proof {
        assert forall|m: u64| #[trigger] starts_with_at(b, pos as int, spec_u64_to_le_bytes(m)) implies m == n by {
            assert(spec_u64_to_le_bytes(m) == spec_u64_to_le_bytes(n));
        }
    }
    proof {
        assert forall|k: nat, s: Seq<TransactionOutput>|
            k <= MAX_OUTPUT_NOTES_PER_TRANSACTION && #[trigger] starts_with_at(b, pos as int, spec_outputs_part(k, s))
            implies k == n && starts_with_at(b, p as int, outputs_bytes(s)) by {
            lemma_starts_with_split(b, pos as int, spec_u64_to_le_bytes(k as u64), outputs_bytes(s));
        }
    }
    if n > MAX_OUTPUT_NOTES_PER_TRANSACTION as u64 {
        return None;
    }
    match read_outputs(bytes, p, MAX_OUTPUT_NOTES_PER_TRANSACTION) {
        None => None,
        Some((v, q)) => {
            assert(spec_outputs_part(n as nat, v@) =~= b.subrange(pos as int, q as int));
            Some((n as usize, v, q))
        },
    }
}

/// A range of bytes is the range up to a midpoint and the range after it.
proof fn lemma_subrange_concat(b: Seq<u8>, i: int, j: int, k: int)
    requires
        0 <= i <= j <= k <= b.len(),
    ensures
        b.subrange(i, k) == b.subrange(i, j) + b.subrange(j, k),
{
    assert(b.subrange(i, k) =~= b.subrange(i, j) + b.subrange(j, k));
}

/// The bytes start with a proof part and a public inputs part, then give a
/// number of inputs in use above the input slots.
pub open spec fn too_many_inputs(b: Seq<u8>) -> bool {
    exists|p: Option<Seq<u8>>, s: Seq<CompressedPoint>, m: u64|
        m > MAX_INPUT_NOTES_PER_TRANSACTION && #[trigger] starts_with_at(
            b,
            0,
            spec_proof_bytes(p) + spec_points_part(s) + spec_u64_to_le_bytes(m),
        )
}

/// The bytes start with a proof part, a public inputs part and an input
/// slots part, then give a number of outputs in use above the output slots.
pub open spec fn too_many_outputs(b: Seq<u8>) -> bool {
    exists|p: Option<Seq<u8>>, s: Seq<CompressedPoint>, k: nat, ys: Seq<TransactionInput>, m: u64|
        k <= MAX_INPUT_NOTES_PER_TRANSACTION && ys.len() == MAX_INPUT_NOTES_PER_TRANSACTION && m
            > MAX_OUTPUT_NOTES_PER_TRANSACTION && #[trigger] starts_with_at(
            b,
            0,
            spec_proof_bytes(p) + spec_points_part(s) + spec_inputs_part(k, ys)
                + spec_u64_to_le_bytes(m),
        )
}

impl Transaction {
    /// Every output slot and the fee are addressed, if at all, to keys that
    /// hold two points.
    pub fn keys_are_valid(&self)
        requires
            self.wf(),
        ensures
            tx_keys_valid(*self),
    {
        let mut k: usize = 0;
        while k < self.outputs.len()
            invariant
                k <= self.outputs@.len(),
                forall|j: int| 0 <= j < k ==> output_key_valid(#[trigger] self.outputs@[j]),
            decreases self.outputs@.len() - k,
        {
            self.outputs[k].key_is_valid();
            k = k + 1;
        }
        self.fee.key_is_valid();
    }

    /// The transaction's encoding, as it stands.
    fn encode(&self) -> (bytes: Vec<u8>)
        requires
            self.wf(),
        ensures
            bytes@ == spec_transaction_bytes(*self),
    {
        let mut out: Vec<u8> = Vec::new();
        match &self.proof {
            None => out.push(0u8),
            Some(p) => {
                out.push(1u8);
                push_prefixed(&mut out, p.as_slice());
            },
        }
        push_u64(&mut out, self.public_inputs.commitments.len() as u64);
        push_points(&mut out, &self.public_inputs.commitments);
        push_u64(&mut out, self.idx_inputs as u64);
        push_inputs(&mut out, &self.inputs);
        push_u64(&mut out, self.idx_outputs as u64);
        push_outputs(&mut out, &self.outputs);
        let fb = self.fee.to_bytes();
        push_bytes(&mut out, fb.as_slice());
        assert(out@ =~= spec_transaction_bytes(*self));
        out
    }

    /// Removes the sensitive information, as `clear_sensitive_info` does, and
    /// returns the encoding of what is left.
    pub fn to_bytes(&mut self) -> (bytes: Vec<u8>)
        requires
            old(self).wf(),
        ensures
            final(self).wf(),
            sensitive_info_cleared(*final(self), *old(self)),
            spec_transaction_hash(final(self).spec_fee(), final(self).spec_inputs(), final(self).spec_outputs())
                == spec_transaction_hash(old(self).spec_fee(), old(self).spec_inputs(), old(self).spec_outputs()),
            tx_keys_valid(*final(self)),
            bytes@ == spec_transaction_bytes(*final(self)),
    {
        self.clear_sensitive_info();
        self.keys_are_valid();
        self.encode()
    }

    /// Reads a transaction from the start of the bytes, and returns it with
    /// the number of bytes its encoding takes. Fails with `Io` when the bytes
    /// do not start with an encoding, or when a count of items in use exceeds
    /// the slots. What `to_bytes` wrote is read back: the proof, the public
    /// inputs and the counts as they were, every item and the fee with the
    /// same encoding, note and value, and so the same hash.
    #[verifier::rlimit(40)]
    #[verifier::spinoff_prover]
    pub fn from_bytes(bytes: &[u8]) -> (r: Result<(Transaction, usize), Error>)
        ensures
            r matches Ok((tx, n)) ==> tx.wf() && n <= bytes@.len() && spec_transaction_bytes(tx)
                == bytes@.subrange(0, n as int),
            r matches Ok((tx, n)) ==> tx.spec_inputs().len() <= MAX_INPUT_NOTES_PER_TRANSACTION
                && tx.spec_outputs().len() <= MAX_OUTPUT_NOTES_PER_TRANSACTION,
            too_many_inputs(bytes@) ==> r is Err,
            too_many_outputs(bytes@) ==> r is Err,
            r matches Err(e) ==> e is Io,
            forall|y: Transaction|
                #![trigger starts_with_at(bytes@, 0, spec_transaction_bytes(y))]
                y.wf() && tx_keys_valid(y) && starts_with_at(bytes@, 0, spec_transaction_bytes(y))
                    ==> (r matches Ok((tx, n)) && {
                    &&& n == spec_transaction_bytes(y).len()
                    &&& tx.spec_proof() == y.spec_proof()
                    &&& tx.spec_public_inputs() == y.spec_public_inputs()
                    &&& tx.spec_inputs().len() == y.spec_inputs().len()
                    &&& tx.spec_outputs().len() == y.spec_outputs().len()
                    &&& inputs_bytes(tx.spec_all_inputs()) == inputs_bytes(y.spec_all_inputs())
                    &&& outputs_bytes(tx.spec_all_outputs()) == outputs_bytes(y.spec_all_outputs())
                    &&& spec_output_bytes(tx.spec_fee()) == spec_output_bytes(y.spec_fee())
                    &&& same_inputs(tx.spec_all_inputs(), y.spec_all_inputs())
                    &&& same_outputs(tx.spec_all_outputs(), y.spec_all_outputs())
                    &&& same_output(tx.spec_fee(), y.spec_fee())
                    &&& spec_transaction_hash(tx.spec_fee(), tx.spec_inputs(), tx.spec_outputs())
                        == spec_transaction_hash(y.spec_fee(), y.spec_inputs(), y.spec_outputs())
                }),
    {
        let ghost b = bytes@;
        let (proof_bytes, p1) = match read_proof_part(bytes) {
            None => {
                proof {
                    assert forall|y: Transaction|
                    #![trigger starts_with_at(b, 0, spec_transaction_bytes(y))]
                    y.wf() && tx_keys_valid(y) && starts_with_at(b, 0, spec_transaction_bytes(y)) implies false by {
                        lemma_transaction_bytes_parts(b, y);
                    }
                }
                return Err(Error::Io(invalid_data("malformed transaction")));
            },
            Some(x) => x,
        };
        proof {
            assert forall|y: Transaction|
                    #![trigger starts_with_at(b, 0, spec_transaction_bytes(y))]
                    y.wf() && tx_keys_valid(y) && starts_with_at(b, 0, spec_transaction_bytes(y)) implies opt_view(proof_bytes) == y.spec_proof()
                && p1 == spec_proof_bytes(y.spec_proof()).len() by {
                lemma_transaction_bytes_parts(b, y);
            }
        }
        let (points, p2) = match read_points_part(bytes, p1) {
            None => {
                proof {
                    assert forall|y: Transaction|
                    #![trigger starts_with_at(b, 0, spec_transaction_bytes(y))]
                    y.wf() && tx_keys_valid(y) && starts_with_at(b, 0, spec_transaction_bytes(y)) implies false by {
                        lemma_transaction_bytes_parts(b, y);
                    }
                }
                return Err(Error::Io(invalid_data("malformed transaction")));
            },
            Some(x) => x,
        };
        proof {
            assert forall|y: Transaction|
                    #![trigger starts_with_at(b, 0, spec_transaction_bytes(y))]
                    y.wf() && tx_keys_valid(y) && starts_with_at(b, 0, spec_transaction_bytes(y)) implies points@ == y.spec_public_inputs()
                && p2 == p1 + spec_points_part(y.spec_public_inputs()).len() by {
                lemma_transaction_bytes_parts(b, y);
            }
        }
        let (n_in, inputs, p3) = match read_inputs_part(bytes, p2) {
            None => {
                proof {
                    assert forall|y: Transaction|
                    #![trigger starts_with_at(b, 0, spec_transaction_bytes(y))]
                    y.wf() && tx_keys_valid(y) && starts_with_at(b, 0, spec_transaction_bytes(y)) implies false by {
                        lemma_transaction_bytes_parts(b, y);
                    }
                }
                return Err(Error::Io(invalid_data("malformed transaction")));
            },
            Some(x) => x,
        };
        proof {
            assert forall|y: Transaction|
                    #![trigger starts_with_at(b, 0, spec_transaction_bytes(y))]
                    y.wf() && tx_keys_valid(y) && starts_with_at(b, 0, spec_transaction_bytes(y)) implies n_in == y.spec_inputs().len()
                && inputs_bytes(inputs@) == inputs_bytes(y.spec_all_inputs())
                && same_inputs(inputs@, y.spec_all_inputs()) && p3 == p2
                + spec_inputs_part(y.spec_inputs().len(), y.spec_all_inputs()).len() by {
                lemma_transaction_bytes_parts(b, y);
            }
            if too_many_inputs(b) {
                let (q, ps, m) = choose|q: Option<Seq<u8>>, ps: Seq<CompressedPoint>, m: u64|
                    m > MAX_INPUT_NOTES_PER_TRANSACTION && #[trigger] starts_with_at(
                        b,
                        0,
                        spec_proof_bytes(q) + spec_points_part(ps) + spec_u64_to_le_bytes(m),
                    );
                let x0 = spec_proof_bytes(q);
                let x1 = spec_points_part(ps);
                lemma_starts_with_split(b, 0, x0 + x1, spec_u64_to_le_bytes(m));
                lemma_starts_with_split(b, 0, x0, x1);
                assert(opt_view(proof_bytes) == q);
                assert(points@ == ps);
                assert(p2 == (x0 + x1).len());
                assert(false);
            }
        }
        let (n_out, outputs, p4) = match read_outputs_part(bytes, p3) {
            None => {
                proof {
                    assert forall|y: Transaction|
                    #![trigger starts_with_at(b, 0, spec_transaction_bytes(y))]
                    y.wf() && tx_keys_valid(y) && starts_with_at(b, 0, spec_transaction_bytes(y)) implies false by {
                        lemma_transaction_bytes_parts(b, y);
                    }
                }
                return Err(Error::Io(invalid_data("malformed transaction")));
            },
            Some(x) => x,
        };
        proof {
            assert forall|y: Transaction|
                    #![trigger starts_with_at(b, 0, spec_transaction_bytes(y))]
                    y.wf() && tx_keys_valid(y) && starts_with_at(b, 0, spec_transaction_bytes(y)) implies n_out == y.spec_outputs().len()
                && outputs_bytes(outputs@) == outputs_bytes(y.spec_all_outputs())
                && same_outputs(outputs@, y.spec_all_outputs()) && p4 == p3
                + spec_outputs_part(y.spec_outputs().len(), y.spec_all_outputs()).len() by {
                lemma_transaction_bytes_parts(b, y);
            }
            if too_many_outputs(b) {
                let (q, ps, k, ys, m) = choose|
                    q: Option<Seq<u8>>,
                    ps: Seq<CompressedPoint>,
                    k: nat,
                    ys: Seq<TransactionInput>,
                    m: u64,
                |
                    k <= MAX_INPUT_NOTES_PER_TRANSACTION && ys.len() == MAX_INPUT_NOTES_PER_TRANSACTION
                        && m > MAX_OUTPUT_NOTES_PER_TRANSACTION && #[trigger] starts_with_at(
                        b,
                        0,
                        spec_proof_bytes(q) + spec_points_part(ps) + spec_inputs_part(k, ys)
                            + spec_u64_to_le_bytes(m),
                    );
                let x0 = spec_proof_bytes(q);
                let x1 = spec_points_part(ps);
                let x2 = spec_inputs_part(k, ys);
                lemma_starts_with_split(b, 0, x0 + x1 + x2, spec_u64_to_le_bytes(m));
                lemma_starts_with_split(b, 0, x0 + x1, x2);
                lemma_starts_with_split(b, 0, x0, x1);
                assert(opt_view(proof_bytes) == q);
                assert(points@ == ps);
                assert(p2 == (x0 + x1).len());
                assert(n_in == k && inputs_bytes(inputs@) == inputs_bytes(ys));
                assert(spec_inputs_part(n_in as nat, inputs@).len() == x2.len());
                assert(p3 == (x0 + x1 + x2).len());
                assert(false);
            }
        }
        let (fee, p5) = match read_output(bytes, p4) {
            None => {
                proof {
                    assert forall|y: Transaction|
                    #![trigger starts_with_at(b, 0, spec_transaction_bytes(y))]
                    y.wf() && tx_keys_valid(y) && starts_with_at(b, 0, spec_transaction_bytes(y)) implies false by {
                        lemma_transaction_bytes_parts(b, y);
                    }
                }
                return Err(Error::Io(invalid_data("malformed transaction")));
            },
            Some(x) => x,
        };
        proof {
            assert forall|y: Transaction|
                    #![trigger starts_with_at(b, 0, spec_transaction_bytes(y))]
                    y.wf() && tx_keys_valid(y) && starts_with_at(b, 0, spec_transaction_bytes(y)) implies spec_output_bytes(fee)
                == spec_output_bytes(y.spec_fee()) && same_output(fee, y.spec_fee())
                && p5 == spec_transaction_bytes(y).len() by {
                lemma_transaction_bytes_parts(b, y);
            }
        }
        let tx = Transaction {
            fee,
            idx_inputs: n_in,
            inputs,
            idx_outputs: n_out,
            outputs,
            proof: proof_bytes,
            public_inputs: ZkPublicInputs { commitments: points },
        };
        proof {
            lemma_subrange_concat(b, 0, p1 as int, p2 as int);
            lemma_subrange_concat(b, 0, p2 as int, p3 as int);
            lemma_subrange_concat(b, 0, p3 as int, p4 as int);
            lemma_subrange_concat(b, 0, p4 as int, p5 as int);
            assert(tx.spec_inputs().len() == n_in);
            assert(tx.spec_outputs().len() == n_out);
            assert forall|y: Transaction|
                #![trigger starts_with_at(b, 0, spec_transaction_bytes(y))]
                y.wf() && tx_keys_valid(y) && starts_with_at(b, 0, spec_transaction_bytes(y)) implies
                input_hashes(tx.spec_inputs()) == input_hashes(y.spec_inputs())
                && output_hashes(tx.spec_outputs()) == output_hashes(y.spec_outputs()) by {
                assert(input_hashes(tx.spec_inputs()) =~= input_hashes(y.spec_inputs()));
                assert(output_hashes(tx.spec_outputs()) =~= output_hashes(y.spec_outputs()));
            }
        }
        Ok((tx, p5))
    }
}

/// Keeping the items of nonzero value keeps a prefix of positive values
/// followed by zero values down to the prefix.
proof fn lemma_nonzero_inputs_prefix(s: Seq<TransactionInput>, n: int)
    requires
        0 <= n <= s.len(),
        forall|j: int| 0 <= j < n ==> (#[trigger] s[j]).spec_value() > 0,
        forall|j: int| n <= j < s.len() ==> (#[trigger] s[j]).spec_value() == 0,
    ensures
        nonzero_inputs(s) == s.subrange(0, n),
    decreases s.len(),
{
    if s.len() > 0 {
        let m = if n == s.len() { n - 1 } else { n };
        lemma_nonzero_inputs_prefix(s.drop_last(), m);
        assert(s.drop_last().subrange(0, m) =~= s.subrange(0, m));
        if n == s.len() {
            assert(s.subrange(0, n) =~= s.subrange(0, m).push(s.last()));
        }
    } else {
        assert(s.subrange(0, n) =~= s);
    }
}

/// Keeping the items of nonzero value keeps a prefix of positive values
/// followed by zero values down to the prefix.
proof fn lemma_nonzero_outputs_prefix(s: Seq<TransactionOutput>, n: int)
    requires
        0 <= n <= s.len(),
        forall|j: int| 0 <= j < n ==> (#[trigger] s[j]).spec_value() > 0,
        forall|j: int| n <= j < s.len() ==> (#[trigger] s[j]).spec_value() == 0,
    ensures
        nonzero_outputs(s) == s.subrange(0, n),
    decreases s.len(),
{
    if s.len() > 0 {
        let m = if n == s.len() { n - 1 } else { n };
        lemma_nonzero_outputs_prefix(s.drop_last(), m);
        assert(s.drop_last().subrange(0, m) =~= s.subrange(0, m));
        if n == s.len() {
            assert(s.subrange(0, n) =~= s.subrange(0, m).push(s.last()));
        }
    } else {
        assert(s.subrange(0, n) =~= s);
    }
}

/// A proven transaction whose items in use all have a value, and whose
/// unused slots have none, is sent by `to_rpc_parts` as items whose
/// commitments are its public inputs: `try_from_rpc_transaction` checks the
/// proof it received against the very commitments it was made for.
pub proof fn lemma_rpc_round_trip(tx: Transaction)
    requires
        tx.wf(),
        forall|j: int| 0 <= j < tx.spec_inputs().len() ==> (#[trigger] tx.spec_inputs()[j]).spec_value() > 0,
        forall|j: int| 0 <= j < tx.spec_outputs().len() ==> (#[trigger] tx.spec_outputs()[j]).spec_value() > 0,
        forall|j: int|
            tx.spec_inputs().len() <= j < tx.spec_all_inputs().len() ==> (
            #[trigger] tx.spec_all_inputs()[j]).spec_value() == 0,
        forall|j: int|
            tx.spec_outputs().len() <= j < tx.spec_all_outputs().len() ==> (
            #[trigger] tx.spec_all_outputs()[j]).spec_value() == 0,
        point_views(tx.spec_public_inputs()) == spec_item_commitments(
            tx.spec_inputs(),
            tx.spec_outputs(),
            tx.spec_fee(),
        ),
    ensures
        nonzero_inputs(tx.spec_all_inputs()) == tx.spec_inputs(),
        nonzero_outputs(tx.spec_all_outputs()) == tx.spec_outputs(),
        rpc_commitments(
            nonzero_inputs(tx.spec_all_inputs()),
            nonzero_outputs(tx.spec_all_outputs()),
            Some(tx.spec_fee()),
        ) == point_views(tx.spec_public_inputs()),
{
    tx.lemma_slots();
    let ni = tx.spec_inputs().len() as int;
    let no = tx.spec_outputs().len() as int;
    assert forall|j: int| 0 <= j < ni implies (#[trigger] tx.spec_all_inputs()[j]).spec_value() > 0 by {
        assert(tx.spec_all_inputs()[j] == tx.spec_inputs()[j]);
    }
    assert forall|j: int| 0 <= j < no implies (#[trigger] tx.spec_all_outputs()[j]).spec_value() > 0 by {
        assert(tx.spec_all_outputs()[j] == tx.spec_outputs()[j]);
    }
    lemma_nonzero_inputs_prefix(tx.spec_all_inputs(), ni);
    lemma_nonzero_outputs_prefix(tx.spec_all_outputs(), no);
    assert(rpc_commitments(tx.spec_inputs(), tx.spec_outputs(), Some(tx.spec_fee()))
        =~= spec_item_commitments(tx.spec_inputs(), tx.spec_outputs(), tx.spec_fee()));
}

/// What was read back from the bytes of a cleared transaction, once
/// cleared in turn, has the same bytes: writing what was read gives back the
/// bytes that were read.
pub proof fn lemma_rewrite_keeps_bytes(t0: Transaction, t: Transaction, t2: Transaction, t3: Transaction)
    requires
        t0.wf(),
        t.wf(),
        t2.wf(),
        t3.wf(),
        sensitive_info_cleared(t, t0),
        t2.spec_proof() == t.spec_proof(),
        t2.spec_public_inputs() == t.spec_public_inputs(),
        t2.spec_inputs().len() == t.spec_inputs().len(),
        t2.spec_outputs().len() == t.spec_outputs().len(),
        same_inputs(t2.spec_all_inputs(), t.spec_all_inputs()),
        same_outputs(t2.spec_all_outputs(), t.spec_all_outputs()),
        same_output(t2.spec_fee(), t.spec_fee()),
        sensitive_info_cleared(t3, t2),
    ensures
        spec_transaction_bytes(t3) == spec_transaction_bytes(t),
{
    t.lemma_slots();
    t2.lemma_slots();
    t3.lemma_slots();
    assert forall|j: int| 0 <= j < t.spec_all_inputs().len() implies spec_input_bytes(
        #[trigger] t3.spec_all_inputs()[j],
    ) == spec_input_bytes(t.spec_all_inputs()[j]) by {
        assert(same_input(t2.spec_all_inputs()[j], t.spec_all_inputs()[j]));
        t3.spec_all_inputs()[j].lemma_blinding_length();
    }
    assert(t3.spec_all_inputs().map_values(|i: TransactionInput| spec_input_bytes(i))
        =~= t.spec_all_inputs().map_values(|i: TransactionInput| spec_input_bytes(i)));
    assert forall|j: int| 0 <= j < t.spec_all_outputs().len() implies spec_output_bytes(
        #[trigger] t3.spec_all_outputs()[j],
    ) == spec_output_bytes(t.spec_all_outputs()[j]) by {
        let x = t2.spec_all_outputs()[j];
        let y = t.spec_all_outputs()[j];
        assert(same_output(x, y));
        x.lemma_blinding_length();
        y.lemma_blinding_length();
        let px = spec_note_bytes(x.spec_note()) + spec_u64_to_le_bytes(x.spec_value());
        let py = spec_note_bytes(y.spec_note()) + spec_u64_to_le_bytes(y.spec_value());
        assert(px == py);
        let rx = x.spec_blinding_factor() + spec_public_bytes(x.spec_pk());
        let ry = y.spec_blinding_factor() + spec_public_bytes(y.spec_pk());
        assert(spec_output_bytes(x) =~= px + rx);
        assert(spec_output_bytes(y) =~= py + ry);
        assert(rx =~= (px + rx).subrange(px.len() as int, (px + rx).len() as int));
        assert(ry =~= (py + ry).subrange(py.len() as int, (py + ry).len() as int));
        assert(spec_public_bytes(x.spec_pk()) =~= rx.subrange(32, rx.len() as int));
        assert(spec_public_bytes(y.spec_pk()) =~= ry.subrange(32, ry.len() as int));
        t3.spec_all_outputs()[j].lemma_blinding_length();
    }
    assert(t3.spec_all_outputs().map_values(|o: TransactionOutput| spec_output_bytes(o))
        =~= t.spec_all_outputs().map_values(|o: TransactionOutput| spec_output_bytes(o)));
}

/// The hash of a transaction starts from its fee: SHA-256 is taken of bytes
/// that begin with the hash of the fee's note, so the fee note is hashed.
pub proof fn lemma_hash_starts_with_fee(
    fee: TransactionOutput,
    inputs: Seq<TransactionInput>,
    outputs: Seq<TransactionOutput>,
)
    ensures
        exists|rest: Seq<u8>|
            spec_transaction_hash(fee, inputs, outputs) == spec_sha256(
                spec_note_hash(fee.spec_note()) + rest,
            ),
{
    let rest = input_hashes(inputs).sort_by(bytes_leq()).flatten() + output_hashes(outputs).sort_by(
        bytes_leq(),
    ).flatten();
    assert(spec_note_hash(fee.spec_note()) + input_hashes(inputs).sort_by(bytes_leq()).flatten()
        + output_hashes(outputs).sort_by(bytes_leq()).flatten() =~= spec_note_hash(fee.spec_note())
        + rest);
}

/// A transaction balances exactly when the values of its inputs add up to
/// the values of its outputs and its fee: neither more nor less.
pub proof fn lemma_balanced_is_exact(
    inputs: Seq<TransactionInput>,
    outputs: Seq<TransactionOutput>,
    fee: TransactionOutput,
)
    ensures
        balanced(inputs, outputs, fee) <==> sum_inputs(inputs) == sum_outputs(outputs) + fee.spec_value(),
        sum_inputs(inputs) < sum_outputs(outputs) + fee.spec_value() ==> !balanced(inputs, outputs, fee),
        sum_inputs(inputs) > sum_outputs(outputs) + fee.spec_value() ==> !balanced(inputs, outputs, fee),
{
}

/// The hash of a transaction depends on the inputs and outputs in use only
/// as collections: in whatever order they were pushed or stand, it is the same.
pub proof fn lemma_hash_order_independent(
    fee: TransactionOutput,
    inputs_a: Seq<TransactionInput>,
    inputs_b: Seq<TransactionInput>,
    outputs_a: Seq<TransactionOutput>,
    outputs_b: Seq<TransactionOutput>,
)
    requires
        inputs_a.to_multiset() == inputs_b.to_multiset(),
        outputs_a.to_multiset() == outputs_b.to_multiset(),
    ensures
        spec_transaction_hash(fee, inputs_a, outputs_a) == spec_transaction_hash(
            fee,
            inputs_b,
            outputs_b,
        ),
{
    lemma_map_values_to_multiset(
        inputs_a,
        inputs_b,
        |i: TransactionInput| spec_note_hash(i.spec_note()),
    );
    lemma_map_values_to_multiset(
        outputs_a,
        outputs_b,
        |o: TransactionOutput| spec_note_hash(o.spec_note()),
    );
    lemma_sort_by_permutation(input_hashes(inputs_a), input_hashes(inputs_b));
    lemma_sort_by_permutation(output_hashes(outputs_a), output_hashes(outputs_b));
}

/// A prefix of a sequence of values sums to no more than the whole.
pub proof fn lemma_sum_values_prefix_le(s: Seq<u64>, k: int)
    requires
        0 <= k <= s.len(),
    ensures
        sum_values(s.subrange(0, k)) <= sum_values(s),
    decreases s.len(),
{
    if k < s.len() {
        assert(s.drop_last() =~= s.subrange(0, s.len() - 1));
        assert(s.subrange(0, k) =~= s.drop_last().subrange(0, k));
        lemma_sum_values_prefix_le(s.drop_last(), k);
    } else {
        assert(s.subrange(0, k) =~= s);
    }
}

/// Reordering inputs does not change their sum.
pub proof fn lemma_sum_inputs_permutation(a: Seq<TransactionInput>, b: Seq<TransactionInput>)
    requires
        a.to_multiset() == b.to_multiset(),
    ensures
        sum_inputs(a) == sum_inputs(b),
    decreases a.len(),
{
    broadcast use vstd::seq_lib::group_to_multiset_ensures;

    if a.len() == 0 {
        assert(b.to_multiset().len() == 0);
    } else {
        let x = a.last();
        assert(a.to_multiset().count(x) > 0) by {
            assert(a.contains(x)) by {
                assert(a[a.len() - 1] == x);
            }
        }
        assert(b.contains(x));
        let j = choose|j: int| 0 <= j < b.len() && b[j] == x;
        let b2 = b.remove(j);
        vstd::seq_lib::to_multiset_remove(b, j);
        assert(a.drop_last() =~= a.remove(a.len() - 1));
        vstd::seq_lib::to_multiset_remove(a, a.len() - 1);
        lemma_sum_inputs_permutation(a.drop_last(), b2);
        lemma_sum_inputs_remove(b, j);
    }
}

/// Removing an input takes its value off the sum.
pub proof fn lemma_sum_inputs_remove(s: Seq<TransactionInput>, j: int)
    requires
        0 <= j < s.len(),
    ensures
        sum_inputs(s) == sum_inputs(s.remove(j)) + s[j].spec_value(),
    decreases s.len(),
{
    if j < s.len() - 1 {
        lemma_sum_inputs_remove(s.drop_last(), j);
        assert(s.remove(j).drop_last() =~= s.drop_last().remove(j));
        assert(s.remove(j).last() == s.last());
    } else {
        assert(s.remove(j) =~= s.drop_last());
    }
}

/// Reordering outputs does not change their sum.
pub proof fn lemma_sum_outputs_permutation(a: Seq<TransactionOutput>, b: Seq<TransactionOutput>)
    requires
        a.to_multiset() == b.to_multiset(),
    ensures
        sum_outputs(a) == sum_outputs(b),
    decreases a.len(),
{
    broadcast use vstd::seq_lib::group_to_multiset_ensures;

    if a.len() == 0 {
        assert(b.to_multiset().len() == 0);
    } else {
        let x = a.last();
        assert(a.to_multiset().count(x) > 0) by {
            assert(a.contains(x)) by {
                assert(a[a.len() - 1] == x);
            }
        }
        assert(b.contains(x));
        let j = choose|j: int| 0 <= j < b.len() && b[j] == x;
        let b2 = b.remove(j);
        vstd::seq_lib::to_multiset_remove(b, j);
        assert(a.drop_last() =~= a.remove(a.len() - 1));
        vstd::seq_lib::to_multiset_remove(a, a.len() - 1);
        lemma_sum_outputs_permutation(a.drop_last(), b2);
        lemma_sum_outputs_remove(b, j);
    }
}

/// Removing an output takes its value off the sum.
pub proof fn lemma_sum_outputs_remove(s: Seq<TransactionOutput>, j: int)
    requires
        0 <= j < s.len(),
    ensures
        sum_outputs(s) == sum_outputs(s.remove(j)) + s[j].spec_value(),
    decreases s.len(),
{
    if j < s.len() - 1 {
        lemma_sum_outputs_remove(s.drop_last(), j);
        assert(s.remove(j).drop_last() =~= s.drop_last().remove(j));
        assert(s.remove(j).last() == s.last());
    } else {
        assert(s.remove(j) =~= s.drop_last());
    }
}

} // verus!
