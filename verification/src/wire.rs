//! Reading the byte encodings back: each reader takes the bytes and a
//! position, and returns what stands there and the position after it. A
//! reader succeeds exactly when the bytes from the position start with an
//! encoding of the kind it reads.
use vstd::prelude::*;
use vstd::bytes::{spec_u64_from_le_bytes, spec_u64_to_le_bytes, u64_from_le_bytes};

use crate::curve::{CompressedPoint, Scalar};
use crate::encoding::flatten_points;
use crate::encoding::spec_prefixed;
use crate::note::{spec_obfuscated_bytes, spec_utxo_byte, NoteUtxoType, ObfuscatedNote, PhoenixIdx};
use crate::item::{
    output_key_valid, spec_input_bytes, spec_note_bytes, spec_output_bytes, spec_public_bytes,
    spec_secret_bytes, Note, TransactionInput, TransactionOutput,
};
use crate::keys::{PublicKey, SecretKey};
use crate::transparent::{spec_transparent_bytes, TransparentNote};

verus! {

/// The bytes from `pos` start with `enc`.
pub open spec fn starts_with_at(bytes: Seq<u8>, pos: int, enc: Seq<u8>) -> bool {
    0 <= pos && pos + enc.len() <= bytes.len() && bytes.subrange(pos, pos + enc.len()) == enc
}

/// Encoding and decoding 8 little-endian bytes are inverse.
pub proof fn lemma_u64_bytes()
    ensures
        forall|x: u64|
            #![trigger spec_u64_to_le_bytes(x)]
            spec_u64_to_le_bytes(x).len() == 8 && spec_u64_from_le_bytes(spec_u64_to_le_bytes(x))
                == x,
        forall|s: Seq<u8>|
            #![trigger spec_u64_to_le_bytes(spec_u64_from_le_bytes(s))]
            s.len() == 8 ==> spec_u64_to_le_bytes(spec_u64_from_le_bytes(s)) == s,
{
    vstd::bytes::lemma_auto_spec_u64_to_from_le_bytes();
}

/// The byte at `pos`.
pub fn read_u8(bytes: &[u8], pos: usize) -> (r: Option<(u8, usize)>)
    ensures
        r is Some <==> pos < bytes@.len(),
        r matches Some((b, p)) ==> p == pos + 1 && b == bytes@[pos as int],
{
    if pos < bytes.len() {
        Some((bytes[pos], pos + 1))
    } else {
        None
    }
}

/// The `n` bytes at `pos`.
pub fn read_bytes(bytes: &[u8], pos: usize, n: usize) -> (r: Option<(Vec<u8>, usize)>)
    ensures
        r is Some <==> pos + n <= bytes@.len(),
        r matches Some((v, p)) ==> p == pos + n && v@ == bytes@.subrange(pos as int, p as int),
{
    if pos > bytes.len() || n > bytes.len() - pos {
        return None;
    }
    let len = bytes.len();
    let mut v: Vec<u8> = Vec::new();
    let mut i: usize = 0;
    while i < n
        invariant
            len == bytes@.len(),
            i <= n,
            pos + n <= bytes@.len(),
            v@ == bytes@.subrange(pos as int, pos + i),
        decreases n - i,
    {
        v.push(bytes[pos + i]);
        i = i + 1;
        assert(v@ =~= bytes@.subrange(pos as int, pos + i));
    }
    Some((v, pos + n))
}

/// The 32 bytes at `pos`, as an array.
pub fn read_array32(bytes: &[u8], pos: usize) -> (r: Option<([u8; 32], usize)>)
    ensures
        r is Some <==> pos + 32 <= bytes@.len(),
        r matches Some((a, p)) ==> p == pos + 32 && a@ == bytes@.subrange(pos as int, p as int),
{
    if pos > bytes.len() || 32 > bytes.len() - pos {
        return None;
    }
    let len = bytes.len();
    let mut a = [0u8; 32];
    let mut i: usize = 0;
    while i < 32
        invariant
            len == bytes@.len(),
            i <= 32,
            pos + 32 <= bytes@.len(),
            forall|j: int| 0 <= j < i ==> #[trigger] a@[j] == bytes@[pos + j],
        decreases 32 - i,
    {
        a[i] = bytes[pos + i];
        i = i + 1;
    }
    assert(a@ =~= bytes@.subrange(pos as int, pos + 32));
    Some((a, pos + 32))
}

/// The little-endian `u64` at `pos`.
pub fn read_u64(bytes: &[u8], pos: usize) -> (r: Option<(u64, usize)>)
    ensures
        r is Some <==> pos + 8 <= bytes@.len(),
        r matches Some((v, p)) ==> p == pos + 8 && spec_u64_to_le_bytes(v) == bytes@.subrange(
            pos as int,
            p as int,
        ),
{
    match read_bytes(bytes, pos, 8) {
        None => None,
        Some((b, p)) => {
            let v = u64_from_le_bytes(b.as_slice());
            proof {
                lemma_u64_bytes();
            }
            Some((v, p))
        },
    }
}

/// A length-prefixed byte string at `pos`.
pub fn read_prefixed(bytes: &[u8], pos: usize) -> (r: Option<(Vec<u8>, usize)>)
    ensures
        r matches Some((v, p)) ==> pos <= p <= bytes@.len() && crate::encoding::spec_prefixed(v@)
            == bytes@.subrange(pos as int, p as int),
        forall|s: Seq<u8>|
            #![trigger starts_with_at(bytes@, pos as int, crate::encoding::spec_prefixed(s))]
            starts_with_at(bytes@, pos as int, crate::encoding::spec_prefixed(s)) ==> (r matches Some(
                (v, p),
            ) && v@ == s),
{
    let (n, p) = match read_u64(bytes, pos) {
        None => {
            proof {
                lemma_u64_bytes();
            }
            return None;
        },
        Some(x) => x,
    };
    proof {
        lemma_u64_bytes();
    }
    if n > (bytes.len() - p) as u64 {
        proof {
            assert forall|s: Seq<u8>|
                !#[trigger] starts_with_at(bytes@, pos as int, crate::encoding::spec_prefixed(s)) by {
                if starts_with_at(bytes@, pos as int, crate::encoding::spec_prefixed(s)) {
                    let e = crate::encoding::spec_prefixed(s);
                    assert(bytes@.subrange(pos as int, pos + 8) == e.subrange(0, 8));
                    assert(e.subrange(0, 8) =~= spec_u64_to_le_bytes(s.len() as u64));
                }
            }
        }
        return None;
    }
    let (v, q) = match read_bytes(bytes, p, n as usize) {
        None => {
            return None;
        },
        Some(x) => x,
    };
    proof {
        assert(crate::encoding::spec_prefixed(v@) =~= bytes@.subrange(pos as int, q as int));
        assert forall|s: Seq<u8>|
            #[trigger] starts_with_at(bytes@, pos as int, crate::encoding::spec_prefixed(s))
                implies v@ == s by {
            let e = crate::encoding::spec_prefixed(s);
            assert(bytes@.subrange(pos as int, pos + 8) == e.subrange(0, 8));
            assert(e.subrange(0, 8) =~= spec_u64_to_le_bytes(s.len() as u64));
            assert(s.len() as u64 == n);
            assert(s =~= e.subrange(8, e.len() as int));
            assert(v@ =~= bytes@.subrange(p as int, q as int));
        }
    }
    Some((v, q))
}

/// `n` point encodings at `pos`.
pub fn read_points(bytes: &[u8], pos: usize, n: u64) -> (r: Option<(Vec<CompressedPoint>, usize)>)
    ensures
        r matches Some((v, p)) ==> pos <= p <= bytes@.len() && v@.len() == n && flatten_points(v@)
            == bytes@.subrange(pos as int, p as int),
        forall|s: Seq<CompressedPoint>|
            #![trigger starts_with_at(bytes@, pos as int, flatten_points(s))]
            s.len() == n && starts_with_at(bytes@, pos as int, flatten_points(s)) ==> (r matches Some(
                (v, p),
            ) && v@ == s),
{
    let ghost b = bytes@;
    let len = bytes.len();
    if pos > len || n > ((len - pos) / 32) as u64 {
        proof {
            assert forall|s: Seq<CompressedPoint>|
                s.len() == n implies !#[trigger] starts_with_at(b, pos as int, flatten_points(s)) by {
                if pos <= len {
                    assert(32 * n > len - pos) by (nonlinear_arith)
                        requires
                            n > (len - pos) / 32,
                            len >= pos,
                    ;
                }
            }
        }
        return None;
    }
    let count = n as usize;
    assert(pos + 32 * count <= len) by (nonlinear_arith)
        requires
            count <= (len - pos) / 32,
            pos <= len,
    ;
    let mut v: Vec<CompressedPoint> = Vec::new();
    let mut p = pos;
    let mut k: usize = 0;
    while k < count
        invariant
            k <= count,
            len == b.len(),
            b == bytes@,
            pos + 32 * count <= len,
            p == pos + 32 * k,
            v@.len() == k,
            flatten_points(v@) == b.subrange(pos as int, p as int),
        decreases count - k,
    {
        assert(p + 32 <= len) by (nonlinear_arith)
            requires
                p == pos + 32 * k,
                k < count,
                pos + 32 * count <= len,
        ;
        let (a, q) = match read_array32(bytes, p) {
            None => return None,
            Some(x) => x,
        };
        let ghost prev = v@;
        v.push(CompressedPoint(a));
        proof {
            let f = flatten_points(v@);
            let g = flatten_points(prev);
            assert forall|i: int| 0 <= i < f.len() implies #[trigger] f[i] == (g + a@)[i] by {
                if i < 32 * k {
                    assert(i / 32 < k) by (nonlinear_arith)
                        requires
                            0 <= i < 32 * k,
                    ;
                } else {
                    assert(i / 32 == k && i % 32 == i - 32 * k) by (nonlinear_arith)
                        requires
                            32 * k <= i < 32 * (k + 1),
                    ;
                }
            }
            assert(f =~= g + a@);
            assert(b.subrange(pos as int, q as int) =~= b.subrange(pos as int, p as int) + b.subrange(p as int, q as int));
        }
        p = q;
        k = k + 1;
    }
    proof {
        assert forall|s: Seq<CompressedPoint>|
            s.len() == n && #[trigger] starts_with_at(b, pos as int, flatten_points(s)) implies v@ == s by {
            let fs = flatten_points(s);
            assert(fs.len() == 32 * count);
            assert(fs =~= flatten_points(v@));
            assert forall|j: int| 0 <= j < count implies #[trigger] v@[j] == s[j] by {
                assert forall|i: int| 0 <= i < 32 implies v@[j].0@[i] == s[j].0@[i] by {
                    assert((32 * j + i) / 32 == j && (32 * j + i) % 32 == i) by (nonlinear_arith)
                        requires
                            0 <= i < 32,
                    ;
                    assert(32 * j + i < 32 * count) by (nonlinear_arith)
                        requires
                            0 <= i < 32,
                            j < count,
                    ;
                    assert(fs[32 * j + i] == s[j].0@[i]);
                    assert(flatten_points(v@)[32 * j + i] == v@[j].0@[i]);
                }
                assert(v@[j].0 =~= s[j].0);
            }
            assert(v@ =~= s);
        }
    }
    Some((v, p))
}

/// The utxo type a byte encodes.
pub fn utxo_from_byte(b: u8) -> (u: Option<NoteUtxoType>)
    ensures
        u is Some <==> (b == 0 || b == 1),
        u matches Some(t) ==> spec_utxo_byte(t) == b,
{
    if b == 0 {
        Some(NoteUtxoType::Input)
    } else if b == 1 {
        Some(NoteUtxoType::Output)
    } else {
        None
    }
}

/// A transparent note at `pos`.
pub fn read_transparent(bytes: &[u8], pos: usize) -> (r: Option<(TransparentNote, usize)>)
    ensures
        r matches Some((n, p)) ==> pos <= p <= bytes@.len() && spec_transparent_bytes(n)
            == bytes@.subrange(pos as int, p as int),
        forall|y: TransparentNote|
            #![trigger starts_with_at(bytes@, pos as int, spec_transparent_bytes(y))]
            starts_with_at(bytes@, pos as int, spec_transparent_bytes(y)) ==> (r matches Some(
                (n, p),
            ) && n == y),
{
    let ghost b = bytes@;
    let ghost fits = exists|y: TransparentNote| starts_with_at(b, pos as int, spec_transparent_bytes(y));
    proof {
        lemma_u64_bytes();
        assert forall|y: TransparentNote| #[trigger]
            starts_with_at(b, pos as int, spec_transparent_bytes(y)) implies {
            let e = spec_transparent_bytes(y);
            &&& e.len() == 114
            &&& b[pos as int] == 0u8
            &&& b[pos + 1] == spec_utxo_byte(y.spec_utxo())
            &&& b.subrange(pos + 2, pos + 10) == spec_u64_to_le_bytes(y.spec_idx().pos)
            &&& b.subrange(pos + 10, pos + 42) == y.spec_r_p()
            &&& b.subrange(pos + 42, pos + 74) == y.spec_pk_r()
            &&& b.subrange(pos + 74, pos + 82) == spec_u64_to_le_bytes(y.spec_value())
            &&& b.subrange(pos + 82, pos + 114) == y.spec_blinding_factor()
        } by {
            let e = spec_transparent_bytes(y);
            assert(y.spec_r_p().len() == 32 && y.spec_pk_r().len() == 32 && y.spec_blinding_factor().len() == 32) by {
                assert(y.spec_r_p() == y.r_p_array()@);
                assert(y.spec_pk_r() == y.pk_r_array()@);
                assert(y.spec_blinding_factor() == y.blinding_factor_array()@);
            }
            let w = b.subrange(pos as int, pos + e.len());
            assert(w == e);
            assert(b[pos as int] == w[0]);
            assert(b[pos + 1] == w[1]);
            assert(b.subrange(pos + 2, pos + 10) =~= e.subrange(2, 10));
            assert(b.subrange(pos + 10, pos + 42) =~= e.subrange(10, 42));
            assert(b.subrange(pos + 42, pos + 74) =~= e.subrange(42, 74));
            assert(b.subrange(pos + 74, pos + 82) =~= e.subrange(74, 82));
            assert(b.subrange(pos + 82, pos + 114) =~= e.subrange(82, 114));
            assert(e.subrange(2, 10) =~= spec_u64_to_le_bytes(y.spec_idx().pos));
            assert(e.subrange(10, 42) =~= y.spec_r_p());
            assert(e.subrange(42, 74) =~= y.spec_pk_r());
            assert(e.subrange(74, 82) =~= spec_u64_to_le_bytes(y.spec_value()));
            assert(e.subrange(82, 114) =~= y.spec_blinding_factor());
        }
    }
    let (tag, p) = match read_u8(bytes, pos) {
        None => return None,
        Some(x) => x,
    };
    if tag != 0 {
        return None;
    }
    let (ub, p) = match read_u8(bytes, p) {
        None => return None,
        Some(x) => x,
    };
    let utxo = match utxo_from_byte(ub) {
        None => {
            proof {
                assert forall|y: TransparentNote| !#[trigger] starts_with_at(b, pos as int, spec_transparent_bytes(y)) by {
                    if starts_with_at(b, pos as int, spec_transparent_bytes(y)) {
                        match y.spec_utxo() {
                            NoteUtxoType::Input => {},
                            NoteUtxoType::Output => {},
                        }
                    }
                }
            }
            return None;
        },
        Some(u) => u,
    };
    let (idx, p) = match read_u64(bytes, p) {
        None => return None,
        Some(x) => x,
    };
    let (r_p, p) = match read_array32(bytes, p) {
        None => return None,
        Some(x) => x,
    };
    let (pk_r, p) = match read_array32(bytes, p) {
        None => return None,
        Some(x) => x,
    };
    let (value, p) = match read_u64(bytes, p) {
        None => return None,
        Some(x) => x,
    };
    let (bf, p) = match read_array32(bytes, p) {
        None => return None,
        Some(x) => x,
    };
    let note = TransparentNote::new(
        utxo,
        value,
        Scalar(bf),
        CompressedPoint(r_p),
        CompressedPoint(pk_r),
        PhoenixIdx { pos: idx },
    );
    proof {
        assert(spec_transparent_bytes(note) =~= b.subrange(pos as int, p as int));
        assert forall|y: TransparentNote| #[trigger]
            starts_with_at(b, pos as int, spec_transparent_bytes(y)) implies note == y by {
            assert(spec_utxo_byte(y.spec_utxo()) == ub);
            match y.spec_utxo() {
                NoteUtxoType::Input => {},
                NoteUtxoType::Output => {},
            }
            assert(idx == y.spec_idx().pos);
            assert(value == y.spec_value());
            y.lemma_eq_by_parts(note);
        }
    }
    Some((note, p))
}

/// Where the parts of an obfuscated note's encoding stand.
proof fn lemma_obfuscated_layout(b: Seq<u8>, pos: int, y: ObfuscatedNote)
    requires
        starts_with_at(b, pos, spec_obfuscated_bytes(y)),
    ensures
        ({
            let nc = y.spec_commitments().len();
            let ev = y.spec_encrypted_value();
            let eb = y.spec_encrypted_blinding_factors();
            &&& b[pos] == 1u8
            &&& b[pos + 1] == spec_utxo_byte(y.spec_utxo())
            &&& b.subrange(pos + 2, pos + 10) == spec_u64_to_le_bytes(y.spec_idx().pos)
            &&& b.subrange(pos + 10, pos + 42) == y.spec_r_p()
            &&& b.subrange(pos + 42, pos + 74) == y.spec_pk_r()
            &&& b.subrange(pos + 74, pos + 82) == spec_u64_to_le_bytes(nc as u64)
            &&& starts_with_at(b, pos + 82, flatten_points(y.spec_commitments()))
            &&& starts_with_at(b, pos + 82 + 32 * nc, spec_prefixed(ev))
            &&& starts_with_at(b, pos + 82 + 32 * nc + 8 + ev.len(), spec_prefixed(eb))
            &&& spec_obfuscated_bytes(y).len() == 82 + 32 * nc + 8 + ev.len() + 8 + eb.len()
        }),
{
    lemma_u64_bytes();
    y.lemma_point_lengths();
    let e = spec_obfuscated_bytes(y);
    let nc = y.spec_commitments().len();
    let ev = y.spec_encrypted_value();
    let eb = y.spec_encrypted_blinding_factors();
    let fp = flatten_points(y.spec_commitments());
    let w = b.subrange(pos, pos + e.len());
    assert(w == e);
    assert(b[pos] == w[0]);
    assert(b[pos + 1] == w[1]);
    assert(b.subrange(pos + 2, pos + 10) =~= e.subrange(2, 10));
    assert(b.subrange(pos + 10, pos + 42) =~= e.subrange(10, 42));
    assert(b.subrange(pos + 42, pos + 74) =~= e.subrange(42, 74));
    assert(b.subrange(pos + 74, pos + 82) =~= e.subrange(74, 82));
    assert(e.subrange(2, 10) =~= spec_u64_to_le_bytes(y.spec_idx().pos));
    assert(e.subrange(10, 42) =~= y.spec_r_p());
    assert(e.subrange(42, 74) =~= y.spec_pk_r());
    assert(e.subrange(74, 82) =~= spec_u64_to_le_bytes(nc as u64));
    let o1: int = (82 + 32 * nc) as int;
    let o2: int = o1 + 8 + ev.len();
    assert(b.subrange(pos + 82, pos + o1) =~= e.subrange(82, o1));
    assert(e.subrange(82, o1) =~= fp);
    assert(b.subrange(pos + o1, pos + o2) =~= e.subrange(o1, o2));
    assert(e.subrange(o1, o2) =~= spec_prefixed(ev));
    assert(b.subrange(pos + o2, pos + e.len()) =~= e.subrange(o2, e.len() as int));
    assert(e.subrange(o2, e.len() as int) =~= spec_prefixed(eb));
}

/// An obfuscated note at `pos`.
pub fn read_obfuscated(bytes: &[u8], pos: usize) -> (r: Option<(ObfuscatedNote, usize)>)
    ensures
        r matches Some((n, p)) ==> pos <= p <= bytes@.len() && spec_obfuscated_bytes(n)
            == bytes@.subrange(pos as int, p as int),
        forall|y: ObfuscatedNote|
            #![trigger starts_with_at(bytes@, pos as int, spec_obfuscated_bytes(y))]
            starts_with_at(bytes@, pos as int, spec_obfuscated_bytes(y)) ==> (r matches Some(
                (n, p),
            ) && spec_obfuscated_bytes(n) == spec_obfuscated_bytes(y)),
{
    let ghost b = bytes@;
    let len = bytes.len();
    proof {
        lemma_u64_bytes();
    }
    let (tag, p) = match read_u8(bytes, pos) {
        None => {
            proof {
                assert forall|y: ObfuscatedNote| !#[trigger] starts_with_at(b, pos as int, spec_obfuscated_bytes(y)) by {
                    if starts_with_at(b, pos as int, spec_obfuscated_bytes(y)) {
                        lemma_obfuscated_layout(b, pos as int, y);
                    }
                }
            }
            return None;
        },
        Some(x) => x,
    };
    if tag != 1 {
        proof {
            assert forall|y: ObfuscatedNote| !#[trigger] starts_with_at(b, pos as int, spec_obfuscated_bytes(y)) by {
                if starts_with_at(b, pos as int, spec_obfuscated_bytes(y)) {
                    lemma_obfuscated_layout(b, pos as int, y);
                }
            }
        }
        return None;
    }
    let (ub, p) = match read_u8(bytes, p) {
        None => {
            proof {
                assert forall|y: ObfuscatedNote| !#[trigger] starts_with_at(b, pos as int, spec_obfuscated_bytes(y)) by {
                    if starts_with_at(b, pos as int, spec_obfuscated_bytes(y)) {
                        lemma_obfuscated_layout(b, pos as int, y);
                    }
                }
            }
            return None;
        },
        Some(x) => x,
    };
    let utxo = match utxo_from_byte(ub) {
        None => {
            proof {
                assert forall|y: ObfuscatedNote| !#[trigger] starts_with_at(b, pos as int, spec_obfuscated_bytes(y)) by {
                    if starts_with_at(b, pos as int, spec_obfuscated_bytes(y)) {
                        lemma_obfuscated_layout(b, pos as int, y);
                        match y.spec_utxo() {
                            NoteUtxoType::Input => {},
                            NoteUtxoType::Output => {},
                        }
                    }
                }
            }
            return None;
        },
        Some(u) => u,
    };
    let fixed = read_obfuscated_fixed(bytes, pos, p);
    let (idx, r_p, pk_r, nc, p) = match fixed {
        None => {
            proof {
                assert forall|y: ObfuscatedNote| !#[trigger] starts_with_at(b, pos as int, spec_obfuscated_bytes(y)) by {
                    if starts_with_at(b, pos as int, spec_obfuscated_bytes(y)) {
                        lemma_obfuscated_layout(b, pos as int, y);
                    }
                }
            }
            return None;
        },
        Some(x) => x,
    };
    proof {
        assert forall|y: ObfuscatedNote| #[trigger] starts_with_at(b, pos as int, spec_obfuscated_bytes(y))
            implies y.spec_commitments().len() == nc by {
            lemma_obfuscated_layout(b, pos as int, y);
            y.lemma_point_lengths();
            assert(y.spec_commitments().len() <= len);
            assert(spec_u64_from_le_bytes(spec_u64_to_le_bytes(nc)) == spec_u64_from_le_bytes(spec_u64_to_le_bytes(y.spec_commitments().len() as u64)));
        }
    }
    let (commitments, p) = match read_points(bytes, p, nc) {
        None => {
            proof {
                assert forall|y: ObfuscatedNote| !#[trigger] starts_with_at(b, pos as int, spec_obfuscated_bytes(y)) by {
                    if starts_with_at(b, pos as int, spec_obfuscated_bytes(y)) {
                        lemma_obfuscated_layout(b, pos as int, y);
                        assert(starts_with_at(b, pos + 82, flatten_points(y.spec_commitments())));
                    }
                }
            }
            return None;
        },
        Some(x) => x,
    };
    let (encrypted_value, p) = match read_prefixed(bytes, p) {
        None => {
            proof {
                assert forall|y: ObfuscatedNote| !#[trigger] starts_with_at(b, pos as int, spec_obfuscated_bytes(y)) by {
                    if starts_with_at(b, pos as int, spec_obfuscated_bytes(y)) {
                        lemma_obfuscated_layout(b, pos as int, y);
                        assert(starts_with_at(b, pos + 82, flatten_points(y.spec_commitments())));
                        assert(commitments@ == y.spec_commitments());
                        assert(starts_with_at(b, pos + 82 + 32 * y.spec_commitments().len(), spec_prefixed(y.spec_encrypted_value())));
                    }
                }
            }
            return None;
        },
        Some(x) => x,
    };
    let (encrypted_blinding_factors, p) = match read_prefixed(bytes, p) {
        None => {
            proof {
                assert forall|y: ObfuscatedNote| !#[trigger] starts_with_at(b, pos as int, spec_obfuscated_bytes(y)) by {
                    if starts_with_at(b, pos as int, spec_obfuscated_bytes(y)) {
                        lemma_obfuscated_layout(b, pos as int, y);
                        assert(starts_with_at(b, pos + 82, flatten_points(y.spec_commitments())));
                        assert(commitments@ == y.spec_commitments());
                        assert(starts_with_at(b, pos + 82 + 32 * y.spec_commitments().len(), spec_prefixed(y.spec_encrypted_value())));
                        assert(encrypted_value@ == y.spec_encrypted_value());
                    }
                }
            }
            return None;
        },
        Some(x) => x,
    };
    let note = ObfuscatedNote::new(
        utxo,
        commitments,
        CompressedPoint(r_p),
        CompressedPoint(pk_r),
        PhoenixIdx { pos: idx },
        encrypted_value,
        encrypted_blinding_factors,
    );
    proof {
        assert(spec_obfuscated_bytes(note) =~= b.subrange(pos as int, p as int));
        assert forall|y: ObfuscatedNote| #[trigger]
            starts_with_at(b, pos as int, spec_obfuscated_bytes(y)) implies spec_obfuscated_bytes(note) == spec_obfuscated_bytes(y) by {
            lemma_obfuscated_layout(b, pos as int, y);
            assert(starts_with_at(b, pos + 82, flatten_points(y.spec_commitments())));
            assert(note.spec_commitments() == y.spec_commitments());
            assert(starts_with_at(b, pos + 82 + 32 * y.spec_commitments().len(), spec_prefixed(y.spec_encrypted_value())));
            assert(note.spec_encrypted_value() == y.spec_encrypted_value());
            let o2 = pos + 82 + 32 * y.spec_commitments().len() + 8 + y.spec_encrypted_value().len();
            assert(starts_with_at(b, o2, spec_prefixed(y.spec_encrypted_blinding_factors())));
            assert(note.spec_encrypted_blinding_factors() == y.spec_encrypted_blinding_factors());
            assert(spec_obfuscated_bytes(y) =~= b.subrange(pos as int, pos + spec_obfuscated_bytes(y).len()));
        }
    }
    Some((note, p))
}

/// The position, the two points and the number of commitments of an
/// obfuscated note whose tag and utxo byte stand at `pos`.
fn read_obfuscated_fixed(bytes: &[u8], pos: usize, p: usize) -> (r: Option<(u64, [u8; 32], [u8; 32], u64, usize)>)
    requires
        p == pos + 2,
        p <= bytes@.len(),
    ensures
        r matches Some((idx, r_p, pk_r, nc, q)) ==> {
            &&& q == pos + 82
            &&& q <= bytes@.len()
            &&& bytes@.subrange(pos + 2, pos + 10) == spec_u64_to_le_bytes(idx)
            &&& bytes@.subrange(pos + 10, pos + 42) == r_p@
            &&& bytes@.subrange(pos + 42, pos + 74) == pk_r@
            &&& bytes@.subrange(pos + 74, pos + 82) == spec_u64_to_le_bytes(nc)
        },
        r is None ==> pos + 82 > bytes@.len(),
{
    let (idx, p) = match read_u64(bytes, p) {
        None => return None,
        Some(x) => x,
    };
    let (r_p, p) = match read_array32(bytes, p) {
        None => return None,
        Some(x) => x,
    };
    let (pk_r, p) = match read_array32(bytes, p) {
        None => return None,
        Some(x) => x,
    };
    let (nc, p) = match read_u64(bytes, p) {
        None => return None,
        Some(x) => x,
    };
    Some((idx, r_p, pk_r, nc, p))
}

/// A note of either kind at `pos`.
pub fn read_note(bytes: &[u8], pos: usize) -> (r: Option<(Note, usize)>)
    ensures
        r matches Some((n, p)) ==> pos <= p <= bytes@.len() && spec_note_bytes(n)
            == bytes@.subrange(pos as int, p as int),
        forall|y: Note|
            #![trigger starts_with_at(bytes@, pos as int, spec_note_bytes(y))]
            starts_with_at(bytes@, pos as int, spec_note_bytes(y)) ==> (r matches Some((n, p))
                && spec_note_bytes(n) == spec_note_bytes(y)),
{
    let ghost b = bytes@;
    proof {
        assert forall|y: Note| #[trigger] starts_with_at(b, pos as int, spec_note_bytes(y)) implies {
            &&& pos < b.len()
            &&& (y is Transparent ==> b[pos as int] == 0u8)
            &&& (y is Obfuscated ==> b[pos as int] == 1u8)
        } by {
            let e = spec_note_bytes(y);
            assert(b.subrange(pos as int, pos + e.len())[0] == e[0]);
            match y {
                Note::Transparent(t) => {
                    assert(e[0] == 0u8);
                },
                Note::Obfuscated(o) => {
                    assert(e[0] == 1u8);
                },
            }
        }
    }
    let (tag, _) = match read_u8(bytes, pos) {
        None => return None,
        Some(x) => x,
    };
    if tag == 0 {
        match read_transparent(bytes, pos) {
            None => {
                proof {
                    assert forall|y: Note| !#[trigger] starts_with_at(b, pos as int, spec_note_bytes(y)) by {
                        if starts_with_at(b, pos as int, spec_note_bytes(y)) {
                            if let Note::Transparent(t) = y {
                                assert(starts_with_at(b, pos as int, spec_transparent_bytes(t)));
                            }
                        }
                    }
                }
                None
            },
            Some((t, p)) => {
                proof {
                    assert forall|y: Note| #[trigger] starts_with_at(b, pos as int, spec_note_bytes(y))
                        implies spec_note_bytes(Note::Transparent(t)) == spec_note_bytes(y) by {
                        if let Note::Transparent(u) = y {
                            assert(starts_with_at(b, pos as int, spec_transparent_bytes(u)));
                        }
                    }
                }
                Some((Note::Transparent(t), p))
            },
        }
    } else if tag == 1 {
        match read_obfuscated(bytes, pos) {
            None => {
                proof {
                    assert forall|y: Note| !#[trigger] starts_with_at(b, pos as int, spec_note_bytes(y)) by {
                        if starts_with_at(b, pos as int, spec_note_bytes(y)) {
                            if let Note::Obfuscated(o) = y {
                                assert(starts_with_at(b, pos as int, spec_obfuscated_bytes(o)));
                            }
                        }
                    }
                }
                None
            },
            Some((o, p)) => {
                proof {
                    assert forall|y: Note| #[trigger] starts_with_at(b, pos as int, spec_note_bytes(y))
                        implies spec_note_bytes(Note::Obfuscated(o)) == spec_note_bytes(y) by {
                        if let Note::Obfuscated(u) = y {
                            assert(starts_with_at(b, pos as int, spec_obfuscated_bytes(u)));
                        }
                    }
                }
                Some((Note::Obfuscated(o), p))
            },
        }
    } else {
        None
    }
}

/// The part of the bytes after a prefix that the bytes start with.
pub proof fn lemma_starts_with_split(b: Seq<u8>, pos: int, x: Seq<u8>, y: Seq<u8>)
    requires
        starts_with_at(b, pos, x + y),
    ensures
        starts_with_at(b, pos, x),
        starts_with_at(b, pos + x.len(), y),
{
    assert(b.subrange(pos, pos + x.len()) =~= (x + y).subrange(0, x.len() as int));
    assert((x + y).subrange(0, x.len() as int) =~= x);
    assert(b.subrange(pos + x.len(), pos + x.len() + y.len()) =~= (x + y).subrange(
        x.len() as int,
        (x.len() + y.len()) as int,
    ));
    assert((x + y).subrange(x.len() as int, (x.len() + y.len()) as int) =~= y);
}

/// An optional spending key at `pos`.
pub fn read_secret(bytes: &[u8], pos: usize) -> (r: Option<(Option<SecretKey>, usize)>)
    ensures
        r matches Some((k, p)) ==> pos <= p <= bytes@.len() && spec_secret_bytes(k)
            == bytes@.subrange(pos as int, p as int),
        forall|y: Option<SecretKey>|
            #![trigger starts_with_at(bytes@, pos as int, spec_secret_bytes(y))]
            starts_with_at(bytes@, pos as int, spec_secret_bytes(y)) ==> (r matches Some((k, p))
                && spec_secret_bytes(k) == spec_secret_bytes(y)),
{
    let ghost b = bytes@;
    let (tag, p) = match read_u8(bytes, pos) {
        None => return None,
        Some(x) => x,
    };
    if tag == 0 {
        proof {
            assert(spec_secret_bytes(None) =~= b.subrange(pos as int, p as int));
            assert forall|y: Option<SecretKey>| #[trigger] starts_with_at(b, pos as int, spec_secret_bytes(y))
                implies spec_secret_bytes(None) == spec_secret_bytes(y) by {
                assert(b.subrange(pos as int, pos + spec_secret_bytes(y).len())[0] == spec_secret_bytes(y)[0]);
            }
        }
        return Some((None, p));
    }
    if tag != 1 {
        proof {
            assert forall|y: Option<SecretKey>| !#[trigger] starts_with_at(b, pos as int, spec_secret_bytes(y)) by {
                if starts_with_at(b, pos as int, spec_secret_bytes(y)) {
                    assert(b.subrange(pos as int, pos + spec_secret_bytes(y).len())[0] == spec_secret_bytes(y)[0]);
                }
            }
        }
        return None;
    }
    let (a, q) = match read_array32(bytes, p) {
        None => {
            proof {
                assert forall|y: Option<SecretKey>| !#[trigger] starts_with_at(b, pos as int, spec_secret_bytes(y)) by {
                    if starts_with_at(b, pos as int, spec_secret_bytes(y)) {
                        assert(b.subrange(pos as int, pos + spec_secret_bytes(y).len())[0] == spec_secret_bytes(y)[0]);
                        if let Some(k) = y {
                            k.lemma_scalar_lengths();
                        }
                    }
                }
            }
            return None;
        },
        Some(x) => x,
    };
    let (c, q) = match read_array32(bytes, q) {
        None => {
            proof {
                assert forall|y: Option<SecretKey>| !#[trigger] starts_with_at(b, pos as int, spec_secret_bytes(y)) by {
                    if starts_with_at(b, pos as int, spec_secret_bytes(y)) {
                        assert(b.subrange(pos as int, pos + spec_secret_bytes(y).len())[0] == spec_secret_bytes(y)[0]);
                        if let Some(k) = y {
                            k.lemma_scalar_lengths();
                        }
                    }
                }
            }
            return None;
        },
        Some(x) => x,
    };
    let k = SecretKey::new(crate::curve::Scalar(a), crate::curve::Scalar(c));
    proof {
        assert(spec_secret_bytes(Some(k)) =~= b.subrange(pos as int, q as int));
        assert forall|y: Option<SecretKey>| #[trigger] starts_with_at(b, pos as int, spec_secret_bytes(y))
            implies spec_secret_bytes(Some(k)) == spec_secret_bytes(y) by {
            assert(b.subrange(pos as int, pos + spec_secret_bytes(y).len())[0] == spec_secret_bytes(y)[0]);
            if let Some(z) = y {
                z.lemma_scalar_lengths();
                assert(spec_secret_bytes(y) =~= b.subrange(pos as int, pos + 65));
            }
        }
    }
    Some((Some(k), q))
}

/// An optional public key at `pos`; fails when the encodings are not points.
pub fn read_public(bytes: &[u8], pos: usize) -> (r: Option<(Option<PublicKey>, usize)>)
    ensures
        r matches Some((k, p)) ==> pos <= p <= bytes@.len() && spec_public_bytes(k)
            == bytes@.subrange(pos as int, p as int),
        forall|y: Option<PublicKey>|
            #![trigger starts_with_at(bytes@, pos as int, spec_public_bytes(y))]
            starts_with_at(bytes@, pos as int, spec_public_bytes(y)) && (y matches Some(z) ==> z.spec_valid())
                ==> (r matches Some((k, p)) && spec_public_bytes(k) == spec_public_bytes(y)),
{
    let ghost b = bytes@;
    let (tag, p) = match read_u8(bytes, pos) {
        None => return None,
        Some(x) => x,
    };
    if tag == 0 {
        proof {
            assert(spec_public_bytes(None) =~= b.subrange(pos as int, p as int));
            assert forall|y: Option<PublicKey>| #[trigger] starts_with_at(b, pos as int, spec_public_bytes(y))
                implies spec_public_bytes(None) == spec_public_bytes(y) by {
                assert(b.subrange(pos as int, pos + spec_public_bytes(y).len())[0] == spec_public_bytes(y)[0]);
            }
        }
        return Some((None, p));
    }
    if tag != 1 {
        proof {
            assert forall|y: Option<PublicKey>| !#[trigger] starts_with_at(b, pos as int, spec_public_bytes(y)) by {
                if starts_with_at(b, pos as int, spec_public_bytes(y)) {
                    assert(b.subrange(pos as int, pos + spec_public_bytes(y).len())[0] == spec_public_bytes(y)[0]);
                }
            }
        }
        return None;
    }
    proof {
        assert forall|y: Option<PublicKey>| #[trigger] starts_with_at(b, pos as int, spec_public_bytes(y)) implies
            (y matches Some(z) && pos + 65 <= b.len() && b.subrange(pos + 1, pos + 33) == z.spec_a_p() && b.subrange(pos + 33, pos + 65) == z.spec_b_p()) by {
            let e = spec_public_bytes(y);
            assert(b.subrange(pos as int, pos + e.len())[0] == e[0]);
            if let Some(z) = y {
                z.lemma_point_lengths();
                assert(b.subrange(pos + 1, pos + 33) =~= e.subrange(1, 33));
                assert(b.subrange(pos + 33, pos + 65) =~= e.subrange(33, 65));
            }
        }
    }
    let (a, q) = match read_array32(bytes, p) {
        None => return None,
        Some(x) => x,
    };
    let (c, q) = match read_array32(bytes, q) {
        None => return None,
        Some(x) => x,
    };
    match PublicKey::from_points(CompressedPoint(a), CompressedPoint(c)) {
        None => None,
        Some(k) => {
            proof {
                assert(spec_public_bytes(Some(k)) =~= b.subrange(pos as int, q as int));
                assert forall|y: Option<PublicKey>| #[trigger] starts_with_at(b, pos as int, spec_public_bytes(y))
                    implies spec_public_bytes(Some(k)) == spec_public_bytes(y) by {
                    if let Some(z) = y {
                        z.lemma_point_lengths();
                        assert(spec_public_bytes(y) =~= b.subrange(pos as int, pos + 65));
                    }
                }
            }
            Some((Some(k), q))
        },
    }
}

/// Two inputs with the same encoding, spending notes with the same encoding,
/// of the same value.
pub open spec fn same_input(x: TransactionInput, y: TransactionInput) -> bool {
    &&& spec_note_bytes(x.spec_note()) == spec_note_bytes(y.spec_note())
    &&& x.spec_value() == y.spec_value()
    &&& spec_input_bytes(x) == spec_input_bytes(y)
}

/// Two outputs with the same encoding, creating notes with the same
/// encoding, of the same value.
pub open spec fn same_output(x: TransactionOutput, y: TransactionOutput) -> bool {
    &&& spec_note_bytes(x.spec_note()) == spec_note_bytes(y.spec_note())
    &&& x.spec_value() == y.spec_value()
    &&& spec_output_bytes(x) == spec_output_bytes(y)
}

/// Two sequences of inputs that agree slot by slot as `same_input` says.
pub open spec fn same_inputs(a: Seq<TransactionInput>, b: Seq<TransactionInput>) -> bool {
    a.len() == b.len() && forall|j: int| 0 <= j < a.len() ==> same_input(#[trigger] a[j], b[j])
}

/// Two sequences of outputs that agree slot by slot as `same_output` says.
pub open spec fn same_outputs(a: Seq<TransactionOutput>, b: Seq<TransactionOutput>) -> bool {
    a.len() == b.len() && forall|j: int| 0 <= j < a.len() ==> same_output(#[trigger] a[j], b[j])
}

/// An input at `pos`.
pub fn read_input(bytes: &[u8], pos: usize) -> (r: Option<(TransactionInput, usize)>)
    ensures
        r matches Some((x, p)) ==> pos <= p <= bytes@.len() && spec_input_bytes(x)
            == bytes@.subrange(pos as int, p as int),
        forall|y: TransactionInput|
            #![trigger starts_with_at(bytes@, pos as int, spec_input_bytes(y))]
            starts_with_at(bytes@, pos as int, spec_input_bytes(y)) ==> (r matches Some((x, p))
                && spec_input_bytes(x) == spec_input_bytes(y) && same_input(x, y)),
{
    let ghost b = bytes@;
    proof {
        lemma_u64_bytes();
    }
    let (note, p1) = match read_note(bytes, pos) {
        None => {
            proof {
                assert forall|y: TransactionInput| !#[trigger] starts_with_at(b, pos as int, spec_input_bytes(y)) by {
                    if starts_with_at(b, pos as int, spec_input_bytes(y)) {
                        let n = spec_note_bytes(y.spec_note());
                        let rest = spec_u64_to_le_bytes(y.spec_value()) + y.spec_blinding_factor() + spec_secret_bytes(y.spec_sk());
                        assert(spec_input_bytes(y) =~= n + rest);
                        lemma_starts_with_split(b, pos as int, n, rest);
                    }
                }
            }
            return None;
        },
        Some(x) => x,
    };
    proof {
        assert forall|y: TransactionInput| #[trigger] starts_with_at(b, pos as int, spec_input_bytes(y)) implies {
            &&& p1 == pos + spec_note_bytes(y.spec_note()).len()
            &&& spec_note_bytes(note) == spec_note_bytes(y.spec_note())
            &&& starts_with_at(b, p1 as int, spec_u64_to_le_bytes(y.spec_value()))
            &&& starts_with_at(b, p1 + 8, y.spec_blinding_factor())
            &&& starts_with_at(b, p1 + 40, spec_secret_bytes(y.spec_sk()))
        } by {
            y.lemma_blinding_length();
            let n = spec_note_bytes(y.spec_note());
            let v = spec_u64_to_le_bytes(y.spec_value());
            let f = y.spec_blinding_factor();
            let k = spec_secret_bytes(y.spec_sk());
            assert(spec_input_bytes(y) =~= n + (v + (f + k)));
            lemma_starts_with_split(b, pos as int, n, v + (f + k));
            lemma_starts_with_split(b, pos + n.len(), v, f + k);
            lemma_starts_with_split(b, pos + n.len() + 8, f, k);
        }
    }
    let (value, p2) = match read_u64(bytes, p1) {
        None => return None,
        Some(x) => x,
    };
    let (bf, p3) = match read_array32(bytes, p2) {
        None => return None,
        Some(x) => x,
    };
    let (sk, p4) = match read_secret(bytes, p3) {
        None => return None,
        Some(x) => x,
    };
    let item = TransactionInput::from_parts(note, value, crate::curve::Scalar(bf), sk);
    proof {
        assert(spec_input_bytes(item) =~= b.subrange(pos as int, p4 as int));
        assert forall|y: TransactionInput| #[trigger] starts_with_at(b, pos as int, spec_input_bytes(y))
            implies spec_input_bytes(item) == spec_input_bytes(y) && same_input(item, y) by {
            y.lemma_blinding_length();
            assert(spec_u64_from_le_bytes(spec_u64_to_le_bytes(value)) == spec_u64_from_le_bytes(spec_u64_to_le_bytes(y.spec_value())));
        }
    }
    Some((item, p4))
}

/// An output at `pos`; fails when its key's encodings are not points.
pub fn read_output(bytes: &[u8], pos: usize) -> (r: Option<(TransactionOutput, usize)>)
    ensures
        r matches Some((x, p)) ==> pos <= p <= bytes@.len() && spec_output_bytes(x)
            == bytes@.subrange(pos as int, p as int),
        forall|y: TransactionOutput|
            #![trigger starts_with_at(bytes@, pos as int, spec_output_bytes(y))]
            starts_with_at(bytes@, pos as int, spec_output_bytes(y)) && (y.spec_pk() matches Some(z) ==> z.spec_valid())
                ==> (r matches Some((x, p)) && spec_output_bytes(x) == spec_output_bytes(y) && same_output(x, y)),
{
    let ghost b = bytes@;
    proof {
        lemma_u64_bytes();
    }
    let (note, p1) = match read_note(bytes, pos) {
        None => {
            proof {
                assert forall|y: TransactionOutput| !#[trigger] starts_with_at(b, pos as int, spec_output_bytes(y)) by {
                    if starts_with_at(b, pos as int, spec_output_bytes(y)) {
                        let n = spec_note_bytes(y.spec_note());
                        let rest = spec_u64_to_le_bytes(y.spec_value()) + y.spec_blinding_factor() + spec_public_bytes(y.spec_pk());
                        assert(spec_output_bytes(y) =~= n + rest);
                        lemma_starts_with_split(b, pos as int, n, rest);
                    }
                }
            }
            return None;
        },
        Some(x) => x,
    };
    proof {
        assert forall|y: TransactionOutput| #[trigger] starts_with_at(b, pos as int, spec_output_bytes(y)) implies {
            &&& p1 == pos + spec_note_bytes(y.spec_note()).len()
            &&& spec_note_bytes(note) == spec_note_bytes(y.spec_note())
            &&& starts_with_at(b, p1 as int, spec_u64_to_le_bytes(y.spec_value()))
            &&& starts_with_at(b, p1 + 8, y.spec_blinding_factor())
            &&& starts_with_at(b, p1 + 40, spec_public_bytes(y.spec_pk()))
        } by {
            y.lemma_blinding_length();
            let n = spec_note_bytes(y.spec_note());
            let v = spec_u64_to_le_bytes(y.spec_value());
            let f = y.spec_blinding_factor();
            let k = spec_public_bytes(y.spec_pk());
            assert(spec_output_bytes(y) =~= n + (v + (f + k)));
            lemma_starts_with_split(b, pos as int, n, v + (f + k));
            lemma_starts_with_split(b, pos + n.len(), v, f + k);
            lemma_starts_with_split(b, pos + n.len() + 8, f, k);
        }
    }
    let (value, p2) = match read_u64(bytes, p1) {
        None => return None,
        Some(x) => x,
    };
    let (bf, p3) = match read_array32(bytes, p2) {
        None => return None,
        Some(x) => x,
    };
    let (pk, p4) = match read_public(bytes, p3) {
        None => return None,
        Some(x) => x,
    };
    let item = TransactionOutput::from_parts(note, value, crate::curve::Scalar(bf), pk);
    proof {
        assert(spec_output_bytes(item) =~= b.subrange(pos as int, p4 as int));
        assert forall|y: TransactionOutput| #[trigger] starts_with_at(b, pos as int, spec_output_bytes(y))
            && (y.spec_pk() matches Some(z) ==> z.spec_valid())
            implies spec_output_bytes(item) == spec_output_bytes(y) && same_output(item, y) by {
            y.lemma_blinding_length();
            assert(spec_u64_from_le_bytes(spec_u64_to_le_bytes(value)) == spec_u64_from_le_bytes(spec_u64_to_le_bytes(y.spec_value())));
        }
    }
    Some((item, p4))
}

/// The encodings of a sequence of inputs, one after another.
pub open spec fn inputs_bytes(s: Seq<TransactionInput>) -> Seq<u8> {
    s.map_values(|i: TransactionInput| spec_input_bytes(i)).flatten()
}

/// The encodings of a sequence of outputs, one after another.
pub open spec fn outputs_bytes(s: Seq<TransactionOutput>) -> Seq<u8> {
    s.map_values(|o: TransactionOutput| spec_output_bytes(o)).flatten()
}

/// Splitting a sequence of encodings at `k`.
proof fn lemma_flatten_split(s: Seq<Seq<u8>>, k: int)
    requires
        0 <= k < s.len(),
    ensures
        s.flatten() == s.subrange(0, k).flatten() + s[k] + s.subrange(k + 1, s.len() as int).flatten(),
        s.subrange(0, k + 1).flatten() == s.subrange(0, k).flatten() + s[k],
{
    assert(s =~= s.subrange(0, k) + s.subrange(k, s.len() as int));
    vstd::seq_lib::lemma_flatten_concat(s.subrange(0, k), s.subrange(k, s.len() as int));
    let t = s.subrange(k, s.len() as int);
    assert(t.first() == s[k]);
    assert(t.drop_first() =~= s.subrange(k + 1, s.len() as int));
    assert(t.flatten() == t.first() + t.drop_first().flatten());
    assert(s.subrange(0, k + 1) =~= s.subrange(0, k).push(s[k]));
    s.subrange(0, k).lemma_flatten_push(s[k]);
}

/// `count` inputs one after another at `pos`.
pub fn read_inputs(bytes: &[u8], pos: usize, count: usize) -> (r: Option<(Vec<TransactionInput>, usize)>)
    requires
        pos <= bytes@.len(),
    ensures
        r matches Some((v, p)) ==> pos <= p <= bytes@.len() && v@.len() == count && inputs_bytes(v@)
            == bytes@.subrange(pos as int, p as int),
        forall|ys: Seq<TransactionInput>|
            #![trigger starts_with_at(bytes@, pos as int, inputs_bytes(ys))]
            ys.len() == count && starts_with_at(bytes@, pos as int, inputs_bytes(ys)) ==> (r matches Some(
                (v, p),
            ) && inputs_bytes(v@) == inputs_bytes(ys) && same_inputs(v@, ys)),
{
    let ghost b = bytes@;
    let mut v: Vec<TransactionInput> = Vec::new();
    let mut p = pos;
    let mut k: usize = 0;
    proof {
        assert(v@.map_values(|i: TransactionInput| spec_input_bytes(i)) =~= Seq::<Seq<u8>>::empty());
        assert(b.subrange(pos as int, pos as int) =~= Seq::<u8>::empty());
    }
    while k < count
        invariant
            b == bytes@,
            k <= count,
            pos <= p <= b.len(),
            v@.len() == k,
            inputs_bytes(v@) == b.subrange(pos as int, p as int),
            forall|ys: Seq<TransactionInput>|
                #![trigger starts_with_at(b, pos as int, inputs_bytes(ys))]
                ys.len() == count && starts_with_at(b, pos as int, inputs_bytes(ys)) ==> (inputs_bytes(v@)
                    == inputs_bytes(ys.subrange(0, k as int)) && same_inputs(v@, ys.subrange(0, k as int))),
        decreases count - k,
    {
        proof {
            assert forall|ys: Seq<TransactionInput>|
                ys.len() == count && #[trigger] starts_with_at(b, pos as int, inputs_bytes(ys)) implies
                starts_with_at(b, p as int, spec_input_bytes(ys[k as int])) by {
                let m = ys.map_values(|i: TransactionInput| spec_input_bytes(i));
                lemma_flatten_split(m, k as int);
                assert(m.subrange(0, k as int) =~= ys.subrange(0, k as int).map_values(|i: TransactionInput| spec_input_bytes(i)));
                let pre = m.subrange(0, k as int).flatten();
                let rest = m[k as int] + m.subrange(k + 1, m.len() as int).flatten();
                assert(inputs_bytes(ys) =~= pre + rest);
                lemma_starts_with_split(b, pos as int, pre, rest);
                lemma_starts_with_split(b, pos + pre.len(), m[k as int], m.subrange(k + 1, m.len() as int).flatten());
            }
        }
        let (x, q) = match read_input(bytes, p) {
            None => return None,
            Some(t) => t,
        };
        let ghost prev = v@;
        v.push(x);
        proof {
            assert(v@.map_values(|i: TransactionInput| spec_input_bytes(i)) =~= prev.map_values(|i: TransactionInput| spec_input_bytes(i)).push(spec_input_bytes(x)));
            prev.map_values(|i: TransactionInput| spec_input_bytes(i)).lemma_flatten_push(spec_input_bytes(x));
            assert(b.subrange(pos as int, q as int) =~= b.subrange(pos as int, p as int) + b.subrange(p as int, q as int));
            assert forall|ys: Seq<TransactionInput>|
                ys.len() == count && #[trigger] starts_with_at(b, pos as int, inputs_bytes(ys)) implies
                inputs_bytes(v@) == inputs_bytes(ys.subrange(0, k + 1)) && same_inputs(v@, ys.subrange(0, k + 1)) by {
                let m = ys.map_values(|i: TransactionInput| spec_input_bytes(i));
                lemma_flatten_split(m, k as int);
                assert(m.subrange(0, k + 1) =~= ys.subrange(0, k + 1).map_values(|i: TransactionInput| spec_input_bytes(i)));
                assert(m.subrange(0, k as int) =~= ys.subrange(0, k as int).map_values(|i: TransactionInput| spec_input_bytes(i)));
                assert(starts_with_at(b, p as int, spec_input_bytes(ys[k as int])));
            }
        }
        p = q;
        k = k + 1;
    }
    proof {
        assert forall|ys: Seq<TransactionInput>|
            ys.len() == count && #[trigger] starts_with_at(b, pos as int, inputs_bytes(ys)) implies
            inputs_bytes(v@) == inputs_bytes(ys) && same_inputs(v@, ys) by {
            assert(ys.subrange(0, k as int) =~= ys);
        }
    }
    Some((v, p))
}

/// `count` outputs one after another at `pos`.
pub fn read_outputs(bytes: &[u8], pos: usize, count: usize) -> (r: Option<(Vec<TransactionOutput>, usize)>)
    requires
        pos <= bytes@.len(),
    ensures
        r matches Some((v, p)) ==> pos <= p <= bytes@.len() && v@.len() == count && outputs_bytes(v@)
            == bytes@.subrange(pos as int, p as int),
        forall|ys: Seq<TransactionOutput>|
            #![trigger starts_with_at(bytes@, pos as int, outputs_bytes(ys))]
            ys.len() == count && starts_with_at(bytes@, pos as int, outputs_bytes(ys))
                && (forall|j: int| 0 <= j < ys.len() ==> output_key_valid(#[trigger] ys[j]))
                ==> (r matches Some((v, p)) && outputs_bytes(v@) == outputs_bytes(ys) && same_outputs(v@, ys)),
{
    let ghost b = bytes@;
    let mut v: Vec<TransactionOutput> = Vec::new();
    let mut p = pos;
    let mut k: usize = 0;
    proof {
        assert(v@.map_values(|o: TransactionOutput| spec_output_bytes(o)) =~= Seq::<Seq<u8>>::empty());
        assert(b.subrange(pos as int, pos as int) =~= Seq::<u8>::empty());
    }
    while k < count
        invariant
            b == bytes@,
            k <= count,
            pos <= p <= b.len(),
            v@.len() == k,
            outputs_bytes(v@) == b.subrange(pos as int, p as int),
            forall|ys: Seq<TransactionOutput>|
                #![trigger starts_with_at(b, pos as int, outputs_bytes(ys))]
                ys.len() == count && starts_with_at(b, pos as int, outputs_bytes(ys))
                    && (forall|j: int| 0 <= j < ys.len() ==> output_key_valid(#[trigger] ys[j]))
                    ==> (outputs_bytes(v@) == outputs_bytes(ys.subrange(0, k as int)) && same_outputs(v@, ys.subrange(0, k as int))),
        decreases count - k,
    {
        proof {
            assert forall|ys: Seq<TransactionOutput>|
                ys.len() == count && #[trigger] starts_with_at(b, pos as int, outputs_bytes(ys))
                && (forall|j: int| 0 <= j < ys.len() ==> output_key_valid(#[trigger] ys[j])) implies
                starts_with_at(b, p as int, spec_output_bytes(ys[k as int])) by {
                let m = ys.map_values(|o: TransactionOutput| spec_output_bytes(o));
                lemma_flatten_split(m, k as int);
                assert(m.subrange(0, k as int) =~= ys.subrange(0, k as int).map_values(|o: TransactionOutput| spec_output_bytes(o)));
                let pre = m.subrange(0, k as int).flatten();
                let rest = m[k as int] + m.subrange(k + 1, m.len() as int).flatten();
                assert(outputs_bytes(ys) =~= pre + rest);
                lemma_starts_with_split(b, pos as int, pre, rest);
                lemma_starts_with_split(b, pos + pre.len(), m[k as int], m.subrange(k + 1, m.len() as int).flatten());
            }
        }
        let (x, q) = match read_output(bytes, p) {
            None => return None,
            Some(t) => t,
        };
        let ghost prev = v@;
        v.push(x);
        proof {
            assert(v@.map_values(|o: TransactionOutput| spec_output_bytes(o)) =~= prev.map_values(|o: TransactionOutput| spec_output_bytes(o)).push(spec_output_bytes(x)));
            prev.map_values(|o: TransactionOutput| spec_output_bytes(o)).lemma_flatten_push(spec_output_bytes(x));
            assert(b.subrange(pos as int, q as int) =~= b.subrange(pos as int, p as int) + b.subrange(p as int, q as int));
            assert forall|ys: Seq<TransactionOutput>|
                ys.len() == count && #[trigger] starts_with_at(b, pos as int, outputs_bytes(ys))
                && (forall|j: int| 0 <= j < ys.len() ==> output_key_valid(#[trigger] ys[j]))
                implies outputs_bytes(v@) == outputs_bytes(ys.subrange(0, k + 1)) && same_outputs(v@, ys.subrange(0, k + 1)) by {
                let m = ys.map_values(|o: TransactionOutput| spec_output_bytes(o));
                lemma_flatten_split(m, k as int);
                assert(m.subrange(0, k + 1) =~= ys.subrange(0, k + 1).map_values(|o: TransactionOutput| spec_output_bytes(o)));
                assert(m.subrange(0, k as int) =~= ys.subrange(0, k as int).map_values(|o: TransactionOutput| spec_output_bytes(o)));
                assert(starts_with_at(b, p as int, spec_output_bytes(ys[k as int])));
                assert(output_key_valid(ys[k as int]));
            }
        }
        p = q;
        k = k + 1;
    }
    proof {
        assert forall|ys: Seq<TransactionOutput>|
            ys.len() == count && #[trigger] starts_with_at(b, pos as int, outputs_bytes(ys))
            && (forall|j: int| 0 <= j < ys.len() ==> output_key_valid(#[trigger] ys[j]))
            implies outputs_bytes(v@) == outputs_bytes(ys) && same_outputs(v@, ys) by {
            assert(ys.subrange(0, k as int) =~= ys);
        }
    }
    Some((v, p))
}

} // verus!
