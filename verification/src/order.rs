//! The order of 32-byte digests (lexicographic, byte by byte), and sorting of
//! values keyed by a digest.
use vstd::prelude::*;
use vstd::relations::{sorted_by, total_ordering};

verus! {

/// `a` comes strictly before `b`: at the first byte where they differ, `a`'s
/// byte is smaller.
pub open spec fn lex_lt(a: Seq<u8>, b: Seq<u8>) -> bool
    decreases a.len(),
{
    if a.len() == 0 || b.len() == 0 {
        false
    } else if a[0] < b[0] {
        true
    } else if a[0] > b[0] {
        false
    } else {
        lex_lt(a.drop_first(), b.drop_first())
    }
}

/// The order on byte strings: shorter first, and among strings of one length
/// equal or lexicographically before. On digests it is the lexicographic order.
pub open spec fn bytes_le(a: Seq<u8>, b: Seq<u8>) -> bool {
    a.len() < b.len() || (a.len() == b.len() && (a == b || lex_lt(a, b)))
}

/// `bytes_le` as a relation.
pub open spec fn bytes_leq() -> spec_fn(Seq<u8>, Seq<u8>) -> bool {
    |a: Seq<u8>, b: Seq<u8>| bytes_le(a, b)
}

/// The keys of a sequence of keyed values, as byte strings.
pub open spec fn keys_of<T>(s: Seq<([u8; 32], T)>) -> Seq<Seq<u8>> {
    s.map_values(|p: ([u8; 32], T)| p.0@)
}

/// The values of a sequence of keyed values.
pub open spec fn values_of<T>(s: Seq<([u8; 32], T)>) -> Seq<T> {
    s.map_values(|p: ([u8; 32], T)| p.1)
}

/// Inserting into a sequence inserts into its multiset.
pub proof fn lemma_insert_to_multiset<A>(s: Seq<A>, p: int, x: A)
    requires
        0 <= p <= s.len(),
    ensures
        s.insert(p, x).to_multiset() == s.to_multiset().insert(x),
{
    broadcast use vstd::seq_lib::group_to_multiset_ensures;

    let t = s.insert(p, x);
    assert(t.remove(p) =~= s);
    vstd::seq_lib::to_multiset_remove(t, p);
    assert(t.contains(x)) by {
        assert(t[p] == x);
    }
    t.to_multiset_ensures();
    assert(t.to_multiset() =~= s.to_multiset().insert(x));
}

pub proof fn lemma_lex_irreflexive(a: Seq<u8>)
    ensures
        !lex_lt(a, a),
    decreases a.len(),
{
    if a.len() > 0 {
        lemma_lex_irreflexive(a.drop_first());
    }
}

pub proof fn lemma_lex_asymmetric(a: Seq<u8>, b: Seq<u8>)
    ensures
        lex_lt(a, b) ==> !lex_lt(b, a),
    decreases a.len(),
{
    if a.len() > 0 && b.len() > 0 && a[0] == b[0] {
        lemma_lex_asymmetric(a.drop_first(), b.drop_first());
    }
}

pub proof fn lemma_lex_transitive(a: Seq<u8>, b: Seq<u8>, c: Seq<u8>)
    ensures
        lex_lt(a, b) && lex_lt(b, c) ==> lex_lt(a, c),
    decreases a.len(),
{
    if a.len() > 0 && b.len() > 0 && c.len() > 0 {
        lemma_lex_transitive(a.drop_first(), b.drop_first(), c.drop_first());
    }
}

/// Two different sequences of the same length are ordered one way or the other.
pub proof fn lemma_lex_total(a: Seq<u8>, b: Seq<u8>)
    requires
        a.len() == b.len(),
    ensures
        a == b || lex_lt(a, b) || lex_lt(b, a),
    decreases a.len(),
{
    if a.len() == 0 {
        assert(a =~= b);
    } else if a[0] == b[0] {
        lemma_lex_total(a.drop_first(), b.drop_first());
        if a.drop_first() == b.drop_first() {
            assert(a =~= seq![a[0]] + a.drop_first());
            assert(b =~= seq![b[0]] + b.drop_first());
        }
    }
}

/// `bytes_le` is a total order on byte strings.
pub proof fn lemma_bytes_total_ordering()
    ensures
        total_ordering(bytes_leq()),
{
    let leq = bytes_leq();
    assert forall|a: Seq<u8>, b: Seq<u8>| #[trigger] leq(a, b) && #[trigger] leq(b, a) implies a
        == b by {
        if a != b {
            lemma_lex_asymmetric(a, b);
        }
    }
    assert forall|a: Seq<u8>, b: Seq<u8>, c: Seq<u8>| #[trigger] leq(a, b) && #[trigger] leq(
        b,
        c,
    ) implies leq(a, c) by {
        lemma_lex_transitive(a, b, c);
    }
    assert forall|a: Seq<u8>, b: Seq<u8>| #[trigger] leq(a, b) || #[trigger] leq(b, a) by {
        if a.len() == b.len() {
            lemma_lex_total(a, b);
        }
    }
}

/// Whether the digests stand in increasing order (equal ones side by side).
pub fn digests_sorted(h: &Vec<[u8; 32]>) -> (b: bool)
    ensures
        b == sorted_by(h@.map_values(|d: [u8; 32]| d@), bytes_leq()),
{
    let ghost v = h@.map_values(|d: [u8; 32]| d@);
    let mut i: usize = 0;
    while i < h.len()
        invariant
            i <= h@.len(),
            v == h@.map_values(|d: [u8; 32]| d@),
            forall|a: int, c: int| 0 <= a < c < h@.len() && a < i ==> bytes_le(#[trigger] v[a], #[trigger] v[c]),
        decreases h@.len() - i,
    {
        let mut j: usize = i + 1;
        while j < h.len()
            invariant
                i < h@.len(),
                i + 1 <= j <= h@.len(),
                v == h@.map_values(|d: [u8; 32]| d@),
                forall|a: int, c: int| 0 <= a < c < h@.len() && a < i ==> bytes_le(#[trigger] v[a], #[trigger] v[c]),
                forall|c: int| i < c < j ==> bytes_le(v[i as int], #[trigger] v[c]),
            decreases h@.len() - j,
        {
            let later_first = digest_lt(&h[j], &h[i]);
            proof {
                lemma_lex_total(h@[i as int]@, h@[j as int]@);
                lemma_lex_asymmetric(h@[i as int]@, h@[j as int]@);
            }
            if later_first {
                proof {
                    assert(v[i as int] == h@[i as int]@ && v[j as int] == h@[j as int]@);
                    assert(!bytes_le(v[i as int], v[j as int]));
                    assert(!(bytes_leq())(v[i as int], v[j as int]));
                }
                return false;
            }
            j = j + 1;
        }
        i = i + 1;
    }
    true
}

/// Whether `a` comes strictly before `b`.
pub fn digest_lt(a: &[u8; 32], b: &[u8; 32]) -> (lt: bool)
    ensures
        lt == lex_lt(a@, b@),
{
    let mut i: usize = 0;
    assert(a@.subrange(0, 32) =~= a@);
    assert(b@.subrange(0, 32) =~= b@);
    while i < 32
        invariant
            i <= 32,
            a@.subrange(0, i as int) == b@.subrange(0, i as int),
            lex_lt(a@, b@) == lex_lt(a@.subrange(i as int, 32), b@.subrange(i as int, 32)),
        decreases 32 - i,
    {
        let x = a[i];
        let y = b[i];
        let ghost sa = a@.subrange(i as int, 32);
        let ghost sb = b@.subrange(i as int, 32);
        assert(sa.drop_first() =~= a@.subrange(i + 1, 32));
        assert(sb.drop_first() =~= b@.subrange(i + 1, 32));
        if x < y {
            return true;
        }
        if x > y {
            return false;
        }
        i = i + 1;
        assert(a@.subrange(0, i as int) =~= a@.subrange(0, i - 1).push(x));
        assert(b@.subrange(0, i as int) =~= b@.subrange(0, i - 1).push(y));
    }
    false
}

/// Sorts keyed values by key, keeping the order of equal keys. The result
/// holds the same pairs and its keys are sorted.
pub fn sort_by_digest<T>(items: Vec<([u8; 32], T)>) -> (sorted: Vec<([u8; 32], T)>)
    ensures
        sorted@.to_multiset() == items@.to_multiset(),
        keys_of(sorted@).to_multiset() == keys_of(items@).to_multiset(),
        values_of(sorted@).to_multiset() == values_of(items@).to_multiset(),
        forall|i: int| 0 <= i < sorted@.len() ==> items@.contains(#[trigger] sorted@[i]),
        sorted_by(keys_of(sorted@), bytes_leq()),
        sorted@.len() == items@.len(),
{
    broadcast use vstd::seq_lib::group_to_multiset_ensures;

    let ghost orig = items@;
    let mut rest = items;
    let mut out: Vec<([u8; 32], T)> = Vec::new();
    proof {
        lemma_bytes_total_ordering();
        assert(orig.subrange(0, 0) =~= Seq::<([u8; 32], T)>::empty());
        assert(rest@ =~= orig.subrange(0, 0 as int) + rest@);
    }
    while rest.len() > 0
        invariant
            total_ordering(bytes_leq()),
            orig == orig.subrange(0, (orig.len() - rest@.len()) as int) + rest@,
            rest@.len() <= orig.len(),
            out@.to_multiset() == orig.subrange(0, (orig.len() - rest@.len()) as int).to_multiset(),
            keys_of(out@).to_multiset() == keys_of(
                orig.subrange(0, (orig.len() - rest@.len()) as int),
            ).to_multiset(),
            values_of(out@).to_multiset() == values_of(
                orig.subrange(0, (orig.len() - rest@.len()) as int),
            ).to_multiset(),
            out@.len() == orig.len() - rest@.len(),
            sorted_by(keys_of(out@), bytes_leq()),
        decreases rest@.len(),
    {
        let ghost done = orig.subrange(0, (orig.len() - rest@.len()) as int);
        let ghost old_rest = rest@;
        let ghost old_out = out@;
        let x = rest.remove(0);
        let k = x.0;
        // find the first position whose key is strictly after k
        let mut p: usize = 0;
        while p < out.len() && !digest_lt(&k, &out[p].0)
            invariant
                p <= out@.len(),
                out@ == old_out,
                forall|i: int| 0 <= i < p ==> !lex_lt(k@, #[trigger] out@[i].0@),
            decreases out@.len() - p,
        {
            p = p + 1;
        }
        proof {
            let ko = keys_of(old_out);
            let leq = bytes_leq();
            // before p: key <= k; from p on: k < key
            assert forall|i: int| 0 <= i < p implies #[trigger] leq(ko[i], k@) by {
                lemma_lex_total(ko[i], k@);
            }
            assert forall|j: int| p <= j < ko.len() implies #[trigger] lex_lt(k@, ko[j]) by {
                assert(lex_lt(k@, ko[p as int]));
                if j > p {
                    assert(leq(ko[p as int], ko[j]));
                    lemma_lex_transitive(k@, ko[p as int], ko[j]);
                }
            }
        }
        out.insert(p, x);
        proof {
            let ko = keys_of(old_out);
            let kn = keys_of(out@);
            let leq = bytes_leq();
            assert(kn =~= ko.insert(p as int, k@));
            assert forall|i: int, j: int| 0 <= i < j < kn.len() implies #[trigger] leq(
                kn[i],
                kn[j],
            ) by {
                if i < p && j == p {
                } else if i == p && j > p {
                    assert(kn[j] == ko[j - 1]);
                } else if i < p && j > p {
                    assert(kn[j] == ko[j - 1]);
                    assert(leq(ko[i], ko[j - 1]));
                } else if i > p {
                    assert(kn[i] == ko[i - 1] && kn[j] == ko[j - 1]);
                } else {
                    assert(kn[i] == ko[i] && kn[j] == ko[j]);
                }
            }
            assert(out@.remove(p as int) =~= old_out);
            assert(out@[p as int] == x);
            assert(out@ =~= old_out.insert(p as int, x));
            lemma_insert_to_multiset(old_out, p as int, x);
            lemma_insert_to_multiset(keys_of(old_out), p as int, x.0@);
            assert(values_of(out@) =~= values_of(old_out).insert(p as int, x.1));
            lemma_insert_to_multiset(values_of(old_out), p as int, x.1);
            let new_done = orig.subrange(0, (orig.len() - rest@.len()) as int);
            assert(old_rest[0] == x);
            assert(new_done =~= done.push(x));
            vstd::seq_lib::to_multiset_build(done, x);
            assert(keys_of(new_done) =~= keys_of(done).push(x.0@));
            vstd::seq_lib::to_multiset_build(keys_of(done), x.0@);
            assert(values_of(new_done) =~= values_of(done).push(x.1));
            vstd::seq_lib::to_multiset_build(values_of(done), x.1);
            assert(rest@ =~= old_rest.drop_first());
            assert(orig =~= new_done + rest@);
        }
    }
    proof {
        assert(orig.subrange(0, orig.len() as int) =~= orig);
        assert forall|i: int| 0 <= i < out@.len() implies orig.contains(#[trigger] out@[i]) by {
            out@.to_multiset_ensures();
            orig.to_multiset_ensures();
            assert(out@.contains(out@[i]));
            assert(out@.to_multiset().count(out@[i]) > 0);
            assert(orig.to_multiset().count(out@[i]) > 0);
        }
    }
    out
}

/// Sequences holding the same elements map to sequences holding the same elements.
pub proof fn lemma_map_values_to_multiset<A, B>(a: Seq<A>, b: Seq<A>, f: spec_fn(A) -> B)
    requires
        a.to_multiset() == b.to_multiset(),
    ensures
        a.map_values(f).to_multiset() == b.map_values(f).to_multiset(),
    decreases a.len(),
{
    broadcast use vstd::seq_lib::group_to_multiset_ensures;

    if a.len() == 0 {
        assert(b.to_multiset().len() == 0);
        assert(b.len() == 0);
        assert(a.map_values(f) =~= b.map_values(f));
    } else {
        let x = a.last();
        assert(a.contains(x)) by {
            assert(a[a.len() - 1] == x);
        }
        assert(a.to_multiset().count(x) > 0);
        assert(b.contains(x));
        let j = choose|j: int| 0 <= j < b.len() && b[j] == x;
        vstd::seq_lib::to_multiset_remove(b, j);
        assert(a.drop_last() =~= a.remove(a.len() - 1));
        vstd::seq_lib::to_multiset_remove(a, a.len() - 1);
        lemma_map_values_to_multiset(a.drop_last(), b.remove(j), f);
        let ma = a.map_values(f);
        let mb = b.map_values(f);
        assert(ma.drop_last() =~= a.drop_last().map_values(f));
        assert(ma =~= ma.drop_last().push(f(x)));
        vstd::seq_lib::to_multiset_build(ma.drop_last(), f(x));
        assert(mb.remove(j) =~= b.remove(j).map_values(f));
        vstd::seq_lib::to_multiset_remove(mb, j);
        assert(mb.contains(f(x))) by {
            assert(mb[j] == f(x));
        }
        assert(mb.to_multiset().count(f(x)) > 0);
        assert(mb.to_multiset() =~= mb.remove(j).to_multiset().insert(f(x)));
    }
}

/// Sorting two sequences that hold the same elements gives the same sequence.
pub proof fn lemma_sort_by_permutation(a: Seq<Seq<u8>>, b: Seq<Seq<u8>>)
    requires
        a.to_multiset() == b.to_multiset(),
    ensures
        a.sort_by(bytes_leq()) == b.sort_by(bytes_leq()),
{
    lemma_bytes_total_ordering();
    a.lemma_sort_by_ensures(bytes_leq());
    b.lemma_sort_by_ensures(bytes_leq());
    vstd::seq_lib::lemma_sorted_unique(a.sort_by(bytes_leq()), b.sort_by(bytes_leq()), bytes_leq());
}

} // verus!
