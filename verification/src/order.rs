use vstd::prelude::*;

use vstd::utf8::{encode_utf8, encode_utf8_decode_utf8};

verus! {

/// Lexicographic order of byte strings (a proper prefix comes first).
pub open spec fn bytes_lt(x: Seq<u8>, y: Seq<u8>) -> bool
    decreases x.len(),
{
    if x.len() == 0 {
        y.len() > 0
    } else if y.len() == 0 {
        false
    } else if x[0] < y[0] {
        true
    } else if x[0] > y[0] {
        false
    } else {
        bytes_lt(x.drop_first(), y.drop_first())
    }
}

proof fn lemma_bytes_lt_irreflexive(x: Seq<u8>)
    ensures
        !bytes_lt(x, x),
    decreases x.len(),
{
    if x.len() > 0 {
        lemma_bytes_lt_irreflexive(x.drop_first());
    }
}

proof fn lemma_bytes_lt_asymmetric(x: Seq<u8>, y: Seq<u8>)
    ensures
        !(bytes_lt(x, y) && bytes_lt(y, x)),
    decreases x.len(),
{
    if x.len() > 0 && y.len() > 0 && x[0] == y[0] {
        lemma_bytes_lt_asymmetric(x.drop_first(), y.drop_first());
    }
}

proof fn lemma_bytes_lt_transitive(x: Seq<u8>, y: Seq<u8>, z: Seq<u8>)
    requires
        bytes_lt(x, y),
        bytes_lt(y, z),
    ensures
        bytes_lt(x, z),
    decreases x.len(),
{
    if x.len() > 0 && y.len() > 0 && z.len() > 0 && x[0] == y[0] && y[0] == z[0] {
        lemma_bytes_lt_transitive(x.drop_first(), y.drop_first(), z.drop_first());
    }
}

proof fn lemma_bytes_lt_total(x: Seq<u8>, y: Seq<u8>)
    requires
        x != y,
    ensures
        bytes_lt(x, y) || bytes_lt(y, x),
    decreases x.len(),
{
    if x.len() > 0 && y.len() > 0 && x[0] == y[0] {
        if x.drop_first() == y.drop_first() {
            assert(x =~= seq![x[0]] + x.drop_first());
            assert(y =~= seq![y[0]] + y.drop_first());
        }
        lemma_bytes_lt_total(x.drop_first(), y.drop_first());
    } else if x.len() == 0 && y.len() == 0 {
        assert(x =~= y);
    }
}

/// The display rank of a register: its place among the well-known ones,
/// else 500.
pub open spec fn rank(order: Map<Seq<char>, usize>, k: Seq<char>) -> usize {
    if order.dom().contains(k) {
        order[k]
    } else {
        500
    }
}

/// The display order of registers: by rank, then by name (strings compare
/// by their UTF-8 bytes).
pub open spec fn key_before(order: Map<Seq<char>, usize>, a: Seq<char>, b: Seq<char>) -> bool {
    rank(order, a) < rank(order, b) || (rank(order, a) == rank(order, b) && bytes_lt(
        encode_utf8(a),
        encode_utf8(b),
    ))
}

pub proof fn lemma_key_before_order(order: Map<Seq<char>, usize>, a: Seq<char>, b: Seq<char>, c: Seq<char>)
    ensures
        !key_before(order, a, a),
        !(key_before(order, a, b) && key_before(order, b, a)),
        key_before(order, a, b) && key_before(order, b, c) ==> key_before(order, a, c),
        a != b ==> key_before(order, a, b) || key_before(order, b, a),
{
    lemma_bytes_lt_irreflexive(encode_utf8(a));
    lemma_bytes_lt_asymmetric(encode_utf8(a), encode_utf8(b));
    if key_before(order, a, b) && key_before(order, b, c) {
        if rank(order, a) == rank(order, b) && rank(order, b) == rank(order, c) {
            lemma_bytes_lt_transitive(encode_utf8(a), encode_utf8(b), encode_utf8(c));
        }
    }
    if a != b {
        encode_utf8_decode_utf8(a);
        encode_utf8_decode_utf8(b);
        lemma_bytes_lt_total(encode_utf8(a), encode_utf8(b));
    }
}


/// Whether `a` comes before `b` in lexicographic byte order.
pub fn bytes_less(a: &[u8], b: &[u8]) -> (r: bool)
    ensures
        r == bytes_lt(a@, b@),
{
    let mut i: usize = 0;
    assert(a@.skip(0) =~= a@);
    assert(b@.skip(0) =~= b@);
    while i < a.len() && i < b.len()
        invariant
            i <= a@.len(),
            i <= b@.len(),
            bytes_lt(a@, b@) == bytes_lt(a@.skip(i as int), b@.skip(i as int)),
        decreases a.len() - i,
    {
        if a[i] < b[i] {
            return true;
        }
        if a[i] > b[i] {
            return false;
        }
        assert(a@.skip(i as int).drop_first() =~= a@.skip(i + 1));
        assert(b@.skip(i as int).drop_first() =~= b@.skip(i + 1));
        i = i + 1;
    }
    i < b.len()
}

} // verus!
