//! Lexicographic order on byte strings.

use vstd::prelude::*;

verus! {

broadcast use vstd::array::group_array_axioms;

/// Lexicographic three-way comparison of byte strings (-1, 0 or 1).
pub open spec fn lex_order(a: Seq<u8>, b: Seq<u8>) -> int
    decreases a.len(),
{
    if a.len() == 0 || b.len() == 0 {
        if a.len() < b.len() {
            -1
        } else if a.len() > b.len() {
            1
        } else {
            0
        }
    } else if a[0] < b[0] {
        -1
    } else if a[0] > b[0] {
        1
    } else {
        lex_order(a.drop_first(), b.drop_first())
    }
}

pub proof fn lemma_lex_antisym(a: Seq<u8>, b: Seq<u8>)
    ensures
        lex_order(a, b) == -lex_order(b, a),
        lex_order(a, b) == 0 ==> a == b,
        -1 <= lex_order(a, b) <= 1,
    decreases a.len(),
{
    if a.len() > 0 && b.len() > 0 && a[0] == b[0] {
        lemma_lex_antisym(a.drop_first(), b.drop_first());
        if lex_order(a, b) == 0 {
            assert(a =~= seq![a[0]] + a.drop_first());
            assert(b =~= seq![b[0]] + b.drop_first());
        }
    } else if a.len() == 0 && b.len() == 0 {
        assert(a =~= b);
    }
}

pub proof fn lemma_lex_trans(a: Seq<u8>, b: Seq<u8>, c: Seq<u8>)
    requires
        lex_order(a, b) < 0,
        lex_order(b, c) < 0,
    ensures
        lex_order(a, c) < 0,
    decreases a.len(),
{
    if a.len() > 0 && b.len() > 0 && c.len() > 0 && a[0] == b[0] && b[0] == c[0] {
        lemma_lex_trans(a.drop_first(), b.drop_first(), c.drop_first());
    }
}

/// Lexicographic three-way comparison of two 16-byte strings.
pub fn bytes16_order(a: &[u8; 16], b: &[u8; 16]) -> (r: i8)
    ensures
        r as int == lex_order(a@, b@),
{
    let mut i: usize = 0;
    assert(a@.subrange(0, 16) =~= a@);
    assert(b@.subrange(0, 16) =~= b@);
    while i < 16
        invariant
            i <= 16,
            a@.len() == 16,
            b@.len() == 16,
            lex_order(a@, b@) == lex_order(a@.subrange(i as int, 16), b@.subrange(i as int, 16)),
        decreases 16 - i,
    {
        let x = a[i];
        let y = b[i];
        let ghost sa = a@.subrange(i as int, 16);
        let ghost sb = b@.subrange(i as int, 16);
        assert(sa[0] == x && sb[0] == y);
        if x < y {
            return -1;
        }
        if x > y {
            return 1;
        }
        assert(sa.drop_first() =~= a@.subrange(i + 1, 16));
        assert(sb.drop_first() =~= b@.subrange(i + 1, 16));
        i = i + 1;
    }
    0
}

/// Whether two 16-byte strings are equal.
pub fn bytes16_equal(a: &[u8; 16], b: &[u8; 16]) -> (r: bool)
    ensures
        r == (*a == *b),
{
    let c = bytes16_order(a, b);
    proof {
        lemma_lex_antisym(a@, b@);
        if *a == *b {
            lemma_lex_antisym(a@, a@);
        }
        if c == 0 {
            assert forall|i: int| 0 <= i < 16 implies a[i] == b[i] by {
                assert(a@[i] == b@[i]);
            }
            assert(*a =~= *b);
        }
    }
    c == 0
}

} // verus!
