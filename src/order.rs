//! The lexicographic order of character sequences, which orders names.

use core::cmp::Ordering;
use vstd::prelude::*;

verus! {

/// The lexicographic order of two character sequences.
pub open spec fn lex_cmp(a: Seq<char>, b: Seq<char>) -> Ordering
    decreases a.len(),
{
    if a.len() == 0 {
        if b.len() == 0 {
            Ordering::Equal
        } else {
            Ordering::Less
        }
    } else if b.len() == 0 {
        Ordering::Greater
    } else if a[0] == b[0] {
        lex_cmp(a.drop_first(), b.drop_first())
    } else if (a[0] as int) < (b[0] as int) {
        Ordering::Less
    } else {
        Ordering::Greater
    }
}

/// Two character sequences compare equal exactly when they are the same.
pub proof fn lemma_lex_cmp_equal(a: Seq<char>, b: Seq<char>)
    ensures
        (lex_cmp(a, b) == Ordering::Equal) <==> (a == b),
    decreases a.len(),
{
    if a.len() == 0 && b.len() == 0 {
        assert(a =~= b);
    }
    if a.len() > 0 && b.len() > 0 {
        lemma_lex_cmp_equal(a.drop_first(), b.drop_first());
        if a[0] == b[0] && a.drop_first() == b.drop_first() {
            assert(a =~= seq![a[0]] + a.drop_first());
            assert(b =~= seq![b[0]] + b.drop_first());
        }
        if a == b {
            assert(a.drop_first() =~= b.drop_first());
        }
    }
}

/// The opposite of an ordering.
pub open spec fn flipped(o: Ordering) -> Ordering {
    match o {
        Ordering::Less => Ordering::Greater,
        Ordering::Equal => Ordering::Equal,
        Ordering::Greater => Ordering::Less,
    }
}

/// Swapping the operands flips the order.
pub proof fn lemma_lex_cmp_flip(a: Seq<char>, b: Seq<char>)
    ensures
        lex_cmp(b, a) == flipped(lex_cmp(a, b)),
    decreases a.len(),
{
    if a.len() > 0 && b.len() > 0 {
        lemma_lex_cmp_flip(a.drop_first(), b.drop_first());
    }
}

/// Relies on `Ord for String`: strings are ordered lexicographically by their
/// UTF-8 bytes, which orders them as their character sequences.
#[verifier::external_body]
pub(crate) fn compare_names(a: &String, b: &String) -> (r: Ordering)
    ensures
        r == lex_cmp(a@, b@),
{
    a.cmp(b)
}

} // verus!
