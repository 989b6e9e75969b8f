//! The three-way comparison result and the lexicographic (codepoint-wise)
//! ordering of text, with the order laws that the sort engine builds on.

use vstd::prelude::*;

verus! {

/// The outcome of comparing two lines.
#[derive(Clone, Copy, Debug, PartialEq, Eq, Structural)]
pub enum Comparison {
    Less,
    Equal,
    Greater,
}

/// The comparison with its operands exchanged.
pub open spec fn flip(c: Comparison) -> Comparison {
    match c {
        Comparison::Less => Comparison::Greater,
        Comparison::Equal => Comparison::Equal,
        Comparison::Greater => Comparison::Less,
    }
}

/// Lexicographic order on character sequences, codepoint by codepoint; a
/// proper prefix sorts before its extensions.
pub open spec fn lex_cmp(a: Seq<char>, b: Seq<char>) -> Comparison
    decreases a.len() + b.len(),
{
    if a.len() == 0 && b.len() == 0 {
        Comparison::Equal
    } else if a.len() == 0 {
        Comparison::Less
    } else if b.len() == 0 {
        Comparison::Greater
    } else if (a[0] as u32) < (b[0] as u32) {
        Comparison::Less
    } else if (b[0] as u32) < (a[0] as u32) {
        Comparison::Greater
    } else {
        lex_cmp(a.drop_first(), b.drop_first())
    }
}

/// Exchanging the operands flips the lexicographic comparison.
pub proof fn lemma_lex_flip(a: Seq<char>, b: Seq<char>)
    ensures
        lex_cmp(b, a) == flip(lex_cmp(a, b)),
    decreases a.len() + b.len(),
{
    if a.len() > 0 && b.len() > 0 && !((a[0] as u32) < (b[0] as u32)) && !((b[0] as u32) < (
    a[0] as u32)) {
        lemma_lex_flip(a.drop_first(), b.drop_first());
    }
}

/// The lexicographic order is transitive in its non-strict form.
pub proof fn lemma_lex_trans(a: Seq<char>, b: Seq<char>, c: Seq<char>)
    requires
        lex_cmp(a, b) != Comparison::Greater,
        lex_cmp(b, c) != Comparison::Greater,
    ensures
        lex_cmp(a, c) != Comparison::Greater,
    decreases a.len() + b.len() + c.len(),
{
    if a.len() == 0 {
    } else if b.len() == 0 {
        assert(lex_cmp(a, b) == Comparison::Greater);
    } else if c.len() == 0 {
        assert(lex_cmp(b, c) == Comparison::Greater);
    } else {
        if (a[0] as u32) < (c[0] as u32) {
        } else {
            assert(!((c[0] as u32) < (b[0] as u32)));
            assert(!((b[0] as u32) < (a[0] as u32)));
            assert(a[0] as u32 == b[0] as u32 && b[0] as u32 == c[0] as u32);
            lemma_lex_trans(a.drop_first(), b.drop_first(), c.drop_first());
        }
    }
}

/// A sequence compares equal to itself.
pub proof fn lemma_lex_refl(a: Seq<char>)
    ensures
        lex_cmp(a, a) == Comparison::Equal,
    decreases a.len(),
{
    if a.len() > 0 {
        lemma_lex_refl(a.drop_first());
    }
}

/// Compares two lines codepoint by codepoint.
pub fn compare_text(a: &str, b: &str) -> (r: Comparison)
    ensures
        r == lex_cmp(a@, b@),
{
    let na = a.unicode_len();
    let nb = b.unicode_len();
    let mut i: usize = 0;
    proof {
        assert(a@.skip(0) =~= a@);
        assert(b@.skip(0) =~= b@);
    }
    loop
        invariant
            0 <= i <= na,
            0 <= i <= nb,
            na == a@.len(),
            nb == b@.len(),
            lex_cmp(a@, b@) == lex_cmp(a@.skip(i as int), b@.skip(i as int)),
        decreases na - i,
    {
        if i == na && i == nb {
            return Comparison::Equal;
        }
        if i == na {
            return Comparison::Less;
        }
        if i == nb {
            return Comparison::Greater;
        }
        let ca = a.get_char(i);
        let cb = b.get_char(i);
        proof {
            assert(a@.skip(i as int)[0] == a@[i as int]);
            assert(b@.skip(i as int)[0] == b@[i as int]);
            assert(a@.skip(i as int).drop_first() =~= a@.skip(i + 1));
            assert(b@.skip(i as int).drop_first() =~= b@.skip(i + 1));
        }
        if (ca as u32) < (cb as u32) {
            return Comparison::Less;
        }
        if (cb as u32) < (ca as u32) {
            return Comparison::Greater;
        }
        i = i + 1;
    }
}

} // verus!
