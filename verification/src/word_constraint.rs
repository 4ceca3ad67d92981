//! Lookup keys of the dictionary index.

use vstd::prelude::*;

verus! {

/// A hashable lookup key of the dictionary index: either "every word of
/// length `L`" or "every word of length `total_length` with the letters
/// `gram` at offset `offset`".
pub enum WordConstraint {
    Length(usize),
    Ngram { gram: Vec<char>, offset: usize, total_length: usize },
}

/// The mathematical value of a `WordConstraint`.
pub enum WcView {
    Length(int),
    Ngram { gram: Seq<char>, offset: int, total_length: int },
}

impl View for WordConstraint {
    type V = WcView;

    open spec fn view(&self) -> WcView {
        match self {
            WordConstraint::Length(l) => WcView::Length(*l as int),
            WordConstraint::Ngram { gram, offset, total_length } => WcView::Ngram {
                gram: gram@,
                offset: *offset as int,
                total_length: *total_length as int,
            },
        }
    }
}

/// Whether the word `w` satisfies the constraint `c`: it has the required
/// length, and for an n-gram constraint it carries the gram at the offset.
pub open spec fn constraint_sat(w: Seq<char>, c: WcView) -> bool {
    match c {
        WcView::Length(l) => w.len() == l,
        WcView::Ngram { gram, offset, total_length } => {
            &&& w.len() == total_length
            &&& 0 <= offset
            &&& offset + gram.len() <= w.len()
            &&& gram =~= w.subrange(offset, offset + gram.len())
        },
    }
}

/// Whether the index stores a list for this constraint: every length is
/// indexed, and n-grams of one up to `max_n` letters.
pub open spec fn indexable(c: WcView, max_n: int) -> bool {
    match c {
        WcView::Length(l) => true,
        WcView::Ngram { gram, offset, total_length } => 1 <= gram.len() <= max_n,
    }
}

impl WordConstraint {
    /// Builds the n-gram constraint for `gram` at `offset` in a word of
    /// length `total_length`.
    pub fn with_ngram(gram: Vec<char>, offset: usize, total_length: usize) -> (c: WordConstraint)
        ensures
            c@ == (WcView::Ngram {
                gram: gram@,
                offset: offset as int,
                total_length: total_length as int,
            }),
    {
        WordConstraint::Ngram { gram, offset, total_length }
    }
}

/// Whether two constraints are the same key.
pub fn wc_eq(a: &WordConstraint, b: &WordConstraint) -> (r: bool)
    ensures
        r == (a@ == b@),
{
    match (a, b) {
        (WordConstraint::Length(x), WordConstraint::Length(y)) => x == y,
        (
            WordConstraint::Ngram { gram: g1, offset: o1, total_length: t1 },
            WordConstraint::Ngram { gram: g2, offset: o2, total_length: t2 },
        ) => {
            if o1 != o2 || t1 != t2 || g1.len() != g2.len() {
                return false;
            }
            let mut i: usize = 0;
            while i < g1.len()
                invariant
                    (a@ == b@) <==> (g1@ == g2@),
                    g1@.len() == g2@.len(),
                    i <= g1@.len(),
                    forall|j: int| 0 <= j < i ==> g1@[j] == g2@[j],
                decreases g1@.len() - i,
            {
                if g1[i] != g2[i] {
                    return false;
                }
                i = i + 1;
            }
            proof {
                assert(g1@ =~= g2@);
            }
            true
        },
        _ => false,
    }
}

} // verus!
