//! The dictionary: normalized words and an n-gram inverted index.
//!
//! Words are stored in an array whose order is randomized once at
//! construction. For every word the index keeps, under each constraint the
//! word satisfies (its length, and every n-gram of up to `max_n` letters at
//! each offset), the word's position in the array. A pattern query picks the
//! shortest plausible candidate list and filters it, so only a fraction of
//! the dictionary is scanned.

use vstd::prelude::*;

use rand::seq::SliceRandom;

use crate::grid::BLOCK;
use crate::word_constraint::{constraint_sat, indexable, wc_eq, WcView, WordConstraint};

verus! {

#[verifier::external_type_specification]
#[verifier::external_body]
pub struct ExThreadRng(rand::rngs::ThreadRng);

/// Relies on rand::rng: a handle to the thread-local random generator. It can
/// abort if the operating system's randomness source fails at first seeding;
/// nothing is assumed about the values it produces.
#[verifier::external_body]
fn fresh_rng() -> rand::rngs::ThreadRng {
    rand::rng()
}

/// Relies on rand's SliceRandom::shuffle: the slice is permuted in place,
/// uniformly at random, so the words it holds are preserved with their
/// multiplicities and nothing is promised about their order.
#[verifier::external_body]
fn shuffle_words(words: &mut Vec<Vec<char>>, rng: &mut rand::rngs::ThreadRng)
    ensures
        final(words).deep_view().to_multiset() == old(words).deep_view().to_multiset(),
{
    words.shuffle(rng);
}

#[verifier::external_type_specification]
#[verifier::external_body]
pub struct ExStdRng(rand::rngs::StdRng);

/// Relies on SeedableRng::seed_from_u64: a generator built deterministically
/// from the given seed, so that a construction can be replayed; the trait's
/// documentation asks implementations never to panic here. Nothing is assumed
/// about the values it produces.
#[verifier::external_body]
fn seeded_rng(seed: u64) -> rand::rngs::StdRng {
    rand::SeedableRng::seed_from_u64(seed)
}

/// Relies on rand's SliceRandom::shuffle, as `shuffle_words` does, with a
/// seeded generator: the slice is permuted in place, the words preserved with
/// their multiplicities.
#[verifier::external_body]
fn shuffle_words_seeded(words: &mut Vec<Vec<char>>, rng: &mut rand::rngs::StdRng)
    ensures
        final(words).deep_view().to_multiset() == old(words).deep_view().to_multiset(),
{
    words.shuffle(rng);
}

/// The index list stored for constraint `c`: the most recently stored entry
/// whose key is `c`, or empty where none is.
pub open spec fn lookup_in(ls: Seq<(WordConstraint, Vec<usize>)>, c: WcView) -> Seq<usize>
    decreases ls.len(),
{
    if ls.len() == 0 {
        Seq::empty()
    } else if ls.last().0@ == c {
        ls.last().1@
    } else {
        lookup_in(ls.drop_last(), c)
    }
}

/// No two stored entries share a key.
pub open spec fn unique_keys(ls: Seq<(WordConstraint, Vec<usize>)>) -> bool {
    forall|i: int, j: int|
        0 <= i < j < ls.len() ==> (#[trigger] ls[i]).0@ != (#[trigger] ls[j]).0@
}

/// The entries of an index list are strictly increasing.
pub open spec fn sorted_strict(s: Seq<usize>) -> bool {
    forall|i: int, j: int| 0 <= i < j < s.len() ==> s[i] < s[j]
}

/// Whether the index list `s` carries the word position `j`.
pub open spec fn has_index(s: Seq<usize>, j: int) -> bool {
    exists|t: int| 0 <= t < s.len() && s[t] as int == j
}

/// Whether the word `w` fits the pattern `p`: same length, and they agree on
/// every position where the pattern demands a letter (`BLOCK` in the pattern
/// is a wildcard).
pub open spec fn matches_spec(w: Seq<char>, p: Seq<char>) -> bool {
    w.len() == p.len() && forall|i: int| 0 <= i < p.len() ==> (p[i] == BLOCK || #[trigger] w[i] == p[i])
}

/// `matches_spec` against a fixed pattern, as a predicate on words.
pub open spec fn matches_pred(p: Seq<char>) -> spec_fn(Seq<char>) -> bool {
    |w: Seq<char>| matches_spec(w, p)
}

/// With unique keys, looking a stored key up yields exactly its entry.
proof fn lemma_lookup_key(ls: Seq<(WordConstraint, Vec<usize>)>, m: int)
    requires
        unique_keys(ls),
        0 <= m < ls.len(),
    ensures
        lookup_in(ls, ls[m].0@) == ls[m].1@,
    decreases ls.len(),
{
    if m < ls.len() - 1 {
        assert(ls.drop_last()[m] == ls[m]);
        lemma_lookup_key(ls.drop_last(), m);
    }
}

/// A key stored nowhere looks up to the empty list.
proof fn lemma_lookup_absent(ls: Seq<(WordConstraint, Vec<usize>)>, c: WcView)
    requires
        forall|m: int| 0 <= m < ls.len() ==> (#[trigger] ls[m]).0@ != c,
    ensures
        lookup_in(ls, c) == Seq::<usize>::empty(),
    decreases ls.len(),
{
    if ls.len() > 0 {
        lemma_lookup_absent(ls.drop_last(), c);
    }
}

/// Replacing the entry at `m` by one with the same key changes only that
/// key's lookup.
proof fn lemma_lookup_update(
    ls: Seq<(WordConstraint, Vec<usize>)>,
    m: int,
    e: (WordConstraint, Vec<usize>),
    c: WcView,
)
    requires
        unique_keys(ls),
        0 <= m < ls.len(),
        e.0@ == ls[m].0@,
    ensures
        lookup_in(ls.update(m, e), c) == if ls[m].0@ == c {
            e.1@
        } else {
            lookup_in(ls, c)
        },
    decreases ls.len(),
{
    let ls2 = ls.update(m, e);
    if m == ls.len() - 1 {
        assert(ls2.drop_last() =~= ls.drop_last());
    } else {
        assert(ls2.drop_last() =~= ls.drop_last().update(m, e));
        assert(ls2.last() == ls.last());
        lemma_lookup_update(ls.drop_last(), m, e, c);
        assert(ls.drop_last()[m] == ls[m]);
    }
}

/// Pushing onto an index list adds exactly that position.
proof fn lemma_has_index_push(s: Seq<usize>, v: usize)
    ensures
        forall|j: int| has_index(s.push(v), j) <==> (has_index(s, j) || j == v as int),
{
    assert forall|j: int| has_index(s.push(v), j) <==> (has_index(s, j) || j == v as int) by {
        if has_index(s, j) {
            let t = choose|t: int| 0 <= t < s.len() && s[t] as int == j;
            assert(s.push(v)[t] as int == j);
        }
        if j == v as int {
            assert(s.push(v)[s.len() as int] as int == j);
        }
        if has_index(s.push(v), j) {
            let t = choose|t: int| 0 <= t < s.push(v).len() && s.push(v)[t] as int == j;
            if t < s.len() {
                assert(s[t] as int == j);
            }
        }
    }
}

/// Extending a word list by words that do not fit the pattern leaves the
/// filtered list as it was.
proof fn lemma_filter_skip(ws: Seq<Seq<char>>, p: Seq<char>, i: int, j: int)
    requires
        0 <= i <= j <= ws.len(),
        forall|t: int| i <= t < j ==> !matches_spec(#[trigger] ws[t], p),
    ensures
        ws.take(j).filter(matches_pred(p)) == ws.take(i).filter(matches_pred(p)),
    decreases j - i,
{
    reveal(Seq::filter);
    if i < j {
        lemma_filter_skip(ws, p, i, j - 1);
        assert(ws.take(j).drop_last() =~= ws.take(j - 1));
        assert(ws.take(j).last() == ws[j - 1]);
        assert(!matches_pred(p)(ws[j - 1]));
    }
}

/// Extending a word list by one word that fits the pattern appends it to the
/// filtered list.
proof fn lemma_filter_push(ws: Seq<Seq<char>>, p: Seq<char>, j: int)
    requires
        0 <= j < ws.len(),
        matches_spec(ws[j], p),
    ensures
        ws.take(j + 1).filter(matches_pred(p)) == ws.take(j).filter(matches_pred(p)).push(ws[j]),
{
    reveal(Seq::filter);
    assert(ws.take(j + 1).drop_last() =~= ws.take(j));
    assert(ws.take(j + 1).last() == ws[j]);
    assert(matches_pred(p)(ws[j]));
}

/// A copy of a word list, made by hand so that the copy provably carries the
/// same words.
fn copy_words(all_words: &Vec<Vec<char>>) -> (words: Vec<Vec<char>>)
    ensures
        words.deep_view() == all_words.deep_view(),
{
    let mut words: Vec<Vec<char>> = Vec::new();
    let mut i: usize = 0;
    while i < all_words.len()
        invariant
            i <= all_words@.len(),
            words.deep_view().len() == i,
            forall|j: int|
                0 <= j < i ==> #[trigger] words.deep_view()[j] == all_words.deep_view()[j],
        decreases all_words@.len() - i,
    {
        let wi = all_words[i].clone();
        let ghost dv0 = words.deep_view();
        proof {
            assert(wi@ =~= all_words@[i as int]@);
        }
        words.push(wi);
        proof {
            assert(words.deep_view() =~~= dv0.push(all_words.deep_view()[i as int]));
        }
        i = i + 1;
    }
    proof {
        assert(words.deep_view() =~= all_words.deep_view());
    }
    words
}

/// A copy of a constraint, made by hand so that the copy provably carries the
/// same key value.
fn wc_clone(c: &WordConstraint) -> (r: WordConstraint)
    ensures
        r@ == c@,
{
    match c {
        WordConstraint::Length(l) => WordConstraint::Length(*l),
        WordConstraint::Ngram { gram, offset, total_length } => {
            let mut g: Vec<char> = Vec::new();
            let mut i: usize = 0;
            while i < gram.len()
                invariant
                    i <= gram@.len(),
                    g@.len() == i,
                    forall|t: int| 0 <= t < i ==> g@[t] == gram@[t],
                decreases gram@.len() - i,
            {
                g.push(gram[i]);
                i = i + 1;
            }
            proof {
                assert(g@ =~= gram@);
            }
            WordConstraint::Ngram { gram: g, offset: *offset, total_length: *total_length }
        },
    }
}

/// Appends word position `i` to the list stored under `c`, creating the entry
/// if the key is new. Every existing position must be smaller than `i`, so
/// all lists stay strictly sorted.
fn add_index(lists: &mut Vec<(WordConstraint, Vec<usize>)>, c: WordConstraint, i: usize)
    requires
        unique_keys(old(lists)@),
        forall|m: int| 0 <= m < old(lists)@.len() ==> sorted_strict((#[trigger] old(lists)@[m]).1@),
        forall|m: int, u: int|
            0 <= m < old(lists)@.len() && 0 <= u < old(lists)@[m].1@.len() ==> (
            #[trigger] old(lists)@[m].1@[u]) <= i,
        forall|m: int, u: int|
            0 <= m < old(lists)@.len() && 0 <= u < old(lists)@[m].1@.len() && old(
                lists,
            )@[m].0@ == c@ ==> (#[trigger] old(lists)@[m].1@[u]) < i,
    ensures
        unique_keys(final(lists)@),
        forall|m: int| 0 <= m < final(lists)@.len() ==> sorted_strict(
            (#[trigger] final(lists)@[m]).1@,
        ),
        forall|m: int, u: int|
            0 <= m < final(lists)@.len() && 0 <= u < final(lists)@[m].1@.len() ==> (
            #[trigger] final(lists)@[m].1@[u]) <= i,
        lookup_in(final(lists)@, c@) == lookup_in(old(lists)@, c@).push(i),
        forall|c2: WcView|
            c2 != c@ ==> #[trigger] lookup_in(final(lists)@, c2) == lookup_in(old(lists)@, c2),
{
    let ghost ls0 = lists@;
    let mut m: usize = 0;
    while m < lists.len()
        invariant
            lists@ == ls0,
            ls0 == old(lists)@,
            unique_keys(ls0),
            m <= ls0.len(),
            forall|t: int| 0 <= t < m ==> (#[trigger] ls0[t]).0@ != c@,
            forall|m2: int| 0 <= m2 < ls0.len() ==> sorted_strict((#[trigger] ls0[m2]).1@),
            forall|m2: int, u: int|
                0 <= m2 < ls0.len() && 0 <= u < ls0[m2].1@.len() ==> (#[trigger] ls0[m2].1@[u])
                    <= i,
            forall|m2: int, u: int|
                0 <= m2 < ls0.len() && 0 <= u < ls0[m2].1@.len() && ls0[m2].0@ == c@ ==> (
                #[trigger] ls0[m2].1@[u]) < i,
        decreases ls0.len() - m,
    {
        if wc_eq(&lists[m].0, &c) {
            let mut lv = lists[m].1.clone();
            proof {
                assert(lv@ =~= lists@[m as int].1@);
            }
            lv.push(i);
            let ghost key_view = lists@[m as int].0@;
            let entry = (c, lv);
            let ghost ev = entry;
            lists[m] = entry;
            proof {
                lemma_lookup_key(ls0, m as int);
                assert(lists@ == ls0.update(m as int, ev));
                assert(ev.1@ == ls0[m as int].1@.push(i));
                assert forall|c2: WcView|
                    (#[trigger] lookup_in(lists@, c2)) == (if key_view == c2 {
                        ls0[m as int].1@.push(i)
                    } else {
                        lookup_in(ls0, c2)
                    }) by {
                    lemma_lookup_update(ls0, m as int, ev, c2);
                }
                assert forall|m2: int| 0 <= m2 < lists@.len() implies sorted_strict(
                    (#[trigger] lists@[m2]).1@,
                ) && (forall|u: int|
                    0 <= u < lists@[m2].1@.len() ==> (#[trigger] lists@[m2].1@[u]) <= i) by {
                    if m2 == m as int {
                        assert(sorted_strict(ls0[m2].1@));
                        assert forall|u1: int, u2: int|
                            0 <= u1 < u2 < lists@[m2].1@.len() implies lists@[m2].1@[u1]
                            < lists@[m2].1@[u2] by {
                            if u2 < ls0[m2].1@.len() {
                                assert(ls0[m2].1@[u1] < ls0[m2].1@[u2]);
                            } else {
                                assert(lists@[m2].1@[u2] == i);
                                assert(ls0[m2].1@[u1] < i);
                            }
                        }
                    } else {
                        assert(lists@[m2] == ls0[m2]);
                    }
                }
                assert(unique_keys(lists@)) by {
                    assert forall|i1: int, j1: int| 0 <= i1 < j1 < lists@.len() implies (
                    #[trigger] lists@[i1]).0@ != (#[trigger] lists@[j1]).0@ by {
                        assert(lists@[i1].0@ == ls0[i1].0@ && lists@[j1].0@ == ls0[j1].0@);
                    }
                }
            }
            return ;
        }
        m = m + 1;
    }
    let mut lv: Vec<usize> = Vec::new();
    lv.push(i);
    let ghost cv = c@;
    lists.push((c, lv));
    proof {
        lemma_lookup_absent(ls0, cv);
        assert(lists@.drop_last() =~= ls0);
        assert(lookup_in(lists@, cv) =~= lookup_in(ls0, cv).push(i));
        assert(forall|c2: WcView|
            c2 != cv ==> #[trigger] lookup_in(lists@, c2) == lookup_in(ls0, c2));
    }
}

/// The constraints a straight enumeration of word `w` has emitted once it
/// stands at gram length `n` and offset `off`: the word's length, and every
/// gram lexicographically before `(n, off)`.
pub open spec fn enumerated(w: Seq<char>, max_n: int, n: int, off: int, c: WcView) -> bool {
    match c {
        WcView::Length(l) => l == w.len(),
        WcView::Ngram { gram, offset, total_length } => {
            &&& total_length == w.len()
            &&& 0 <= offset
            &&& offset + gram.len() <= w.len()
            &&& gram == w.subrange(offset, offset + gram.len())
            &&& 1 <= gram.len() <= max_n
            &&& (gram.len() < n || (gram.len() == n && offset < off))
        },
    }
}

/// Whether one of the constraints in `cs` has the value `c`.
pub open spec fn in_cs(cs: Seq<WordConstraint>, c: WcView) -> bool {
    exists|t: int| 0 <= t < cs.len() && (#[trigger] cs[t])@ == c
}

/// A copy of `w[a..b]`.
fn sub_vec(w: &Vec<char>, a: usize, b: usize) -> (r: Vec<char>)
    requires
        a <= b <= w@.len(),
    ensures
        r@ == w@.subrange(a as int, b as int),
{
    let mut r: Vec<char> = Vec::new();
    let mut i: usize = a;
    while i < b
        invariant
            a <= i <= b <= w@.len(),
            r@.len() == i - a,
            forall|t: int| 0 <= t < i - a ==> r@[t] == w@[a + t],
        decreases b - i,
    {
        r.push(w[i]);
        i = i + 1;
    }
    proof {
        assert(r@ =~= w@.subrange(a as int, b as int));
    }
    r
}

/// All constraints the word `w` satisfies and the index stores: its length,
/// and every gram of one up to `max_n` letters at every offset. No constraint
/// appears twice.
fn constraints_of(w: &Vec<char>, max_n: usize) -> (cs: Vec<WordConstraint>)
    requires
        1 <= max_n <= 0x1000_0000,
    ensures
        forall|t: int|
            0 <= t < cs@.len() ==> constraint_sat(w@, (#[trigger] cs@[t])@) && indexable(
                cs@[t]@,
                max_n as int,
            ),
        forall|t1: int, t2: int|
            0 <= t1 < t2 < cs@.len() ==> (#[trigger] cs@[t1])@ != (#[trigger] cs@[t2])@,
        forall|c: WcView|
            #[trigger] constraint_sat(w@, c) && indexable(c, max_n as int) ==> in_cs(cs@, c),
{
    let l = w.len();
    let mut cs: Vec<WordConstraint> = Vec::new();
    cs.push(WordConstraint::Length(l));
    let mn = if max_n < l {
        max_n
    } else {
        l
    };
    proof {
        assert(cs@[0]@ == WcView::Length(l as int));
        assert forall|c: WcView| in_cs(cs@, c) <==> enumerated(w@, max_n as int, 1, 0, c) by {
            if enumerated(w@, max_n as int, 1, 0, c) {
                assert(cs@[0]@ == c);
            }
        }
    }
    let mut n: usize = 1;
    while n <= mn
        invariant
            1 <= max_n <= 0x1000_0000,
            l == w@.len(),
            mn <= max_n && mn <= l && (mn == max_n || mn == l),
            1 <= n <= mn + 1,
            forall|t: int|
                0 <= t < cs@.len() ==> constraint_sat(w@, (#[trigger] cs@[t])@) && indexable(
                    cs@[t]@,
                    max_n as int,
                ),
            forall|t1: int, t2: int|
                0 <= t1 < t2 < cs@.len() ==> (#[trigger] cs@[t1])@ != (#[trigger] cs@[t2])@,
            forall|c: WcView| in_cs(cs@, c) <==> enumerated(w@, max_n as int, n as int, 0, c),
        decreases mn + 1 - n,
    {
        let mut off: usize = 0;
        while off <= l - n
            invariant
                1 <= max_n,
                l == w@.len(),
                1 <= n <= l,
                n <= max_n,
                off <= l - n + 1,
                forall|t: int|
                    0 <= t < cs@.len() ==> constraint_sat(w@, (#[trigger] cs@[t])@) && indexable(
                        cs@[t]@,
                        max_n as int,
                    ),
                forall|t1: int, t2: int|
                    0 <= t1 < t2 < cs@.len() ==> (#[trigger] cs@[t1])@ != (#[trigger] cs@[t2])@,
                forall|c: WcView|
                    in_cs(cs@, c) <==> enumerated(w@, max_n as int, n as int, off as int, c),
            decreases l - n - off + 1,
        {
            let gram = sub_vec(w, off, off + n);
            let ghost cv = WcView::Ngram {
                gram: w@.subrange(off as int, off + n),
                offset: off as int,
                total_length: l as int,
            };
            let ghost cs0 = cs@;
            cs.push(WordConstraint::Ngram { gram, offset: off, total_length: l });
            proof {
                assert(cs@[cs0.len() as int]@ == cv);
                assert(forall|t: int| 0 <= t < cs0.len() ==> cs@[t] == cs0[t]);
                assert(!in_cs(cs0, cv));
                assert(constraint_sat(w@, cv) && indexable(cv, max_n as int));
                assert forall|c: WcView|
                    in_cs(cs@, c) <==> enumerated(
                        w@,
                        max_n as int,
                        n as int,
                        off + 1,
                        c,
                    ) by {
                    if in_cs(cs@, c) {
                        let t = choose|t: int| 0 <= t < cs@.len() && (#[trigger] cs@[t])@ == c;
                        if t < cs0.len() {
                            assert(in_cs(cs0, c));
                        }
                    }
                    if enumerated(w@, max_n as int, n as int, off + 1, c) {
                        if enumerated(w@, max_n as int, n as int, off as int, c) {
                            assert(in_cs(cs0, c));
                            let t = choose|t: int|
                                0 <= t < cs0.len() && (#[trigger] cs0[t])@ == c;
                            assert(cs@[t]@ == c);
                        } else {
                            assert(c == cv);
                            assert(cs@[cs0.len() as int]@ == c);
                        }
                    }
                }
            }
            off = off + 1;
        }
        proof {
            assert forall|c: WcView|
                #[trigger] enumerated(w@, max_n as int, n as int, (l - n + 1) as int, c)
                    <==> enumerated(w@, max_n as int, n + 1, 0, c) by {}
        }
        n = n + 1;
    }
    proof {
        assert forall|c: WcView|
            #[trigger] constraint_sat(w@, c) && indexable(c, max_n as int) implies in_cs(
            cs@,
            c,
        ) by {
            assert(enumerated(w@, max_n as int, (mn + 1) as int, 0, c)) by {
                match c {
                    WcView::Length(ll) => {
                    },
                    WcView::Ngram { gram, offset, total_length } => {
                        assert(gram.len() <= l);
                    },
                }
            }
        }
    }
    cs
}

/// A `Dict` stores a list of words, represented as character vectors, and
/// indexes them for efficiently iterating over all words satisfying a given
/// `WordConstraint`.
pub struct Dict {
    words: Vec<Vec<char>>,
    lists: Vec<(WordConstraint, Vec<usize>)>,
    max_n: usize,
}

/// An iterator over all dictionary words fitting a given pattern.
pub struct PatternIter {
    items: Vec<Vec<char>>,
    index: usize,
}

impl PatternIter {
    /// The matching words not yet handed out, in dictionary order.
    pub closed spec fn remaining(self) -> Seq<Seq<char>> {
        self.items.deep_view().skip(self.index as int)
    }

    /// The position never runs past the end of the matches.
    pub closed spec fn wf(self) -> bool {
        self.index <= self.items@.len()
    }

    /// Hands out the next matching word, or `None` when all are spent.
    pub fn next(&mut self) -> (r: Option<Vec<char>>)
        requires
            old(self).wf(),
        ensures
            final(self).wf(),
            old(self).remaining().len() == 0 ==> r is None && final(self).remaining()
                == old(self).remaining(),
            old(self).remaining().len() > 0 ==> r is Some && r.unwrap()@ == old(
                self,
            ).remaining()[0] && final(self).remaining() == old(self).remaining().drop_first(),
    {
        if self.index < self.items.len() {
            let w = self.items[self.index].clone();
            proof {
                assert(w@ =~= self.items@[self.index as int]@);
                assert(self.items.deep_view().skip(self.index as int)[0] == self.items.deep_view()[
                    self.index as int]);
            }
            self.index = self.index + 1;
            proof {
                assert(self.items.deep_view().skip(self.index as int) =~= self.items.deep_view()
                    .skip(self.index - 1).drop_first());
            }
            Some(w)
        } else {
            None
        }
    }

    /// How many matching words are left; consumes the iterator.
    pub fn count(self) -> (n: usize)
        requires
            self.wf(),
        ensures
            n == self.remaining().len(),
    {
        self.items.len() - self.index
    }
}

impl Dict {
    /// The stored words, in their shuffled order.
    pub closed spec fn spec_words(self) -> Seq<Seq<char>> {
        self.words.deep_view()
    }

    /// The longest gram length the index covers.
    pub closed spec fn spec_max_n(self) -> int {
        self.max_n as int
    }

    /// The stored index entries.
    pub closed spec fn spec_lists(self) -> Seq<(WordConstraint, Vec<usize>)> {
        self.lists@
    }

    /// The index list for constraint `c`.
    pub open spec fn spec_list(self, c: WcView) -> Seq<usize> {
        lookup_in(self.spec_lists(), c)
    }

    /// The dictionary invariant: the index is a complete and sound inverted
    /// index of the stored words. Every stored list is strictly sorted and
    /// holds positions of words satisfying its key, and the list of every
    /// indexable constraint holds the position of every word satisfying it.
    pub open spec fn wf(self) -> bool {
        &&& self.spec_max_n() >= 1
        &&& unique_keys(self.spec_lists())
        &&& forall|m: int|
            0 <= m < self.spec_lists().len() ==> sorted_strict((#[trigger] self.spec_lists()[m]).1@)
        &&& forall|m: int, u: int|
            0 <= m < self.spec_lists().len() && 0 <= u < self.spec_lists()[m].1@.len() ==> (
            #[trigger] self.spec_lists()[m].1@[u]) < self.spec_words().len() && constraint_sat(
                self.spec_words()[self.spec_lists()[m].1@[u] as int],
                self.spec_lists()[m].0@,
            )
        &&& forall|c: WcView, j: int|
            0 <= j < self.spec_words().len() && #[trigger] constraint_sat(self.spec_words()[j], c)
                && indexable(c, self.spec_max_n()) ==> has_index(self.spec_list(c), j)
    }

    /// Creates a new dictionary from the given words: the words are shuffled
    /// once, so queries later yield them in a randomized order, and the index
    /// is built over every gram of up to three letters.
    pub fn new(all_words: &Vec<Vec<char>>) -> (d: Dict)
        ensures
            d.wf(),
            d.spec_max_n() == 3,
            d.spec_words().to_multiset() == all_words.deep_view().to_multiset(),
            d.spec_words().len() == all_words.deep_view().len(),
    {
        let mut words = copy_words(all_words);
        let mut rng = fresh_rng();
        let ghost before_shuffle = words.deep_view();
        shuffle_words(&mut words, &mut rng);
        proof {
            vstd::seq_lib::to_multiset_len(before_shuffle);
            vstd::seq_lib::to_multiset_len(words.deep_view());
        }
        Self::indexed(words)
    }

    /// As `new`, but the shuffle is driven by a generator built from the
    /// given seed, so that a construction can be replayed in tests.
    pub fn new_seeded(all_words: &Vec<Vec<char>>, seed: u64) -> (d: Dict)
        ensures
            d.wf(),
            d.spec_max_n() == 3,
            d.spec_words().to_multiset() == all_words.deep_view().to_multiset(),
            d.spec_words().len() == all_words.deep_view().len(),
    {
        let mut words = copy_words(all_words);
        let mut rng = seeded_rng(seed);
        let ghost before_shuffle = words.deep_view();
        shuffle_words_seeded(&mut words, &mut rng);
        proof {
            vstd::seq_lib::to_multiset_len(before_shuffle);
            vstd::seq_lib::to_multiset_len(words.deep_view());
        }
        Self::indexed(words)
    }

    /// Builds the inverted index over the given, already ordered words.
    fn indexed(words: Vec<Vec<char>>) -> (d: Dict)
        ensures
            d.wf(),
            d.spec_max_n() == 3,
            d.spec_words() == words.deep_view(),
    {
        let words = words;
        let ghost ws = words.deep_view();
        let mut lists: Vec<(WordConstraint, Vec<usize>)> = Vec::new();
        let mut i: usize = 0;
        while i < words.len()
            invariant
                ws == words.deep_view(),
                i <= ws.len(),
                unique_keys(lists@),
                forall|m: int| 0 <= m < lists@.len() ==> sorted_strict((#[trigger] lists@[m]).1@),
                forall|m: int, u: int|
                    0 <= m < lists@.len() && 0 <= u < lists@[m].1@.len() ==> (
                    #[trigger] lists@[m].1@[u]) < i,
                forall|c: WcView, j: int|
                    0 <= j < ws.len() ==> (#[trigger] has_index(lookup_in(lists@, c), j) <==> (j < i
                        && constraint_sat(ws[j], c) && indexable(c, 3))),
            decreases ws.len() - i,
        {
            let cs = constraints_of(&words[i], 3);
            proof {
                assert(words@[i as int].deep_view() =~= words@[i as int]@);
                assert(ws[i as int] == words@[i as int]@);
            }
            let mut t: usize = 0;
            while t < cs.len()
                invariant
                    ws == words.deep_view(),
                    i < ws.len(),
                    ws[i as int] == words@[i as int]@,
                    t <= cs@.len(),
                    forall|u: int|
                        0 <= u < cs@.len() ==> constraint_sat(
                            words@[i as int]@,
                            (#[trigger] cs@[u])@,
                        ) && indexable(cs@[u]@, 3),
                    forall|u1: int, u2: int|
                        0 <= u1 < u2 < cs@.len() ==> (#[trigger] cs@[u1])@ != (#[trigger] cs@[u2])@,
                    unique_keys(lists@),
                    forall|m: int|
                        0 <= m < lists@.len() ==> sorted_strict((#[trigger] lists@[m]).1@),
                    forall|m: int, u: int|
                        0 <= m < lists@.len() && 0 <= u < lists@[m].1@.len() ==> (
                        #[trigger] lists@[m].1@[u]) <= i,
                    forall|c: WcView, j: int|
                        0 <= j < ws.len() ==> (#[trigger] has_index(lookup_in(lists@, c), j) <==> ((
                        j < i && constraint_sat(ws[j], c) && indexable(c, 3)) || (j == i && in_cs(
                            cs@.take(t as int),
                            c,
                        )))),
                decreases cs@.len() - t,
            {
                let c = wc_clone(&cs[t]);
                let ghost cv = c@;
                let ghost lists0 = lists@;
                proof {
                    // The current word is not yet listed under this
                    // constraint, so every stored position is smaller.
                    assert(!in_cs(cs@.take(t as int), cv)) by {
                        if in_cs(cs@.take(t as int), cv) {
                            let u = choose|u: int|
                                0 <= u < t && (#[trigger] cs@.take(t as int)[u])@ == cv;
                            assert(cs@[u]@ == cs@[t as int]@);
                        }
                    }
                    assert(!has_index(lookup_in(lists@, cv), i as int));
                    assert forall|m: int, u: int|
                        0 <= m < lists@.len() && 0 <= u < lists@[m].1@.len() && lists@[m].0@
                        == cv implies (#[trigger] lists@[m].1@[u]) < i by {
                        lemma_lookup_key(lists@, m);
                        if lists@[m].1@[u] == i {
                            assert(has_index(lookup_in(lists@, cv), i as int));
                        }
                    }
                }
                add_index(&mut lists, c, i);
                proof {
                    lemma_has_index_push(lookup_in(lists0, cv), i);
                    assert(cs@.take(t + 1) =~= cs@.take(t as int).push(cs@[t as int]));
                    assert forall|c2: WcView, j: int| 0 <= j < ws.len() implies (
                    #[trigger] has_index(lookup_in(lists@, c2), j) <==> ((j < i && constraint_sat(
                        ws[j],
                        c2,
                    ) && indexable(c2, 3)) || (j == i && in_cs(cs@.take(t + 1), c2)))) by {
                        assert(has_index(lookup_in(lists0, c2), j) <==> ((j < i && constraint_sat(
                            ws[j],
                            c2,
                        ) && indexable(c2, 3)) || (j == i && in_cs(cs@.take(t as int), c2))));
                        if c2 == cv {
                            assert(lookup_in(lists@, c2) == lookup_in(lists0, c2).push(i));
                            assert(has_index(lookup_in(lists0, c2).push(i), j) <==> (has_index(
                                lookup_in(lists0, c2),
                                j,
                            ) || j == i));
                            assert(in_cs(cs@.take(t + 1), cv)) by {
                                assert(cs@.take(t + 1)[t as int]@ == cv);
                            }
                        } else {
                            assert(lookup_in(lists@, c2) == lookup_in(lists0, c2));
                            assert(in_cs(cs@.take(t + 1), c2) <==> in_cs(
                                cs@.take(t as int),
                                c2,
                            )) by {
                                if in_cs(cs@.take(t + 1), c2) {
                                    let u = choose|u: int|
                                        0 <= u < t + 1 && (#[trigger] cs@.take(t + 1)[u])@ == c2;
                                    if u < t {
                                        assert(cs@.take(t as int)[u]@ == c2);
                                    }
                                }
                                if in_cs(cs@.take(t as int), c2) {
                                    let u = choose|u: int|
                                        0 <= u < t && (#[trigger] cs@.take(t as int)[u])@ == c2;
                                    assert(cs@.take(t + 1)[u]@ == c2);
                                }
                            }
                        }
                    }
                }
                t = t + 1;
            }
            proof {
                assert forall|c: WcView, j: int| 0 <= j < ws.len() implies (#[trigger] has_index(
                    lookup_in(lists@, c),
                    j,
                ) <==> (j < i + 1 && constraint_sat(ws[j], c) && indexable(c, 3))) by {
                    assert(cs@.take(cs@.len() as int) =~= cs@);
                    if j == i && constraint_sat(ws[j], c) && indexable(c, 3) {
                        assert(in_cs(cs@, c));
                    }
                    if j == i && in_cs(cs@, c) {
                        let u = choose|u: int| 0 <= u < cs@.len() && (#[trigger] cs@[u])@ == c;
                        assert(constraint_sat(ws[j], c) && indexable(c, 3));
                    }
                }
            }
            i = i + 1;
        }
        let d = Dict { words, lists, max_n: 3 };
        proof {
            assert(d.wf()) by {
                assert forall|m: int, u: int|
                    0 <= m < d.spec_lists().len() && 0 <= u < d.spec_lists()[m].1@.len() implies (
                #[trigger] d.spec_lists()[m].1@[u]) < d.spec_words().len() && constraint_sat(
                    d.spec_words()[d.spec_lists()[m].1@[u] as int],
                    d.spec_lists()[m].0@,
                ) by {
                    lemma_lookup_key(d.spec_lists(), m);
                    let j = d.spec_lists()[m].1@[u];
                    assert(has_index(lookup_in(d.spec_lists(), d.spec_lists()[m].0@), j as int));
                }
            }
        }
        d
    }

    /// The stored index list for the given constraint, empty if the key is
    /// absent.
    fn get_list(&self, wc: &WordConstraint) -> (r: Vec<usize>)
        ensures
            r@ == lookup_in(self.spec_lists(), wc@),
    {
        let mut m: usize = self.lists.len();
        proof {
            assert(self.lists@.take(self.lists@.len() as int) =~= self.lists@);
        }
        while m > 0
            invariant
                m <= self.lists@.len(),
                lookup_in(self.spec_lists(), wc@) == lookup_in(self.lists@.take(m as int), wc@),
            decreases m,
        {
            proof {
                assert(self.lists@.take(m as int).last() == self.lists@[m - 1]);
                assert(self.lists@.take(m as int).drop_last() =~= self.lists@.take(m - 1));
            }
            if wc_eq(&self.lists[m - 1].0, wc) {
                let r = self.lists[m - 1].1.clone();
                proof {
                    assert(r@ =~= self.lists@[m - 1].1@);
                }
                return r;
            }
            m = m - 1;
        }
        proof {
            assert(self.lists@.take(0) =~= Seq::<(WordConstraint, Vec<usize>)>::empty());
        }
        Vec::new()
    }
}

/// A looked-up list is the empty list or one of the stored entries.
proof fn lemma_lookup_entry(ls: Seq<(WordConstraint, Vec<usize>)>, c: WcView)
    ensures
        lookup_in(ls, c) == Seq::<usize>::empty() || exists|m: int|
            0 <= m < ls.len() && (#[trigger] ls[m]).0@ == c && lookup_in(ls, c) == ls[m].1@,
    decreases ls.len(),
{
    if ls.len() > 0 {
        if ls.last().0@ == c {
            assert(ls[ls.len() - 1].0@ == c && lookup_in(ls, c) == ls[ls.len() - 1].1@);
        } else {
            lemma_lookup_entry(ls.drop_last(), c);
            if lookup_in(ls, c) != Seq::<usize>::empty() {
                let m = choose|m: int|
                    0 <= m < ls.drop_last().len() && (#[trigger] ls.drop_last()[m]).0@ == c
                        && lookup_in(ls.drop_last(), c) == ls.drop_last()[m].1@;
                assert(ls[m].0@ == c && lookup_in(ls, c) == ls[m].1@);
            }
        }
    }
}

/// A filtered word list is inhabited exactly when some word fits the pattern.
proof fn lemma_filter_nonempty(ws: Seq<Seq<char>>, p: Seq<char>)
    ensures
        ws.filter(matches_pred(p)).len() > 0 <==> exists|i: int|
            0 <= i < ws.len() && matches_spec(#[trigger] ws[i], p),
    decreases ws.len(),
{
    reveal(Seq::filter);
    if ws.len() > 0 {
        lemma_filter_nonempty(ws.drop_last(), p);
        if matches_spec(ws[ws.len() - 1], p) {
            assert(matches_pred(p)(ws.last()));
        } else if exists|i: int| 0 <= i < ws.len() && matches_spec(#[trigger] ws[i], p) {
            let i = choose|i: int| 0 <= i < ws.len() && matches_spec(#[trigger] ws[i], p);
            assert(ws.drop_last()[i] == ws[i]);
        }
    }
}

impl Dict {
    /// The shortest candidate list the index offers for this pattern: a
    /// strictly sorted list of word positions that carries every word fitting
    /// the pattern.
    fn get_matching_word_list(&self, pattern: &Vec<char>) -> (r: Vec<usize>)
        requires
            self.wf(),
        ensures
            sorted_strict(r@),
            forall|t: int| 0 <= t < r@.len() ==> (#[trigger] r@[t]) < self.spec_words().len(),
            forall|j: int|
                0 <= j < self.spec_words().len() && matches_spec(
                    #[trigger] self.spec_words()[j],
                    pattern@,
                ) ==> has_index(r@, j),
    {
        let len = pattern.len();
        let mut list = self.get_list(&WordConstraint::Length(len));
        let ghost mut ccur: WcView = WcView::Length(len as int);
        let mut pos: usize = 0;
        let mut i: usize = 0;
        while i < len
            invariant
                self.wf(),
                len == pattern@.len(),
                pos <= i <= len,
                forall|u: int| pos <= u < i && u < len ==> pattern@[u] != BLOCK,
                list@ == lookup_in(self.spec_lists(), ccur),
                indexable(ccur, self.spec_max_n()),
                forall|x: Seq<char>|
                    matches_spec(x, pattern@) ==> #[trigger] constraint_sat(x, ccur),
            decreases len - i,
        {
            if pattern[i] == BLOCK {
                if i > pos {
                    let sl = i - pos;
                    let n = if self.max_n < sl {
                        self.max_n
                    } else {
                        sl
                    };
                    let mut dp: usize = 1;
                    while dp < sl - n
                        invariant
                            self.wf(),
                            len == pattern@.len(),
                            pos + sl == i && i <= len,
                            1 <= n <= sl,
                            n <= self.spec_max_n(),
                            1 <= dp <= sl,
                            forall|u: int| pos <= u < i && u < len ==> pattern@[u] != BLOCK,
                            list@ == lookup_in(self.spec_lists(), ccur),
                            indexable(ccur, self.spec_max_n()),
                            forall|x: Seq<char>|
                                matches_spec(x, pattern@) ==> #[trigger] constraint_sat(x, ccur),
                        decreases sl - n - dp,
                    {
                        let gram = sub_vec(pattern, pos + dp, pos + dp + n);
                        let wc = WordConstraint::with_ngram(gram, pos + dp, len);
                        let nl = self.get_list(&wc);
                        proof {
                            assert forall|x: Seq<char>| matches_spec(x, pattern@) implies
                                #[trigger] constraint_sat(x, wc@) by {
                                assert forall|v: int|
                                    pos + dp <= v < pos + dp + n implies #[trigger] x[v]
                                    == pattern@[v] by {
                                    assert(pattern@[v] != BLOCK);
                                }
                                assert(x.subrange(pos + dp, pos + dp + n) =~= pattern@.subrange(
                                    pos + dp,
                                    pos + dp + n,
                                ));
                            }
                        }
                        if nl.len() < list.len() {
                            list = nl;
                            proof {
                                ccur = wc@;
                            }
                        }
                        dp = dp + 1;
                    }
                }
                pos = i + 1;
            }
            i = i + 1;
        }
        if len > pos {
            let sl = len - pos;
            let n = if self.max_n < sl {
                self.max_n
            } else {
                sl
            };
            let i = len;
                    let mut dp: usize = 1;
                    while dp < sl - n
                        invariant
                            self.wf(),
                            len == pattern@.len(),
                            pos + sl == i && i <= len,
                            1 <= n <= sl,
                            n <= self.spec_max_n(),
                            1 <= dp <= sl,
                            forall|u: int| pos <= u < i && u < len ==> pattern@[u] != BLOCK,
                            list@ == lookup_in(self.spec_lists(), ccur),
                            indexable(ccur, self.spec_max_n()),
                            forall|x: Seq<char>|
                                matches_spec(x, pattern@) ==> #[trigger] constraint_sat(x, ccur),
                        decreases sl - n - dp,
                    {
                        let gram = sub_vec(pattern, pos + dp, pos + dp + n);
                        let wc = WordConstraint::with_ngram(gram, pos + dp, len);
                        let nl = self.get_list(&wc);
                        proof {
                            assert forall|x: Seq<char>| matches_spec(x, pattern@) implies
                                #[trigger] constraint_sat(x, wc@) by {
                                assert forall|v: int|
                                    pos + dp <= v < pos + dp + n implies #[trigger] x[v]
                                    == pattern@[v] by {
                                    assert(pattern@[v] != BLOCK);
                                }
                                assert(x.subrange(pos + dp, pos + dp + n) =~= pattern@.subrange(
                                    pos + dp,
                                    pos + dp + n,
                                ));
                            }
                        }
                        if nl.len() < list.len() {
                            list = nl;
                            proof {
                                ccur = wc@;
                            }
                        }
                        dp = dp + 1;
                    }
        }
        proof {
            lemma_lookup_entry(self.spec_lists(), ccur);
            assert forall|j: int|
                0 <= j < self.spec_words().len() && matches_spec(
                    #[trigger] self.spec_words()[j],
                    pattern@,
                ) implies has_index(list@, j) by {
                assert(constraint_sat(self.spec_words()[j], ccur));
            }
        }
        list
    }

    /// Returns an iterator over all the dictionary's words matching the given
    /// pattern, in the dictionary's (randomized) storage order.
    pub fn matching_words(&self, pattern: Vec<char>) -> (it: PatternIter)
        requires
            self.wf(),
        ensures
            it.wf(),
            it.remaining() == self.spec_words().filter(matches_pred(pattern@)),
    {
        let list = self.get_matching_word_list(&pattern);
        let ghost ws = self.spec_words();
        let ghost p = pattern@;
        let mut items: Vec<Vec<char>> = Vec::new();
        let ghost mut cov: int = 0;
        proof {
            assert(ws.take(0) =~= Seq::<Seq<char>>::empty());
            reveal(Seq::filter);
        }
        let mut t: usize = 0;
        while t < list.len()
            invariant
                self.wf(),
                ws == self.spec_words(),
                p == pattern@,
                sorted_strict(list@),
                forall|u: int| 0 <= u < list@.len() ==> (#[trigger] list@[u]) < ws.len(),
                forall|j: int|
                    0 <= j < ws.len() && matches_spec(#[trigger] ws[j], p) ==> has_index(list@, j),
                t <= list@.len(),
                cov == if t == 0 {
                    0int
                } else {
                    list@[t - 1] + 1
                },
                0 <= cov <= ws.len(),
                items.deep_view() == ws.take(cov).filter(matches_pred(p)),
            decreases list@.len() - t,
        {
            let idx = list[t];
            proof {
                assert(cov <= idx as int);
                // No word between the covered prefix and this candidate fits
                // the pattern: it would have to appear in the sorted list.
                assert forall|j: int| cov <= j < idx as int implies !matches_spec(
                    #[trigger] ws[j],
                    p,
                ) by {
                    if matches_spec(ws[j], p) {
                        let u = choose|u: int| 0 <= u < list@.len() && list@[u] as int == j;
                        if u < t {
                            if t > 0 && u < t - 1 {
                                assert(list@[u] < list@[t - 1]);
                            }
                        } else {
                            if u > t {
                                assert(list@[t as int] < list@[u]);
                            }
                        }
                    }
                }
                lemma_filter_skip(ws, p, cov, idx as int);
            }
            let cand = &self.words[idx];
            proof {
                assert(self.words@[idx as int].deep_view() =~= self.words@[idx as int]@);
            }
            let hit = {
                let mut ok = cand.len() == pattern.len();
                let mut u: usize = 0;
                while ok && u < cand.len()
                    invariant
                        u <= cand@.len(),
                        cand@ == self.words@[idx as int]@,
                        p == pattern@,
                        idx < self.words@.len(),
                        ok ==> cand@.len() == pattern@.len() && forall|v: int|
                            0 <= v < u ==> (pattern@[v] == BLOCK || #[trigger] cand@[v]
                                == pattern@[v]),
                        !ok ==> !matches_spec(cand@, pattern@),
                    decreases cand@.len() - u + (if ok {
                        1int
                    } else {
                        0int
                    }),
                {
                    if pattern[u] != BLOCK && cand[u] != pattern[u] {
                        ok = false;
                    } else {
                        u = u + 1;
                    }
                }
                ok
            };
            let ghost items0 = items.deep_view();
            if hit {
                proof {
                    assert(matches_spec(ws[idx as int], p));
                    lemma_filter_push(ws, p, idx as int);
                }
                let w = cand.clone();
                proof {
                    assert(w@ =~= self.words@[idx as int]@);
                }
                items.push(w);
                proof {
                    assert(items.deep_view() =~~= items0.push(ws[idx as int]));
                }
            } else {
                proof {
                    assert(!matches_spec(ws[idx as int], p));
                    lemma_filter_skip(ws, p, idx as int, idx + 1);
                }
            }
            proof {
                cov = idx + 1;
            }
            t = t + 1;
        }
        proof {
            assert forall|j: int| cov <= j < ws.len() implies !matches_spec(
                #[trigger] ws[j],
                p,
            ) by {
                if matches_spec(ws[j], p) {
                    let u = choose|u: int| 0 <= u < list@.len() && list@[u] as int == j;
                    if list@.len() > 0 && u < list@.len() - 1 {
                        assert(list@[u] < list@[list@.len() - 1]);
                    }
                }
            }
            lemma_filter_skip(ws, p, cov, ws.len() as int);
            assert(ws.take(ws.len() as int) =~= ws);
        }
        let it = PatternIter { items, index: 0 };
        proof {
            assert(it.remaining() =~= it.items.deep_view());
        }
        it
    }

    /// Returns whether some word of the dictionary reads exactly as the given
    /// one (a `BLOCK` in the argument is a wildcard, as in a pattern query).
    pub fn contains(&self, word: &Vec<char>) -> (r: bool)
        requires
            self.wf(),
        ensures
            r == exists|i: int|
                0 <= i < self.spec_words().len() && matches_spec(
                    #[trigger] self.spec_words()[i],
                    word@,
                ),
    {
        let w2 = word.clone();
        proof {
            assert(w2@ =~= word@);
        }
        let mut it = self.matching_words(w2);
        let first = it.next();
        proof {
            lemma_filter_nonempty(self.spec_words(), word@);
        }
        first.is_some()
    }

    /// All the dictionary's words, in their stored (randomized) order.
    pub fn all_words(&self) -> (r: &Vec<Vec<char>>)
        ensures
            r.deep_view() == self.spec_words(),
    {
        &self.words
    }
}

/// The uppercase form of an ASCII lowercase letter; any other character is
/// left alone.
pub open spec fn spec_upper(c: char) -> char {
    match c {
        'a' => 'A',
        'b' => 'B',
        'c' => 'C',
        'd' => 'D',
        'e' => 'E',
        'f' => 'F',
        'g' => 'G',
        'h' => 'H',
        'i' => 'I',
        'j' => 'J',
        'k' => 'K',
        'l' => 'L',
        'm' => 'M',
        'n' => 'N',
        'o' => 'O',
        'p' => 'P',
        'q' => 'Q',
        'r' => 'R',
        's' => 'S',
        't' => 'T',
        'u' => 'U',
        'v' => 'V',
        'w' => 'W',
        'x' => 'X',
        'y' => 'Y',
        'z' => 'Z',
        _ => c,
    }
}

/// Whether a character counts as whitespace for trimming, following the
/// Unicode white-space set that `str::trim` uses.
pub open spec fn is_wspace(c: char) -> bool {
    c == '\u{9}' || c == '\u{a}' || c == '\u{b}' || c == '\u{c}' || c == '\u{d}' || c == ' ' || c
        == '\u{85}' || c == '\u{a0}' || c == '\u{1680}' || c == '\u{2000}' || c == '\u{2001}' || c
        == '\u{2002}' || c == '\u{2003}' || c == '\u{2004}' || c == '\u{2005}' || c == '\u{2006}'
        || c == '\u{2007}' || c == '\u{2008}' || c == '\u{2009}' || c == '\u{200a}' || c
        == '\u{2028}' || c == '\u{2029}' || c == '\u{202f}' || c == '\u{205f}' || c == '\u{3000}'
}

/// Whether a character is an ASCII letter.
pub open spec fn is_ascii_alpha(c: char) -> bool {
    (65 <= c as int <= 90) || (97 <= c as int <= 122)
}

/// What becomes of one character under normalization: umlauts and the sharp s
/// expand to their uppercase digraphs, anything else is uppercased.
pub open spec fn norm_char(c: char) -> Seq<char> {
    if c == 'ä' || c == 'Ä' {
        seq!['A', 'E']
    } else if c == 'ö' || c == 'Ö' {
        seq!['O', 'E']
    } else if c == 'ü' || c == 'Ü' {
        seq!['U', 'E']
    } else if c == 'ß' {
        seq!['S', 'S']
    } else {
        seq![spec_upper(c)]
    }
}

/// The normalization of a whole character sequence.
pub open spec fn norm_seq(s: Seq<char>) -> Seq<char>
    decreases s.len(),
{
    if s.len() == 0 {
        Seq::empty()
    } else {
        norm_seq(s.drop_last()) + norm_char(s.last())
    }
}

/// The sequence with its leading whitespace removed.
pub open spec fn trim_front(s: Seq<char>) -> Seq<char>
    decreases s.len(),
{
    if s.len() > 0 && is_wspace(s.first()) {
        trim_front(s.drop_first())
    } else {
        s
    }
}

/// The sequence with its trailing whitespace removed.
pub open spec fn trim_back(s: Seq<char>) -> Seq<char>
    decreases s.len(),
{
    if s.len() > 0 && is_wspace(s.last()) {
        trim_back(s.drop_last())
    } else {
        s
    }
}

/// What a raw input word becomes in the dictionary: trimmed, uppercased, with
/// umlauts expanded; kept only if at least two characters remain and all of
/// them are ASCII letters.
pub open spec fn normalize_spec(s: Seq<char>) -> Option<Seq<char>> {
    let t = norm_seq(trim_back(trim_front(s)));
    if t.len() >= 2 && (forall|i: int| 0 <= i < t.len() ==> is_ascii_alpha(#[trigger] t[i])) {
        Some(t)
    } else {
        None
    }
}

/// Trimming the front removes exactly the leading run of whitespace.
proof fn lemma_trim_front(s: Seq<char>, a: int)
    requires
        0 <= a <= s.len(),
        forall|u: int| 0 <= u < a ==> is_wspace(#[trigger] s[u]),
        a < s.len() ==> !is_wspace(s[a]),
    ensures
        trim_front(s) == s.skip(a),
    decreases a,
{
    if a == 0 {
        assert(s.skip(0) =~= s);
    } else {
        assert(is_wspace(s.first()));
        lemma_trim_front(s.drop_first(), a - 1);
        assert(s.drop_first().skip(a - 1) =~= s.skip(a));
    }
}

/// Trimming the back removes exactly the trailing run of whitespace.
proof fn lemma_trim_back(s: Seq<char>, b: int)
    requires
        0 <= b <= s.len(),
        forall|u: int| b <= u < s.len() ==> is_wspace(#[trigger] s[u]),
        b > 0 ==> !is_wspace(s[b - 1]),
    ensures
        trim_back(s) == s.take(b),
    decreases s.len() - b,
{
    if b == s.len() {
        assert(s.take(b) =~= s);
    } else {
        assert(is_wspace(s.last()));
        lemma_trim_back(s.drop_last(), b);
        assert(s.drop_last().take(b) =~= s.take(b));
    }
}

/// `spec_upper`, executably.
fn upper_char(c: char) -> (r: char)
    ensures
        r == spec_upper(c),
{
    match c {
        'a' => 'A',
        'b' => 'B',
        'c' => 'C',
        'd' => 'D',
        'e' => 'E',
        'f' => 'F',
        'g' => 'G',
        'h' => 'H',
        'i' => 'I',
        'j' => 'J',
        'k' => 'K',
        'l' => 'L',
        'm' => 'M',
        'n' => 'N',
        'o' => 'O',
        'p' => 'P',
        'q' => 'Q',
        'r' => 'R',
        's' => 'S',
        't' => 'T',
        'u' => 'U',
        'v' => 'V',
        'w' => 'W',
        'x' => 'X',
        'y' => 'Y',
        'z' => 'Z',
        _ => c,
    }
}

/// `is_wspace`, executably.
fn is_wspace_char(c: char) -> (r: bool)
    ensures
        r == is_wspace(c),
{
    c == '\u{9}' || c == '\u{a}' || c == '\u{b}' || c == '\u{c}' || c == '\u{d}' || c == ' ' || c
        == '\u{85}' || c == '\u{a0}' || c == '\u{1680}' || c == '\u{2000}' || c == '\u{2001}' || c
        == '\u{2002}' || c == '\u{2003}' || c == '\u{2004}' || c == '\u{2005}' || c == '\u{2006}'
        || c == '\u{2007}' || c == '\u{2008}' || c == '\u{2009}' || c == '\u{200a}' || c
        == '\u{2028}' || c == '\u{2029}' || c == '\u{202f}' || c == '\u{205f}' || c == '\u{3000}'
}

impl Dict {
    /// Normalizes one raw input word, or drops it.
    fn normalize_word(string_word: &String) -> (r: Option<Vec<char>>)
        ensures
            r is Some <==> normalize_spec(string_word@) is Some,
            r is Some ==> r.unwrap()@ == normalize_spec(string_word@).unwrap(),
    {
        let s = string_word.as_str();
        let n = s.unicode_len();
        let mut cv: Vec<char> = Vec::new();
        let mut i: usize = 0;
        while i < n
            invariant
                n == s@.len(),
                i <= n,
                cv@.len() == i,
                forall|u: int| 0 <= u < i ==> cv@[u] == s@[u],
            decreases n - i,
        {
            cv.push(s.get_char(i));
            i = i + 1;
        }
        proof {
            assert(cv@ =~= s@);
        }
        // Trim whitespace.
        let mut a: usize = 0;
        while a < n && is_wspace_char(cv[a])
            invariant
                n == cv@.len(),
                a <= n,
                forall|u: int| 0 <= u < a ==> is_wspace(#[trigger] cv@[u]),
            decreases n - a,
        {
            a = a + 1;
        }
        let mut b: usize = n;
        while b > a && is_wspace_char(cv[b - 1])
            invariant
                n == cv@.len(),
                a <= b <= n,
                forall|u: int| b <= u < n ==> is_wspace(#[trigger] cv@[u]),
                a < n ==> !is_wspace(cv@[a as int]),
            decreases b,
        {
            b = b - 1;
        }
        let ghost trimmed = cv@.skip(a as int).take(b - a);
        proof {
            lemma_trim_front(cv@, a as int);
            if b == a {
                lemma_trim_back(cv@.skip(a as int), 0);
            } else {
                lemma_trim_back(cv@.skip(a as int), b - a);
            }
            assert(trim_back(trim_front(string_word@)) == trimmed);
        }
        // Uppercase and expand umlauts.
        let mut out: Vec<char> = Vec::new();
        let mut u: usize = a;
        while u < b
            invariant
                n == cv@.len(),
                a <= u <= b <= n,
                trimmed == cv@.skip(a as int).take(b - a),
                out@ == norm_seq(trimmed.take(u - a)),
            decreases b - u,
        {
            let c = cv[u];
            proof {
                assert(trimmed.take(u - a + 1).drop_last() =~= trimmed.take(u - a));
                assert(trimmed.take(u - a + 1).last() == c);
            }
            if c == 'ä' || c == 'Ä' {
                out.push('A');
                out.push('E');
            } else if c == 'ö' || c == 'Ö' {
                out.push('O');
                out.push('E');
            } else if c == 'ü' || c == 'Ü' {
                out.push('U');
                out.push('E');
            } else if c == 'ß' {
                out.push('S');
                out.push('S');
            } else {
                out.push(upper_char(c));
            }
            proof {
                assert(out@ =~= norm_seq(trimmed.take(u - a + 1)));
            }
            u = u + 1;
        }
        proof {
            assert(trimmed.take(b - a) =~= trimmed);
        }
        // Keep the word only if it is two or more ASCII letters.
        if out.len() < 2 {
            return None;
        }
        let mut v: usize = 0;
        while v < out.len()
            invariant
                v <= out@.len(),
                out@ == norm_seq(trim_back(trim_front(string_word@))),
                out@.len() >= 2,
                forall|t: int| 0 <= t < v ==> is_ascii_alpha(#[trigger] out@[t]),
            decreases out@.len() - v,
        {
            let c = out[v];
            if !(('A' <= c && c <= 'Z') || ('a' <= c && c <= 'z')) {
                return None;
            }
            v = v + 1;
        }
        Some(out)
    }

    /// Normalizes the given words and returns them as a duplicate-free list:
    /// umlauts are replaced by their digraphs, everything is uppercased, and
    /// a word survives only if at least two ASCII letters remain.
    pub fn to_cvec_set(string_words: Vec<String>) -> (r: Vec<Vec<char>>)
        ensures
            forall|i: int, j: int|
                0 <= i < j < r.deep_view().len() ==> r.deep_view()[i] != r.deep_view()[j],
            forall|v: Seq<char>|
                #[trigger] r.deep_view().contains(v) <==> exists|j: int|
                    0 <= j < string_words@.len() && #[trigger] normalize_spec(string_words@[j]@)
                        == Some(v),
    {
        let mut r: Vec<Vec<char>> = Vec::new();
        let mut j: usize = 0;
        while j < string_words.len()
            invariant
                j <= string_words@.len(),
                forall|i1: int, i2: int|
                    0 <= i1 < i2 < r.deep_view().len() ==> r.deep_view()[i1] != r.deep_view()[i2],
                forall|v: Seq<char>|
                    #[trigger] r.deep_view().contains(v) <==> exists|u: int|
                        0 <= u < j && #[trigger] normalize_spec(string_words@[u]@) == Some(v),
            decreases string_words@.len() - j,
        {
            let w = Self::normalize_word(&string_words[j]);
            match w {
                Some(nw) => {
                    let mut dup = false;
                    let mut t: usize = 0;
                    while t < r.len()
                        invariant
                            t <= r@.len(),
                            nw@ == normalize_spec(string_words@[j as int]@).unwrap(),
                            dup <==> exists|u: int|
                                0 <= u < t && #[trigger] r.deep_view()[u] == nw@,
                        decreases r@.len() - t,
                    {
                        if crate::grid::vec_char_eq(&r[t], &nw) {
                            proof {
                                assert(r.deep_view()[t as int] =~= nw@);
                            }
                            dup = true;
                        }
                        proof {
                            assert(r@[t as int].deep_view() =~= r@[t as int]@);
                        }
                        t = t + 1;
                    }
                    let ghost r0 = r.deep_view();
                    if !dup {
                        proof {
                            assert(!r.deep_view().contains(nw@));
                        }
                        r.push(nw);
                        proof {
                            assert(r.deep_view() =~~= r0.push(
                                normalize_spec(string_words@[j as int]@).unwrap(),
                            ));
                        }
                    }
                    proof {
                        assert forall|v: Seq<char>| #[trigger]
                            r.deep_view().contains(v) <==> exists|u: int|
                                0 <= u < j + 1 && #[trigger] normalize_spec(string_words@[u]@)
                                    == Some(v) by {
                            if r.deep_view().contains(v) {
                                let t2 = choose|t2: int|
                                    0 <= t2 < r.deep_view().len() && r.deep_view()[t2] == v;
                                if t2 < r0.len() {
                                    assert(r0.contains(v));
                                }
                            }
                            if exists|u: int|
                                0 <= u < j + 1 && #[trigger] normalize_spec(string_words@[u]@)
                                    == Some(v) {
                                let u = choose|u: int|
                                    0 <= u < j + 1 && #[trigger] normalize_spec(string_words@[u]@)
                                        == Some(v);
                                if u < j {
                                    assert(r0.contains(v));
                                    let t2 = choose|t2: int|
                                        0 <= t2 < r0.len() && r0[t2] == v;
                                    assert(r.deep_view()[t2] == v);
                                } else {
                                    assert(v == nw@);
                                    if dup {
                                        let t2 = choose|t2: int|
                                            0 <= t2 < r0.len() && #[trigger] r0[t2] == nw@;
                                        assert(r.deep_view()[t2] == v);
                                    } else {
                                        assert(r.deep_view()[r0.len() as int] == v);
                                    }
                                }
                            }
                        }
                    }
                },
                None => {
                    proof {
                        assert forall|v: Seq<char>| #[trigger]
                            r.deep_view().contains(v) <==> exists|u: int|
                                0 <= u < j + 1 && #[trigger] normalize_spec(string_words@[u]@)
                                    == Some(v) by {
                            if exists|u: int|
                                0 <= u < j + 1 && #[trigger] normalize_spec(string_words@[u]@)
                                    == Some(v) {
                                let u = choose|u: int|
                                    0 <= u < j + 1 && #[trigger] normalize_spec(string_words@[u]@)
                                        == Some(v);
                                assert(u < j);
                            }
                        }
                    }
                },
            }
            j = j + 1;
        }
        r
    }
}

/// Every word handed to the dictionary can be found in it again: its
/// characters stand somewhere in the shuffled word array, so a query for
/// exactly those characters succeeds.
pub proof fn lemma_new_contains_input(d: Dict, input: Seq<Seq<char>>, w: Seq<char>)
    requires
        d.spec_words().to_multiset() == input.to_multiset(),
        input.contains(w),
    ensures
        exists|i: int|
            0 <= i < d.spec_words().len() && matches_spec(#[trigger] d.spec_words()[i], w),
{
    broadcast use vstd::seq_lib::group_to_multiset_ensures;

    assert(input.to_multiset().contains(w));
    assert(d.spec_words().to_multiset().contains(w));
    assert(d.spec_words().contains(w));
    let i = choose|i: int| 0 <= i < d.spec_words().len() && d.spec_words()[i] == w;
    assert(matches_spec(d.spec_words()[i], w));
}

} // verus!
