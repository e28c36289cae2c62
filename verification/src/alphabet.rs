//! The alphabet under construction: its symbols and what is known of their order.

use vstd::prelude::*;
use vstd::seq_lib::lemma_seq_contains_after_push;
use crate::constraints::{
    collect_symbols, constraint_at, constraints, first_difference, symbols, word_views,
};
use crate::order::{
    drained, first_unconstrained_at, lemma_first_unconstrained_unique, lemma_single_symbol,
    lemma_step, lemma_words_well_formed, next_index, prepend, release, stopped, unconstrained,
    well_formed,
};

verus! {

/// Why no order could be given.
#[derive(Debug, Clone, Copy, PartialEq, Eq)]
pub enum AlphabetError {
    /// Symbols are left, and each of them is known to come after another that
    /// is left: the constraints contradict each other.
    Unsatisfiable,
}

/// The symbols that have not left yet, with the constraints among them.
///
/// Both indexes hold one entry per constraint, at the same position: of a
/// constraint "`l` comes before `r`", the first holds `(r, l)` and the second
/// `(l, r)`. A symbol has entries in an index only as long as a constraint
/// names it there, so a symbol without an entry in the first index is one
/// that no symbol is known to precede.
pub struct Alphabet {
    /// each symbol with a symbol known to come before it
    prior_constraints: Vec<(char, char)>,
    /// each symbol with a symbol known to come after it
    latter_constraints: Vec<(char, char)>,
    /// all symbols that are left, in the order of their first appearance
    characters: Vec<char>,
}

/// The two indexes record the same constraints, entry by entry, and each
/// constraint once.
spec fn mirrored(prior: Seq<(char, char)>, latter: Seq<(char, char)>) -> bool {
    &&& prior.len() == latter.len()
    &&& forall|k: int| 0 <= k < latter.len() ==> prior[k] == (#[trigger] latter[k].1, latter[k].0)
    &&& latter.no_duplicates()
}

/// A pair that is not in the list yet can be added without repeating one.
proof fn lemma_push_fresh(pairs: Seq<(char, char)>, e: (char, char))
    requires
        pairs.no_duplicates(),
        !pairs.contains(e),
    ensures
        pairs.push(e).no_duplicates(),
{
    let longer = pairs.push(e);
    assert forall|i: int, j: int| 0 <= i < j < longer.len() implies longer[i] != longer[j] by {
        if j == pairs.len() {
            assert(pairs.contains(pairs[i]));
        }
    }
}

/// Whether the pair `(l, r)` is among `pairs`.
fn holds_pair(pairs: &Vec<(char, char)>, l: char, r: char) -> (found: bool)
    ensures
        found == pairs@.contains((l, r)),
{
    let mut i: usize = 0;
    while i < pairs.len()
        invariant
            i <= pairs.len(),
            forall|j: int| 0 <= j < i ==> pairs@[j] != (l, r),
        decreases pairs.len() - i,
    {
        if pairs[i].0 == l && pairs[i].1 == r {
            assert(pairs@[i as int] == (l, r));
            return true;
        }
        i += 1;
    }
    false
}

/// One of the first `k` pairs of neighbouring words gives the constraint `e`.
spec fn given_before(words: Seq<Seq<char>>, k: int, e: (char, char)) -> bool {
    exists|j: int| 0 <= j < k && #[trigger] constraint_at(words, j) == Some(e)
}

/// The first `k` pairs are the first `k - 1` pairs and the pair after them.
proof fn lemma_given_before(words: Seq<Seq<char>>, k: int, e: (char, char))
    requires
        1 <= k,
    ensures
        given_before(words, k, e) <==> (given_before(words, k - 1, e) || constraint_at(words, k - 1)
            == Some(e)),
{
    if given_before(words, k, e) {
        let j = choose|j: int| 0 <= j < k && #[trigger] constraint_at(words, j) == Some(e);
        if j < k - 1 {
            assert(given_before(words, k - 1, e));
        }
    }
    if given_before(words, k - 1, e) {
        let j = choose|j: int| 0 <= j < k - 1 && #[trigger] constraint_at(words, j) == Some(e);
        assert(0 <= j < k && constraint_at(words, j) == Some(e));
    }
}

impl Alphabet {
    /// The symbols that are left, in the order of their first appearance.
    pub closed spec fn symbols(&self) -> Seq<char> {
        self.characters@
    }

    /// The constraints that are left: `(l, r)` says that `l` comes before `r`.
    pub closed spec fn constraints(&self) -> Set<(char, char)> {
        self.latter_constraints@.to_set()
    }

    /// The two indexes agree with each other.
    pub closed spec fn indexes_agree(&self) -> bool {
        mirrored(self.prior_constraints@, self.latter_constraints@)
    }

    /// The symbols are distinct, every constraint relates two different
    /// symbols that are left, and the two indexes agree.
    pub open spec fn wf(&self) -> bool {
        &&& well_formed(self.symbols(), self.constraints())
        &&& self.indexes_agree()
    }

    /// Builds the alphabet of a sorted word list. There is none where the
    /// words hold no symbol.
    pub fn new(words: &[&str]) -> (r: Option<Alphabet>)
        ensures
            match r {
                Some(alphabet) => {
                    &&& symbols(word_views(words@)).len() > 0
                    &&& alphabet.wf()
                    &&& alphabet.symbols() == symbols(word_views(words@))
                    &&& alphabet.constraints() == constraints(word_views(words@))
                },
                None => symbols(word_views(words@)).len() == 0,
            },
    {
        let characters = collect_symbols(words);
        if characters.len() == 0 {
            None
        } else {
            Some(Alphabet::new_unchecked(words, characters))
        }
    }

    /// Records the constraint of every pair of neighbouring words, for symbols
    /// that were collected from the same words.
    fn new_unchecked(words: &[&str], characters: Vec<char>) -> (r: Alphabet)
        requires
            characters@ == symbols(word_views(words@)),
        ensures
            r.wf(),
            r.symbols() == characters@,
            r.constraints() == constraints(word_views(words@)),
    {
        let ghost all = word_views(words@);
        let mut latter_constraints: Vec<(char, char)> = Vec::new();
        let mut prior_constraints: Vec<(char, char)> = Vec::new();
        let n: usize = words.len();
        let mut k: usize = 1;
        while k < n
            invariant
                1 <= k,
                k == 1 || k <= n,
                n == words.len(),
                all == word_views(words@),
                mirrored(prior_constraints@, latter_constraints@),
                forall|e: (char, char)| #[trigger]
                    latter_constraints@.contains(e) <==> given_before(all, k - 1, e),
            decreases n - k,
        {
            let found = first_difference(words[k - 1], words[k]);
            assert(found == constraint_at(all, k - 1));
            proof {
                assert forall|e: (char, char)|
                    given_before(all, k as int, e) <==> (given_before(all, k - 1, e) || found
                        == Some(e)) by {
                    lemma_given_before(all, k as int, e);
                }
            }
            let ghost before = latter_constraints@;
            match found {
                Some((l, r)) => {
                    // a constraint that several pairs give is recorded once
                    if !holds_pair(&latter_constraints, l, r) {
                        proof {
                            lemma_push_fresh(before, (l, r));
                        }
                        latter_constraints.push((l, r));
                        prior_constraints.push((r, l));
                    }
                },
                None => {},
            }
            assert forall|e: (char, char)| #[trigger]
                latter_constraints@.contains(e) <==> given_before(all, k as int, e) by {
                assert(before.contains(e) <==> given_before(all, k - 1, e));
                if latter_constraints@.len() > before.len() {
                    lemma_seq_contains_after_push(before, found->0, e);
                }
            }
            k += 1;
        }
        let alphabet = Alphabet { prior_constraints, latter_constraints, characters };
        proof {
            assert forall|e: (char, char)|
                alphabet.constraints().contains(e) <==> constraints(all).contains(e) by {
                assert(alphabet.constraints().contains(e) <==> given_before(all, k - 1, e));
                if given_before(all, k - 1, e) {
                    let j = choose|j: int| 0 <= j < k - 1 && #[trigger] constraint_at(all, j) == Some(e);
                    assert(0 <= j < all.len() - 1 && constraint_at(all, j) == Some(e));
                }
                if constraints(all).contains(e) {
                    let j = choose|j: int|
                        0 <= j < all.len() - 1 && #[trigger] constraint_at(all, j) == Some(e);
                    assert(0 <= j < k - 1 && constraint_at(all, j) == Some(e));
                }
            }
            assert(alphabet.constraints() =~= constraints(all));
            lemma_words_well_formed(all);
        }
        alphabet
    }

    /// Whether some symbol that is left is known to come before `c`.
    fn has_prior(&self, c: char) -> (r: bool)
        requires
            self.indexes_agree(),
        ensures
            r == !unconstrained(self.constraints(), c),
    {
        let mut k: usize = 0;
        while k < self.prior_constraints.len()
            invariant
                k <= self.prior_constraints.len(),
                self.indexes_agree(),
                forall|j: int| 0 <= j < k ==> self.prior_constraints@[j].0 != c,
            decreases self.prior_constraints.len() - k,
        {
            if self.prior_constraints[k].0 == c {
                proof {
                    let e = self.latter_constraints@[k as int];
                    assert(e.1 == c);
                    assert(self.latter_constraints@.contains(e));
                    assert(self.constraints().contains((e.0, c)));
                }
                return true;
            }
            k += 1;
        }
        proof {
            assert forall|l: char| !self.constraints().contains((l, c)) by {
                if self.latter_constraints@.contains((l, c)) {
                    let j = choose|j: int|
                        0 <= j < self.latter_constraints@.len() && self.latter_constraints@[j] == (
                            l,
                            c,
                        );
                    assert(self.latter_constraints@[j].1 == c);
                    assert(self.prior_constraints@[j].0 == c);
                }
            }
        }
        false
    }

    /// Searches the symbols that are left for the first that no other is
    /// known to precede.
    fn find_unconstrained(&self) -> (r: Option<usize>)
        requires
            self.indexes_agree(),
        ensures
            match r {
                Some(i) => first_unconstrained_at(self.symbols(), self.constraints(), i as int),
                None => forall|i: int| !first_unconstrained_at(self.symbols(), self.constraints(), i),
            },
    {
        let mut i: usize = 0;
        while i < self.characters.len()
            invariant
                i <= self.characters.len(),
                self.indexes_agree(),
                forall|j: int|
                    0 <= j < i ==> !unconstrained(self.constraints(), #[trigger] self.characters@[j]),
            decreases self.characters.len() - i,
        {
            if !self.has_prior(self.characters[i]) {
                return Some(i);
            }
            i += 1;
        }
        None
    }

    /// Drops from both indexes every constraint that says that `c` comes
    /// before another symbol.
    fn remove_constraints_of(&mut self, c: char)
        requires
            old(self).indexes_agree(),
        ensures
            final(self).indexes_agree(),
            final(self).symbols() == old(self).symbols(),
            final(self).constraints() == release(old(self).constraints(), c),
    {
        let ghost source = self.latter_constraints@;
        let mut latter: Vec<(char, char)> = Vec::new();
        let mut prior: Vec<(char, char)> = Vec::new();
        let mut k: usize = 0;
        assert(source.take(0) =~= Seq::<(char, char)>::empty());
        while k < self.latter_constraints.len()
            invariant
                k <= self.latter_constraints.len(),
                source == self.latter_constraints@,
                self.indexes_agree(),
                mirrored(prior@, latter@),
                forall|x: (char, char)| #[trigger]
                    latter@.contains(x) <==> (x.0 != c && source.take(k as int).contains(x)),
            decreases self.latter_constraints.len() - k,
        {
            let ghost before = latter@;
            let e = self.latter_constraints[k];
            assert(source.take(k + 1) =~= source.take(k as int).push(e));
            if e.0 != c {
                proof {
                    if before.contains(e) {
                        let j = choose|j: int| 0 <= j < k && source.take(k as int)[j] == e;
                        assert(source[j] == source[k as int]);
                    }
                    lemma_push_fresh(before, e);
                }
                latter.push(e);
                prior.push(self.prior_constraints[k]);
            }
            assert forall|x: (char, char)| #[trigger]
                latter@.contains(x) <==> (x.0 != c && source.take(k + 1).contains(x)) by {
                assert(before.contains(x) <==> (x.0 != c && source.take(k as int).contains(x)));
                lemma_seq_contains_after_push(source.take(k as int), e, x);
                if e.0 != c {
                    lemma_seq_contains_after_push(before, e, x);
                }
            }
            k += 1;
        }
        proof {
            assert(source.take(k as int) =~= source);
            assert(latter@.to_set() =~= release(self.constraints(), c));
        }
        self.latter_constraints = latter;
        self.prior_constraints = prior;
    }

    /// Takes the next symbol out of the alphabet: the only symbol where one is
    /// left, else the first that no other is known to precede. `Ok(None)` says
    /// that no symbol was left. Where symbols are left and each is known to
    /// come after another, the call fails and leaves the alphabet as it was.
    pub fn next(&mut self) -> (r: Result<Option<char>, AlphabetError>)
        requires
            old(self).wf(),
        ensures
            final(self).wf(),
            match r {
                Ok(None) => {
                    &&& old(self).symbols().len() == 0
                    &&& final(self).symbols() == old(self).symbols()
                    &&& final(self).constraints() == old(self).constraints()
                },
                Ok(Some(c)) => {
                    &&& next_index(old(self).symbols(), old(self).constraints()) matches Some(i)
                    &&& 0 <= i < old(self).symbols().len()
                    &&& c == old(self).symbols()[i]
                    &&& final(self).symbols() == old(self).symbols().remove(i)
                    &&& final(self).constraints() == release(old(self).constraints(), c)
                },
                Err(_) => {
                    &&& old(self).symbols().len() > 0
                    &&& next_index(old(self).symbols(), old(self).constraints()) is None
                    &&& final(self).symbols() == old(self).symbols()
                    &&& final(self).constraints() == old(self).constraints()
                },
            },
    {
        let ghost syms = self.symbols();
        let ghost edges = self.constraints();
        let n: usize = self.characters.len();
        if n == 0 {
            return Ok(None);
        }
        if n == 1 {
            // the last symbol: there is nothing left that it could come after
            proof {
                lemma_single_symbol(syms, edges);
                lemma_step(syms, edges);
            }
            let c = self.characters.remove(0);
            return Ok(Some(c));
        }
        match self.find_unconstrained() {
            None => Err(AlphabetError::Unsatisfiable),
            Some(i) => {
                proof {
                    let chosen = choose|w: int| first_unconstrained_at(syms, edges, w);
                    lemma_first_unconstrained_unique(syms, edges, i as int, chosen);
                    lemma_step(syms, edges);
                }
                let c = self.characters.remove(i);
                self.remove_constraints_of(c);
                Ok(Some(c))
            },
        }
    }

    /// How many symbols are left, as the least and the greatest number of
    /// symbols that draining will still give.
    pub fn size_hint(&self) -> (r: (usize, Option<usize>))
        ensures
            r.0 == self.symbols().len(),
            r.1 == Some(r.0),
    {
        (self.characters.len(), Some(self.characters.len()))
    }

    /// Takes every symbol out of the alphabet, smallest first, and returns
    /// them in that order. Where the constraints contradict each other the
    /// call fails, and the alphabet is left where no symbol could be taken.
    pub fn drain(&mut self) -> (r: Result<Vec<char>, AlphabetError>)
        requires
            old(self).wf(),
        ensures
            final(self).wf(),
            (final(self).symbols(), final(self).constraints()) == stopped(
                old(self).symbols(),
                old(self).constraints(),
            ),
            match r {
                Ok(order) => {
                    &&& drained(old(self).symbols(), old(self).constraints()) == Some(order@)
                    &&& final(self).symbols().len() == 0
                },
                Err(_) => {
                    &&& drained(old(self).symbols(), old(self).constraints()) is None
                    &&& final(self).symbols().len() > 0
                    &&& next_index(final(self).symbols(), final(self).constraints()) is None
                },
            },
    {
        let ghost start = drained(self.symbols(), self.constraints());
        let mut order: Vec<char> = Vec::new();
        assert(Seq::<char>::empty() + Seq::<char>::empty() =~= Seq::<char>::empty());
        loop
            invariant
                self.wf(),
                start == drained(old(self).symbols(), old(self).constraints()),
                start == prepend(order@, drained(self.symbols(), self.constraints())),
                stopped(old(self).symbols(), old(self).constraints()) == stopped(
                    self.symbols(),
                    self.constraints(),
                ),
            decreases self.symbols().len(),
        {
            let ghost syms = self.symbols();
            let ghost edges = self.constraints();
            let ghost so_far = order@;
            match self.next() {
                Ok(None) => {
                    assert(so_far + Seq::<char>::empty() =~= so_far);
                    return Ok(order);
                },
                Ok(Some(c)) => {
                    order.push(c);
                    proof {
                        let rest = drained(self.symbols(), self.constraints());
                        assert(drained(syms, edges) == prepend(seq![c], rest));
                        if rest is Some {
                            assert(so_far + (seq![c] + rest->0) =~= so_far.push(c) + rest->0);
                        }
                    }
                },
                Err(e) => {
                    return Err(e);
                },
            }
        }
    }
}

} // verus!
