//! From words to the symbols they hold and the constraints they give.

use vstd::prelude::*;
use vstd::std_specs::iter::IteratorSpec;
use vstd::string::*;

verus! {

/// The words of a list, each as its sequence of symbols.
pub open spec fn word_views(words: Seq<&str>) -> Seq<Seq<char>> {
    Seq::new(words.len(), |i: int| words[i]@)
}

/// `i` is the first position at which `left` and `right` hold different symbols.
pub open spec fn differ_first_at(left: Seq<char>, right: Seq<char>, i: int) -> bool {
    &&& 0 <= i < left.len()
    &&& i < right.len()
    &&& left[i] != right[i]
    &&& forall|j: int| 0 <= j < i ==> left[j] == right[j]
}

/// The constraint that a pair of neighbouring words gives: the two symbols at
/// the first position where the words differ, the left word's symbol first.
/// A pair that agrees up to the end of the shorter word gives none.
pub open spec fn pair_constraint(left: Seq<char>, right: Seq<char>) -> Option<(char, char)> {
    if exists|i: int| differ_first_at(left, right, i) {
        let i = choose|i: int| differ_first_at(left, right, i);
        Some((left[i], right[i]))
    } else {
        None
    }
}

/// The constraint given by the words at positions `k` and `k + 1`.
pub open spec fn constraint_at(words: Seq<Seq<char>>, k: int) -> Option<(char, char)> {
    pair_constraint(words[k], words[k + 1])
}

/// All constraints of a word list: `(l, r)` is in the set when some pair of
/// neighbouring words says that `l` comes before `r`.
pub open spec fn constraints(words: Seq<Seq<char>>) -> Set<(char, char)> {
    Set::new(
        |e: (char, char)|
            exists|k: int| 0 <= k < words.len() - 1 && #[trigger] constraint_at(words, k) == Some(e),
    )
}

/// `c` stands somewhere in one of the words.
pub open spec fn occurs(words: Seq<Seq<char>>, c: char) -> bool {
    exists|w: int, i: int| 0 <= w < words.len() && 0 <= i < words[w].len() && words[w][i] == c
}

/// The words written one after the other.
pub open spec fn concat(words: Seq<Seq<char>>) -> Seq<char>
    decreases words.len(),
{
    if words.len() == 0 {
        Seq::empty()
    } else {
        concat(words.drop_last()) + words.last()
    }
}

/// The symbols of `s` in the order in which each appears first.
pub open spec fn first_occurrences(s: Seq<char>) -> Seq<char>
    decreases s.len(),
{
    if s.len() == 0 {
        Seq::empty()
    } else {
        let before = first_occurrences(s.drop_last());
        if before.contains(s.last()) {
            before
        } else {
            before.push(s.last())
        }
    }
}

/// The distinct symbols of a word list, in the order of their first appearance.
pub open spec fn symbols(words: Seq<Seq<char>>) -> Seq<char> {
    first_occurrences(concat(words))
}

/// At most one position is the first at which two words differ.
pub proof fn lemma_differ_first_unique(left: Seq<char>, right: Seq<char>, i: int, j: int)
    requires
        differ_first_at(left, right, i),
        differ_first_at(left, right, j),
    ensures
        i == j,
{
    if i < j {
        assert(left[i] == right[i]);
    }
    if j < i {
        assert(left[j] == right[j]);
    }
}

/// The first occurrences of a sequence hold each of its symbols once.
pub proof fn lemma_first_occurrences(s: Seq<char>)
    ensures
        first_occurrences(s).no_duplicates(),
        forall|c: char| first_occurrences(s).contains(c) <==> s.contains(c),
    decreases s.len(),
{
    broadcast use vstd::seq_lib::lemma_seq_contains_after_push;

    if s.len() > 0 {
        let rest = s.drop_last();
        let before = first_occurrences(rest);
        lemma_first_occurrences(rest);
        assert(s =~= rest.push(s.last()));
        assert forall|c: char| first_occurrences(s).contains(c) <==> s.contains(c) by {
            assert(s.contains(c) <==> (rest.contains(c) || c == s.last()));
        }
    }
}

/// A symbol stands in the concatenation of the words exactly when it occurs
/// in one of them.
pub proof fn lemma_concat_contains(words: Seq<Seq<char>>, c: char)
    ensures
        concat(words).contains(c) <==> occurs(words, c),
    decreases words.len(),
{
    broadcast use vstd::seq_lib::lemma_seq_concat_contains_all_elements;

    if words.len() > 0 {
        let rest = words.drop_last();
        lemma_concat_contains(rest, c);
        if occurs(rest, c) {
            let (w, i) = choose|w: int, i: int|
                0 <= w < rest.len() && 0 <= i < rest[w].len() && rest[w][i] == c;
            assert(words[w][i] == c);
        }
        if words.last().contains(c) {
            let i = choose|i: int| 0 <= i < words.last().len() && words.last()[i] == c;
            assert(words[words.len() - 1][i] == c);
        }
        if occurs(words, c) {
            let (w, i) = choose|w: int, i: int|
                0 <= w < words.len() && 0 <= i < words[w].len() && words[w][i] == c;
            if w < rest.len() {
                assert(rest[w][i] == c);
            } else {
                assert(words.last()[i] == c);
            }
        }
    }
}

/// The symbols of a word list are distinct, and they are the symbols that
/// occur in its words: none is left out and none is added. So there are no
/// symbols exactly where nothing occurs in the words.
pub proof fn lemma_symbols(words: Seq<Seq<char>>)
    ensures
        symbols(words).no_duplicates(),
        forall|c: char| symbols(words).contains(c) <==> occurs(words, c),
        symbols(words).len() == 0 <==> forall|c: char| !occurs(words, c),
{
    lemma_first_occurrences(concat(words));
    assert forall|c: char| symbols(words).contains(c) <==> occurs(words, c) by {
        lemma_concat_contains(words, c);
    }
    if symbols(words).len() > 0 {
        assert(symbols(words).contains(symbols(words)[0]));
        assert(occurs(words, symbols(words)[0]));
    }
}

/// A constraint relates two different symbols, both of which occur in the words.
pub proof fn lemma_constraint_symbols(words: Seq<Seq<char>>, l: char, r: char)
    requires
        constraints(words).contains((l, r)),
    ensures
        l != r,
        symbols(words).contains(l),
        symbols(words).contains(r),
{
    let k = choose|k: int| 0 <= k < words.len() - 1 && #[trigger] constraint_at(words, k) == Some((l, r));
    let left = words[k];
    let right = words[k + 1];
    let i = choose|i: int| differ_first_at(left, right, i);
    assert(words[k][i] == l);
    assert(words[k + 1][i] == r);
    assert(occurs(words, l));
    assert(occurs(words, r));
    lemma_symbols(words);
}

/// Finds the constraint that a pair of neighbouring words gives: walks both
/// words symbol by symbol and stops where they differ or one of them ends.
pub fn first_difference(left: &str, right: &str) -> (r: Option<(char, char)>)
    ensures
        r == pair_constraint(left@, right@),
{
    let mut lefts = left.chars();
    let mut rights = right.chars();
    let ghost mut i: int = 0;
    loop
        invariant
            0 <= i <= left@.len(),
            i <= right@.len(),
            lefts.obeys_prophetic_iter_laws(),
            rights.obeys_prophetic_iter_laws(),
            lefts.remaining() == left@.skip(i),
            rights.remaining() == right@.skip(i),
            forall|j: int| 0 <= j < i ==> left@[j] == right@[j],
        decreases left@.len() - i,
    {
        let (l, r) = match (lefts.next(), rights.next()) {
            (Some(l), Some(r)) => (l, r),
            _ => {
                proof {
                    // one of the words has ended at position i
                    assert(i == left@.len() || i == right@.len());
                    assert forall|k: int| !differ_first_at(left@, right@, k) by {
                        if differ_first_at(left@, right@, k) {
                            assert(left@[k] == right@[k]);
                        }
                    }
                }
                return None;
            },
        };
        assert(l == left@[i] && r == right@[i]);
        if l != r {
            proof {
                assert(differ_first_at(left@, right@, i));
                let other = choose|k: int| differ_first_at(left@, right@, k);
                lemma_differ_first_unique(left@, right@, i, other);
            }
            return Some((l, r));
        }
        proof {
            assert(left@.skip(i).drop_first() =~= left@.skip(i + 1));
            assert(right@.skip(i).drop_first() =~= right@.skip(i + 1));
            i = i + 1;
        }
    }
}

/// Whether `c` is among `symbols`.
pub fn contains_symbol(symbols: &Vec<char>, c: char) -> (r: bool)
    ensures
        r == symbols@.contains(c),
{
    let mut i: usize = 0;
    while i < symbols.len()
        invariant
            i <= symbols.len(),
            forall|j: int| 0 <= j < i ==> symbols@[j] != c,
        decreases symbols.len() - i,
    {
        if symbols[i] == c {
            return true;
        }
        i += 1;
    }
    false
}

/// Collects the distinct symbols of the words, in the order of their first
/// appearance.
pub fn collect_symbols(words: &[&str]) -> (r: Vec<char>)
    ensures
        r@ == symbols(word_views(words@)),
{
    let ghost all = word_views(words@);
    let mut out: Vec<char> = Vec::new();
    let mut i: usize = 0;
    assert(all.take(0) =~= Seq::<Seq<char>>::empty());
    while i < words.len()
        invariant
            i <= words.len(),
            all == word_views(words@),
            out@ == symbols(all.take(i as int)),
        decreases words.len() - i,
    {
        let word = words[i];
        let ghost before = concat(all.take(i as int));
        let mut chars = word.chars();
        let ghost mut j: int = 0;
        assert(before + word@.take(0) =~= before);
        loop
            invariant
                0 <= j <= word@.len(),
                chars.obeys_prophetic_iter_laws(),
                chars.remaining() == word@.skip(j),
                out@ == first_occurrences(before + word@.take(j)),
            ensures
                j == word@.len(),
            decreases word@.len() - j,
        {
            let c = match chars.next() {
                Some(c) => c,
                None => {
                    break ;
                },
            };
            proof {
                let longer = before + word@.take(j + 1);
                assert(c == word@[j]);
                assert(longer.drop_last() =~= before + word@.take(j));
                assert(longer.last() == c);
                assert(word@.skip(j).drop_first() =~= word@.skip(j + 1));
            }
            if !contains_symbol(&out, c) {
                out.push(c);
            }
            proof {
                j = j + 1;
            }
        }
        proof {
            assert(word@.take(j) =~= word@);
            let next = all.take(i + 1);
            assert(next.drop_last() =~= all.take(i as int));
            assert(next.last() == word@);
        }
        i += 1;
    }
    assert(all.take(words@.len() as int) =~= all);
    out
}

} // verus!
