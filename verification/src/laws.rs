//! What holds of the alphabet order of every word list.

use vstd::prelude::*;
use crate::constraints::{
    concat, constraint_at, constraints, differ_first_at, first_occurrences, lemma_concat_contains,
    lemma_first_occurrences, lemma_symbols, occurs, pair_constraint, symbols,
};
use crate::order::{
    alphabet_order, comes_before, drained, lemma_drained_complete, lemma_drained_sound,
    lemma_words_well_formed, respects,
};

verus! {

/// `order` holds each symbol that occurs in the words once, and no other
/// symbol, and puts the two symbols of every constraint of the words in the
/// order that the constraint asks for.
pub open spec fn consistent(order: Seq<char>, words: Seq<Seq<char>>) -> bool {
    &&& order.no_duplicates()
    &&& forall|c: char| order.contains(c) <==> occurs(words, c)
    &&& forall|l: char, r: char| #[trigger]
        constraints(words).contains((l, r)) ==> comes_before(order, l, r)
}

/// The alphabet order holds each symbol that occurs in the words exactly
/// once: none twice, none left out, none added.
pub proof fn lemma_order_holds_each_symbol_once(words: Seq<Seq<char>>)
    requires
        alphabet_order(words) is Some,
    ensures
        alphabet_order(words)->0.no_duplicates(),
        forall|c: char| alphabet_order(words)->0.contains(c) <==> occurs(words, c),
{
    lemma_words_well_formed(words);
    lemma_symbols(words);
    lemma_drained_sound(symbols(words), constraints(words));
}

/// The set of the symbols that occur in the words.
pub open spec fn symbol_set(words: Seq<Seq<char>>) -> Set<char> {
    Set::new(|c: char| occurs(words, c))
}

/// The symbols of the words are finitely many, and the alphabet order holds
/// as many symbols as there are different symbols in the words.
pub proof fn lemma_order_length(words: Seq<Seq<char>>)
    requires
        alphabet_order(words) is Some,
    ensures
        symbol_set(words).finite(),
        alphabet_order(words)->0.len() == symbol_set(words).len(),
        alphabet_order(words)->0.len() == symbols(words).len(),
{
    lemma_words_well_formed(words);
    lemma_drained_sound(symbols(words), constraints(words));
    lemma_symbols(words);
    symbols(words).unique_seq_to_set();
    assert(symbols(words).to_set() =~= symbol_set(words));
}

/// Words without a symbol, and so the empty word list, have the empty order.
pub proof fn lemma_no_symbols_empty_order(words: Seq<Seq<char>>)
    requires
        forall|c: char| !occurs(words, c),
    ensures
        alphabet_order(words) == Some(Seq::<char>::empty()),
{
    lemma_symbols(words);
    assert(symbols(words).len() == 0);
}

/// A symbol that a pair of neighbouring words puts before another stands
/// before it in the alphabet order.
pub proof fn lemma_order_respects_constraints(words: Seq<Seq<char>>, k: int, l: char, r: char)
    requires
        alphabet_order(words) is Some,
        0 <= k < words.len() - 1,
        constraint_at(words, k) == Some((l, r)),
    ensures
        comes_before(alphabet_order(words)->0, l, r),
{
    lemma_words_well_formed(words);
    lemma_drained_sound(symbols(words), constraints(words));
    assert(constraints(words).contains((l, r)));
}

/// In a sequence without duplicates, standing before is transitive.
pub proof fn lemma_comes_before_transitive(order: Seq<char>, x: char, y: char, z: char)
    requires
        order.no_duplicates(),
        comes_before(order, x, y),
        comes_before(order, y, z),
    ensures
        comes_before(order, x, z),
{
    let (a, b) = choose|a: int, b: int| 0 <= a < b < order.len() && order[a] == x && order[b] == y;
    let (c, d) = choose|c: int, d: int| 0 <= c < d < order.len() && order[c] == y && order[d] == z;
    assert(b == c);
    assert(0 <= a < d < order.len() && order[a] == x && order[d] == z);
}

/// Where three words in a row put `x` before `y` and `y` before `z`, the
/// alphabet order puts `x` before `y`, `y` before `z`, and so `x` before `z`.
pub proof fn lemma_order_respects_chain(words: Seq<Seq<char>>, k: int, x: char, y: char, z: char)
    requires
        alphabet_order(words) is Some,
        0 <= k < words.len() - 2,
        constraint_at(words, k) == Some((x, y)),
        constraint_at(words, k + 1) == Some((y, z)),
    ensures
        comes_before(alphabet_order(words)->0, x, y),
        comes_before(alphabet_order(words)->0, y, z),
        comes_before(alphabet_order(words)->0, x, z),
{
    lemma_order_respects_constraints(words, k, x, y);
    lemma_order_respects_constraints(words, k + 1, y, z);
    lemma_order_holds_each_symbol_once(words);
    lemma_comes_before_transitive(alphabet_order(words)->0, x, y, z);
}

/// The alphabet order, where there is one, is consistent with the words.
pub proof fn lemma_order_consistent(words: Seq<Seq<char>>)
    requires
        alphabet_order(words) is Some,
    ensures
        consistent(alphabet_order(words)->0, words),
{
    lemma_words_well_formed(words);
    lemma_symbols(words);
    lemma_drained_sound(symbols(words), constraints(words));
}

/// Where any order at all is consistent with the words, there is an alphabet
/// order: the only word lists without one are those whose constraints
/// contradict each other.
pub proof fn lemma_consistent_words_have_order(words: Seq<Seq<char>>, order: Seq<char>)
    requires
        consistent(order, words),
    ensures
        alphabet_order(words) is Some,
{
    lemma_words_well_formed(words);
    lemma_symbols(words);
    assert(respects(order, symbols(words), constraints(words)));
    lemma_drained_complete(order, symbols(words), constraints(words));
}

/// Appending a word adds the constraint that it gives with the last word, if
/// it gives one, and no other.
pub proof fn lemma_constraints_push(words: Seq<Seq<char>>, word: Seq<char>)
    requires
        words.len() > 0,
    ensures
        constraints(words.push(word)) == match pair_constraint(words.last(), word) {
            Some(e) => constraints(words).insert(e),
            None => constraints(words),
        },
{
    let longer = words.push(word);
    let n = words.len() as int;
    let wanted = match pair_constraint(words.last(), word) {
        Some(e) => constraints(words).insert(e),
        None => constraints(words),
    };
    assert forall|k: int| 0 <= k < n - 1 implies #[trigger] constraint_at(longer, k)
        == constraint_at(words, k) by {
        assert(longer[k] == words[k]);
        assert(longer[k + 1] == words[k + 1]);
    }
    assert(constraint_at(longer, n - 1) == pair_constraint(words.last(), word)) by {
        assert(longer[n - 1] == words.last());
        assert(longer[n - 1 + 1] == word);
    }
    assert forall|e: (char, char)| constraints(longer).contains(e) <==> wanted.contains(e) by {
        if constraints(longer).contains(e) {
            let k = choose|k: int| 0 <= k < longer.len() - 1 && #[trigger] constraint_at(longer, k) == Some(e);
            if k < n - 1 {
                assert(constraint_at(words, k) == Some(e));
            }
        }
        if constraints(words).contains(e) {
            let k = choose|k: int| 0 <= k < words.len() - 1 && #[trigger] constraint_at(words, k) == Some(e);
            assert(0 <= k < longer.len() - 1 && constraint_at(longer, k) == Some(e));
        }
        if pair_constraint(words.last(), word) == Some(e) {
            assert(0 <= n - 1 < longer.len() - 1 && constraint_at(longer, n - 1) == Some(e));
        }
    }
    assert(constraints(longer) =~= wanted);
}

/// Symbols that are known already are no first occurrences.
proof fn lemma_first_occurrences_known(s: Seq<char>, more: Seq<char>)
    requires
        forall|i: int| 0 <= i < more.len() ==> s.contains(#[trigger] more[i]),
    ensures
        first_occurrences(s + more) == first_occurrences(s),
    decreases more.len(),
{
    if more.len() == 0 {
        assert(s + more =~= s);
    } else {
        let shorter = more.drop_last();
        assert forall|i: int| 0 <= i < shorter.len() implies s.contains(#[trigger] shorter[i]) by {
            assert(shorter[i] == more[i]);
        }
        lemma_first_occurrences_known(s, shorter);
        assert((s + more).drop_last() =~= s + shorter);
        assert((s + more).last() == more.last());
        assert(s.contains(more[more.len() - 1]));
        lemma_first_occurrences(s);
    }
}

/// Appending a word whose symbols all occur in the words before it leaves
/// the symbols as they are.
pub proof fn lemma_symbols_push_known(words: Seq<Seq<char>>, word: Seq<char>)
    requires
        forall|i: int| 0 <= i < word.len() ==> occurs(words, #[trigger] word[i]),
    ensures
        symbols(words.push(word)) == symbols(words),
{
    let longer = words.push(word);
    assert(longer.drop_last() =~= words);
    assert(longer.last() == word);
    assert forall|i: int| 0 <= i < word.len() implies concat(words).contains(#[trigger] word[i]) by {
        lemma_concat_contains(words, word[i]);
    }
    lemma_first_occurrences_known(concat(words), word);
}

/// Evidence that is given twice counts once: a further word that holds no new
/// symbol, and gives with the last word a constraint that the words gave
/// already, leaves the alphabet order as it is.
pub proof fn lemma_repeated_evidence(words: Seq<Seq<char>>, word: Seq<char>)
    requires
        words.len() > 0,
        forall|i: int| 0 <= i < word.len() ==> occurs(words, #[trigger] word[i]),
        pair_constraint(words.last(), word) is Some,
        constraints(words).contains(pair_constraint(words.last(), word)->0),
    ensures
        alphabet_order(words.push(word)) == alphabet_order(words),
{
    lemma_constraints_push(words, word);
    lemma_symbols_push_known(words, word);
    assert(constraints(words).insert(pair_constraint(words.last(), word)->0) =~= constraints(words));
}

/// The alphabet order depends on the words through their symbols and the set
/// of their constraints alone, however often a constraint is given.
pub proof fn lemma_same_evidence_same_order(first: Seq<Seq<char>>, second: Seq<Seq<char>>)
    requires
        symbols(first) == symbols(second),
        forall|e: (char, char)| constraints(first).contains(e) <==> constraints(second).contains(e),
    ensures
        alphabet_order(first) == alphabet_order(second),
{
    assert(constraints(first) =~= constraints(second));
}

/// Two words of which one is a prefix of the other, equal words among them,
/// give no constraint.
pub proof fn lemma_prefix_pair_gives_no_constraint(left: Seq<char>, right: Seq<char>)
    requires
        left.is_prefix_of(right) || right.is_prefix_of(left),
    ensures
        pair_constraint(left, right) is None,
{
    assert forall|i: int| !differ_first_at(left, right, i) by {
        if differ_first_at(left, right, i) {
            if left.is_prefix_of(right) {
                assert(left[i] == right.subrange(0, left.len() as int)[i]);
            } else {
                assert(right[i] == left.subrange(0, right.len() as int)[i]);
            }
        }
    }
}

/// Two neighbouring words of which one is a prefix of the other add nothing
/// to the constraints of a word list: every constraint comes from another pair.
pub proof fn lemma_prefix_pair_at(words: Seq<Seq<char>>, k: int)
    requires
        0 <= k < words.len() - 1,
        words[k].is_prefix_of(words[k + 1]) || words[k + 1].is_prefix_of(words[k]),
    ensures
        constraint_at(words, k) is None,
        forall|e: (char, char)|
            constraints(words).contains(e) <==> exists|j: int|
                0 <= j < words.len() - 1 && j != k && #[trigger] constraint_at(words, j) == Some(e),
{
    lemma_prefix_pair_gives_no_constraint(words[k], words[k + 1]);
    assert forall|e: (char, char)|
        constraints(words).contains(e) <==> exists|j: int|
            0 <= j < words.len() - 1 && j != k && #[trigger] constraint_at(words, j) == Some(e) by {
        if constraints(words).contains(e) {
            let j = choose|j: int| 0 <= j < words.len() - 1 && #[trigger] constraint_at(words, j) == Some(e);
            assert(0 <= j < words.len() - 1 && j != k && constraint_at(words, j) == Some(e));
        }
        if exists|j: int|
            0 <= j < words.len() - 1 && j != k && #[trigger] constraint_at(words, j) == Some(e) {
            let j = choose|j: int|
                0 <= j < words.len() - 1 && j != k && #[trigger] constraint_at(words, j) == Some(e);
            assert(0 <= j < words.len() - 1 && constraint_at(words, j) == Some(e));
        }
    }
}

/// A further word that forms a prefix pair with the last word adds no
/// constraint: it bears on the alphabet order through its symbols alone.
pub proof fn lemma_prefix_pair_changes_symbols_only(words: Seq<Seq<char>>, word: Seq<char>)
    requires
        words.len() > 0,
        words.last().is_prefix_of(word) || word.is_prefix_of(words.last()),
    ensures
        constraints(words.push(word)) == constraints(words),
        alphabet_order(words.push(word)) == drained(symbols(words.push(word)), constraints(words)),
        (forall|i: int| 0 <= i < word.len() ==> occurs(words, #[trigger] word[i]))
            ==> alphabet_order(words.push(word)) == alphabet_order(words),
{
    lemma_prefix_pair_gives_no_constraint(words.last(), word);
    lemma_constraints_push(words, word);
    if forall|i: int| 0 <= i < word.len() ==> occurs(words, #[trigger] word[i]) {
        lemma_symbols_push_known(words, word);
    }
}

/// The concatenation of two word lists, one after the other.
proof fn lemma_concat_add(head: Seq<Seq<char>>, tail: Seq<Seq<char>>)
    ensures
        concat(head + tail) == concat(head) + concat(tail),
    decreases tail.len(),
{
    if tail.len() == 0 {
        assert(head + tail =~= head);
        assert(concat(head) + concat(tail) =~= concat(head));
    } else {
        let shorter = tail.drop_last();
        lemma_concat_add(head, shorter);
        assert((head + tail).drop_last() =~= head + shorter);
        assert((head + tail).last() == tail.last());
        assert(concat(head) + (concat(shorter) + tail.last()) =~= (concat(head) + concat(shorter))
            + tail.last());
    }
}

/// Symbols that are known already are no first occurrences, whatever follows.
proof fn lemma_first_occurrences_known_within(s: Seq<char>, more: Seq<char>, tail: Seq<char>)
    requires
        forall|i: int| 0 <= i < more.len() ==> s.contains(#[trigger] more[i]),
    ensures
        first_occurrences(s + more + tail) == first_occurrences(s + tail),
    decreases tail.len(),
{
    if tail.len() == 0 {
        assert(s + more + tail =~= s + more);
        assert(s + tail =~= s);
        lemma_first_occurrences_known(s, more);
    } else {
        let shorter = tail.drop_last();
        lemma_first_occurrences_known_within(s, more, shorter);
        assert((s + more + tail).drop_last() =~= s + more + shorter);
        assert((s + tail).drop_last() =~= s + shorter);
        assert((s + more + tail).last() == tail.last());
        assert((s + tail).last() == tail.last());
    }
}

/// A word that stands twice in a row counts once: writing any word of the
/// list a second time, next to itself, leaves the alphabet order as it is.
pub proof fn lemma_repeated_word(words: Seq<Seq<char>>, k: int)
    requires
        0 <= k < words.len(),
    ensures
        symbols(words.insert(k + 1, words[k])) == symbols(words),
        constraints(words.insert(k + 1, words[k])) == constraints(words),
        alphabet_order(words.insert(k + 1, words[k])) == alphabet_order(words),
{
    let word = words[k];
    let longer = words.insert(k + 1, word);
    let head = words.take(k + 1);
    let tail = words.skip(k + 1);
    assert(words =~= head + tail);
    assert(longer =~= head.push(word) + tail);
    lemma_concat_add(head, tail);
    lemma_concat_add(head.push(word), tail);
    assert(head.push(word).drop_last() =~= head);
    assert forall|i: int| 0 <= i < word.len() implies concat(head).contains(#[trigger] word[i]) by {
        assert(head[k][i] == word[i]);
        assert(occurs(head, word[i]));
        lemma_concat_contains(head, word[i]);
    }
    lemma_first_occurrences_known_within(concat(head), word, concat(tail));
    assert(symbols(longer) == symbols(words));

    lemma_prefix_pair_gives_no_constraint(word, word);
    assert forall|j: int| 0 <= j < longer.len() - 1 implies #[trigger] constraint_at(longer, j) == (
    if j < k {
        constraint_at(words, j)
    } else if j == k {
        None
    } else {
        constraint_at(words, j - 1)
    }) by {
        if j < k {
            assert(longer[j] == words[j] && longer[j + 1] == words[j + 1]);
        } else if j == k {
            assert(longer[j] == word && longer[j + 1] == word);
        } else {
            assert(longer[j] == words[j - 1] && longer[j + 1] == words[j - 1 + 1]);
        }
    }
    assert forall|e: (char, char)| constraints(longer).contains(e) <==> constraints(words).contains(
        e,
    ) by {
        if constraints(longer).contains(e) {
            let j = choose|j: int| 0 <= j < longer.len() - 1 && #[trigger] constraint_at(longer, j) == Some(e);
            if j < k {
                assert(constraint_at(words, j) == Some(e));
            } else {
                assert(constraint_at(words, j - 1) == Some(e));
            }
        }
        if constraints(words).contains(e) {
            let j = choose|j: int| 0 <= j < words.len() - 1 && #[trigger] constraint_at(words, j) == Some(e);
            if j < k {
                assert(constraint_at(longer, j) == Some(e));
            } else {
                assert(constraint_at(longer, j + 1) == Some(e));
            }
        }
    }
    assert(constraints(longer) =~= constraints(words));
}

} // verus!
