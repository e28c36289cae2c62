//! The order in which symbols leave a set of symbols under constraints.

use vstd::prelude::*;
use vstd::seq_lib::lemma_seq_concat_contains_all_elements;
use crate::constraints::{constraints, lemma_constraint_symbols, lemma_symbols, symbols};

verus! {

/// No constraint says that some symbol comes before `c`.
pub open spec fn unconstrained(edges: Set<(char, char)>, c: char) -> bool {
    forall|l: char| !edges.contains((l, c))
}

/// `i` is the first position of `syms` that holds an unconstrained symbol.
pub open spec fn first_unconstrained_at(syms: Seq<char>, edges: Set<(char, char)>, i: int) -> bool {
    &&& 0 <= i < syms.len()
    &&& unconstrained(edges, syms[i])
    &&& forall|j: int| 0 <= j < i ==> !unconstrained(edges, #[trigger] syms[j])
}

/// The position of the symbol that leaves next: the only symbol where one is
/// left, else the first that is unconstrained. `None` where no symbol is left
/// or every symbol is constrained.
pub open spec fn next_index(syms: Seq<char>, edges: Set<(char, char)>) -> Option<int> {
    if syms.len() == 1 {
        Some(0)
    } else if exists|i: int| first_unconstrained_at(syms, edges, i) {
        Some(choose|i: int| first_unconstrained_at(syms, edges, i))
    } else {
        None
    }
}

/// The constraints that are left once `c` has gone: those that do not say
/// that `c` comes before another symbol.
pub open spec fn release(edges: Set<(char, char)>, c: char) -> Set<(char, char)> {
    Set::new(|e: (char, char)| edges.contains(e) && e.0 != c)
}

/// `head` followed by `tail`, where there is a tail.
pub open spec fn prepend(head: Seq<char>, tail: Option<Seq<char>>) -> Option<Seq<char>> {
    match tail {
        Some(rest) => Some(head + rest),
        None => None,
    }
}

/// The order in which all of `syms` leave, one symbol at a time, or `None`
/// where at some point symbols are left and each of them is constrained.
pub open spec fn drained(syms: Seq<char>, edges: Set<(char, char)>) -> Option<Seq<char>>
    decreases syms.len(),
{
    if syms.len() == 0 {
        Some(Seq::empty())
    } else {
        match next_index(syms, edges) {
            None => None,
            Some(i) => prepend(seq![syms[i]], drained(syms.remove(i), release(edges, syms[i]))),
        }
    }
}

/// The symbols and constraints that are left where draining stops: none
/// where every symbol has left, else those among which each symbol is
/// constrained.
pub open spec fn stopped(syms: Seq<char>, edges: Set<(char, char)>) -> (Seq<char>, Set<(char, char)>)
    decreases syms.len(),
{
    match next_index(syms, edges) {
        Some(i) => stopped(syms.remove(i), release(edges, syms[i])),
        None => (syms, edges),
    }
}

/// The alphabet order that a sorted word list gives, or `None` where its
/// constraints cannot all be met.
pub open spec fn alphabet_order(words: Seq<Seq<char>>) -> Option<Seq<char>> {
    drained(symbols(words), constraints(words))
}

/// Every constraint relates two different symbols of `syms`, and `syms` holds
/// no symbol twice.
pub open spec fn well_formed(syms: Seq<char>, edges: Set<(char, char)>) -> bool {
    &&& syms.no_duplicates()
    &&& forall|l: char, r: char| #[trigger]
        edges.contains((l, r)) ==> l != r && syms.contains(l) && syms.contains(r)
}

/// `l` stands before `r` in `order`.
pub open spec fn comes_before(order: Seq<char>, l: char, r: char) -> bool {
    exists|i: int, j: int| 0 <= i < j < order.len() && order[i] == l && order[j] == r
}

/// The symbols of a word list and its constraints fit together: each
/// constraint relates two different symbols of the list.
pub proof fn lemma_words_well_formed(words: Seq<Seq<char>>)
    ensures
        well_formed(symbols(words), constraints(words)),
{
    lemma_symbols(words);
    assert forall|l: char, r: char| #[trigger] constraints(words).contains((l, r)) implies l != r
        && symbols(words).contains(l) && symbols(words).contains(r) by {
        lemma_constraint_symbols(words, l, r);
    }
}

/// At most one position is the first that holds an unconstrained symbol.
pub proof fn lemma_first_unconstrained_unique(
    syms: Seq<char>,
    edges: Set<(char, char)>,
    i: int,
    j: int,
)
    requires
        first_unconstrained_at(syms, edges, i),
        first_unconstrained_at(syms, edges, j),
    ensures
        i == j,
{
    if i < j {
        assert(!unconstrained(edges, syms[i]));
    }
    if j < i {
        assert(!unconstrained(edges, syms[j]));
    }
}

/// Taking one symbol out of distinct symbols leaves the others, still distinct.
pub proof fn lemma_remove_symbol(syms: Seq<char>, i: int)
    requires
        syms.no_duplicates(),
        0 <= i < syms.len(),
    ensures
        syms.remove(i).no_duplicates(),
        syms.remove(i).len() == syms.len() - 1,
        forall|c: char| syms.remove(i).contains(c) <==> (syms.contains(c) && c != syms[i]),
{
    let rest = syms.remove(i);
    assert forall|c: char| rest.contains(c) <==> (syms.contains(c) && c != syms[i]) by {
        if rest.contains(c) {
            let k = choose|k: int| 0 <= k < rest.len() && rest[k] == c;
            if k < i {
                assert(syms[k] == c);
            } else {
                assert(syms[k + 1] == c);
            }
        }
        if syms.contains(c) && c != syms[i] {
            let k = choose|k: int| 0 <= k < syms.len() && syms[k] == c;
            if k < i {
                assert(rest[k] == c);
            } else {
                assert(rest[k - 1] == c);
            }
        }
    }
}

/// Where one symbol is left, no constraint is.
pub proof fn lemma_single_symbol(syms: Seq<char>, edges: Set<(char, char)>)
    requires
        well_formed(syms, edges),
        syms.len() == 1,
    ensures
        edges =~= Set::empty(),
        release(edges, syms[0]) =~= edges,
{
    assert forall|e: (char, char)| !edges.contains(e) by {
        if edges.contains(e) {
            assert(edges.contains((e.0, e.1)));
            assert(syms.contains(e.0) && syms.contains(e.1));
        }
    }
}

/// The symbol that leaves next is one of the symbols, and what is left when
/// it has gone is well formed again.
pub proof fn lemma_step(syms: Seq<char>, edges: Set<(char, char)>)
    requires
        well_formed(syms, edges),
        next_index(syms, edges) is Some,
    ensures
        0 <= next_index(syms, edges)->0 < syms.len(),
        forall|l: char| !edges.contains((l, syms[next_index(syms, edges)->0])),
        well_formed(
            syms.remove(next_index(syms, edges)->0),
            release(edges, syms[next_index(syms, edges)->0]),
        ),
{
    let i = next_index(syms, edges)->0;
    let c = syms[i];
    if syms.len() == 1 {
        lemma_single_symbol(syms, edges);
    } else {
        assert(first_unconstrained_at(syms, edges, i));
    }
    lemma_remove_symbol(syms, i);
    let rest = syms.remove(i);
    let left = release(edges, c);
    assert forall|l: char, r: char| #[trigger] left.contains((l, r)) implies l != r
        && rest.contains(l) && rest.contains(r) by {
        assert(edges.contains((l, r)));
    }
}

/// `order` holds no symbol twice, holds every symbol of `syms`, and puts the
/// two symbols of every constraint in the order that the constraint asks for.
pub open spec fn respects(order: Seq<char>, syms: Seq<char>, edges: Set<(char, char)>) -> bool {
    &&& order.no_duplicates()
    &&& forall|c: char| syms.contains(c) ==> order.contains(c)
    &&& forall|l: char, r: char| #[trigger] edges.contains((l, r)) ==> comes_before(order, l, r)
}

/// What draining gives holds every symbol once and meets every constraint.
pub proof fn lemma_drained_sound(syms: Seq<char>, edges: Set<(char, char)>)
    requires
        well_formed(syms, edges),
        drained(syms, edges) is Some,
    ensures
        drained(syms, edges)->0.len() == syms.len(),
        drained(syms, edges)->0.no_duplicates(),
        forall|c: char| drained(syms, edges)->0.contains(c) <==> syms.contains(c),
        forall|l: char, r: char| #[trigger]
            edges.contains((l, r)) ==> comes_before(drained(syms, edges)->0, l, r),
    decreases syms.len(),
{
    if syms.len() > 0 {
        let i = next_index(syms, edges)->0;
        let c = syms[i];
        let fewer = syms.remove(i);
        let left = release(edges, c);
        lemma_step(syms, edges);
        lemma_remove_symbol(syms, i);
        lemma_drained_sound(fewer, left);
        let rest = drained(fewer, left)->0;
        let order = drained(syms, edges)->0;
        assert(order == seq![c] + rest);
        assert(order[0] == c);
        assert forall|k: int| 0 <= k < rest.len() implies order[k + 1] == rest[k] by {}
        assert(seq![c][0] == c);
        assert forall|x: char| order.contains(x) <==> syms.contains(x) by {
            lemma_seq_concat_contains_all_elements(seq![c], rest, x);
        }
        assert forall|a: int, b: int| 0 <= a < b < order.len() implies order[a] != order[b] by {
            assert(order[b] == rest[b - 1]);
            if a > 0 {
                assert(order[a] == rest[a - 1]);
                assert(rest[a - 1] != rest[b - 1]);
            } else {
                assert(rest.contains(rest[b - 1]));
                assert(fewer.contains(rest[b - 1]));
                assert(rest[b - 1] != c);
            }
        }
        assert forall|l: char, r: char| #[trigger] edges.contains((l, r)) implies comes_before(
            order,
            l,
            r,
        ) by {
            if l == c {
                assert(rest.contains(r));
                let j = choose|j: int| 0 <= j < rest.len() && rest[j] == r;
                assert(0 <= 0 < j + 1 < order.len() && order[0] == l && order[j + 1] == r);
            } else {
                assert(left.contains((l, r)));
                let (a, b) = choose|a: int, b: int|
                    0 <= a < b < rest.len() && rest[a] == l && rest[b] == r;
                assert(0 <= a + 1 < b + 1 < order.len() && order[a + 1] == l && order[b + 1] == r);
            }
        }
    }
}

/// Among symbols that all stand in `order`, one stands there before the others.
proof fn lemma_earliest(order: Seq<char>, syms: Seq<char>) -> (m: int)
    requires
        syms.len() > 0,
        forall|c: char| syms.contains(c) ==> order.contains(c),
    ensures
        0 <= m < syms.len(),
        forall|j: int|
            0 <= j < syms.len() ==> order.index_of(syms[m]) <= order.index_of(#[trigger] syms[j]),
    decreases syms.len(),
{
    if syms.len() == 1 {
        0
    } else {
        let shorter = syms.drop_last();
        assert forall|c: char| shorter.contains(c) implies order.contains(c) by {
            let k = choose|k: int| 0 <= k < shorter.len() && shorter[k] == c;
            assert(syms[k] == c);
        }
        let m = lemma_earliest(order, shorter);
        let last = syms.len() - 1;
        assert forall|j: int| 0 <= j < shorter.len() implies syms[j] == shorter[j] by {}
        if order.index_of(syms[last]) < order.index_of(syms[m]) {
            last
        } else {
            m
        }
    }
}

/// Where some symbol is unconstrained, some position is the first to hold one.
proof fn lemma_first_unconstrained_exists(syms: Seq<char>, edges: Set<(char, char)>, m: int) -> (i:
    int)
    requires
        0 <= m < syms.len(),
        unconstrained(edges, syms[m]),
    ensures
        first_unconstrained_at(syms, edges, i),
    decreases m,
{
    if exists|j: int| 0 <= j < m && unconstrained(edges, #[trigger] syms[j]) {
        let j = choose|j: int| 0 <= j < m && unconstrained(edges, #[trigger] syms[j]);
        lemma_first_unconstrained_exists(syms, edges, j)
    } else {
        m
    }
}

/// Where some order respects the constraints, draining does not get stuck.
pub proof fn lemma_drained_complete(order: Seq<char>, syms: Seq<char>, edges: Set<(char, char)>)
    requires
        well_formed(syms, edges),
        respects(order, syms, edges),
    ensures
        drained(syms, edges) is Some,
    decreases syms.len(),
{
    if syms.len() > 0 {
        if syms.len() > 1 {
            let m = lemma_earliest(order, syms);
            let first = syms[m];
            assert(syms.contains(first));
            assert forall|l: char| !edges.contains((l, first)) by {
                if edges.contains((l, first)) {
                    assert(syms.contains(l));
                    let j = choose|j: int| 0 <= j < syms.len() && syms[j] == l;
                    assert(order.index_of(first) <= order.index_of(syms[j]));
                    let (a, b) = choose|a: int, b: int|
                        0 <= a < b < order.len() && order[a] == l && order[b] == first;
                    assert(order.contains(l) && order.contains(first));
                    assert(order[order.index_of(l)] == l);
                    assert(order[order.index_of(first)] == first);
                    assert(a == order.index_of(l));
                    assert(b == order.index_of(first));
                }
            }
            let i = lemma_first_unconstrained_exists(syms, edges, m);
        }
        let i = next_index(syms, edges)->0;
        lemma_step(syms, edges);
        lemma_remove_symbol(syms, i);
        let fewer = syms.remove(i);
        let left = release(edges, syms[i]);
        assert forall|l: char, r: char| #[trigger] left.contains((l, r)) implies comes_before(
            order,
            l,
            r,
        ) by {
            assert(edges.contains((l, r)));
        }
        lemma_drained_complete(order, fewer, left);
    }
}

} // verus!
