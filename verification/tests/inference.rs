use alien_alphabet::alphabet::{Alphabet, AlphabetError};
use alien_alphabet::constraints::{collect_symbols, contains_symbol, first_difference};
use alien_alphabet::get_alphabet;

#[test]
fn no_words() {
    assert_eq!(get_alphabet(&[]), Ok(vec![]));
}

#[test]
fn single_letter() {
    assert_eq!(
        get_alphabet(&["a", "b", "c", "d"]),
        Ok(vec!['a', 'b', 'c', 'd'])
    );
}

#[test]
fn empty_word() {
    assert_eq!(get_alphabet(&[""]), Ok(vec![]));
}

#[test]
fn ties_in_first_character() {
    assert_eq!(
        get_alphabet(&["bac", "aaa", "acb"]),
        Ok(vec!['b', 'a', 'c'])
    );
}

#[test]
fn more_complex() {
    assert_eq!(
        get_alphabet(&["zzzzzz", "zzzzq", "t", "qqzq", "qqz5", "55", "5b", "rr", "rbb", "rbf"]),
        Ok(vec!['z', 't', 'q', '5', 'r', 'b', 'f'])
    );
}

#[test]
fn unicode() {
    assert_eq!(
        get_alphabet(&["źęń", "ęęę", "ęńź"]),
        Ok(vec!['ź', 'ę', 'ń'])
    );
}

#[test]
fn single_letter_descending() {
    assert_eq!(
        get_alphabet(&["d", "c", "b", "a"]),
        Ok(vec!['d', 'c', 'b', 'a'])
    );
}

#[test]
fn only_empty_words() {
    assert_eq!(get_alphabet(&["", "", ""]), Ok(vec![]));
}

#[test]
fn cycle_is_unsatisfiable() {
    assert_eq!(
        get_alphabet(&["a", "b", "a"]),
        Err(AlphabetError::Unsatisfiable)
    );
}

#[test]
fn cycle_behind_a_free_symbol_is_unsatisfiable() {
    assert_eq!(
        get_alphabet(&["x", "a", "b", "a"]),
        Err(AlphabetError::Unsatisfiable)
    );
}

#[test]
fn one_word_keeps_order_of_appearance() {
    assert_eq!(get_alphabet(&["cab"]), Ok(vec!['c', 'a', 'b']));
}

#[test]
fn one_symbol_repeated() {
    assert_eq!(get_alphabet(&["aaa", "aaa", "a"]), Ok(vec!['a']));
}

#[test]
fn each_symbol_once() {
    let words = ["zzzzzz", "zzzzq", "t", "qqzq", "qqz5", "55", "5b", "rr", "rbb", "rbf"];
    let order = get_alphabet(&words).unwrap();
    assert_eq!(order.len(), 7);
    for c in ['z', 'q', 't', '5', 'b', 'r', 'f'] {
        assert_eq!(order.iter().filter(|x| **x == c).count(), 1);
    }
}

#[test]
fn constraints_of_three_words_in_a_row() {
    // "xa" < "ya" puts x before y, "ya" < "za" puts y before z
    let order = get_alphabet(&["a", "xa", "ya", "za"]).unwrap();
    let at = |c: char| order.iter().position(|x| *x == c).unwrap();
    assert!(at('x') < at('y'));
    assert!(at('y') < at('z'));
    assert!(at('x') < at('z'));
    assert_eq!(order, vec!['a', 'x', 'y', 'z']);
}

#[test]
fn repeated_evidence_changes_nothing() {
    let once = get_alphabet(&["x", "y", "yx"]);
    let twice = get_alphabet(&["x", "y", "yx", "yy"]);
    assert_eq!(once, Ok(vec!['x', 'y']));
    assert_eq!(twice, once);
}

#[test]
fn prefix_pair_gives_no_constraint() {
    assert_eq!(first_difference("ab", "abc"), None);
    assert_eq!(first_difference("abc", "ab"), None);
    assert_eq!(first_difference("abc", "abc"), None);
    assert_eq!(first_difference("", "abc"), None);
    assert_eq!(
        get_alphabet(&["b", "a"]),
        get_alphabet(&["b", "a", "a", "ab", "ab"])
    );
    assert_eq!(get_alphabet(&["b", "a", "ab"]), Ok(vec!['b', 'a']));
}

#[test]
fn prefix_pair_brings_its_symbols() {
    assert_eq!(get_alphabet(&["b", "a", "ac"]), Ok(vec!['b', 'a', 'c']));
}

#[test]
fn first_difference_is_the_first_only() {
    assert_eq!(first_difference("abcx", "abdy"), Some(('c', 'd')));
    assert_eq!(first_difference("b", "a"), Some(('b', 'a')));
    assert_eq!(first_difference("źęń", "źęź"), Some(('ń', 'ź')));
    // the later mismatch (c against b) is ignored
    assert_eq!(get_alphabet(&["ac", "bb"]), Ok(vec!['a', 'c', 'b']));
}

#[test]
fn symbols_come_in_order_of_first_appearance() {
    assert_eq!(collect_symbols(&["bac", "aaa", "acb"]), vec!['b', 'a', 'c']);
    assert_eq!(collect_symbols(&["", "ę", "eę"]), vec!['ę', 'e']);
    assert_eq!(collect_symbols(&[]), Vec::<char>::new());
}

#[test]
fn contains_symbol_looks_at_every_position() {
    let symbols = vec!['a', 'b', 'c'];
    assert!(contains_symbol(&symbols, 'a'));
    assert!(contains_symbol(&symbols, 'c'));
    assert!(!contains_symbol(&symbols, 'd'));
    assert!(!contains_symbol(&Vec::new(), 'a'));
}

#[test]
fn no_alphabet_without_symbols() {
    assert!(Alphabet::new(&[]).is_none());
    assert!(Alphabet::new(&["", ""]).is_none());
    assert!(Alphabet::new(&["", "a"]).is_some());
}

#[test]
fn next_takes_one_symbol_at_a_time() {
    let mut alphabet = Alphabet::new(&["bac", "aaa", "acb"]).unwrap();
    assert_eq!(alphabet.size_hint(), (3, Some(3)));
    assert_eq!(alphabet.next(), Ok(Some('b')));
    assert_eq!(alphabet.size_hint(), (2, Some(2)));
    assert_eq!(alphabet.next(), Ok(Some('a')));
    assert_eq!(alphabet.next(), Ok(Some('c')));
    assert_eq!(alphabet.size_hint(), (0, Some(0)));
    assert_eq!(alphabet.next(), Ok(None));
    assert_eq!(alphabet.next(), Ok(None));
}

#[test]
fn drain_empties_the_alphabet() {
    let mut alphabet = Alphabet::new(&["d", "c", "b", "a"]).unwrap();
    assert_eq!(alphabet.drain(), Ok(vec!['d', 'c', 'b', 'a']));
    assert_eq!(alphabet.size_hint(), (0, Some(0)));
    assert_eq!(alphabet.drain(), Ok(vec![]));
}

#[test]
fn stuck_alphabet_stays_as_it_is() {
    let mut alphabet = Alphabet::new(&["x", "a", "b", "a"]).unwrap();
    assert_eq!(alphabet.drain(), Err(AlphabetError::Unsatisfiable));
    assert_eq!(alphabet.size_hint(), (2, Some(2)));
    assert_eq!(alphabet.next(), Err(AlphabetError::Unsatisfiable));
    assert_eq!(alphabet.size_hint(), (2, Some(2)));
}

#[test]
fn same_input_same_outcome() {
    let words = ["bac", "aaa", "acb"];
    assert_eq!(get_alphabet(&words), get_alphabet(&words));
    let bad = ["a", "b", "a"];
    assert_eq!(get_alphabet(&bad), get_alphabet(&bad));
}

#[test]
fn repeated_word_changes_nothing() {
    assert_eq!(
        get_alphabet(&["bac", "aaa", "aaa", "acb"]),
        get_alphabet(&["bac", "aaa", "acb"])
    );
    assert_eq!(
        get_alphabet(&["bac", "bac", "aaa", "acb", "acb", "acb"]),
        Ok(vec!['b', 'a', 'c'])
    );
}

#[test]
fn same_constraint_from_several_pairs() {
    // "ab" < "b", "bb" < "ca" and so on all put a symbol before its successor
    assert_eq!(
        get_alphabet(&["a", "ab", "b", "ba", "bb", "c", "ca", "cb"]),
        Ok(vec!['a', 'b', 'c'])
    );
}
