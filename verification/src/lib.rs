//! Inference of an unknown alphabet order from a list of words that is sorted
//! by that order.
//!
//! Every pair of neighbouring words yields at most one constraint: at the
//! first position where the two words differ, the symbol of the left word
//! comes before the symbol of the right word. The symbols are then drained
//! one by one, each time taking a symbol that no remaining symbol is known
//! to precede.

use vstd::prelude::*;
use crate::alphabet::{Alphabet, AlphabetError};
use crate::constraints::word_views;
use crate::laws::{
    consistent, lemma_consistent_words_have_order, lemma_order_consistent, lemma_order_length,
    symbol_set,
};
use crate::order::alphabet_order;

pub mod alphabet;
pub mod constraints;
pub mod laws;
pub mod order;

verus! {

/// Gives the alphabet order of a sorted word list: every symbol of the words
/// once, each before the symbols that the words show to come after it. Words
/// without any symbol have the empty order. The call fails where no order is
/// consistent with the words.
///
/// Where the words leave a choice, the symbol that appears first in the words
/// is taken first.
pub fn get_alphabet(words: &[&str]) -> (r: Result<Vec<char>, AlphabetError>)
    ensures
        match r {
            Ok(order) => {
                &&& alphabet_order(word_views(words@)) == Some(order@)
                &&& consistent(order@, word_views(words@))
                &&& order@.len() == symbol_set(word_views(words@)).len()
            },
            Err(_) => {
                &&& alphabet_order(word_views(words@)) is None
                &&& forall|order: Seq<char>| !consistent(order, word_views(words@))
            },
        },
{
    let ghost all = word_views(words@);
    let mut alphabet = match Alphabet::new(words) {
        // no symbol in the words: nothing to order
        None => {
            proof {
                lemma_order_consistent(all);
                lemma_order_length(all);
            }
            return Ok(Vec::new());
        },
        Some(alphabet) => alphabet,
    };
    let r = alphabet.drain();
    proof {
        if r is Ok {
            lemma_order_consistent(all);
            lemma_order_length(all);
        } else {
            assert forall|order: Seq<char>| !consistent(order, all) by {
                if consistent(order, all) {
                    lemma_consistent_words_have_order(all, order);
                }
            }
        }
    }
    r
}

} // verus!
