//! A whole text kept in memory together with the frequency of each token in it.
use super::frequency::{
    chars_of, counts_tokens, occurrences, frequencies_of, pieces_of, string_views,
    words_in, words_of_lines,
};
use crate::encoding::huffman::encoder::views;
use vstd::prelude::*;

verus! {

/// A text and its frequency table.
pub struct Summary<T> {
    pub input: String,
    pub frequencies: Vec<(T, u32)>,
}

impl Summary<char> {
    /// Takes a text as a reader delivered it, and counts its characters.
    pub fn chars_from_reader(text: &str) -> (r: Self)
        requires
            forall|c: char| #[trigger] occurrences(text@, c) <= u32::MAX,
        ensures
            r.input@ == text@,
            counts_tokens(r.frequencies@, text@),
    {
        let chars = chars_of(text);
        proof {
            assert(views(chars@) =~= text@);
        }
        let frequencies = frequencies_of(&chars);
        Summary { input: text.to_owned(), frequencies }
    }
}

impl Summary<String> {
    /// Takes a text as a reader delivered it, and counts its words: each line
    /// is cut after each space.
    pub fn strs_from_reader(text: &str) -> (r: Self)
        requires
            forall|w: Seq<char>| #[trigger] occurrences(words_in(text@), w) <= u32::MAX,
        ensures
            r.input@ == text@,
            counts_tokens(r.frequencies@, words_in(text@)),
    {
        let lines = pieces_of(text, '\n');
        let words = words_of_lines(&lines);
        proof {
            assert(views(words@) =~= string_views(words@));
            assert(views(words@) == words_in(text@));
        }
        let frequencies = frequencies_of(&words);
        Summary { input: text.to_owned(), frequencies }
    }
}

} // verus!
