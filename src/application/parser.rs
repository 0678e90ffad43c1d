//! A text split into lines, together with the frequency of each token in it.
use super::frequency::{
    chars_of, counts_tokens, occurrences, frequencies_of, pieces_of, split_after,
    string_views, words_in, words_of_lines,
};
use crate::encoding::huffman::encoder::views;
use vstd::prelude::*;

verus! {

/// A text as lines, each ending after its newline, and its frequency table.
pub struct TokenParser<T> {
    pub lines: Vec<String>,
    pub token_frequencies: Vec<(T, u32)>,
}

impl TokenParser<char> {
    /// Splits a text into lines and counts its characters.
    pub fn chars_from_reader(text: &str) -> (r: Self)
        requires
            forall|c: char| #[trigger] occurrences(text@, c) <= u32::MAX,
        ensures
            string_views(r.lines@) == split_after(text@, '\n'),
            counts_tokens(r.token_frequencies@, text@),
    {
        let lines = pieces_of(text, '\n');
        let chars = chars_of(text);
        proof {
            assert(views(chars@) =~= text@);
        }
        let token_frequencies = frequencies_of(&chars);
        TokenParser { lines, token_frequencies }
    }
}

impl TokenParser<String> {
    /// Splits a text into lines and counts its words: each line is cut after
    /// each space.
    pub fn words_from_reader(text: &str) -> (r: Self)
        requires
            forall|w: Seq<char>| #[trigger] occurrences(words_in(text@), w) <= u32::MAX,
        ensures
            string_views(r.lines@) == split_after(text@, '\n'),
            counts_tokens(r.token_frequencies@, words_in(text@)),
    {
        let lines = pieces_of(text, '\n');
        let words = words_of_lines(&lines);
        proof {
            assert(views(words@) =~= string_views(words@));
            assert(views(words@) == words_in(text@));
        }
        let token_frequencies = frequencies_of(&words);
        TokenParser { lines, token_frequencies }
    }
}

} // verus!
