use vstd::prelude::*;

use crate::parser::{tokenize, WordParser};
use crate::text::words_view;

verus! {

/// The tokenizer's states.  `Plain` covers the stretches outside any quote:
/// the start of the input, the gaps between words and the inside of a bare
/// word are told apart by the fragment buffered so far, not by the state.
#[derive(Clone, Copy, PartialEq, Eq, Structural)]
pub enum ArgType {
    /// Outside quotes; an ordinary character extends the current word.
    Plain,
    /// An unquoted backslash was read; the next character is taken literally.
    Backslash,
    /// Inside single quotes: everything up to the closing quote is verbatim.
    SingleQuoted,
    /// Inside double quotes: verbatim but for backslash escapes.
    DoubleQuoted,
}

impl ArgType {
    /// Splits a line into words under the quoting and escaping rules; the
    /// same tokenizer as [`WordParser::split`].
    pub fn parse_args(text: &str) -> (words: Vec<String>)
        ensures
            words_view(words@) == tokenize(text@),
    {
        WordParser::split(text)
    }
}

} // verus!
