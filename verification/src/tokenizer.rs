//! Text to tokens and back.
use vstd::pervasive::arbitrary;
use vstd::prelude::*;

verus! {

/// A tokenizer. It always answers the same question alike.
///
/// An implementation must define the specification functions: the contracts of the
/// methods hold it to them, and the defaults below describe no implementation. They are
/// there because compiled code never calls these functions.
pub trait Tokenizer {
    /// The tokens of `text`, with the marks that are asked for.
    open spec fn tokens_of(&self, text: Seq<char>, bos: bool, eos: bool) -> Seq<i32> {
        arbitrary()
    }

    /// The text of `token` after `prev`.
    open spec fn text_of(&self, prev: i32, token: i32) -> Seq<char> {
        arbitrary()
    }

    /// The tokens of `text`; `bos` and `eos` ask for a mark at its start and end.
    fn encode(&self, text: &str, bos: bool, eos: bool) -> (r: Vec<i32>)
        ensures
            r@ == self.tokens_of(text@, bos, eos),
    ;

    /// The text of `token`, where it follows `prev`.
    fn decode(&self, prev: i32, token: i32) -> (r: String)
        ensures
            r@ == self.text_of(prev, token),
    ;
}

} // verus!
