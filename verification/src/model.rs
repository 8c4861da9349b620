//! Decode-step model contract. Architecture crates supply the graph.
use vstd::pervasive::arbitrary;
use vstd::prelude::*;

verus! {

/// One-token-at-a-time generator.
///
/// The vocabulary logits of a step are floating point, so they stay with the model: it
/// hands them out as a value of its own, and picks the largest of them itself.
///
/// An implementation must define the specification functions: the contracts of the
/// methods hold it to them, and the defaults below describe no implementation. They are
/// there because compiled code never calls these functions.
pub trait AutoregressiveModel: Sized {
    /// Vocabulary logits of one step.
    type Logits;

    /// Why a step failed.
    type Error;

    /// Longest sequence that the model decodes.
    open spec fn seq_len(&self) -> u32 {
        arbitrary()
    }

    /// In the state `pre`, a step may leave the state `post` and answer `reply`.
    open spec fn may_step(
        pre: Self,
        token: u32,
        pos: u32,
        post: Self,
        reply: Result<Self::Logits, Self::Error>,
    ) -> bool {
        true
    }

    /// The token with the largest logit.
    open spec fn argmax(logits: Self::Logits) -> i32 {
        arbitrary()
    }

    /// Number of logits of a step.
    fn vocab_size(&self) -> usize;

    /// Longest sequence that the model decodes.
    fn max_seq_len(&self) -> (r: u32)
        ensures
            r == self.seq_len(),
    ;

    /// Decodes `token` at `pos`.
    fn step(&mut self, token: u32, pos: u32) -> (r: Result<Self::Logits, Self::Error>)
        ensures
            Self::may_step(*old(self), token, pos, *final(self), r),
    ;

    /// The token with the largest logit.
    fn sample_argmax(logits: &Self::Logits) -> (r: i32)
        ensures
            r == Self::argmax(*logits),
    ;
}

} // verus!
