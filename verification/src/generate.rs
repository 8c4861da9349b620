//! Greedy decode over [`AutoregressiveModel`].
use crate::model::AutoregressiveModel;
use crate::tokenizer::Tokenizer;
use vstd::prelude::*;
use vstd::string::StringExecFns;

verus! {

/// What to generate.
#[derive(Debug, Clone)]
pub struct GenerateOptions {
    pub max_new_tokens: u32,
    pub bos: bool,
    pub eos: bool,
    /// Stop when this token is chosen after the prompt (llama2.c uses BOS=1).
    pub stop_on: Option<i32>,
}

impl Default for GenerateOptions {
    fn default() -> (r: Self)
        ensures
            r == (GenerateOptions { max_new_tokens: 50, bos: true, eos: false, stop_on: None }),
    {
        GenerateOptions { max_new_tokens: 50, bos: true, eos: false, stop_on: None }
    }
}

/// Generated tokens.
#[derive(Debug, Clone)]
pub struct GenerateTokenOutput {
    /// The tokens after the first one of the prompt.
    pub tokens: Vec<i32>,
    /// Length of the prompt.
    pub prompt_tokens: usize,
    /// Decoded positions after the first: what a rate of tokens per second counts.
    pub timed_tokens: u32,
}

/// Generated text.
#[derive(Debug, Clone)]
pub struct GenerateOutput {
    pub text: String,
    pub tokens: Vec<i32>,
    pub prompt_tokens: usize,
    /// Decoded positions after the first: what a rate of tokens per second counts.
    pub timed_tokens: u32,
}

/// Why nothing was generated.
#[derive(Debug)]
pub enum GenerateError<E> {
    /// The prompt has no token.
    EmptyPrompt,
    /// The model failed.
    Step(E),
}

impl<E> GenerateError<E> {
    /// The error in words, where it is this library's own. A failed step speaks for itself.
    pub open spec fn text(self) -> Option<Seq<char>> {
        match self {
            GenerateError::EmptyPrompt => Some("expected at least one prompt token"@),
            GenerateError::Step(_) => None,
        }
    }

    /// The error in words, where it is this library's own. A failed step speaks for itself.
    pub fn message(&self) -> (r: Option<String>)
        ensures
            match r {
                Some(words) => self.text() == Some(words@),
                None => self.text() is None,
            },
    {
        match self {
            GenerateError::EmptyPrompt => Some("expected at least one prompt token".to_owned()),
            GenerateError::Step(_) => None,
        }
    }
}

/// How many positions a run may decode.
pub open spec fn step_limit(max_new_tokens: u32, seq_len: u32) -> int {
    let max = if max_new_tokens < seq_len {
        max_new_tokens
    } else {
        seq_len
    };
    if max == 0 {
        0
    } else {
        max - 1
    }
}

/// The prompt gives the token after position `pos`.
pub open spec fn is_forced(prompt: Seq<i32>, pos: int) -> bool {
    pos + 1 < prompt.len()
}

/// The token after position `pos`: the prompt's own, or past the prompt the sampled one.
pub open spec fn next_token(prompt: Seq<i32>, pos: int, sampled: i32) -> i32 {
    if is_forced(prompt, pos) {
        prompt[pos + 1]
    } else {
        sampled
    }
}

/// The token after position `pos` ends the run: it is the stop token, chosen after the
/// prompt.
pub open spec fn ends_run(
    prompt: Seq<i32>,
    stop_on: Option<i32>,
    pos: int,
    sampled: i32,
) -> bool {
    !is_forced(prompt, pos) && stop_on == Some(sampled)
}

/// What a step decides about the run.
#[derive(Clone, Copy, PartialEq, Eq, Structural, Debug)]
pub enum Decision {
    /// The run goes on with this token.
    Emit(i32),
    /// The run is over.
    Stop,
}

/// What the step at `pos` decides where `sampled` is the token with the largest logit.
pub open spec fn decision(
    prompt: Seq<i32>,
    stop_on: Option<i32>,
    pos: int,
    sampled: i32,
) -> Decision {
    if ends_run(prompt, stop_on, pos, sampled) {
        Decision::Stop
    } else {
        Decision::Emit(next_token(prompt, pos, sampled))
    }
}

/// The token that the prompt gives after position `pos`.
pub fn forced_token(prompt: &[i32], pos: u32) -> (r: Option<i32>)
    ensures
        is_forced(prompt@, pos as int) ==> r == Some(prompt@[pos + 1]),
        !is_forced(prompt@, pos as int) ==> r is None,
{
    let len: usize = prompt.len();
    if len > 0 && (pos as usize) < len - 1 {
        Some(prompt[pos as usize + 1])
    } else {
        None
    }
}

/// What the step at `pos` decides where `sampled` is the token with the largest logit.
pub fn decide(prompt: &[i32], stop_on: Option<i32>, pos: u32, sampled: i32) -> (r: Decision)
    ensures
        r == decision(prompt@, stop_on, pos as int, sampled),
{
    match forced_token(prompt, pos) {
        Some(next) => Decision::Emit(next),
        None => match stop_on {
            Some(stop) => if stop == sampled {
                Decision::Stop
            } else {
                Decision::Emit(sampled)
            },
            None => Decision::Emit(sampled),
        },
    }
}

/// The token sampled from the reply at position `p`.
pub open spec fn sampled_at<M: AutoregressiveModel>(
    replies: Seq<Result<M::Logits, M::Error>>,
    p: int,
) -> i32 {
    M::argmax(replies[p]->Ok_0)
}

/// The token after position `p`.
pub open spec fn token_after<M: AutoregressiveModel>(
    prompt: Seq<i32>,
    replies: Seq<Result<M::Logits, M::Error>>,
    p: int,
) -> i32 {
    next_token(prompt, p, sampled_at::<M>(replies, p))
}

/// The token that is decoded at position `p`: the prompt's first, then each step's next.
pub open spec fn token_at<M: AutoregressiveModel>(
    prompt: Seq<i32>,
    replies: Seq<Result<M::Logits, M::Error>>,
    p: int,
) -> i32 {
    if p == 0 {
        prompt[0]
    } else {
        token_after::<M>(prompt, replies, p - 1)
    }
}

/// The reply at position `p` is the last one: the model failed, or the run was ended.
pub open spec fn is_last<M: AutoregressiveModel>(
    prompt: Seq<i32>,
    stop_on: Option<i32>,
    replies: Seq<Result<M::Logits, M::Error>>,
    p: int,
) -> bool {
    replies[p] is Err || ends_run(prompt, stop_on, p, sampled_at::<M>(replies, p))
}

/// A run that went from position to position without end so far: `models[p]` is the
/// state before position `p`, and `replies[p]` is what it answered.
pub open spec fn is_run<M: AutoregressiveModel>(
    prompt: Seq<i32>,
    stop_on: Option<i32>,
    models: Seq<M>,
    replies: Seq<Result<M::Logits, M::Error>>,
) -> bool {
    &&& models.len() == replies.len() + 1
    &&& forall|p: int|
        #![trigger replies[p]]
        0 <= p < replies.len() ==> M::may_step(
            models[p],
            token_at::<M>(prompt, replies, p) as u32,
            p as u32,
            models[p + 1],
            replies[p],
        )
    &&& forall|p: int| 0 <= p < replies.len() - 1 ==> !#[trigger] is_last::<M>(
        prompt,
        stop_on,
        replies,
        p,
    )
}

/// The run is over: it reached `limit` positions, or its last reply ended it.
pub open spec fn is_over<M: AutoregressiveModel>(
    prompt: Seq<i32>,
    stop_on: Option<i32>,
    replies: Seq<Result<M::Logits, M::Error>>,
    limit: int,
) -> bool {
    let n = replies.len() as int;
    &&& n <= limit
    &&& n == limit || (n > 0 && is_last::<M>(prompt, stop_on, replies, n - 1))
}

/// The tokens of a run: the one after each position, without the stop token.
pub open spec fn run_tokens<M: AutoregressiveModel>(
    prompt: Seq<i32>,
    stop_on: Option<i32>,
    replies: Seq<Result<M::Logits, M::Error>>,
) -> Seq<i32> {
    let n = replies.len() as int;
    let kept = if n > 0 && is_last::<M>(prompt, stop_on, replies, n - 1) {
        n - 1
    } else {
        n
    };
    Seq::new(kept as nat, |p: int| token_after::<M>(prompt, replies, p))
}

/// What a run that is over returns.
pub open spec fn is_outcome<M: AutoregressiveModel>(
    prompt: Seq<i32>,
    stop_on: Option<i32>,
    replies: Seq<Result<M::Logits, M::Error>>,
    out: Result<GenerateTokenOutput, GenerateError<M::Error>>,
) -> bool {
    let n = replies.len() as int;
    if n > 0 && replies[n - 1] is Err {
        out == Err::<GenerateTokenOutput, GenerateError<M::Error>>(
            GenerateError::Step(replies[n - 1]->Err_0),
        )
    } else {
        out matches Ok(o) && {
            &&& o.tokens@ == run_tokens::<M>(prompt, stop_on, replies)
            &&& o.prompt_tokens == prompt.len()
            &&& o.timed_tokens == (if n == 0 {
                0
            } else {
                n - 1
            })
        }
    }
}

/// Decodes greedily: the prompt's tokens position by position, and then the token with
/// the largest logit of each step.
pub fn generate_tokens<M: AutoregressiveModel>(
    model: &mut M,
    prompt_tokens: &[i32],
    max_new_tokens: u32,
    stop_on: Option<i32>,
) -> (out: Result<GenerateTokenOutput, GenerateError<M::Error>>)
    ensures
        prompt_tokens@.len() == 0 ==> {
            &&& out == Err::<GenerateTokenOutput, GenerateError<M::Error>>(
                GenerateError::EmptyPrompt,
            )
            &&& *final(model) == *old(model)
        },
        prompt_tokens@.len() > 0 ==> exists|
            models: Seq<M>,
            replies: Seq<Result<M::Logits, M::Error>>,
        |
            {
                &&& #[trigger] is_run::<M>(prompt_tokens@, stop_on, models, replies)
                &&& models[0] == *old(model)
                &&& models.last() == *final(model)
                &&& is_over::<M>(
                    prompt_tokens@,
                    stop_on,
                    replies,
                    step_limit(max_new_tokens, old(model).seq_len()),
                )
                &&& is_outcome::<M>(prompt_tokens@, stop_on, replies, out)
            },
{
    if prompt_tokens.len() == 0 {
        return Err(GenerateError::EmptyPrompt);
    }
    let seq_len: u32 = model.max_seq_len();
    let max: u32 = if max_new_tokens < seq_len {
        max_new_tokens
    } else {
        seq_len
    };
    let limit: u32 = if max == 0 {
        0
    } else {
        max - 1
    };
    let mut tokens: Vec<i32> = Vec::new();
    let mut token: i32 = prompt_tokens[0];
    let mut pos: u32 = 0;
    let mut running: bool = true;
    let ghost mut models: Seq<M> = seq![*model];
    let ghost mut replies: Seq<Result<M::Logits, M::Error>> = Seq::empty();
    while running && pos < limit
        invariant
            prompt_tokens@.len() > 0,
            limit == step_limit(max_new_tokens, old(model).seq_len()),
            pos <= limit,
            pos == replies.len(),
            models[0] == *old(model),
            models.last() == *model,
            is_run::<M>(prompt_tokens@, stop_on, models, replies),
            forall|p: int| 0 <= p < replies.len() ==> (#[trigger] replies[p]) is Ok,
            running ==> token == token_at::<M>(prompt_tokens@, replies, pos as int),
            running ==> forall|p: int|
                0 <= p < replies.len() ==> !#[trigger] is_last::<M>(
                    prompt_tokens@,
                    stop_on,
                    replies,
                    p,
                ),
            !running ==> pos > 0 && is_last::<M>(prompt_tokens@, stop_on, replies, pos - 1),
            tokens@ == run_tokens::<M>(prompt_tokens@, stop_on, replies),
        decreases limit - pos,
    {
        let ghost before = *model;
        let reply = model.step(token as u32, pos);
        let ghost replies0 = replies;
        let ghost models0 = models;
        proof {
            replies = replies.push(reply);
            models = models.push(*model);
            lemma_run_push::<M>(
                prompt_tokens@,
                stop_on,
                models0,
                replies0,
                *model,
                reply,
                token as u32,
            );
        }
        match reply {
            Err(e) => {
                assert(is_last::<M>(prompt_tokens@, stop_on, replies, pos as int));
                return Err(GenerateError::Step(e));
            },
            Ok(logits) => {
                let chosen = match forced_token(prompt_tokens, pos) {
                    Some(next) => Decision::Emit(next),
                    None => {
                        let sampled = M::sample_argmax(&logits);
                        decide(prompt_tokens, stop_on, pos, sampled)
                    },
                };
                match chosen {
                    Decision::Stop => {
                        running = false;
                    },
                    Decision::Emit(next) => {
                        tokens.push(next);
                        token = next;
                    },
                }
            },
        }
        pos = pos + 1;
        assert(tokens@ =~= run_tokens::<M>(prompt_tokens@, stop_on, replies));
    }
    let timed_tokens: u32 = if pos == 0 {
        0
    } else {
        pos - 1
    };
    Ok(GenerateTokenOutput { tokens, prompt_tokens: prompt_tokens.len(), timed_tokens })
}

/// One more step of a run that goes on.
proof fn lemma_run_push<M: AutoregressiveModel>(
    prompt: Seq<i32>,
    stop_on: Option<i32>,
    models: Seq<M>,
    replies: Seq<Result<M::Logits, M::Error>>,
    post: M,
    reply: Result<M::Logits, M::Error>,
    token: u32,
)
    requires
        is_run::<M>(prompt, stop_on, models, replies),
        forall|p: int| 0 <= p < replies.len() ==> !#[trigger] is_last::<M>(
            prompt,
            stop_on,
            replies,
            p,
        ),
        token == token_at::<M>(prompt, replies, replies.len() as int) as u32,
        M::may_step(models.last(), token, replies.len() as u32, post, reply),
    ensures
        is_run::<M>(prompt, stop_on, models.push(post), replies.push(reply)),
        forall|p: int|
            0 <= p < replies.len() ==> !#[trigger] is_last::<M>(
                prompt,
                stop_on,
                replies.push(reply),
                p,
            ),
        forall|p: int|
            0 <= p <= replies.len() ==> #[trigger] token_at::<M>(prompt, replies.push(reply), p)
                == token_at::<M>(prompt, replies, p),
{
    let models2 = models.push(post);
    let replies2 = replies.push(reply);
    assert forall|p: int| 0 <= p < replies.len() implies !#[trigger] is_last::<M>(
        prompt,
        stop_on,
        replies2,
        p,
    ) by {
        assert(replies2[p] == replies[p]);
        assert(!is_last::<M>(prompt, stop_on, replies, p));
    }
    assert forall|p: int| 0 <= p <= replies.len() implies #[trigger] token_at::<M>(
        prompt,
        replies2,
        p,
    ) == token_at::<M>(prompt, replies, p) by {
        if p > 0 {
            assert(replies2[p - 1] == replies[p - 1]);
        }
    }
    assert forall|p: int|
        #![trigger replies2[p]]
        0 <= p < replies2.len() implies M::may_step(
        models2[p],
        token_at::<M>(prompt, replies2, p) as u32,
        p as u32,
        models2[p + 1],
        replies2[p],
    ) by {
        if p < replies.len() {
            assert(replies2[p] == replies[p]);
            assert(token_at::<M>(prompt, replies2, p) == token_at::<M>(prompt, replies, p));
        }
    }
}

/// The text of the first `n` of `tokens`, each decoded after the token before it; the
/// first follows `first`.
pub open spec fn text_after<T: Tokenizer>(
    tokenizer: T,
    first: i32,
    tokens: Seq<i32>,
    n: nat,
) -> Seq<char>
    decreases n,
{
    if n == 0 {
        Seq::empty()
    } else {
        let prev = if n == 1 {
            first
        } else {
            tokens[n - 2]
        };
        text_after(tokenizer, first, tokens, (n - 1) as nat) + tokenizer.text_of(
            prev,
            tokens[n - 1],
        )
    }
}

/// What a run that is over returns with its text.
pub open spec fn is_text_outcome<M: AutoregressiveModel, T: Tokenizer>(
    tokenizer: T,
    prompt: Seq<i32>,
    stop_on: Option<i32>,
    replies: Seq<Result<M::Logits, M::Error>>,
    out: Result<GenerateOutput, GenerateError<M::Error>>,
) -> bool {
    let n = replies.len() as int;
    if n > 0 && replies[n - 1] is Err {
        out == Err::<GenerateOutput, GenerateError<M::Error>>(
            GenerateError::Step(replies[n - 1]->Err_0),
        )
    } else {
        out matches Ok(o) && {
            &&& o.tokens@ == run_tokens::<M>(prompt, stop_on, replies)
            &&& o.text@ == text_after(tokenizer, prompt[0], o.tokens@, o.tokens@.len())
            &&& o.prompt_tokens == prompt.len()
            &&& o.timed_tokens == (if n == 0 {
                0
            } else {
                n - 1
            })
        }
    }
}

/// Encodes the prompt, decodes greedily, and turns the tokens to text.
pub fn generate<M: AutoregressiveModel, T: Tokenizer>(
    model: &mut M,
    tokenizer: &T,
    prompt: &str,
    options: GenerateOptions,
) -> (out: Result<GenerateOutput, GenerateError<M::Error>>)
    ensures
        ({
            let tokens = tokenizer.tokens_of(prompt@, options.bos, options.eos);
            &&& tokens.len() == 0 ==> {
                &&& out == Err::<GenerateOutput, GenerateError<M::Error>>(
                    GenerateError::EmptyPrompt,
                )
                &&& *final(model) == *old(model)
            }
            &&& tokens.len() > 0 ==> exists|
                models: Seq<M>,
                replies: Seq<Result<M::Logits, M::Error>>,
            |
                {
                    &&& #[trigger] is_run::<M>(tokens, options.stop_on, models, replies)
                    &&& models[0] == *old(model)
                    &&& models.last() == *final(model)
                    &&& is_over::<M>(
                        tokens,
                        options.stop_on,
                        replies,
                        step_limit(options.max_new_tokens, old(model).seq_len()),
                    )
                    &&& is_text_outcome::<M, T>(
                        *tokenizer,
                        tokens,
                        options.stop_on,
                        replies,
                        out,
                    )
                }
        }),
{
    let prompt_tokens = tokenizer.encode(prompt, options.bos, options.eos);
    let out = match generate_tokens(
        model,
        prompt_tokens.as_slice(),
        options.max_new_tokens,
        options.stop_on,
    ) {
        Ok(out) => out,
        Err(e) => {
            return Err(e);
        },
    };
    let first: i32 = prompt_tokens[0];
    let mut text = String::new();
    let mut prev: i32 = first;
    let mut i: usize = 0;
    while i < out.tokens.len()
        invariant
            i <= out.tokens@.len(),
            prev == (if i == 0 {
                first
            } else {
                out.tokens@[i - 1]
            }),
            text@ == text_after(*tokenizer, first, out.tokens@, i as nat),
        decreases out.tokens@.len() - i,
    {
        let tok: i32 = out.tokens[i];
        let piece = tokenizer.decode(prev, tok);
        text.append(piece.as_str());
        prev = tok;
        i = i + 1;
    }
    Ok(
        GenerateOutput {
            text,
            tokens: out.tokens,
            prompt_tokens: out.prompt_tokens,
            timed_tokens: out.timed_tokens,
        },
    )
}

/// A run without more than one new token decodes nothing.
pub proof fn law_at_most_one_new_token_decodes_nothing<M: AutoregressiveModel>(
    prompt: Seq<i32>,
    stop_on: Option<i32>,
    replies: Seq<Result<M::Logits, M::Error>>,
    max_new_tokens: u32,
    seq_len: u32,
)
    requires
        max_new_tokens <= 1 || seq_len <= 1,
        is_over::<M>(prompt, stop_on, replies, step_limit(max_new_tokens, seq_len)),
    ensures
        replies.len() == 0,
        run_tokens::<M>(prompt, stop_on, replies).len() == 0,
{
}

/// The tokens of a run start with the prompt's own, from its second on.
pub proof fn law_prompt_is_echoed<M: AutoregressiveModel>(
    prompt: Seq<i32>,
    stop_on: Option<i32>,
    replies: Seq<Result<M::Logits, M::Error>>,
    p: int,
)
    requires
        0 <= p < run_tokens::<M>(prompt, stop_on, replies).len(),
        p + 1 < prompt.len(),
    ensures
        run_tokens::<M>(prompt, stop_on, replies)[p] == prompt[p + 1],
{
}

/// Past the prompt, a token of a run is the one with the largest logit, and it is never
/// the stop token.
pub proof fn law_sampled_tokens_are_not_the_stop_token<M: AutoregressiveModel>(
    prompt: Seq<i32>,
    stop_on: Option<i32>,
    models: Seq<M>,
    replies: Seq<Result<M::Logits, M::Error>>,
    p: int,
)
    requires
        is_run::<M>(prompt, stop_on, models, replies),
        0 <= p < run_tokens::<M>(prompt, stop_on, replies).len(),
        prompt.len() <= p + 1,
    ensures
        run_tokens::<M>(prompt, stop_on, replies)[p] == M::argmax(replies[p]->Ok_0),
        stop_on != Some(run_tokens::<M>(prompt, stop_on, replies)[p]),
{
    if p < replies.len() - 1 {
        assert(!is_last::<M>(prompt, stop_on, replies, p));
    }
}

/// A run never yields more tokens than its limit, and without a failure or the stop
/// token it yields exactly as many.
pub proof fn law_limit_bounds_the_tokens<M: AutoregressiveModel>(
    prompt: Seq<i32>,
    stop_on: Option<i32>,
    models: Seq<M>,
    replies: Seq<Result<M::Logits, M::Error>>,
    limit: int,
)
    requires
        0 <= limit,
        is_run::<M>(prompt, stop_on, models, replies),
        is_over::<M>(prompt, stop_on, replies, limit),
    ensures
        run_tokens::<M>(prompt, stop_on, replies).len() <= limit,
        (forall|p: int|
            0 <= p < replies.len() ==> !#[trigger] is_last::<M>(prompt, stop_on, replies, p))
            ==> run_tokens::<M>(prompt, stop_on, replies).len() == limit,
{
}

/// Position by position, a run decodes the prompt's first token and then its own tokens.
pub proof fn law_each_step_decodes_the_token_before<M: AutoregressiveModel>(
    prompt: Seq<i32>,
    stop_on: Option<i32>,
    models: Seq<M>,
    replies: Seq<Result<M::Logits, M::Error>>,
    p: int,
)
    requires
        is_run::<M>(prompt, stop_on, models, replies),
        0 <= p < replies.len(),
    ensures
        M::may_step(
            models[p],
            (if p == 0 {
                prompt[0]
            } else {
                run_tokens::<M>(prompt, stop_on, replies)[p - 1]
            }) as u32,
            p as u32,
            models[p + 1],
            replies[p],
        ),
{
    assert(M::may_step(
        models[p],
        token_at::<M>(prompt, replies, p) as u32,
        p as u32,
        models[p + 1],
        replies[p],
    ));
    if p > 0 {
        assert(!is_last::<M>(prompt, stop_on, replies, p - 1));
    }
}

/// A smaller limit cuts a run short, and yields a prefix of its tokens.
pub proof fn law_smaller_limit_gives_a_prefix<M: AutoregressiveModel>(
    prompt: Seq<i32>,
    stop_on: Option<i32>,
    models: Seq<M>,
    replies: Seq<Result<M::Logits, M::Error>>,
    limit: int,
)
    requires
        is_run::<M>(prompt, stop_on, models, replies),
        0 <= limit < replies.len(),
    ensures
        is_run::<M>(prompt, stop_on, models.take(limit + 1), replies.take(limit)),
        is_over::<M>(prompt, stop_on, replies.take(limit), limit),
        run_tokens::<M>(prompt, stop_on, replies.take(limit)) == run_tokens::<M>(
            prompt,
            stop_on,
            replies,
        ).take(limit),
{
    let short = replies.take(limit);
    let states = models.take(limit + 1);
    assert forall|p: int| 0 <= p < limit implies !#[trigger] is_last::<M>(
        prompt,
        stop_on,
        short,
        p,
    ) by {
        assert(short[p] == replies[p]);
        assert(!is_last::<M>(prompt, stop_on, replies, p));
    }
    assert forall|p: int|
        #![trigger short[p]]
        0 <= p < short.len() implies M::may_step(
        states[p],
        token_at::<M>(prompt, short, p) as u32,
        p as u32,
        states[p + 1],
        short[p],
    ) by {
        assert(short[p] == replies[p]);
        if p > 0 {
            assert(short[p - 1] == replies[p - 1]);
        }
        assert(token_at::<M>(prompt, short, p) == token_at::<M>(prompt, replies, p));
    }
    if limit > 0 {
        assert(!is_last::<M>(prompt, stop_on, short, limit - 1));
    }
    assert(run_tokens::<M>(prompt, stop_on, short) =~= run_tokens::<M>(
        prompt,
        stop_on,
        replies,
    ).take(limit));
}

/// The text of tokens is the text of their first `n`, and then the text of the others,
/// decoded after the `n`th.
pub proof fn law_text_continues<T: Tokenizer>(
    tokenizer: T,
    first: i32,
    tokens: Seq<i32>,
    n: nat,
    m: nat,
)
    requires
        0 < n,
        n + m <= tokens.len(),
    ensures
        text_after(tokenizer, first, tokens, n + m) == text_after(tokenizer, first, tokens, n)
            + text_after(tokenizer, tokens[n - 1], tokens.skip(n as int), m),
    decreases m,
{
    let rest = tokens.skip(n as int);
    if m == 0 {
        assert(text_after(tokenizer, first, tokens, n) + Seq::<char>::empty() =~= text_after(
            tokenizer,
            first,
            tokens,
            n,
        ));
    } else {
        law_text_continues(tokenizer, first, tokens, n, (m - 1) as nat);
        assert(rest[m - 1] == tokens[n + m - 1]);
        if m > 1 {
            assert(rest[m - 2] == tokens[n + m - 2]);
        }
        assert(text_after(tokenizer, first, tokens, n + m) =~= text_after(
            tokenizer,
            first,
            tokens,
            n,
        ) + text_after(tokenizer, tokens[n - 1], rest, m));
    }
}

/// Before the end of the prompt a step goes on with the prompt's next token, whatever was
/// sampled. From there on it stops at the stop token, and goes on with any other.
pub proof fn law_decision_follows_the_prompt(
    prompt: Seq<i32>,
    stop_on: Option<i32>,
    pos: int,
    sampled: i32,
)
    ensures
        pos + 1 < prompt.len() ==> decision(prompt, stop_on, pos, sampled) == Decision::Emit(
            prompt[pos + 1],
        ),
        prompt.len() <= pos + 1 && stop_on == Some(sampled) ==> decision(
            prompt,
            stop_on,
            pos,
            sampled,
        ) == Decision::Stop,
        prompt.len() <= pos + 1 && stop_on != Some(sampled) ==> decision(
            prompt,
            stop_on,
            pos,
            sampled,
        ) == Decision::Emit(sampled),
{
}

/// A run in which no step fails and the stop token is never sampled past the prompt decodes
/// one position less than the smaller of `max_new_tokens` and the model's sequence length,
/// and yields as many tokens; where the smaller is zero it decodes nothing.
pub proof fn law_unstopped_run_reaches_the_limit<M: AutoregressiveModel>(
    prompt: Seq<i32>,
    stop_on: Option<i32>,
    models: Seq<M>,
    replies: Seq<Result<M::Logits, M::Error>>,
    max_new_tokens: u32,
    seq_len: u32,
    out: Result<GenerateTokenOutput, GenerateError<M::Error>>,
)
    requires
        is_run::<M>(prompt, stop_on, models, replies),
        is_over::<M>(prompt, stop_on, replies, step_limit(max_new_tokens, seq_len)),
        is_outcome::<M>(prompt, stop_on, replies, out),
        forall|p: int|
            #![trigger replies[p]]
            0 <= p < replies.len() ==> replies[p] is Ok && (prompt.len() <= p + 1 ==> stop_on
                != Some(M::argmax(replies[p]->Ok_0))),
    ensures
        ({
            let smaller = if max_new_tokens <= seq_len {
                max_new_tokens as int
            } else {
                seq_len as int
            };
            let decoded = (if smaller >= 1 {
                smaller
            } else {
                1
            }) - 1;
            &&& replies.len() == decoded
            &&& models.len() == decoded + 1
            &&& out matches Ok(o) && o.tokens@.len() == decoded
        }),
{
    if replies.len() > 0 {
        let last = replies.len() - 1;
        assert(replies[last] is Ok);
    }
}

/// What a run that is over returns, position by position. It never passes the limit, and
/// ends before it only at a failed step, whose error it returns, or at the stop token
/// sampled past the prompt. Its tokens are the prompt's from the second on, then those of
/// the largest logits, without the stop token.
pub proof fn law_run_outcome<M: AutoregressiveModel>(
    prompt: Seq<i32>,
    stop_on: Option<i32>,
    models: Seq<M>,
    replies: Seq<Result<M::Logits, M::Error>>,
    max_new_tokens: u32,
    seq_len: u32,
    out: Result<GenerateTokenOutput, GenerateError<M::Error>>,
)
    requires
        is_run::<M>(prompt, stop_on, models, replies),
        is_over::<M>(prompt, stop_on, replies, step_limit(max_new_tokens, seq_len)),
        is_outcome::<M>(prompt, stop_on, replies, out),
    ensures
        ({
            let n = replies.len() as int;
            let stops = |p: int|
                replies[p] is Ok && prompt.len() <= p + 1 && stop_on == Some(
                    M::argmax(replies[p]->Ok_0),
                );
            &&& n > 0 ==> n < max_new_tokens && n < seq_len
            &&& n + 1 < max_new_tokens && n + 1 < seq_len ==> n > 0 && (replies[n - 1] is Err
                || stops(n - 1))
            &&& forall|p: int|
                #![trigger replies[p]]
                0 <= p < n - 1 ==> replies[p] is Ok && !stops(p)
            &&& n > 0 && replies[n - 1] is Err ==> out == Err::<
                GenerateTokenOutput,
                GenerateError<M::Error>,
            >(GenerateError::Step(replies[n - 1]->Err_0))
            &&& n == 0 || replies[n - 1] is Ok ==> (out matches Ok(o) && {
                &&& o.tokens@.len() == (if n > 0 && stops(n - 1) {
                    n - 1
                } else {
                    n
                })
                &&& forall|p: int|
                    #![trigger o.tokens@[p]]
                    0 <= p < o.tokens@.len() ==> o.tokens@[p] == (if p + 1 < prompt.len() {
                        prompt[p + 1]
                    } else {
                        M::argmax(replies[p]->Ok_0)
                    })
                &&& o.prompt_tokens == prompt.len()
                &&& n > 0 ==> o.timed_tokens == n - 1
                &&& n == 0 ==> o.timed_tokens == 0
            })
        }),
{
    let n = replies.len() as int;
    assert forall|p: int| #![trigger replies[p]] 0 <= p < n - 1 implies replies[p] is Ok && !(
    prompt.len() <= p + 1 && stop_on == Some(M::argmax(replies[p]->Ok_0))) by {
        assert(!is_last::<M>(prompt, stop_on, replies, p));
    }
}

/// Each position of a run is decoded in the state that the one before left, with the token
/// that the one before gave: the prompt's own while there is one, then the one with the
/// largest logit.
pub proof fn law_run_feeds_back_its_tokens<M: AutoregressiveModel>(
    prompt: Seq<i32>,
    stop_on: Option<i32>,
    models: Seq<M>,
    replies: Seq<Result<M::Logits, M::Error>>,
    p: int,
)
    requires
        is_run::<M>(prompt, stop_on, models, replies),
        0 <= p < replies.len(),
    ensures
        M::may_step(
            models[p],
            (if p < prompt.len() || p == 0 {
                prompt[p]
            } else {
                M::argmax(replies[p - 1]->Ok_0)
            }) as u32,
            p as u32,
            models[p + 1],
            replies[p],
        ),
{
    assert(M::may_step(
        models[p],
        token_at::<M>(prompt, replies, p) as u32,
        p as u32,
        models[p + 1],
        replies[p],
    ));
}

/// The text of one token is the tokenizer's text of it after the first of the prompt.
pub proof fn law_text_of_one_token<T: Tokenizer>(tokenizer: T, first: i32, token: i32)
    ensures
        text_after(tokenizer, first, seq![token], 1) == tokenizer.text_of(first, token),
        text_after(tokenizer, first, Seq::empty(), 0) == Seq::<char>::empty(),
{
    reveal_with_fuel(text_after, 2);
    assert(Seq::<char>::empty() + tokenizer.text_of(first, token) =~= tokenizer.text_of(
        first,
        token,
    ));
}

proof fn lemma_text_of_prefix<T: Tokenizer>(
    tokenizer: T,
    first: i32,
    a: Seq<i32>,
    b: Seq<i32>,
    n: nat,
)
    requires
        n <= a.len(),
        n <= b.len(),
        forall|i: int| 0 <= i < n ==> #[trigger] a[i] == b[i],
    ensures
        text_after(tokenizer, first, a, n) == text_after(tokenizer, first, b, n),
    decreases n,
{
    if n > 0 {
        lemma_text_of_prefix(tokenizer, first, a, b, (n - 1) as nat);
        assert(a[n - 1] == b[n - 1]);
        if n > 1 {
            assert(a[n - 2] == b[n - 2]);
        }
    }
}

/// One more token appends the tokenizer's text of it after the token before, which is the
/// prompt's first where there is none.
pub proof fn law_text_grows_by_each_token<T: Tokenizer>(
    tokenizer: T,
    first: i32,
    tokens: Seq<i32>,
    token: i32,
)
    ensures
        text_after(tokenizer, first, tokens.push(token), tokens.len() + 1) == text_after(
            tokenizer,
            first,
            tokens,
            tokens.len(),
        ) + tokenizer.text_of(
            (if tokens.len() == 0 {
                first
            } else {
                tokens.last()
            }),
            token,
        ),
{
    lemma_text_of_prefix(tokenizer, first, tokens.push(token), tokens, tokens.len());
}

/// The text of tokens is the concatenation of the tokenizer's text of each after the one
/// before it, in order.
pub proof fn law_text_is_concatenation<T: Tokenizer>(tokenizer: T, first: i32, tokens: Seq<i32>)
    ensures
        text_after(tokenizer, first, tokens, tokens.len()) == Seq::new(
            tokens.len(),
            |i: int|
                tokenizer.text_of(
                    (if i == 0 {
                        first
                    } else {
                        tokens[i - 1]
                    }),
                    tokens[i],
                ),
        ).flatten(),
    decreases tokens.len(),
{
    let pieces = Seq::new(
        tokens.len(),
        |i: int|
            tokenizer.text_of(
                (if i == 0 {
                    first
                } else {
                    tokens[i - 1]
                }),
                tokens[i],
            ),
    );
    pieces.lemma_flatten_and_flatten_alt_are_equivalent();
    if tokens.len() > 0 {
        let shorter = tokens.drop_last();
        law_text_is_concatenation(tokenizer, first, shorter);
        let before = Seq::new(
            shorter.len(),
            |i: int|
                tokenizer.text_of(
                    (if i == 0 {
                        first
                    } else {
                        shorter[i - 1]
                    }),
                    shorter[i],
                ),
        );
        assert(pieces.drop_last() =~= before);
        before.lemma_flatten_and_flatten_alt_are_equivalent();
        lemma_text_of_prefix(tokenizer, first, tokens, shorter, shorter.len());
    }
}

/// With its text, a run returns the tokens and counts that it returns without, and the
/// text of those tokens, each decoded after the one before it from the prompt's first on.
pub proof fn law_text_outcome<M: AutoregressiveModel, T: Tokenizer>(
    tokenizer: T,
    prompt: Seq<i32>,
    stop_on: Option<i32>,
    replies: Seq<Result<M::Logits, M::Error>>,
    out: Result<GenerateOutput, GenerateError<M::Error>>,
    plain: Result<GenerateTokenOutput, GenerateError<M::Error>>,
)
    requires
        is_text_outcome::<M, T>(tokenizer, prompt, stop_on, replies, out),
        is_outcome::<M>(prompt, stop_on, replies, plain),
    ensures
        out is Err ==> plain is Err && plain->Err_0 == out->Err_0,
        out is Ok ==> plain is Ok && {
            let tokens = out->Ok_0.tokens@;
            &&& tokens == plain->Ok_0.tokens@
            &&& out->Ok_0.prompt_tokens == plain->Ok_0.prompt_tokens
            &&& out->Ok_0.timed_tokens == plain->Ok_0.timed_tokens
            &&& out->Ok_0.text@ == Seq::new(
                tokens.len(),
                |i: int|
                    tokenizer.text_of(
                        (if i == 0 {
                            prompt[0]
                        } else {
                            tokens[i - 1]
                        }),
                        tokens[i],
                    ),
            ).flatten()
        },
{
    if out is Ok {
        let tokens = out->Ok_0.tokens@;
        let first = prompt[0];
        law_text_is_concatenation(tokenizer, first, tokens);
        let by_first = Seq::new(
            tokens.len(),
            |i: int|
                tokenizer.text_of(
                    (if i == 0 {
                        first
                    } else {
                        tokens[i - 1]
                    }),
                    tokens[i],
                ),
        );
        let by_prompt = Seq::new(
            tokens.len(),
            |i: int|
                tokenizer.text_of(
                    (if i == 0 {
                        prompt[0]
                    } else {
                        tokens[i - 1]
                    }),
                    tokens[i],
                ),
        );
        assert(by_first =~= by_prompt);
    }
}

/// An empty prompt is told in words; a failed step speaks for itself.
pub proof fn law_generate_error_words<E>(e: GenerateError<E>)
    ensures
        e is EmptyPrompt <==> e.text() == Some("expected at least one prompt token"@),
        e is Step <==> e.text() is None,
{
}

} // verus!
