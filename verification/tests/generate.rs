//! Greedy decoding with a scripted model.
use ammon::{
    generate, generate_tokens, AutoregressiveModel, GenerateError, GenerateOptions, Tokenizer,
};

/// Answers each step with the next logits of a script, and notes what it was asked.
struct Script {
    seq_len: u32,
    replies: Vec<Result<Vec<f32>, String>>,
    asked: Vec<(u32, u32)>,
}

impl AutoregressiveModel for Script {
    type Logits = Vec<f32>;
    type Error = String;

    fn vocab_size(&self) -> usize {
        4
    }

    fn max_seq_len(&self) -> u32 {
        self.seq_len
    }

    fn step(&mut self, token: u32, pos: u32) -> Result<Vec<f32>, String> {
        self.asked.push((token, pos));
        self.replies[pos as usize].clone()
    }

    fn sample_argmax(logits: &Vec<f32>) -> i32 {
        let mut best = 0;
        for i in 1..logits.len() {
            if logits[i] > logits[best] {
                best = i;
            }
        }
        best as i32
    }
}

/// Logits whose largest is at `token`.
fn pick(token: usize) -> Result<Vec<f32>, String> {
    let mut logits = vec![0.0; 4];
    logits[token] = 1.0;
    Ok(logits)
}

fn script(tokens: &[usize]) -> Script {
    Script {
        seq_len: 100,
        replies: tokens.iter().map(|t| pick(*t)).collect(),
        asked: Vec::new(),
    }
}

struct Letters;

impl Tokenizer for Letters {
    fn encode(&self, text: &str, bos: bool, eos: bool) -> Vec<i32> {
        let mut tokens: Vec<i32> = Vec::new();
        if bos {
            tokens.push(1);
        }
        tokens.extend(text.bytes().map(|b| (b - b'a') as i32));
        if eos {
            tokens.push(2);
        }
        tokens
    }

    fn decode(&self, prev: i32, token: i32) -> String {
        format!("({prev}>{token})")
    }
}

#[test]
fn prompt_is_forced_then_sampled() {
    let mut model = script(&[3, 3, 2, 0]);
    let out = generate_tokens(&mut model, &[1, 0, 2], 5, None).unwrap();
    assert_eq!(out.tokens, vec![0, 2, 2, 0]);
    assert_eq!(out.prompt_tokens, 3);
    assert_eq!(out.timed_tokens, 3);
    assert_eq!(model.asked, vec![(1, 0), (0, 1), (2, 2), (2, 3)]);
}

#[test]
fn empty_prompt_is_refused() {
    let mut model = script(&[]);
    let err = generate_tokens(&mut model, &[], 5, None).unwrap_err();
    assert!(matches!(err, GenerateError::EmptyPrompt));
    assert_eq!(err.message().as_deref(), Some("expected at least one prompt token"));
    assert!(model.asked.is_empty());
}

#[test]
fn stop_token_ends_the_run_and_is_not_emitted() {
    let mut model = script(&[3, 0, 1, 3]);
    let out = generate_tokens(&mut model, &[2], 10, Some(1)).unwrap();
    assert_eq!(out.tokens, vec![3, 0]);
    assert_eq!(out.timed_tokens, 2);
    assert_eq!(model.asked.len(), 3);
}

#[test]
fn stop_token_inside_the_prompt_does_not_stop() {
    let mut model = script(&[0, 0, 1]);
    let out = generate_tokens(&mut model, &[2, 1, 3], 10, Some(1)).unwrap();
    assert_eq!(out.tokens, vec![1, 3]);
    assert_eq!(model.asked, vec![(2, 0), (1, 1), (3, 2)]);
}

#[test]
fn limits_bound_the_run() {
    for limit in [0u32, 1] {
        let mut model = script(&[0]);
        let out = generate_tokens(&mut model, &[2], limit, None).unwrap();
        assert!(out.tokens.is_empty());
        assert_eq!(out.timed_tokens, 0);
        assert!(model.asked.is_empty());
    }
    let mut model = script(&[0, 3, 2, 1, 0]);
    model.seq_len = 4;
    let out = generate_tokens(&mut model, &[2], 50, None).unwrap();
    assert_eq!(out.tokens, vec![0, 3, 2]);
}

#[test]
fn smaller_limit_yields_a_prefix() {
    let tokens = [0usize, 3, 2, 1, 0, 2];
    let long = generate_tokens(&mut script(&tokens), &[1, 2], 7, None).unwrap();
    for limit in 1..7u32 {
        let short = generate_tokens(&mut script(&tokens), &[1, 2], limit, None).unwrap();
        assert_eq!(short.tokens, long.tokens[..limit as usize - 1]);
    }
}

#[test]
fn failed_step_is_passed_on() {
    let mut model = script(&[3, 3]);
    model.replies[1] = Err("lost".to_string());
    let err = generate_tokens(&mut model, &[1], 5, None).unwrap_err();
    assert_eq!(err.message(), None);
    match err {
        GenerateError::Step(e) => assert_eq!(e, "lost"),
        other => panic!("{other:?}"),
    }
    assert_eq!(model.asked.len(), 2);
}

#[test]
fn negative_tokens_wrap_to_the_model() {
    let mut model = script(&[3]);
    generate_tokens(&mut model, &[-1], 2, None).unwrap();
    assert_eq!(model.asked, vec![(u32::MAX, 0)]);
}

#[test]
fn text_is_decoded_after_the_token_before() {
    let mut model = script(&[0, 0, 3, 2]);
    let options = GenerateOptions { max_new_tokens: 5, bos: true, eos: false, stop_on: None };
    let out = generate(&mut model, &Letters, "ac", options).unwrap();
    assert_eq!(out.tokens, vec![0, 2, 3, 2]);
    assert_eq!(out.text, "(1>0)(0>2)(2>3)(3>2)");
    assert_eq!(out.prompt_tokens, 3);
    assert_eq!(out.timed_tokens, 3);
}

#[test]
fn options_reach_the_tokenizer() {
    let mut model = script(&[0, 0, 1]);
    let options = GenerateOptions { max_new_tokens: 9, bos: false, eos: true, stop_on: Some(1) };
    let out = generate(&mut model, &Letters, "da", options).unwrap();
    assert_eq!(out.tokens, vec![0, 2]);
    assert_eq!(out.prompt_tokens, 3);
    let none = GenerateOptions { max_new_tokens: 9, bos: false, eos: false, stop_on: None };
    match generate(&mut script(&[]), &Letters, "", none) {
        Err(GenerateError::EmptyPrompt) => {}
        other => panic!("{other:?}"),
    }
}

#[test]
fn default_options() {
    let o = GenerateOptions::default();
    assert_eq!((o.max_new_tokens, o.bos, o.eos, o.stop_on), (50, true, false, None));
}
