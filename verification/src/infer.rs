use vstd::prelude::*;

verus! {

/// The most tokens one inference stream generates.
pub const MAX_TOKENS: usize = 10000;

/// The context size considered for the repeat penalty.
pub const REPEAT_LAST_N: usize = 128;

/// The sampling seed handed to the text-generation collaborator.
pub const SEED: u64 = 299792458;

/// The state an inference stream carries while it is generating: the
/// encoded tokens of the request and the response so far, how far the
/// model's cache has advanced, and how many tokens were generated.
pub struct ActiveInferStateStatus {
    pub tokens: Vec<u32>,
    pub index_pos: usize,
    pub tokens_generated: usize,
}

/// An inference stream is either still generating or finished.
pub enum InferStateStatus {
    Active(ActiveInferStateStatus),
    Done,
}

/// What one transition decides: finish the stream, or run the model
/// forward over a context window before sampling the next token.
pub enum TransitionStep {
    Finish,
    Forward { context_size: usize, context_index: usize },
}

/// The last generated token, if any.
pub open spec fn last_token(tokens: Seq<u32>) -> Option<u32> {
    if tokens.len() == 0 {
        None
    } else {
        Some(tokens.last())
    }
}

/// The smaller of a wanted context size and the tokens available.
pub open spec fn context_len_spec(context_size: int, len: int) -> int {
    if context_size <= len {
        context_size
    } else {
        len
    }
}

impl ActiveInferStateStatus {
    /// A fresh stream over the prompt's tokens.
    pub fn new(tokens: Vec<u32>) -> (r: Self)
        ensures
            r.tokens@ == tokens@,
            r.index_pos == 0,
            r.tokens_generated == 0,
    {
        ActiveInferStateStatus { tokens, index_pos: 0, tokens_generated: 0 }
    }

    /// Where the context window begins: the last `context_size` tokens,
    /// or all of them when fewer exist.
    pub fn context_start(&self, context_size: usize) -> (r: usize)
        ensures
            r == self.tokens@.len() - context_len_spec(context_size as int, self.tokens@.len() as int),
    {
        if context_size <= self.tokens.len() {
            self.tokens.len() - context_size
        } else {
            0
        }
    }

    /// Where the repeat-penalty window begins: the last `REPEAT_LAST_N`
    /// tokens, or all of them when fewer exist.
    pub fn penalty_window_start(&self) -> (r: usize)
        ensures
            r == self.tokens@.len() - context_len_spec(
                REPEAT_LAST_N as int,
                self.tokens@.len() as int,
            ),
    {
        if REPEAT_LAST_N <= self.tokens.len() {
            self.tokens.len() - REPEAT_LAST_N
        } else {
            0
        }
    }
}

/// The decision core of an inference stream: its status.  The model, the
/// tokenizer and the sampler are outside collaborators; the surrounding
/// application runs them between `transition_plan` and `apply_forward`.
pub struct InferState {
    pub status: InferStateStatus,
}

impl InferState {
    /// A stream that will generate from the given prompt tokens.
    pub fn new(tokens: Vec<u32>) -> (r: Self)
        ensures
            r.status matches InferStateStatus::Active(a) && a.tokens@ == tokens@
                && a.index_pos == 0 && a.tokens_generated == 0,
    {
        InferState { status: InferStateStatus::Active(ActiveInferStateStatus::new(tokens)) }
    }

    /// Decides the next step.  A finished stream stays finished; an active
    /// one finishes once the generation budget is spent or the last token
    /// is the end-of-sequence token; otherwise the model is run forward
    /// over one recent token when the key-value cache is warm, and over
    /// the whole token sequence when it is not.
    pub fn transition_plan(&self, eos_token_id: Option<u32>, use_kv_cache: bool) -> (r:
        TransitionStep)
        ensures
            match self.status {
                InferStateStatus::Done => r is Finish,
                InferStateStatus::Active(a) => {
                    if a.tokens_generated >= MAX_TOKENS || last_token(a.tokens@) == eos_token_id {
                        r is Finish
                    } else if use_kv_cache && a.index_pos > 0 {
                        r matches TransitionStep::Forward { context_size, context_index }
                            && context_size == 1 && context_index == a.index_pos
                    } else {
                        r matches TransitionStep::Forward { context_size, context_index }
                            && context_size == a.tokens@.len() && context_index == 0
                    }
                },
            },
    {
        match &self.status {
            InferStateStatus::Done => TransitionStep::Finish,
            InferStateStatus::Active(a) => {
                if a.tokens_generated >= MAX_TOKENS {
                    return TransitionStep::Finish;
                }
                let at_eos = if a.tokens.len() == 0 {
                    eos_token_id.is_none()
                } else {
                    match eos_token_id {
                        Some(e) => a.tokens[a.tokens.len() - 1] == e,
                        None => false,
                    }
                };
                if at_eos {
                    TransitionStep::Finish
                } else if use_kv_cache && a.index_pos > 0 {
                    TransitionStep::Forward { context_size: 1, context_index: a.index_pos }
                } else {
                    TransitionStep::Forward { context_size: a.tokens.len(), context_index: 0 }
                }
            }
        }
    }

    /// Marks the stream finished.
    pub fn finish(&mut self)
        ensures
            final(self).status is Done,
    {
        self.status = InferStateStatus::Done;
    }

    /// Applies one forward step: the sampled token is appended, the cache
    /// position advances by the context that was fed, and the generation
    /// count grows by one.
    pub fn apply_forward(&mut self, next_token: u32, context_size: usize)
        requires
            old(self).status matches InferStateStatus::Active(a) && a.index_pos
                + context_len_spec(context_size as int, a.tokens@.len() as int) <= usize::MAX
                && a.tokens_generated + 1 <= usize::MAX
                && a.tokens@.len() + 1 <= usize::MAX,
        ensures
            old(self).status matches InferStateStatus::Active(a) ==> (final(self).status
                matches InferStateStatus::Active(b) && b.tokens@ == a.tokens@.push(next_token)
                && b.index_pos == a.index_pos
                    + context_len_spec(context_size as int, a.tokens@.len() as int)
                && b.tokens_generated == a.tokens_generated + 1),
    {
        let mut status = InferStateStatus::Done;
        core::mem::swap(&mut status, &mut self.status);
        match status {
            InferStateStatus::Active(mut a) => {
                let fed = if context_size <= a.tokens.len() {
                    context_size
                } else {
                    a.tokens.len()
                };
                a.tokens.push(next_token);
                a.index_pos += fed;
                a.tokens_generated += 1;
                self.status = InferStateStatus::Active(a);
            }
            InferStateStatus::Done => {
                self.status = InferStateStatus::Done;
            }
        }
    }

    /// The token to hand to the tokenizer for decoding after a
    /// transition: the last token of an active stream, nothing for a
    /// finished or empty one.
    pub fn emit_token(&self) -> (r: Option<u32>)
        ensures
            match self.status {
                InferStateStatus::Active(a) => r == last_token(a.tokens@),
                InferStateStatus::Done => r is None,
            },
    {
        match &self.status {
            InferStateStatus::Active(a) => {
                if a.tokens.len() == 0 {
                    None
                } else {
                    Some(a.tokens[a.tokens.len() - 1])
                }
            }
            InferStateStatus::Done => None,
        }
    }
}

} // verus!
