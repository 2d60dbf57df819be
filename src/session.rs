//! The decisions of one completion: which phase comes next, which token the
//! biaser forces, what becomes of each decoded fragment, and when to stop.
//! The driver performs the model work that each step asks for and reports
//! back; the state counts every token that reaches the model.
use vstd::prelude::*;
use crate::sequence::{SequenceSet, any_match, first_match, never_matched};
use crate::stats::{InferenceStats, stats_sum};
use crate::assemble::id_listed;
use crate::utf8::{released, utf8_buffer, utf8_pending, utf8_push};
use llm::TokenUtf8Buffer;

verus! {

/// One entry of a biaser's answer: a token and whether its bias is positive.
#[derive(Clone, Copy, Debug, PartialEq, Eq, Structural)]
pub struct BiasEntry {
    pub token: u32,
    pub positive: bool,
}

/// What the driver does next in the generation loop.
#[derive(Clone, Debug, PartialEq, Eq)]
pub enum Choice {
    /// The end-of-text token was forced: report it with `forced_token`
    /// without feeding it, and stop.
    Finish,
    /// This token was forced: feed it to the model, then report it with `forced_token`.
    Feed(u32),
    /// Sample with the bias entries at these indices (in order), then report
    /// the sampled token with `sampled_token`.
    Sample(Vec<usize>),
}

/// The caller's answer to a delivered fragment.
#[derive(Clone, Copy, Debug, PartialEq, Eq, Structural)]
pub enum InferenceFeedback {
    Continue,
    Halt,
}

/// What becomes of one decoded text fragment.
#[derive(Clone, Copy, Debug, PartialEq, Eq, Structural)]
pub enum FragmentAction {
    /// A stop sequence completed: end generation without delivering it.
    Stop,
    /// The fragment is a private token: drop it.
    Suppress,
    /// Hand the fragment to the caller.
    Deliver,
}

/// Where a completion stands.
#[derive(Clone, Copy, Debug, PartialEq, Eq, Structural)]
pub enum Phase {
    /// The assembled prompt is to be fed.
    Prelude,
    /// The model is to run freely once, its output discarded.
    WarmUp,
    /// The bias prompt is to be fed.
    BiasPrompt,
    /// The biased generation loop runs.
    Generate,
    /// Generation has ended.
    Finished,
}

/// What the generation loop reads from the task and the model.
pub struct GenerationSettings {
    /// The model's end-of-text token.
    pub eot: u32,
    /// The ids of the task's private tokens.
    pub private_ids: Vec<u32>,
    /// The texts of the task's private tokens.
    pub private_texts: Vec<String>,
    /// A biaser is configured; it then decides when generation ends.
    pub biased: bool,
    /// The most tokens to generate without a biaser.
    pub max_tokens: Option<usize>,
    /// Literal texts that end generation when the output reaches them.
    pub stop_sequences: Vec<String>,
    /// A bias prompt is configured, so a warm-up run precedes it.
    pub warm_up: bool,
}

/// The positions of `bias` whose token is not private, in order.
pub open spec fn kept_positions(bias: Seq<BiasEntry>, private_ids: Seq<u32>, idx: Seq<usize>) -> bool {
    &&& forall|k: int| 0 <= k < idx.len() ==> #[trigger] idx[k] < bias.len() && !private_ids.contains(bias[idx[k] as int].token)
    &&& forall|k: int, l: int| 0 <= k < l < idx.len() ==> idx[k] < idx[l]
    &&& forall|p: int| 0 <= p < bias.len() && !private_ids.contains(#[trigger] bias[p].token) ==> idx.contains(p as usize)
}

/// The state of one completion.
pub struct Completion {
    eot: u32,
    private_ids: Vec<u32>,
    private_texts: Vec<String>,
    biased: bool,
    max_tokens: Option<usize>,
    warm_up: bool,
    stop: Option<SequenceSet>,
    phase: Phase,
    n_past: usize,
    start_past: usize,
    prompt_tokens: usize,
    warmup_tokens: usize,
    bias_prompt_tokens: usize,
    forced: usize,
    sampled: usize,
    generated: usize,
    stats: InferenceStats,
    buffer: TokenUtf8Buffer,
    delivered: Ghost<Seq<Seq<char>>>,
}

impl Completion {
    pub closed spec fn phase(&self) -> Phase {
        self.phase
    }

    /// Tokens in the model's context: those before this completion and all fed since.
    pub closed spec fn n_past(&self) -> nat {
        self.n_past as nat
    }

    /// Tokens in the model's context when this completion began.
    pub closed spec fn start_past(&self) -> nat {
        self.start_past as nat
    }

    pub closed spec fn prompt_tokens(&self) -> nat {
        self.prompt_tokens as nat
    }

    pub closed spec fn warmup_tokens(&self) -> nat {
        self.warmup_tokens as nat
    }

    pub closed spec fn bias_prompt_tokens(&self) -> nat {
        self.bias_prompt_tokens as nat
    }

    /// Forced tokens that were fed to the model.
    pub closed spec fn forced(&self) -> nat {
        self.forced as nat
    }

    /// Tokens that the sampler drew.
    pub closed spec fn sampled(&self) -> nat {
        self.sampled as nat
    }

    /// Tokens the loop has taken, forced or sampled, end-of-text included.
    pub closed spec fn generated(&self) -> nat {
        self.generated as nat
    }

    pub closed spec fn eot(&self) -> u32 {
        self.eot
    }

    pub closed spec fn private_ids(&self) -> Seq<u32> {
        self.private_ids@
    }

    pub closed spec fn private_texts(&self) -> Seq<Seq<char>> {
        self.private_texts@.map_values(|t: String| t@)
    }

    /// A warm-up run and a bias prompt precede generation.
    pub closed spec fn warms_up(&self) -> bool {
        self.warm_up
    }

    pub closed spec fn biased(&self) -> bool {
        self.biased
    }

    pub closed spec fn max_tokens(&self) -> Option<usize> {
        self.max_tokens
    }

    pub closed spec fn stats_view(&self) -> InferenceStats {
        self.stats
    }

    /// Stop sequences are watched.
    pub closed spec fn watches_stops(&self) -> bool {
        self.stop is Some
    }

    /// The watched stop sequences.
    pub closed spec fn stop_targets(&self) -> Seq<Seq<char>> {
        match self.stop {
            Some(s) => s.targets(),
            None => Seq::empty(),
        }
    }

    /// All decoded text that the stop sequences were checked against.
    pub closed spec fn stop_seen(&self) -> Seq<char> {
        match self.stop {
            Some(s) => s.seen(),
            None => Seq::empty(),
        }
    }

    /// Generated bytes that do not decode yet.
    pub closed spec fn pending(&self) -> Seq<u8> {
        utf8_pending(self.buffer)
    }

    /// The fragments handed to the caller, in order.
    pub closed spec fn delivered(&self) -> Seq<Seq<char>> {
        self.delivered@
    }

    /// The generation loop may not take another token: a biaser-free task
    /// has reached its token limit.
    pub open spec fn limit_reached(&self) -> bool {
        !self.biased() && self.max_tokens() is Some && self.generated() >= self.max_tokens()->0
    }

    pub closed spec fn wf(&self) -> bool {
        &&& self.n_past == self.start_past + self.prompt_tokens + self.warmup_tokens + self.bias_prompt_tokens
            + self.forced + self.sampled
        &&& self.forced + self.sampled <= self.generated
        &&& forall|i: int| 0 <= i < self.delivered@.len() ==> !self.private_texts().contains(#[trigger] self.delivered@[i])
        &&& match self.stop {
            Some(s) => s.wf() && (self.phase != Phase::Finished ==> never_matched(s.targets(), s.seen())),
            None => true,
        }
    }
}

impl Completion {
    /// A completion for a session whose context already holds `n_past` tokens.
    /// Stop sequences are watched only where there are some and no biaser.
    pub fn new(settings: GenerationSettings, n_past: usize) -> (r: Completion)
        ensures
            r.wf(),
            r.phase() == Phase::Prelude,
            r.n_past() == n_past,
            r.start_past() == n_past,
            r.prompt_tokens() == 0 && r.warmup_tokens() == 0 && r.bias_prompt_tokens() == 0,
            r.forced() == 0 && r.sampled() == 0 && r.generated() == 0,
            r.eot() == settings.eot,
            r.private_ids() == settings.private_ids@,
            r.private_texts() == settings.private_texts@.map_values(|t: String| t@),
            r.biased() == settings.biased,
            r.warms_up() == settings.warm_up,
            r.max_tokens() == settings.max_tokens,
            r.watches_stops() == (!settings.biased && settings.stop_sequences@.len() > 0),
            r.watches_stops() ==> r.stop_targets() == settings.stop_sequences@.map_values(|t: String| t@),
            r.stop_seen() == Seq::<char>::empty(),
            r.delivered() == Seq::<Seq<char>>::empty(),
            r.pending() == Seq::<u8>::empty(),
            r.stats_view() == (InferenceStats { prompt_tokens: 0, predict_tokens: 0, feed_prompt_nanos: 0, predict_nanos: 0 }),
    {
        let stop = if settings.biased || settings.stop_sequences.len() == 0 {
            None
        } else {
            Some(SequenceSet::new(&settings.stop_sequences))
        };
        Completion {
            eot: settings.eot,
            private_ids: settings.private_ids,
            private_texts: settings.private_texts,
            biased: settings.biased,
            max_tokens: settings.max_tokens,
            warm_up: settings.warm_up,
            stop,
            phase: Phase::Prelude,
            n_past,
            start_past: n_past,
            prompt_tokens: 0,
            warmup_tokens: 0,
            bias_prompt_tokens: 0,
            forced: 0,
            sampled: 0,
            generated: 0,
            stats: InferenceStats::new(),
            buffer: utf8_buffer(),
            delivered: Ghost(Seq::empty()),
        }
    }

    /// The statistics gathered so far.
    pub fn stats(&self) -> (r: InferenceStats)
        ensures
            r == self.stats_view(),
    {
        self.stats
    }

    /// Where the completion stands.
    pub fn current_phase(&self) -> (r: Phase)
        ensures
            r == self.phase(),
    {
        self.phase
    }

    /// Tokens in the model's context.
    pub fn position(&self) -> (r: usize)
        ensures
            r == self.n_past(),
    {
        self.n_past
    }

    /// The counters can take `n` more fed tokens and one more generated token.
    pub fn has_room(&self, n: usize) -> (r: bool)
        ensures
            r == (self.n_past() + n <= usize::MAX && self.generated() < usize::MAX),
    {
        self.n_past <= usize::MAX - n && self.generated < usize::MAX
    }

    /// The assembled prompt, `n` tokens, was fed in `nanos`. A warm-up
    /// follows when a bias prompt is configured, else generation.
    pub fn prompt_fed(&mut self, n: usize, nanos: u64)
        requires
            old(self).wf(),
            old(self).phase() == Phase::Prelude,
            old(self).n_past() + n <= usize::MAX,
        ensures
            final(self).wf(),
            final(self).phase() == (if old(self).warms_up() { Phase::WarmUp } else { Phase::Generate }),
            final(self).n_past() == old(self).n_past() + n,
            final(self).prompt_tokens() == old(self).prompt_tokens() + n,
            final(self).stats_view() == stats_sum(
                old(self).stats_view(),
                InferenceStats { prompt_tokens: n as u64, predict_tokens: 0, feed_prompt_nanos: nanos, predict_nanos: 0 },
            ),
            unchanged_except_counts(*old(self), *final(self)),
    {
        self.n_past = self.n_past + n;
        self.prompt_tokens = self.prompt_tokens + n;
        self.stats.add(&InferenceStats { prompt_tokens: n as u64, predict_tokens: 0, feed_prompt_nanos: nanos, predict_nanos: 0 });
        self.phase = if self.warm_up { Phase::WarmUp } else { Phase::Generate };
    }

    /// The warm-up run took `n` tokens into the context; `run` is what it measured.
    pub fn warm_up_done(&mut self, n: usize, run: &InferenceStats)
        requires
            old(self).wf(),
            old(self).phase() == Phase::WarmUp,
            old(self).n_past() + n <= usize::MAX,
        ensures
            final(self).wf(),
            final(self).phase() == Phase::BiasPrompt,
            final(self).n_past() == old(self).n_past() + n,
            final(self).warmup_tokens() == old(self).warmup_tokens() + n,
            final(self).stats_view() == stats_sum(old(self).stats_view(), *run),
            unchanged_except_counts(*old(self), *final(self)),
    {
        self.n_past = self.n_past + n;
        self.warmup_tokens = self.warmup_tokens + n;
        self.stats.add(run);
        self.phase = Phase::BiasPrompt;
    }

    /// The bias prompt, `n` tokens, was fed in `nanos`; generation follows.
    pub fn bias_prompt_fed(&mut self, n: usize, nanos: u64)
        requires
            old(self).wf(),
            old(self).phase() == Phase::BiasPrompt,
            old(self).n_past() + n <= usize::MAX,
        ensures
            final(self).wf(),
            final(self).phase() == Phase::Generate,
            final(self).n_past() == old(self).n_past() + n,
            final(self).bias_prompt_tokens() == old(self).bias_prompt_tokens() + n,
            final(self).stats_view() == stats_sum(
                old(self).stats_view(),
                InferenceStats { prompt_tokens: n as u64, predict_tokens: 0, feed_prompt_nanos: nanos, predict_nanos: 0 },
            ),
            unchanged_except_counts(*old(self), *final(self)),
    {
        self.n_past = self.n_past + n;
        self.bias_prompt_tokens = self.bias_prompt_tokens + n;
        self.stats.add(&InferenceStats { prompt_tokens: n as u64, predict_tokens: 0, feed_prompt_nanos: nanos, predict_nanos: 0 });
        self.phase = Phase::Generate;
    }
}

impl Completion {
    /// The generation loop takes another token: it has not ended, and a
    /// biaser-free task is below its token limit. With a limit of zero the
    /// loop takes no token at all.
    pub fn should_continue(&self) -> (r: bool)
        requires
            self.wf(),
        ensures
            r == (self.phase() == Phase::Generate && !self.limit_reached()),
    {
        if self.phase != Phase::Generate {
            return false;
        }
        if !self.biased {
            match self.max_tokens {
                Some(m) => {
                    if self.generated >= m {
                        return false;
                    }
                },
                None => {},
            }
        }
        true
    }

    /// Decides the next token from the biaser's answer, once the private
    /// tokens are taken out of it. A single remaining entry with positive
    /// bias is forced (the end-of-text token ends the loop before any
    /// sampling); otherwise the sampler runs with the remaining entries.
    pub fn decide(&self, bias: &Vec<BiasEntry>) -> (r: Choice)
        requires
            self.wf(),
        ensures
            match r {
                Choice::Sample(idx) => kept_positions(bias@, self.private_ids(), idx@) && !(idx@.len() == 1
                    && bias@[idx@[0] as int].positive),
                Choice::Feed(t) => exists|p: int|
                    0 <= p < bias@.len() && #[trigger] bias@[p].token == t && bias@[p].positive && t != self.eot()
                        && !self.private_ids().contains(t) && forall|q: int|
                        0 <= q < bias@.len() && q != p ==> self.private_ids().contains(#[trigger] bias@[q].token),
                Choice::Finish => exists|p: int|
                    0 <= p < bias@.len() && #[trigger] bias@[p].token == self.eot() && bias@[p].positive
                        && !self.private_ids().contains(self.eot()) && forall|q: int|
                        0 <= q < bias@.len() && q != p ==> self.private_ids().contains(#[trigger] bias@[q].token),
            },
    {
        let mut idx: Vec<usize> = Vec::new();
        let mut p: usize = 0;
        while p < bias.len()
            invariant
                p <= bias@.len(),
                forall|k: int| 0 <= k < idx@.len() ==> #[trigger] idx@[k] < p && !self.private_ids().contains(bias@[idx@[k] as int].token),
                forall|k: int, l: int| 0 <= k < l < idx@.len() ==> idx@[k] < idx@[l],
                forall|q: int| 0 <= q < p && !self.private_ids().contains(#[trigger] bias@[q].token) ==> idx@.contains(q as usize),
            decreases bias@.len() - p,
        {
            let ghost before = idx@;
            if !id_listed(&self.private_ids, bias[p].token) {
                idx.push(p);
                assert(idx@[idx@.len() - 1] == p);
            }
            proof {
                assert forall|q: int| 0 <= q < p + 1 && !self.private_ids().contains(#[trigger] bias@[q].token) implies idx@.contains(q as usize) by {
                    if q < p {
                        let k = choose|k: int| 0 <= k < before.len() && before[k] == q as usize;
                        assert(idx@[k] == q as usize);
                    }
                }
            }
            p = p + 1;
        }
        if idx.len() == 1 && bias[idx[0]].positive {
            let only = bias[idx[0]].token;
            proof {
                let p0 = idx@[0] as int;
                assert forall|q: int| 0 <= q < bias@.len() && q != p0 implies self.private_ids().contains(#[trigger] bias@[q].token) by {
                    if !self.private_ids().contains(bias@[q].token) {
                        assert(idx@.contains(q as usize));
                    }
                }
            }
            if only == self.eot {
                Choice::Finish
            } else {
                Choice::Feed(only)
            }
        } else {
            Choice::Sample(idx)
        }
    }

    /// A forced token was taken; any token but end-of-text was fed to the
    /// model, in `nanos`. Returns whether the loop goes on to its output.
    pub fn forced_token(&mut self, token: u32, nanos: u64) -> (go_on: bool)
        requires
            old(self).wf(),
            old(self).phase() == Phase::Generate,
            old(self).n_past() < usize::MAX,
            old(self).generated() < usize::MAX,
        ensures
            final(self).wf(),
            go_on == (token != old(self).eot()),
            final(self).phase() == (if go_on { Phase::Generate } else { Phase::Finished }),
            final(self).generated() == old(self).generated() + 1,
            final(self).sampled() == old(self).sampled(),
            final(self).forced() == old(self).forced() + (if go_on { 1int } else { 0int }),
            final(self).n_past() == old(self).n_past() + (if go_on { 1int } else { 0int }),
            final(self).stats_view() == (if go_on {
                stats_sum(
                    old(self).stats_view(),
                    InferenceStats { prompt_tokens: 1, predict_tokens: 0, feed_prompt_nanos: nanos, predict_nanos: 0 },
                )
            } else {
                old(self).stats_view()
            }),
            final(self).prompt_tokens() == old(self).prompt_tokens(),
            final(self).warmup_tokens() == old(self).warmup_tokens(),
            final(self).bias_prompt_tokens() == old(self).bias_prompt_tokens(),
            unchanged_except_counts(*old(self), *final(self)),
    {
        self.generated = self.generated + 1;
        if token == self.eot {
            self.phase = Phase::Finished;
            return false;
        }
        self.forced = self.forced + 1;
        self.n_past = self.n_past + 1;
        self.stats.add(&InferenceStats { prompt_tokens: 1, predict_tokens: 0, feed_prompt_nanos: nanos, predict_nanos: 0 });
        true
    }

    /// The sampler drew `token` in `nanos`. Returns whether the loop goes on
    /// to its output: not at end-of-text.
    pub fn sampled_token(&mut self, token: u32, nanos: u64) -> (go_on: bool)
        requires
            old(self).wf(),
            old(self).phase() == Phase::Generate,
            old(self).n_past() < usize::MAX,
            old(self).generated() < usize::MAX,
        ensures
            final(self).wf(),
            go_on == (token != old(self).eot()),
            final(self).phase() == (if go_on { Phase::Generate } else { Phase::Finished }),
            final(self).generated() == old(self).generated() + 1,
            final(self).sampled() == old(self).sampled() + 1,
            final(self).forced() == old(self).forced(),
            final(self).n_past() == old(self).n_past() + 1,
            final(self).stats_view() == stats_sum(
                old(self).stats_view(),
                InferenceStats { prompt_tokens: 0, predict_tokens: 1, feed_prompt_nanos: 0, predict_nanos: nanos },
            ),
            final(self).prompt_tokens() == old(self).prompt_tokens(),
            final(self).warmup_tokens() == old(self).warmup_tokens(),
            final(self).bias_prompt_tokens() == old(self).bias_prompt_tokens(),
            unchanged_except_counts(*old(self), *final(self)),
    {
        self.generated = self.generated + 1;
        self.sampled = self.sampled + 1;
        self.n_past = self.n_past + 1;
        self.stats.add(&InferenceStats { prompt_tokens: 0, predict_tokens: 1, feed_prompt_nanos: 0, predict_nanos: nanos });
        if token == self.eot {
            self.phase = Phase::Finished;
            return false;
        }
        true
    }

    /// The model failed to produce a token (its context is typically full):
    /// generation ends quietly with what was gathered.
    pub fn inference_failed(&mut self)
        requires
            old(self).wf(),
        ensures
            final(self).wf(),
            final(self).phase() == Phase::Finished,
            final(self).n_past() == old(self).n_past(),
            final(self).generated() == old(self).generated(),
            final(self).forced() == old(self).forced(),
            final(self).sampled() == old(self).sampled(),
            final(self).prompt_tokens() == old(self).prompt_tokens(),
            final(self).warmup_tokens() == old(self).warmup_tokens(),
            final(self).bias_prompt_tokens() == old(self).bias_prompt_tokens(),
            final(self).stats_view() == old(self).stats_view(),
            unchanged_except_counts(*old(self), *final(self)),
    {
        self.phase = Phase::Finished;
    }
}

impl Completion {
    fn is_private_text(&self, text: &String) -> (r: bool)
        ensures
            r == self.private_texts().contains(text@),
    {
        let mut i: usize = 0;
        while i < self.private_texts.len()
            invariant
                i <= self.private_texts@.len(),
                forall|j: int| 0 <= j < i ==> self.private_texts@[j]@ != text@,
            decreases self.private_texts@.len() - i,
        {
            if self.private_texts[i] == *text {
                assert(self.private_texts()[i as int] == text@);
                return true;
            }
            i = i + 1;
        }
        proof {
            if self.private_texts().contains(text@) {
                let j = choose|j: int| 0 <= j < self.private_texts().len() && self.private_texts()[j] == text@;
                assert(self.private_texts@[j]@ == text@);
            }
        }
        false
    }

    /// Decides what becomes of one decoded text fragment. When stop sequences
    /// are watched and one completes within it, generation ends and nothing
    /// is delivered; else a fragment that equals a private token is dropped;
    /// else it goes to the caller.
    pub fn fragment(&mut self, text: &String) -> (r: FragmentAction)
        requires
            old(self).wf(),
            old(self).phase() == Phase::Generate,
        ensures
            final(self).wf(),
            fragment_outcome(*old(self), *final(self), text@, r),
            final(self).pending() == old(self).pending(),
    {
        let mut stopped = false;
        match &mut self.stop {
            Some(set) => {
                stopped = set.advance(text.as_str());
            },
            None => {},
        }
        if stopped {
            proof {
                let n = choose|n: int|
                    1 <= n <= text@.len() && self.stop_seen() == old(self).stop_seen() + text@.subrange(0, n)
                        && any_match(old(self).stop_targets(), self.stop_seen()) && forall|i: int|
                        1 <= i < n ==> !any_match(old(self).stop_targets(), #[trigger] (old(self).stop_seen() + text@.subrange(0, i)));
                assert(any_match(old(self).stop_targets(), old(self).stop_seen() + text@.subrange(0, n)));
            }
            self.phase = Phase::Finished;
            return FragmentAction::Stop;
        }
        if self.is_private_text(text) {
            return FragmentAction::Suppress;
        }
        self.delivered = Ghost(self.delivered@.push(text@));
        proof {
            assert forall|i: int| 0 <= i < self.delivered@.len() implies !self.private_texts().contains(
                #[trigger] self.delivered@[i],
            ) by {
                if i < old(self).delivered@.len() {
                    assert(self.delivered@[i] == old(self).delivered@[i]);
                }
            }
        }
        FragmentAction::Deliver
    }

    /// Takes the bytes of a generated token other than end-of-text. Once the
    /// bytes waiting decode into text, decides what becomes of that text
    /// (see `fragment`) and returns it with the decision.
    pub fn token_text(&mut self, bytes: &Vec<u8>) -> (r: Option<(String, FragmentAction)>)
        requires
            old(self).wf(),
            old(self).phase() == Phase::Generate,
        ensures
            final(self).wf(),
            match released(old(self).pending() + bytes@) {
                Some(text) => r is Some && (r->0).0@ == text && final(self).pending() == Seq::<u8>::empty() && fragment_outcome(
                    *old(self),
                    *final(self),
                    text,
                    (r->0).1,
                ),
                None => r is None && final(self).pending() == old(self).pending() + bytes@ && final(self).phase()
                    == old(self).phase() && unchanged_except_counts_and_buffer(*old(self), *final(self)),
            },
    {
        let pushed = utf8_push(&mut self.buffer, bytes);
        let ghost mid = *self;
        assert(unchanged_except_counts_and_buffer(*old(self), mid));
        match pushed {
            Some(text) => {
                let action = self.fragment(&text);
                proof {
                    lemma_outcome_from(*old(self), mid, *self, text@, action);
                }
                Some((text, action))
            },
            None => None,
        }
    }

    /// The caller's answer to a delivered fragment; `Halt` ends generation.
    pub fn feedback(&mut self, fb: InferenceFeedback)
        requires
            old(self).wf(),
        ensures
            final(self).wf(),
            final(self).phase() == (if fb == InferenceFeedback::Halt { Phase::Finished } else { old(self).phase() }),
            final(self).n_past() == old(self).n_past(),
            final(self).generated() == old(self).generated(),
            final(self).forced() == old(self).forced(),
            final(self).sampled() == old(self).sampled(),
            final(self).prompt_tokens() == old(self).prompt_tokens(),
            final(self).warmup_tokens() == old(self).warmup_tokens(),
            final(self).bias_prompt_tokens() == old(self).bias_prompt_tokens(),
            final(self).stats_view() == old(self).stats_view(),
            unchanged_except_counts(*old(self), *final(self)),
    {
        match fb {
            InferenceFeedback::Halt => {
                self.phase = Phase::Finished;
            },
            InferenceFeedback::Continue => {},
        }
    }
}

/// Every token that reaches the model is counted once: the context grows by
/// the assembled prompt, the warm-up run, the bias prompt, the forced tokens
/// fed and the sampled tokens, and by nothing else. Without a warm-up run
/// the growth is the prompt, the bias prompt, the forced and the sampled
/// tokens alone.
pub proof fn lemma_fed_tokens(c: Completion)
    requires
        c.wf(),
    ensures
        c.n_past() - c.start_past() == c.prompt_tokens() + c.warmup_tokens() + c.bias_prompt_tokens() + c.forced()
            + c.sampled(),
        c.warmup_tokens() == 0 ==> c.n_past() - c.start_past() == c.prompt_tokens() + c.bias_prompt_tokens()
            + c.forced() + c.sampled(),
{
}

/// No fragment handed to the caller is, verbatim, one of the private tokens.
pub proof fn lemma_private_never_delivered(c: Completion)
    requires
        c.wf(),
    ensures
        forall|i: int| 0 <= i < c.delivered().len() ==> !c.private_texts().contains(#[trigger] c.delivered()[i]),
{
}

/// A biaser-free task with a limit of zero tokens takes no token once its
/// prompt is fed.
pub proof fn lemma_zero_limit(c: Completion)
    requires
        c.wf(),
        !c.biased(),
        c.max_tokens() == Some(0usize),
    ensures
        c.limit_reached(),
{
}

/// What `fragment` does with `text`: `a` before, `b` after, `r` its decision.
pub open spec fn fragment_outcome(a: Completion, b: Completion, text: Seq<char>, r: FragmentAction) -> bool {
    &&& (r == FragmentAction::Stop) == (a.watches_stops() && exists|i: int|
        1 <= i <= text.len() && any_match(a.stop_targets(), #[trigger] (a.stop_seen() + text.subrange(0, i))))
    &&& r == FragmentAction::Stop ==> b.phase() == Phase::Finished && first_match(b.stop_targets(), b.stop_seen())
        && exists|n: int| 1 <= n <= text.len() && b.stop_seen() == a.stop_seen() + text.subrange(0, n)
    &&& r != FragmentAction::Stop ==> b.phase() == Phase::Generate
    &&& r != FragmentAction::Stop && a.watches_stops() ==> b.stop_seen() == a.stop_seen() + text
    &&& r != FragmentAction::Stop ==> (r == FragmentAction::Suppress) == a.private_texts().contains(text)
    &&& b.delivered() == (if r == FragmentAction::Deliver {
            a.delivered().push(text)
        } else {
            a.delivered()
        })
    &&& b.eot() == a.eot()
    &&& b.private_ids() == a.private_ids()
    &&& b.private_texts() == a.private_texts()
    &&& b.biased() == a.biased()
    &&& b.warms_up() == a.warms_up()
    &&& b.max_tokens() == a.max_tokens()
    &&& b.watches_stops() == a.watches_stops()
    &&& b.stop_targets() == a.stop_targets()
    &&& !a.watches_stops() ==> b.stop_seen() == a.stop_seen()
    &&& b.n_past() == a.n_past()
    &&& b.start_past() == a.start_past()
    &&& b.generated() == a.generated()
    &&& b.forced() == a.forced()
    &&& b.sampled() == a.sampled()
    &&& b.prompt_tokens() == a.prompt_tokens()
    &&& b.warmup_tokens() == a.warmup_tokens()
    &&& b.bias_prompt_tokens() == a.bias_prompt_tokens()
    &&& b.stats_view() == a.stats_view()
}

proof fn lemma_outcome_from(a: Completion, m: Completion, b: Completion, text: Seq<char>, r: FragmentAction)
    requires
        fragment_outcome(m, b, text, r),
        unchanged_except_counts_and_buffer(a, m),
    ensures
        fragment_outcome(a, b, text, r),
{
}

/// As `unchanged_except_counts`, and no counter moved either; the bytes
/// waiting may differ.
pub open spec fn unchanged_except_counts_and_buffer(a: Completion, b: Completion) -> bool {
    &&& b.eot() == a.eot()
    &&& b.private_ids() == a.private_ids()
    &&& b.private_texts() == a.private_texts()
    &&& b.biased() == a.biased()
    &&& b.warms_up() == a.warms_up()
    &&& b.max_tokens() == a.max_tokens()
    &&& b.watches_stops() == a.watches_stops()
    &&& b.stop_targets() == a.stop_targets()
    &&& b.stop_seen() == a.stop_seen()
    &&& b.delivered() == a.delivered()
    &&& b.start_past() == a.start_past()
    &&& b.n_past() == a.n_past()
    &&& b.generated() == a.generated()
    &&& b.forced() == a.forced()
    &&& b.sampled() == a.sampled()
    &&& b.prompt_tokens() == a.prompt_tokens()
    &&& b.warmup_tokens() == a.warmup_tokens()
    &&& b.bias_prompt_tokens() == a.bias_prompt_tokens()
    &&& b.stats_view() == a.stats_view()
}

/// The settings, the stop-sequence state and the delivered fragments are as before.
pub open spec fn unchanged_except_counts(a: Completion, b: Completion) -> bool {
    &&& b.eot() == a.eot()
    &&& b.private_ids() == a.private_ids()
    &&& b.private_texts() == a.private_texts()
    &&& b.biased() == a.biased()
    &&& b.warms_up() == a.warms_up()
    &&& b.max_tokens() == a.max_tokens()
    &&& b.watches_stops() == a.watches_stops()
    &&& b.stop_targets() == a.stop_targets()
    &&& b.stop_seen() == a.stop_seen()
    &&& b.delivered() == a.delivered()
    &&& b.start_past() == a.start_past()
    &&& b.pending() == a.pending()
}

} // verus!
