use poly_backend::assemble::{assemble, private_token_ids, PromptParts};
use poly_backend::config::{MemorizationConfig, TaskConfig};
use poly_backend::error::GenerateError;
use poly_backend::memory::{authorize, join_memories, RecallRequest};
use poly_backend::sequence::SequenceSet;
use poly_backend::session::{
    BiasEntry, Choice, Completion, FragmentAction, GenerationSettings, InferenceFeedback, Phase,
};
use poly_backend::stats::{BackendStats, InferenceStats};

const EOT: u32 = 2;
const BOS: u32 = 1;

fn settings(biased: bool, max_tokens: Option<usize>, stops: &[&str], private: &[&str], private_ids: Vec<u32>) -> GenerationSettings {
    GenerationSettings {
        eot: EOT,
        private_ids,
        private_texts: private.iter().map(|s| s.to_string()).collect(),
        biased,
        max_tokens,
        stop_sequences: stops.iter().map(|s| s.to_string()).collect(),
        warm_up: false,
    }
}

fn task() -> TaskConfig {
    TaskConfig {
        model: "m".to_string(),
        memory: None,
        prefix: None,
        postfix: None,
        bias_prompt: None,
        biaser: None,
        stop_sequences: vec![],
        private_tokens: None,
        memorization: None,
        max_tokens: None,
    }
}

#[test]
fn stop_sequence_spans_fragments() {
    let mut set = SequenceSet::new(&vec!["\nUser:".to_string()]);
    assert!(!set.advance("Hi there"));
    assert!(!set.advance("\nUs"));
    assert!(set.advance("er: more"));
}

#[test]
fn stop_sequence_falls_back_on_overlap() {
    let mut set = SequenceSet::new(&vec!["aab".to_string()]);
    assert!(!set.advance("a"));
    assert!(!set.advance("a"));
    assert!(!set.advance("a"));
    assert!(set.advance("b"));
}

#[test]
fn stop_sequence_absent() {
    let mut set = SequenceSet::new(&vec!["END".to_string(), "".to_string()]);
    assert!(!set.advance("the end is near"));
    assert!(!set.advance("EN"));
    assert!(set.advance("D"));
}

#[test]
fn bos_goes_to_first_non_empty_fragment() {
    let parts = PromptParts { reminder: Some(vec![]), prefix: Some(vec![10, 11]), user: vec![], postfix: Some(vec![12]) };
    let tokens = assemble(&parts, Some(BOS), 0, &vec![]).unwrap();
    assert_eq!(tokens, vec![BOS, 10, 11, 12]);
}

#[test]
fn bos_skips_empty_prefix_and_user() {
    let parts = PromptParts { reminder: None, prefix: Some(vec![]), user: vec![], postfix: Some(vec![12, 13]) };
    assert_eq!(assemble(&parts, Some(BOS), 0, &vec![]).unwrap(), vec![BOS, 12, 13]);
}

#[test]
fn no_bos_after_context_or_without_marker() {
    let parts = PromptParts { reminder: Some(vec![7]), prefix: Some(vec![8]), user: vec![9], postfix: None };
    assert_eq!(assemble(&parts, Some(BOS), 5, &vec![]).unwrap(), vec![7, 8, 9]);
    assert_eq!(assemble(&parts, None, 0, &vec![]).unwrap(), vec![7, 8, 9]);
    assert_eq!(assemble(&parts, Some(BOS), 0, &vec![]).unwrap(), vec![BOS, 7, 8, 9]);
}

#[test]
fn private_token_in_user_prompt_is_illegal() {
    let parts = PromptParts { reminder: None, prefix: Some(vec![99]), user: vec![5, 99, 6], postfix: None };
    assert_eq!(assemble(&parts, Some(BOS), 0, &vec![99]), Err(GenerateError::IllegalToken));
    let trusted = PromptParts { reminder: None, prefix: Some(vec![99]), user: vec![5, 6], postfix: None };
    assert_eq!(assemble(&trusted, Some(BOS), 0, &vec![99]).unwrap(), vec![BOS, 99, 5, 6]);
}

#[test]
fn private_token_must_be_one_id() {
    assert_eq!(private_token_ids(&vec![vec![4], vec![9]]), Ok(vec![4, 9]));
    assert_eq!(private_token_ids(&vec![vec![4], vec![9, 10]]), Err(GenerateError::Config));
    assert_eq!(private_token_ids(&vec![vec![]]), Err(GenerateError::Config));
}

#[test]
fn zero_token_limit_takes_no_token() {
    let mut c = Completion::new(settings(false, Some(0), &[], &[], vec![]), 0);
    c.prompt_fed(4, 10);
    assert_eq!(c.current_phase(), Phase::Generate);
    assert!(!c.should_continue());
    assert_eq!(c.stats().predict_tokens, 0);
}

#[test]
fn forced_end_of_text_finishes_before_sampling() {
    let mut c = Completion::new(settings(true, None, &[], &[], vec![]), 0);
    c.prompt_fed(3, 0);
    let choice = c.decide(&vec![BiasEntry { token: EOT, positive: true }]);
    assert_eq!(choice, Choice::Finish);
    assert!(!c.forced_token(EOT, 0));
    assert!(!c.should_continue());
    assert_eq!(c.position(), 3);
}

#[test]
fn forced_token_shortcut_feeds_one_token() {
    let x: u32 = 42;
    let mut c = Completion::new(settings(true, None, &[], &[], vec![]), 0);
    c.prompt_fed(5, 0);
    assert!(c.should_continue());
    assert_eq!(c.decide(&vec![BiasEntry { token: x, positive: true }]), Choice::Feed(x));
    assert!(c.forced_token(x, 7));
    assert_eq!(c.fragment(&"X".to_string()), FragmentAction::Deliver);
    c.feedback(InferenceFeedback::Continue);
    assert!(c.should_continue());
    assert_eq!(c.decide(&vec![BiasEntry { token: EOT, positive: true }]), Choice::Finish);
    assert!(!c.forced_token(EOT, 0));
    assert_eq!(c.position(), 6);
    assert_eq!(c.stats().prompt_tokens, 6);
}

#[test]
fn private_ids_are_stripped_before_the_shortcut() {
    let c = Completion::new(settings(true, None, &[], &[], vec![7]), 0);
    let bias = vec![BiasEntry { token: 7, positive: true }, BiasEntry { token: 8, positive: true }];
    assert_eq!(c.decide(&bias), Choice::Feed(8));
    let many = vec![
        BiasEntry { token: 3, positive: true },
        BiasEntry { token: 7, positive: true },
        BiasEntry { token: 8, positive: false },
    ];
    assert_eq!(c.decide(&many), Choice::Sample(vec![0, 2]));
    assert_eq!(c.decide(&vec![]), Choice::Sample(vec![]));
    assert_eq!(c.decide(&vec![BiasEntry { token: 8, positive: false }]), Choice::Sample(vec![0]));
}

#[test]
fn halt_ends_generation() {
    let mut c = Completion::new(settings(false, None, &[], &[], vec![]), 0);
    c.prompt_fed(1, 0);
    assert!(c.sampled_token(30, 5));
    assert_eq!(c.fragment(&"a".to_string()), FragmentAction::Deliver);
    c.feedback(InferenceFeedback::Halt);
    assert!(!c.should_continue());
    assert_eq!(c.current_phase(), Phase::Finished);
}

#[test]
fn private_text_is_suppressed() {
    let mut c = Completion::new(settings(false, None, &[], &["<SECRET>"], vec![]), 0);
    c.prompt_fed(1, 0);
    assert_eq!(c.fragment(&"<SECRET>".to_string()), FragmentAction::Suppress);
    assert_eq!(c.fragment(&"<SECRET> ".to_string()), FragmentAction::Deliver);
}

#[test]
fn stop_sequence_ends_generation_without_delivery() {
    let mut c = Completion::new(settings(false, Some(64), &["\nUser:"], &[], vec![]), 0);
    c.prompt_fed(3, 0);
    assert_eq!(c.fragment(&"Hello".to_string()), FragmentAction::Deliver);
    assert_eq!(c.fragment(&"\nUser".to_string()), FragmentAction::Deliver);
    assert_eq!(c.fragment(&":".to_string()), FragmentAction::Stop);
    assert!(!c.should_continue());
}

#[test]
fn biaser_disables_stop_sequences() {
    let mut c = Completion::new(settings(true, Some(1), &["x"], &[], vec![]), 0);
    c.prompt_fed(3, 0);
    assert_eq!(c.fragment(&"x".to_string()), FragmentAction::Deliver);
    assert!(c.sampled_token(5, 0));
    assert!(c.should_continue());
}

#[test]
fn token_limit_counts_generated_tokens() {
    let mut c = Completion::new(settings(false, Some(2), &[], &[], vec![]), 10);
    c.prompt_fed(3, 100);
    assert!(c.sampled_token(5, 20));
    assert!(c.should_continue());
    assert!(c.sampled_token(6, 30));
    assert!(!c.should_continue());
    assert_eq!(c.position(), 15);
    let s = c.stats();
    assert_eq!((s.prompt_tokens, s.predict_tokens, s.feed_prompt_nanos, s.predict_nanos), (3, 2, 100, 50));
}

#[test]
fn warm_up_then_bias_prompt() {
    let mut st = settings(true, None, &[], &[], vec![]);
    st.warm_up = true;
    let mut c = Completion::new(st, 0);
    c.prompt_fed(4, 0);
    assert_eq!(c.current_phase(), Phase::WarmUp);
    c.warm_up_done(3, &InferenceStats { prompt_tokens: 0, predict_tokens: 3, feed_prompt_nanos: 0, predict_nanos: 9 });
    assert_eq!(c.current_phase(), Phase::BiasPrompt);
    c.bias_prompt_fed(2, 1);
    assert_eq!(c.current_phase(), Phase::Generate);
    assert_eq!(c.position(), 9);
}

#[test]
fn inference_failure_ends_quietly() {
    let mut c = Completion::new(settings(false, None, &[], &[], vec![]), 0);
    c.prompt_fed(2, 0);
    c.inference_failed();
    assert!(!c.should_continue());
    assert_eq!(c.stats().prompt_tokens, 2);
}

#[test]
fn stats_merge_per_task() {
    let mut acc = BackendStats::new();
    let a = InferenceStats { prompt_tokens: 3, predict_tokens: 4, feed_prompt_nanos: 5, predict_nanos: 6 };
    acc.add(&"chat".to_string(), &a, 4);
    acc.add(&"chat".to_string(), &a, 8);
    acc.add(&"other".to_string(), &a, 2);
    let chat = acc.get(&"chat".to_string()).unwrap();
    assert_eq!(chat.totals, InferenceStats { prompt_tokens: 6, predict_tokens: 8, feed_prompt_nanos: 10, predict_nanos: 12 });
    assert_eq!(chat.n_threads, 8);
    assert_eq!(acc.get(&"other".to_string()).unwrap().totals, a);
    assert!(acc.get(&"none".to_string()).is_none());
}

#[test]
fn stats_saturate() {
    let mut s = InferenceStats { prompt_tokens: u64::MAX - 1, predict_tokens: 0, feed_prompt_nanos: 0, predict_nanos: 0 };
    s.add(&InferenceStats { prompt_tokens: 5, predict_tokens: 1, feed_prompt_nanos: 2, predict_nanos: 3 });
    assert_eq!(s, InferenceStats { prompt_tokens: u64::MAX, predict_tokens: 1, feed_prompt_nanos: 2, predict_nanos: 3 });
}

#[test]
fn recalled_items_join_with_newlines() {
    assert_eq!(join_memories(&vec!["The sky is blue.".to_string()]), "The sky is blue.");
    assert_eq!(join_memories(&vec!["a".to_string(), "b".to_string(), "c".to_string()]), "a\nb\nc");
    assert_eq!(join_memories(&vec![]), "");
}

#[test]
fn recall_limit_defaults_to_one() {
    assert_eq!(RecallRequest { prompt: "p".to_string(), n: None }.limit(), 1);
    assert_eq!(RecallRequest { prompt: "p".to_string(), n: Some(3) }.limit(), 3);
}

#[test]
fn recall_only_with_positive_count_and_memory() {
    let mut t = task();
    assert_eq!(t.recall_count(true), None);
    t.memorization = Some(MemorizationConfig { retrieve: Some(0), store_prompts: true });
    assert_eq!(t.recall_count(true), None);
    assert!(t.stores_prompts(true));
    assert!(!t.stores_prompts(false));
    t.memorization = Some(MemorizationConfig { retrieve: Some(2), store_prompts: false });
    assert_eq!(t.recall_count(true), Some(2));
    assert_eq!(t.recall_count(false), None);
    assert!(!t.stores_prompts(true));
}

#[test]
fn settings_follow_the_task() {
    let mut t = task();
    t.stop_sequences = vec!["\nUser:".to_string()];
    t.private_tokens = Some(vec!["<SECRET>".to_string()]);
    t.max_tokens = Some(64);
    let s = t.generation_settings(EOT, vec![77]);
    assert_eq!(s.private_texts, vec!["<SECRET>".to_string()]);
    assert_eq!(s.stop_sequences, vec!["\nUser:".to_string()]);
    assert!(!s.biased && !s.warm_up);
    assert_eq!(s.max_tokens, Some(64));
}

#[test]
fn memory_access_follows_claims() {
    let name = "notes".to_string();
    assert!(authorize(&None, &name));
    assert!(authorize(&Some(vec!["a".to_string(), "notes".to_string()]), &name));
    assert!(!authorize(&Some(vec!["a".to_string()]), &name));
    assert!(!authorize(&Some(vec![]), &name));
}

#[test]
fn token_bytes_wait_for_whole_characters() {
    let mut c = Completion::new(settings(false, None, &[], &[], vec![]), 0);
    c.prompt_fed(1, 0);
    assert!(c.sampled_token(40, 0));
    assert_eq!(c.token_text(&vec![0xC3]), None);
    assert!(c.sampled_token(41, 0));
    assert_eq!(c.token_text(&vec![0xA9, b'!']), Some(("é!".to_string(), FragmentAction::Deliver)));
}

#[test]
fn undecodable_lead_bytes_are_dropped() {
    let mut c = Completion::new(settings(false, None, &["b"], &[], vec![]), 0);
    c.prompt_fed(1, 0);
    assert_eq!(c.token_text(&vec![0xFF, b'a']), Some(("a".to_string(), FragmentAction::Deliver)));
    assert_eq!(c.token_text(&vec![b'b']), Some(("b".to_string(), FragmentAction::Stop)));
}
