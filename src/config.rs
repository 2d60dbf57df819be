//! What a task configures for its completions.
use vstd::prelude::*;
use crate::session::GenerationSettings;

verus! {

/// How a task constrains its output.
#[derive(Clone, Debug)]
pub enum BiaserConfig {
    /// A JSON schema, given as JSON text.
    JsonSchema(String),
    /// The path of a file that holds a JSON schema.
    JsonSchemaFile(String),
}

/// How a task uses its memory store.
#[derive(Clone, Debug)]
pub struct MemorizationConfig {
    /// How many stored items to recall before each prompt.
    pub retrieve: Option<usize>,
    /// Store each prompt after its completion.
    pub store_prompts: bool,
}

/// The prompt template and limits of a task. Sampling knobs live with the driver.
#[derive(Clone, Debug)]
pub struct TaskConfig {
    pub model: String,
    pub memory: Option<String>,
    pub prefix: Option<String>,
    pub postfix: Option<String>,
    pub bias_prompt: Option<String>,
    pub biaser: Option<BiaserConfig>,
    pub stop_sequences: Vec<String>,
    pub private_tokens: Option<Vec<String>>,
    pub memorization: Option<MemorizationConfig>,
    pub max_tokens: Option<usize>,
}

pub(crate) fn copy_strings(v: &Vec<String>) -> (r: Vec<String>)
    ensures
        r@ == v@,
{
    let mut r: Vec<String> = Vec::new();
    let mut i: usize = 0;
    while i < v.len()
        invariant
            i <= v@.len(),
            r@ == v@.subrange(0, i as int),
        decreases v@.len() - i,
    {
        r.push(v[i].clone());
        i = i + 1;
        assert(r@ =~= v@.subrange(0, i as int));
    }
    assert(v@.subrange(0, i as int) =~= v@);
    r
}

impl TaskConfig {
    /// The number of items to recall before a prompt: the configured count,
    /// where it is above zero and a memory store is at hand.
    pub fn recall_count(&self, has_memory: bool) -> (r: Option<usize>)
        ensures
            r == (match self.memorization {
                Some(m) => match m.retrieve {
                    Some(k) => if k > 0 && has_memory { Some(k) } else { None },
                    None => None,
                },
                None => None::<usize>,
            }),
    {
        match &self.memorization {
            Some(m) => match m.retrieve {
                Some(k) => if k > 0 && has_memory { Some(k) } else { None },
                None => None,
            },
            None => None,
        }
    }

    /// The prompt is stored after its completion.
    pub fn stores_prompts(&self, has_memory: bool) -> (r: bool)
        ensures
            r == (has_memory && self.memorization is Some && self.memorization->0.store_prompts),
    {
        match &self.memorization {
            Some(m) => has_memory && m.store_prompts,
            None => false,
        }
    }

    /// The private token texts; none where none are configured.
    pub fn private_texts(&self) -> (r: Vec<String>)
        ensures
            r@ == (match self.private_tokens {
                Some(v) => v@,
                None => Seq::<String>::empty(),
            }),
    {
        match &self.private_tokens {
            Some(v) => copy_strings(v),
            None => Vec::new(),
        }
    }

    /// What the generation loop reads, given the model's end-of-text token
    /// and the private tokens' ids.
    pub fn generation_settings(&self, eot: u32, private_ids: Vec<u32>) -> (r: GenerationSettings)
        ensures
            r.eot == eot,
            r.private_ids@ == private_ids@,
            r.private_texts@ == (match self.private_tokens {
                Some(v) => v@,
                None => Seq::<String>::empty(),
            }),
            r.biased == self.biaser is Some,
            r.max_tokens == self.max_tokens,
            r.stop_sequences@ == self.stop_sequences@,
            r.warm_up == self.bias_prompt is Some,
    {
        GenerationSettings {
            eot,
            private_ids,
            private_texts: self.private_texts(),
            biased: self.biaser.is_some(),
            max_tokens: self.max_tokens,
            stop_sequences: copy_strings(&self.stop_sequences),
            warm_up: self.bias_prompt.is_some(),
        }
    }
}

} // verus!
