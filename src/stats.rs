//! Counters of one completion and the per-task accumulator that merges them.
use vstd::prelude::*;

verus! {

/// Addition that stops at the largest `u64` instead of wrapping.
pub open spec fn sat_add(a: u64, b: u64) -> u64 {
    if a + b > u64::MAX {
        u64::MAX
    } else {
        (a + b) as u64
    }
}

/// Token counts and wall-clock durations (in nanoseconds) of one completion.
#[derive(Clone, Copy, Debug, PartialEq, Eq, Structural)]
pub struct InferenceStats {
    pub prompt_tokens: u64,
    pub predict_tokens: u64,
    pub feed_prompt_nanos: u64,
    pub predict_nanos: u64,
}

/// Field-by-field sum of two records.
pub open spec fn stats_sum(a: InferenceStats, b: InferenceStats) -> InferenceStats {
    InferenceStats {
        prompt_tokens: sat_add(a.prompt_tokens, b.prompt_tokens),
        predict_tokens: sat_add(a.predict_tokens, b.predict_tokens),
        feed_prompt_nanos: sat_add(a.feed_prompt_nanos, b.feed_prompt_nanos),
        predict_nanos: sat_add(a.predict_nanos, b.predict_nanos),
    }
}

/// No counter of `b` is below the same counter of `a`.
pub open spec fn stats_le(a: InferenceStats, b: InferenceStats) -> bool {
    &&& a.prompt_tokens <= b.prompt_tokens
    &&& a.predict_tokens <= b.predict_tokens
    &&& a.feed_prompt_nanos <= b.feed_prompt_nanos
    &&& a.predict_nanos <= b.predict_nanos
}

fn saturating(a: u64, b: u64) -> (r: u64)
    ensures
        r == sat_add(a, b),
{
    if a > u64::MAX - b {
        u64::MAX
    } else {
        a + b
    }
}

impl InferenceStats {
    /// All counters zero.
    pub fn new() -> (r: InferenceStats)
        ensures
            r == (InferenceStats { prompt_tokens: 0, predict_tokens: 0, feed_prompt_nanos: 0, predict_nanos: 0 }),
    {
        InferenceStats { prompt_tokens: 0, predict_tokens: 0, feed_prompt_nanos: 0, predict_nanos: 0 }
    }

    /// Adds every counter of `other` to this record.
    pub fn add(&mut self, other: &InferenceStats)
        ensures
            *final(self) == stats_sum(*old(self), *other),
    {
        self.prompt_tokens = saturating(self.prompt_tokens, other.prompt_tokens);
        self.predict_tokens = saturating(self.predict_tokens, other.predict_tokens);
        self.feed_prompt_nanos = saturating(self.feed_prompt_nanos, other.feed_prompt_nanos);
        self.predict_nanos = saturating(self.predict_nanos, other.predict_nanos);
    }
}

/// What has been gathered for one task: the merged counters and the thread
/// count of the most recent completion.
#[derive(Clone, Copy, Debug, PartialEq, Eq, Structural)]
pub struct TaskStats {
    pub totals: InferenceStats,
    pub n_threads: u64,
}

/// Running statistics of every task, keyed by task name.
pub struct BackendStats {
    names: Vec<String>,
    entries: Vec<TaskStats>,
}

impl BackendStats {
    /// Task names are distinct and each has its entry.
    pub closed spec fn wf(&self) -> bool {
        &&& self.names@.len() == self.entries@.len()
        &&& forall|i: int, j: int|
            0 <= i < j < self.names@.len() ==> self.names@[i]@ != self.names@[j]@
    }

    /// The statistics recorded for each task name.
    pub closed spec fn view(&self) -> Map<Seq<char>, TaskStats> {
        Map::new(
            |k: Seq<char>| exists|i: int| 0 <= i < self.names@.len() && self.names@[i]@ == k,
            |k: Seq<char>|
                self.entries@[choose|i: int| 0 <= i < self.names@.len() && self.names@[i]@ == k],
        )
    }

    /// No task recorded yet.
    pub fn new() -> (r: BackendStats)
        ensures
            r.wf(),
            r@ == Map::<Seq<char>, TaskStats>::empty(),
    {
        let r = BackendStats { names: Vec::new(), entries: Vec::new() };
        assert(r@ =~= Map::<Seq<char>, TaskStats>::empty());
        r
    }

    fn position(&self, task: &String) -> (r: Option<usize>)
        requires
            self.wf(),
        ensures
            match r {
                Some(i) => i < self.names@.len() && self.names@[i as int]@ == task@,
                None => forall|i: int| 0 <= i < self.names@.len() ==> self.names@[i]@ != task@,
            },
    {
        let mut i: usize = 0;
        while i < self.names.len()
            invariant
                i <= self.names@.len(),
                forall|j: int| 0 <= j < i ==> self.names@[j]@ != task@,
            decreases self.names@.len() - i,
        {
            if self.names[i] == *task {
                return Some(i);
            }
            i = i + 1;
        }
        None
    }

    /// The statistics recorded for `task`, if any.
    pub fn get(&self, task: &String) -> (r: Option<TaskStats>)
        requires
            self.wf(),
        ensures
            r == (if self@.contains_key(task@) { Some(self@[task@]) } else { None::<TaskStats> }),
    {
        match self.position(task) {
            Some(i) => {
                assert(self@.contains_key(task@));
                Some(self.entries[i])
            },
            None => None,
        }
    }

    /// Merges the counters of one completion of `task` into its entry and
    /// records the thread count that it used.
    pub fn add(&mut self, task: &String, stats: &InferenceStats, n_threads: u64)
        requires
            old(self).wf(),
        ensures
            final(self).wf(),
            final(self)@ == old(self)@.insert(
                task@,
                TaskStats {
                    totals: if old(self)@.contains_key(task@) {
                        stats_sum(old(self)@[task@].totals, *stats)
                    } else {
                        *stats
                    },
                    n_threads,
                },
            ),
    {
        let ghost before = *old(self);
        let ghost new_entry = TaskStats {
            totals: if before@.contains_key(task@) {
                stats_sum(before@[task@].totals, *stats)
            } else {
                *stats
            },
            n_threads,
        };
        match self.position(task) {
            Some(i) => {
                proof {
                    assert(before@.contains_key(task@));
                    let c = choose|j: int| 0 <= j < before.names@.len() && before.names@[j]@ == task@;
                    assert(c == i);
                }
                let mut totals = self.entries[i].totals;
                totals.add(stats);
                self.entries.set(i, TaskStats { totals, n_threads });
                proof {
                    assert forall|k: Seq<char>| #[trigger] self@.contains_key(k) == before@.insert(task@, new_entry).contains_key(k) by {}
                    assert forall|k: Seq<char>| self@.contains_key(k) implies #[trigger] self@[k] == before@.insert(task@, new_entry)[k] by {
                        let c = choose|j: int| 0 <= j < self.names@.len() && self.names@[j]@ == k;
                        if k == task@ {
                            assert(c == i);
                        } else {
                            let d = choose|j: int| 0 <= j < before.names@.len() && before.names@[j]@ == k;
                            assert(c == d);
                        }
                    }
                    assert(self@ =~= before@.insert(task@, new_entry));
                }
            },
            None => {
                self.names.push(task.clone());
                self.entries.push(TaskStats { totals: *stats, n_threads });
                proof {
                    let n = before.names@.len() as int;
                    assert(!before@.contains_key(task@));
                    assert(self.names@[n]@ == task@);
                    assert forall|k: Seq<char>| #[trigger] self@.contains_key(k) == before@.insert(task@, new_entry).contains_key(k) by {
                        if before@.contains_key(k) {
                            let d = choose|j: int| 0 <= j < before.names@.len() && before.names@[j]@ == k;
                            assert(self.names@[d]@ == k);
                        }
                        if self@.contains_key(k) && k != task@ {
                            let c = choose|j: int| 0 <= j < self.names@.len() && self.names@[j]@ == k;
                            assert(before.names@[c]@ == k);
                        }
                    }
                    assert forall|k: Seq<char>| self@.contains_key(k) implies #[trigger] self@[k] == before@.insert(task@, new_entry)[k] by {
                        let c = choose|j: int| 0 <= j < self.names@.len() && self.names@[j]@ == k;
                        if k == task@ {
                            assert(c == n);
                        } else {
                            let d = choose|j: int| 0 <= j < before.names@.len() && before.names@[j]@ == k;
                            assert(self.names@[d]@ == k);
                            assert(c == d);
                        }
                    }
                    assert(self@ =~= before@.insert(task@, new_entry));
                }
            },
        }
    }
}

/// Merging a completion into the accumulator never lowers a counter of any
/// task, and never forgets a task.
pub proof fn lemma_add_monotone(
    before: Map<Seq<char>, TaskStats>,
    task: Seq<char>,
    stats: InferenceStats,
    n_threads: u64,
    k: Seq<char>,
)
    requires
        before.contains_key(k),
    ensures
        ({
            let after = before.insert(
                task,
                TaskStats {
                    totals: if before.contains_key(task) {
                        stats_sum(before[task].totals, stats)
                    } else {
                        stats
                    },
                    n_threads,
                },
            );
            after.contains_key(k) && stats_le(before[k].totals, after[k].totals)
        }),
{
}

} // verus!
