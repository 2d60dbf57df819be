//! The parts of recalling and remembering that do not touch the store:
//! joining recalled items into a reminder and the shapes of the requests.
use vstd::prelude::*;

verus! {

/// The items one after another, a newline between each two.
pub open spec fn lines_joined(items: Seq<Seq<char>>) -> Seq<char>
    decreases items.len(),
{
    if items.len() == 0 {
        Seq::empty()
    } else if items.len() == 1 {
        items[0]
    } else {
        lines_joined(items.drop_last()) + seq!['\n'] + items.last()
    }
}

/// The reminder prompt made of recalled items, a newline between each two.
pub fn join_memories(items: &Vec<String>) -> (r: String)
    ensures
        r@ == lines_joined(items@.map_values(|s: String| s@)),
{
    let ghost views = items@.map_values(|s: String| s@);
    let mut out = String::new();
    let mut i: usize = 0;
    while i < items.len()
        invariant
            i <= items@.len(),
            views == items@.map_values(|s: String| s@),
            out@ == lines_joined(views.subrange(0, i as int)),
        decreases items@.len() - i,
    {
        if i > 0 {
            out.append("\n");
            proof {
                reveal_strlit("\n");
            }
        }
        out.append(items[i].as_str());
        i = i + 1;
        proof {
            let pre = views.subrange(0, i as int);
            assert(pre.drop_last() =~= views.subrange(0, i - 1));
        }
    }
    assert(views.subrange(0, i as int) =~= views);
    out
}

/// A user may reach memory `memory_name`: their claims name no memories, or
/// name this one.
pub fn authorize(claimed: &Option<Vec<String>>, memory_name: &String) -> (r: bool)
    ensures
        r == match claimed {
            Some(names) => exists|i: int| 0 <= i < names@.len() && names@[i]@ == memory_name@,
            None => true,
        },
{
    match claimed {
        Some(names) => {
            let mut i: usize = 0;
            while i < names.len()
                invariant
                    claimed is Some && claimed->0 == *names,
                    i <= names@.len(),
                    forall|j: int| 0 <= j < i ==> names@[j]@ != memory_name@,
                decreases names@.len() - i,
            {
                if names[i] == *memory_name {
                    assert(names@[i as int]@ == memory_name@);
                    return true;
                }
                i = i + 1;
            }
            false
        },
        None => true,
    }
}

/// A request to recall the items nearest to a prompt.
pub struct RecallRequest {
    pub prompt: String,
    pub n: Option<usize>,
}

/// The items recalled, nearest first.
pub struct RecallResponse {
    pub memories: Vec<String>,
}

/// The answer to a request to remember a text.
pub struct RememberResponse {}

impl RecallRequest {
    /// How many items to recall: the requested count, else one.
    pub fn limit(&self) -> (r: usize)
        ensures
            r == (match self.n {
                Some(n) => n,
                None => 1,
            }),
    {
        match self.n {
            Some(n) => n,
            None => 1,
        }
    }
}

} // verus!
