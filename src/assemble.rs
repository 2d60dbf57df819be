//! Building the prompt's token list from its fragments.
use vstd::prelude::*;
use crate::error::GenerateError;

verus! {

/// The tokens of each prompt fragment, in feeding order, each tokenized on
/// its own and without a beginning-of-text marker.
pub struct PromptParts {
    pub reminder: Option<Vec<u32>>,
    pub prefix: Option<Vec<u32>>,
    pub user: Vec<u32>,
    pub postfix: Option<Vec<u32>>,
}

pub open spec fn opt_tokens(o: Option<Vec<u32>>) -> Seq<u32> {
    match o {
        Some(v) => v@,
        None => Seq::empty(),
    }
}

impl PromptParts {
    /// The fragments in feeding order; an absent fragment has no tokens.
    pub open spec fn fragments(&self) -> Seq<Seq<u32>> {
        seq![opt_tokens(self.reminder), opt_tokens(self.prefix), self.user@, opt_tokens(self.postfix)]
    }
}

/// All fragments one after another.
pub open spec fn joined(fr: Seq<Seq<u32>>) -> Seq<u32>
    decreases fr.len(),
{
    if fr.len() == 0 {
        Seq::empty()
    } else {
        joined(fr.drop_last()) + fr.last()
    }
}

/// All fragments one after another, with `bos` (when there is one) placed
/// just before the first fragment that has any token.
pub open spec fn with_bos(fr: Seq<Seq<u32>>, bos: Option<u32>) -> Seq<u32>
    decreases fr.len(),
{
    if fr.len() == 0 {
        Seq::empty()
    } else if bos is Some && joined(fr.drop_last()).len() == 0 && fr.last().len() > 0 {
        seq![bos->0] + fr.last()
    } else {
        with_bos(fr.drop_last(), bos) + fr.last()
    }
}

/// Some token of `user` is one of `private_ids`.
pub open spec fn has_private(user: Seq<u32>, private_ids: Seq<u32>) -> bool {
    exists|i: int| 0 <= i < user.len() && private_ids.contains(#[trigger] user[i])
}

/// The marker starts the prompt only where the model has one and nothing
/// has been fed to the session yet.
pub open spec fn bos_for(bos: Option<u32>, n_past: nat) -> Option<u32> {
    if n_past == 0 { bos } else { None }
}

/// The prompt's tokens: reminder, prefix, user prompt and postfix, with the
/// model's beginning-of-text marker attached to the first non-empty fragment
/// when `n_past` is zero. Fails with `IllegalToken`, and nothing else, when
/// the user's tokens hold a private id; the other fragments are not checked.
pub fn assemble(parts: &PromptParts, bos: Option<u32>, n_past: usize, private_ids: &Vec<u32>) -> (r: Result<
    Vec<u32>,
    GenerateError,
>)
    ensures
        has_private(parts.user@, private_ids@) ==> r == Err::<Vec<u32>, GenerateError>(GenerateError::IllegalToken),
        !has_private(parts.user@, private_ids@) ==> r is Ok && r->Ok_0@ == with_bos(parts.fragments(), bos_for(bos, n_past as nat)),
{
    let mut i: usize = 0;
    while i < parts.user.len()
        invariant
            i <= parts.user@.len(),
            forall|j: int| 0 <= j < i ==> !private_ids@.contains(#[trigger] parts.user@[j]),
        decreases parts.user@.len() - i,
    {
        if id_listed(private_ids, parts.user[i]) {
            return Err(GenerateError::IllegalToken);
        }
        i = i + 1;
    }
    let marker = if n_past == 0 { bos } else { None };
    let mut tokens: Vec<u32> = Vec::new();
    let ghost fr = parts.fragments();
    append_fragment(&mut tokens, &parts.reminder, marker, Ghost(fr), 0);
    append_fragment(&mut tokens, &parts.prefix, marker, Ghost(fr), 1);
    let user = Some(parts.user.clone());
    append_fragment(&mut tokens, &user, marker, Ghost(fr), 2);
    append_fragment(&mut tokens, &parts.postfix, marker, Ghost(fr), 3);
    assert(fr.subrange(0, 4) =~= fr);
    Ok(tokens)
}

pub(crate) fn id_listed(ids: &Vec<u32>, t: u32) -> (r: bool)
    ensures
        r == ids@.contains(t),
{
    let mut i: usize = 0;
    while i < ids.len()
        invariant
            i <= ids@.len(),
            forall|j: int| 0 <= j < i ==> ids@[j] != t,
        decreases ids@.len() - i,
    {
        if ids[i] == t {
            return true;
        }
        i = i + 1;
    }
    false
}

/// Appends fragment `k` of `fr`, with the marker when nothing came before it.
fn append_fragment(tokens: &mut Vec<u32>, frag: &Option<Vec<u32>>, bos: Option<u32>, Ghost(fr): Ghost<Seq<Seq<u32>>>, k: usize)
    requires
        k < fr.len(),
        fr[k as int] == opt_tokens(*frag),
        old(tokens)@ == with_bos(fr.subrange(0, k as int), bos),
    ensures
        final(tokens)@ == with_bos(fr.subrange(0, k + 1), bos),
{
    let ghost pre = fr.subrange(0, k as int);
    let ghost cur = fr.subrange(0, k + 1);
    assert(cur.drop_last() =~= pre);
    proof {
        lemma_with_bos_empty(pre, bos);
    }
    match frag {
        Some(v) => {
            if tokens.len() == 0 && v.len() > 0 {
                match bos {
                    Some(b) => tokens.push(b),
                    None => {},
                }
            }
            let mut j: usize = 0;
            let ghost start = tokens@;
            while j < v.len()
                invariant
                    j <= v@.len(),
                    tokens@ == start + v@.subrange(0, j as int),
                decreases v@.len() - j,
            {
                tokens.push(v[j]);
                j = j + 1;
                assert(tokens@ =~= start + v@.subrange(0, j as int));
            }
            assert(v@.subrange(0, v@.len() as int) =~= v@);
            assert(tokens@ =~= with_bos(cur, bos));
        },
        None => {
            assert(tokens@ =~= with_bos(cur, bos));
        },
    }
}

proof fn lemma_with_bos_empty(fr: Seq<Seq<u32>>, bos: Option<u32>)
    ensures
        (with_bos(fr, bos).len() == 0) == (joined(fr).len() == 0),
    decreases fr.len(),
{
    if fr.len() > 0 {
        lemma_with_bos_empty(fr.drop_last(), bos);
    }
}

/// The ids of the private tokens, each given as the tokens that its text
/// tokenized to. Fails with `Config` when some text is not exactly one token.
pub fn private_token_ids(tokenized: &Vec<Vec<u32>>) -> (r: Result<Vec<u32>, GenerateError>)
    ensures
        (forall|i: int| 0 <= i < tokenized@.len() ==> #[trigger] tokenized@[i]@.len() == 1) ==> r is Ok && r->Ok_0@
            == tokenized@.map_values(|t: Vec<u32>| t@[0]),
        !(forall|i: int| 0 <= i < tokenized@.len() ==> #[trigger] tokenized@[i]@.len() == 1) ==> r
            == Err::<Vec<u32>, GenerateError>(GenerateError::Config),
{
    let mut ids: Vec<u32> = Vec::new();
    let mut i: usize = 0;
    while i < tokenized.len()
        invariant
            i <= tokenized@.len(),
            forall|j: int| 0 <= j < i ==> #[trigger] tokenized@[j]@.len() == 1,
            ids@ == tokenized@.subrange(0, i as int).map_values(|t: Vec<u32>| t@[0]),
        decreases tokenized@.len() - i,
    {
        if tokenized[i].len() != 1 {
            return Err(GenerateError::Config);
        }
        ids.push(tokenized[i][0]);
        i = i + 1;
        assert(ids@ =~= tokenized@.subrange(0, i as int).map_values(|t: Vec<u32>| t@[0]));
    }
    assert(tokenized@.subrange(0, i as int) =~= tokenized@);
    Ok(ids)
}

} // verus!
