//! Stop-sequence matching over the decoded text stream.
use vstd::prelude::*;

verus! {

/// `h` ends with `t`.
pub open spec fn ends_with(h: Seq<char>, t: Seq<char>) -> bool {
    t.len() <= h.len() && h.subrange(h.len() - t.len(), h.len() as int) == t
}

/// The first `k` characters of `t` are the last `k` characters of `h`.
pub open spec fn is_border(t: Seq<char>, h: Seq<char>, k: int) -> bool {
    0 <= k <= t.len() && k <= h.len() && t.subrange(0, k) == h.subrange(h.len() - k, h.len() as int)
}

/// `k` is the longest prefix of `t` that `h` ends with.
pub open spec fn longest_border(t: Seq<char>, h: Seq<char>, k: int) -> bool {
    is_border(t, h, k) && forall|m: int| k < m <= t.len() ==> !is_border(t, h, m)
}

/// Some non-empty target is a suffix of `h`.
pub open spec fn any_match(targets: Seq<Seq<char>>, h: Seq<char>) -> bool {
    exists|i: int| 0 <= i < targets.len() && targets[i].len() > 0 && ends_with(h, #[trigger] targets[i])
}

/// No prefix of `h`, `h` itself included, ends with a non-empty target.
pub open spec fn never_matched(targets: Seq<Seq<char>>, h: Seq<char>) -> bool {
    forall|i: int| 0 <= i <= h.len() ==> !any_match(targets, #[trigger] h.subrange(0, i))
}

/// `h` ends with a non-empty target and no shorter prefix of `h` does.
pub open spec fn first_match(targets: Seq<Seq<char>>, h: Seq<char>) -> bool {
    any_match(targets, h) && forall|i: int| 0 <= i < h.len() ==> !any_match(targets, #[trigger] h.subrange(0, i))
}

/// Text that reached `h0 + text[..n]` one character at a time, with no match
/// on the way, has never matched.
proof fn lemma_quiet_prefixes(targets: Seq<Seq<char>>, h0: Seq<char>, text: Seq<char>, n: int)
    requires
        never_matched(targets, h0),
        0 <= n <= text.len(),
        forall|i: int| 1 <= i <= n ==> !any_match(targets, #[trigger] (h0 + text.subrange(0, i))),
    ensures
        forall|m: int| 0 <= m < h0.len() + n ==> !any_match(targets, #[trigger] (h0 + text.subrange(0, n)).subrange(0, m)),
        n < text.len() ==> forall|m: int| 0 <= m <= h0.len() + n ==> !any_match(targets, #[trigger] (h0 + text.subrange(0, n)).subrange(0, m)),
{
    let h = h0 + text.subrange(0, n);
    assert forall|m: int| 0 <= m <= h0.len() + n && (m < h0.len() + n || n < text.len()) implies !any_match(targets, #[trigger] h.subrange(0, m)) by {
        if m <= h0.len() {
            assert(h.subrange(0, m) =~= h0.subrange(0, m));
        } else {
            assert(h.subrange(0, m) =~= h0 + text.subrange(0, m - h0.len()));
        }
    }
}

proof fn lemma_border_step(t: Seq<char>, h: Seq<char>, c: char, m: int)
    requires
        1 <= m <= t.len(),
    ensures
        is_border(t, h.push(c), m) == (is_border(t, h, m - 1) && t[m - 1] == c),
{
    let hc = h.push(c);
    if is_border(t, hc, m) {
        assert(t.subrange(0, m - 1) =~= t.subrange(0, m).subrange(0, m - 1));
        assert(h.subrange(h.len() - (m - 1), h.len() as int) =~= hc.subrange(hc.len() - m, hc.len() as int).subrange(0, m - 1));
        assert(t[m - 1] == t.subrange(0, m)[m - 1]);
    }
    if is_border(t, h, m - 1) && t[m - 1] == c {
        assert(t.subrange(0, m) =~= t.subrange(0, m - 1).push(c));
        assert(hc.subrange(hc.len() - m, hc.len() as int) =~= h.subrange(h.len() - (m - 1), h.len() as int).push(c));
    }
}

proof fn lemma_border_within(t: Seq<char>, h: Seq<char>, len: int, j: int)
    requires
        is_border(t, h, len),
        0 <= j <= len,
    ensures
        is_border(t, h, j) == (t.subrange(0, j) == t.subrange(len - j, len)),
{
    assert(t.subrange(len - j, len) =~= t.subrange(0, len).subrange(len - j, len));
    assert(h.subrange(h.len() - j, h.len() as int) =~= h.subrange(h.len() - len, h.len() as int).subrange(len - j, len));
}

proof fn lemma_border_full(t: Seq<char>, h: Seq<char>)
    ensures
        is_border(t, h, t.len() as int) == ends_with(h, t),
{
    assert(t.subrange(0, t.len() as int) =~= t);
}

/// One stop sequence and the length of its prefix that the text seen so far ends with.
pub struct Sequence {
    target: Vec<char>,
    matched: usize,
}

impl Sequence {
    pub closed spec fn target(&self) -> Seq<char> {
        self.target@
    }

    /// `matched` is the longest prefix of the target that `h` ends with.
    pub closed spec fn tracks(&self, h: Seq<char>) -> bool {
        longest_border(self.target@, h, self.matched as int)
    }

    fn prefix_repeats(&self, j: usize, start: usize) -> (r: bool)
        requires
            start + j <= self.target@.len(),
        ensures
            r == (self.target@.subrange(0, j as int) == self.target@.subrange(start as int, start + j)),
    {
        let n = self.target.len();
        let mut i: usize = 0;
        while i < j
            invariant
                n == self.target@.len(),
                i <= j,
                start + j <= self.target@.len(),
                forall|q: int| 0 <= q < i ==> #[trigger] self.target@[q] == self.target@[start + q],
                j <= self.target@.len(),
            decreases j - i,
        {
            if self.target[i] != self.target[start + i] {
                assert(self.target@.subrange(0, j as int)[i as int] != self.target@.subrange(start as int, start + j)[i as int]);
                return false;
            }
            i = i + 1;
        }
        assert(self.target@.subrange(0, j as int) =~= self.target@.subrange(start as int, start + j));
        true
    }

    /// Takes in one more character; true when the whole target is now matched.
    fn step(&mut self, c: char, Ghost(h): Ghost<Seq<char>>) -> (full: bool)
        requires
            old(self).tracks(h),
        ensures
            final(self).target() == old(self).target(),
            final(self).tracks(h.push(c)),
            full == (old(self).target().len() > 0 && ends_with(h.push(c), old(self).target())),
    {
        let ghost t = self.target@;
        let ghost hc = h.push(c);
        let n = self.target.len();
        let len = self.matched;
        let mut k: usize = if len < n { len + 1 } else { n };
        proof {
            assert forall|m: int| k < m <= t.len() implies !is_border(t, hc, m) by {
                lemma_border_step(t, h, c, m);
            }
        }
        let mut found = false;
        while k > 0 && !found
            invariant
                hc == h.push(c),
                found ==> k > 0 && is_border(t, hc, k as int),
                t == self.target@,
                len == self.matched,
                n == t.len(),
                longest_border(t, h, len as int),
                k <= n,
                k <= len + 1,
                forall|m: int| k < m <= t.len() ==> !is_border(t, hc, m),
            decreases 2 * k + (if found { 0int } else { 1int }),
        {
            proof {
                lemma_border_step(t, h, c, k as int);
                lemma_border_within(t, h, len as int, k - 1);
            }
            let ghost k0 = k as int;
            if self.target[k - 1] == c && self.prefix_repeats(k - 1, len - (k - 1)) {
                found = true;
            } else {
                assert(!is_border(t, hc, k0));
                k = k - 1;
            }
        }
        proof {
            assert(t.subrange(0, 0) =~= hc.subrange(hc.len() as int, hc.len() as int));
            lemma_border_full(t, hc);
        }
        self.matched = k;
        n > 0 && k == n
    }
}

impl Sequence {
    /// A stop sequence for `target`, with nothing matched yet.
    pub fn new(target: &String) -> (r: Sequence)
        ensures
            r.target() == target@,
            r.tracks(Seq::empty()),
    {
        let s = target.as_str();
        let n = s.unicode_len();
        let mut chars: Vec<char> = Vec::new();
        let mut i: usize = 0;
        while i < n
            invariant
                n == s@.len(),
                i <= n,
                chars@ == s@.subrange(0, i as int),
            decreases n - i,
        {
            chars.push(s.get_char(i));
            i = i + 1;
            assert(chars@ =~= s@.subrange(0, i as int));
        }
        assert(chars@ =~= s@);
        let r = Sequence { target: chars, matched: 0 };
        assert(r.target@.subrange(0, 0) =~= Seq::<char>::empty().subrange(0, 0));
        r
    }
}

/// The stop sequences of one generation and the text that they have seen.
pub struct SequenceSet {
    sequences: Vec<Sequence>,
    seen: Ghost<Seq<char>>,
}

impl SequenceSet {
    /// The stop sequences, in order.
    pub closed spec fn targets(&self) -> Seq<Seq<char>> {
        self.sequences@.map_values(|s: Sequence| s.target())
    }

    /// All text taken in so far.
    pub closed spec fn seen(&self) -> Seq<char> {
        self.seen@
    }

    pub closed spec fn wf(&self) -> bool {
        forall|i: int| 0 <= i < self.sequences@.len() ==> #[trigger] self.sequences@[i].tracks(self.seen@)
    }

    /// A matcher for `targets` that has seen no text yet.
    pub fn new(targets: &Vec<String>) -> (r: SequenceSet)
        ensures
            r.wf(),
            r.seen() == Seq::<char>::empty(),
            r.targets() == targets@.map_values(|t: String| t@),
            never_matched(r.targets(), r.seen()),
    {
        let mut sequences: Vec<Sequence> = Vec::new();
        let mut i: usize = 0;
        while i < targets.len()
            invariant
                i <= targets@.len(),
                sequences@.len() == i,
                forall|j: int| 0 <= j < i ==> #[trigger] sequences@[j].tracks(Seq::empty()),
                forall|j: int| 0 <= j < i ==> #[trigger] sequences@[j].target() == targets@[j]@,
            decreases targets@.len() - i,
        {
            sequences.push(Sequence::new(&targets[i]));
            i = i + 1;
        }
        let r = SequenceSet { sequences, seen: Ghost(Seq::empty()) };
        assert(r.targets() =~= targets@.map_values(|t: String| t@));
        assert forall|m: int| 0 <= m <= 0 implies !any_match(r.targets(), #[trigger] Seq::<char>::empty().subrange(0, m)) by {}
        r
    }

    /// Takes in one decoded text fragment, character by character, and
    /// reports whether some non-empty stop sequence became fully matched.
    /// On a match the rest of the fragment is left unread.
    pub fn advance(&mut self, text: &str) -> (stop: bool)
        requires
            old(self).wf(),
        ensures
            final(self).wf(),
            final(self).targets() == old(self).targets(),
            !stop ==> final(self).seen() == old(self).seen() + text@,
            !stop ==> forall|i: int|
                1 <= i <= text@.len() ==> !any_match(old(self).targets(), #[trigger] (old(self).seen() + text@.subrange(0, i))),
            never_matched(old(self).targets(), old(self).seen()) ==> (if stop {
                first_match(old(self).targets(), final(self).seen())
            } else {
                never_matched(old(self).targets(), final(self).seen())
            }),
            stop ==> exists|n: int|
                1 <= n <= text@.len() && final(self).seen() == old(self).seen() + text@.subrange(0, n)
                    && any_match(old(self).targets(), final(self).seen())
                    && forall|i: int|
                    1 <= i < n ==> !any_match(old(self).targets(), #[trigger] (old(self).seen() + text@.subrange(0, i))),
    {
        let ghost h0 = self.seen@;
        let ghost targets = self.targets();
        let n = text.unicode_len();
        let mut p: usize = 0;
        while p < n
            invariant
                n == text@.len(),
                p <= n,
                h0 == old(self).seen(),
                targets == old(self).targets(),
                self.wf(),
                self.targets() == targets,
                self.seen@ == h0 + text@.subrange(0, p as int),
                forall|i: int| 1 <= i <= p ==> !any_match(targets, #[trigger] (h0 + text@.subrange(0, i))),
            decreases n - p,
        {
            let c = text.get_char(p);
            let ghost h = self.seen@;
            let ghost hc = h.push(c);
            let mut full = false;
            let mut j: usize = 0;
            while j < self.sequences.len()
                invariant
                    j <= self.sequences@.len(),
                    self.seen@ == h,
                    hc == h.push(c),
                    self.targets() == targets,
                    forall|q: int| j <= q < self.sequences@.len() ==> #[trigger] self.sequences@[q].tracks(h),
                    forall|q: int| 0 <= q < j ==> #[trigger] self.sequences@[q].tracks(hc),
                    full == exists|q: int| 0 <= q < j && targets[q].len() > 0 && ends_with(hc, #[trigger] targets[q]),
                decreases self.sequences@.len() - j,
            {
                let ghost before = self.sequences@;
                assert(targets[j as int] == before[j as int].target());
                let hit = self.sequences[j].step(c, Ghost(h));
                proof {
                    assert forall|q: int| 0 <= q < self.sequences@.len() && q != j implies self.sequences@[q] == before[q] by {}
                    assert(self.targets() =~= targets);
                }
                let ghost full0 = full;
                full = full || hit;
                j = j + 1;
                proof {
                    if hit {
                        assert(targets[j - 1].len() > 0 && ends_with(hc, targets[j - 1]));
                    }
                    if full0 {
                        let q = choose|q: int| 0 <= q < j - 1 && targets[q].len() > 0 && ends_with(hc, #[trigger] targets[q]);
                        assert(0 <= q < j && targets[q].len() > 0 && ends_with(hc, targets[q]));
                    }
                }
            }
            self.seen = Ghost(hc);
            p = p + 1;
            proof {
                assert(hc =~= h0 + text@.subrange(0, p as int));
            }
            if full {
                proof {
                    let q = choose|q: int| 0 <= q < self.sequences@.len() && targets[q].len() > 0 && ends_with(hc, #[trigger] targets[q]);
                    assert(any_match(targets, hc));
                    if never_matched(targets, h0) {
                        lemma_quiet_prefixes(targets, h0, text@, p - 1);
                        let hp = h0 + text@.subrange(0, p - 1);
                        assert forall|m: int| 0 <= m < hc.len() implies !any_match(targets, #[trigger] hc.subrange(0, m)) by {
                            assert(hc.subrange(0, m) =~= hp.subrange(0, m));
                        }
                    }
                }
                return true;
            }
        }
        proof {
            if never_matched(targets, h0) {
                lemma_quiet_prefixes(targets, h0, text@, n as int);
                assert(h0 + text@.subrange(0, n as int) =~= h0 + text@);
                let h = h0 + text@;
                assert forall|m: int| 0 <= m <= h.len() implies !any_match(targets, #[trigger] h.subrange(0, m)) by {
                    if m == h.len() {
                        if n == 0 {
                            assert(h =~= h0);
                            assert(h0.subrange(0, h0.len() as int) =~= h0);
                        } else {
                            assert(h.subrange(0, m) =~= h0 + text@.subrange(0, n as int));
                        }
                    }
                }
            }
        }
        false
    }
}

} // verus!
