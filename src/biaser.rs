//! Biasers: the null biaser, which admits everything, and a JSON-schema
//! biaser, which admits only tokens that keep the output a prefix of a
//! compact JSON document of the schema.
//!
//! A schema is an object whose properties come in order, each a string, an
//! integer or a boolean. It compiles to a template: literal slots (`{"name":`,
//! `,"age":`, `}`) between value slots.
use vstd::prelude::*;
use crate::session::BiasEntry;

verus! {

/// The type of one property.
#[derive(Clone, Copy, Debug, PartialEq, Eq, Structural)]
pub enum ValueKind {
    Str,
    Int,
    Bool,
}

/// One slot of a template: fixed text, or a value of a kind.
#[derive(Clone, Debug)]
pub enum Slot {
    Lit(Vec<char>),
    Val(ValueKind),
}

pub open spec fn is_digit(c: char) -> bool {
    '0' <= c && c <= '9'
}

/// A character that may stand inside a JSON string without an escape.
pub open spec fn plain_char(c: char) -> bool {
    c != '"' && c != '\\' && c >= ' '
}

/// JSON integer text: an optional minus, then `0` or digits without a leading zero.
pub open spec fn int_text(v: Seq<char>) -> bool {
    let d = unsigned_part(v);
    d.len() >= 1 && (forall|k: int| 0 <= k < d.len() ==> is_digit(#[trigger] d[k])) && (d[0] != '0' || d.len() == 1)
}

/// The text without its leading minus sign, if any.
pub open spec fn unsigned_part(v: Seq<char>) -> Seq<char> {
    if v.len() > 0 && v[0] == '-' {
        v.drop_first()
    } else {
        v
    }
}

/// JSON string text without escapes.
pub open spec fn str_text(v: Seq<char>) -> bool {
    v.len() >= 2 && v[0] == '"' && v.last() == '"' && forall|k: int| 1 <= k < v.len() - 1 ==> plain_char(#[trigger] v[k])
}

pub open spec fn true_text() -> Seq<char> {
    seq!['t', 'r', 'u', 'e']
}

pub open spec fn false_text() -> Seq<char> {
    seq!['f', 'a', 'l', 's', 'e']
}

/// `v` is a complete piece for slot `s`.
pub open spec fn piece_ok(s: Slot, v: Seq<char>) -> bool {
    match s {
        Slot::Lit(l) => v == l@,
        Slot::Val(ValueKind::Str) => str_text(v),
        Slot::Val(ValueKind::Int) => int_text(v),
        Slot::Val(ValueKind::Bool) => v == true_text() || v == false_text(),
    }
}

/// The pieces one after another.
pub open spec fn flatten(pieces: Seq<Seq<char>>) -> Seq<char>
    decreases pieces.len(),
{
    if pieces.len() == 0 {
        Seq::empty()
    } else {
        flatten(pieces.drop_last()) + pieces.last()
    }
}

/// `text` is a document of the template: one complete piece per slot.
pub open spec fn conforms(tpl: Seq<Slot>, text: Seq<char>) -> bool {
    exists|pieces: Seq<Seq<char>>|
        pieces.len() == tpl.len() && (forall|i: int| 0 <= i < tpl.len() ==> piece_ok(tpl[i], #[trigger] pieces[i]))
            && text == flatten(pieces)
}

/// `text` can be continued into a document of the template.
pub open spec fn extends_to_conforming(tpl: Seq<Slot>, text: Seq<char>) -> bool {
    exists|rest: Seq<char>| conforms(tpl, text + rest)
}

/// Every literal is non-empty, the last slot is a literal, and a literal
/// follows every value.
pub open spec fn template_wf(tpl: Seq<Slot>) -> bool {
    &&& tpl.len() > 0
    &&& tpl.last() is Lit
    &&& forall|i: int|
        0 <= i < tpl.len() && (#[trigger] tpl[i]) is Lit ==> 0 < tpl[i]->Lit_0@.len() <= usize::MAX
    &&& forall|i: int| 0 <= i < tpl.len() - 1 && (#[trigger] tpl[i]) is Val ==> tpl[i + 1] is Lit
}

pub proof fn lemma_flatten_append(a: Seq<Seq<char>>, b: Seq<Seq<char>>)
    ensures
        flatten(a + b) == flatten(a) + flatten(b),
    decreases b.len(),
{
    if b.len() == 0 {
        assert(a + b =~= a);
        assert(flatten(b) =~= Seq::<char>::empty());
        assert(flatten(a) + flatten(b) =~= flatten(a));
    } else {
        lemma_flatten_append(a, b.drop_last());
        assert((a + b).drop_last() =~= a + b.drop_last());
        assert(flatten(a + b) =~= flatten(a + b.drop_last()) + b.last());
        assert(flatten(b) =~= flatten(b.drop_last()) + b.last());
    }
}

/// Where the biaser stands inside the current slot.
#[derive(Clone, Copy, Debug, PartialEq, Eq, Structural)]
pub enum Cursor {
    /// This many characters of the literal are taken.
    Lit(usize),
    StrStart,
    /// Inside the string, after the opening quote.
    StrOpen,
    IntStart,
    /// After a minus sign.
    IntSign,
    /// After a lone zero: the integer is complete.
    IntZero,
    /// After a non-zero first digit and any further digits.
    IntDigits,
    BoolStart,
    /// This many characters of `true` are taken.
    BoolTrue(usize),
    /// This many characters of `false` are taken.
    BoolFalse(usize),
}

/// The cursor at the start of slot `s` (or the finished state past the last slot).
pub open spec fn enter(tpl: Seq<Slot>, s: int) -> (int, Cursor) {
    if s < 0 || s >= tpl.len() {
        (s, Cursor::Lit(0))
    } else {
        match tpl[s] {
            Slot::Lit(_) => (s, Cursor::Lit(0)),
            Slot::Val(ValueKind::Str) => (s, Cursor::StrStart),
            Slot::Val(ValueKind::Int) => (s, Cursor::IntStart),
            Slot::Val(ValueKind::Bool) => (s, Cursor::BoolStart),
        }
    }
}

/// Character `c` taken as the first character of literal slot `s`.
pub open spec fn lit_first(tpl: Seq<Slot>, s: int, c: char) -> Option<(int, Cursor)> {
    if 0 <= s < tpl.len() && tpl[s] is Lit && tpl[s]->Lit_0@.len() > 0 && tpl[s]->Lit_0@[0] == c {
        if tpl[s]->Lit_0@.len() == 1 {
            Some(enter(tpl, s + 1))
        } else {
            Some((s, Cursor::Lit(1)))
        }
    } else {
        None
    }
}

/// Takes character `c` in slot `s` at cursor `k`: the next slot and cursor,
/// or `None` where `c` cannot continue a document.
pub open spec fn step_spec(tpl: Seq<Slot>, s: int, k: Cursor, c: char) -> Option<(int, Cursor)> {
    if s < 0 || s >= tpl.len() {
        None
    } else {
        match (tpl[s], k) {
            (Slot::Lit(l), Cursor::Lit(n)) => if n < l@.len() && l@[n as int] == c {
                if n + 1 == l@.len() {
                    Some(enter(tpl, s + 1))
                } else {
                    Some((s, Cursor::Lit((n + 1) as usize)))
                }
            } else {
                None
            },
            (Slot::Val(ValueKind::Str), Cursor::StrStart) => if c == '"' {
                Some((s, Cursor::StrOpen))
            } else {
                None
            },
            (Slot::Val(ValueKind::Str), Cursor::StrOpen) => if c == '"' {
                Some(enter(tpl, s + 1))
            } else if plain_char(c) {
                Some((s, Cursor::StrOpen))
            } else {
                None
            },
            (Slot::Val(ValueKind::Int), Cursor::IntStart) => if c == '-' {
                Some((s, Cursor::IntSign))
            } else if c == '0' {
                Some((s, Cursor::IntZero))
            } else if is_digit(c) {
                Some((s, Cursor::IntDigits))
            } else {
                None
            },
            (Slot::Val(ValueKind::Int), Cursor::IntSign) => if c == '0' {
                Some((s, Cursor::IntZero))
            } else if is_digit(c) {
                Some((s, Cursor::IntDigits))
            } else {
                None
            },
            (Slot::Val(ValueKind::Int), Cursor::IntZero) => lit_first(tpl, s + 1, c),
            (Slot::Val(ValueKind::Int), Cursor::IntDigits) => if is_digit(c) {
                Some((s, Cursor::IntDigits))
            } else {
                lit_first(tpl, s + 1, c)
            },
            (Slot::Val(ValueKind::Bool), Cursor::BoolStart) => if c == 't' {
                Some((s, Cursor::BoolTrue(1)))
            } else if c == 'f' {
                Some((s, Cursor::BoolFalse(1)))
            } else {
                None
            },
            (Slot::Val(ValueKind::Bool), Cursor::BoolTrue(n)) => if n < 4 && true_text()[n as int] == c {
                if n + 1 == 4 {
                    Some(enter(tpl, s + 1))
                } else {
                    Some((s, Cursor::BoolTrue((n + 1) as usize)))
                }
            } else {
                None
            },
            (Slot::Val(ValueKind::Bool), Cursor::BoolFalse(n)) => if n < 5 && false_text()[n as int] == c {
                if n + 1 == 5 {
                    Some(enter(tpl, s + 1))
                } else {
                    Some((s, Cursor::BoolFalse((n + 1) as usize)))
                }
            } else {
                None
            },
            _ => None,
        }
    }
}

/// Takes all of `text`, character by character.
pub open spec fn run_spec(tpl: Seq<Slot>, s: int, k: Cursor, text: Seq<char>) -> Option<(int, Cursor)>
    decreases text.len(),
{
    if text.len() == 0 {
        Some((s, k))
    } else {
        match run_spec(tpl, s, k, text.drop_last()) {
            Some((s1, k1)) => step_spec(tpl, s1, k1, text.last()),
            None => None,
        }
    }
}

/// `cur`, the text taken in slot `s` so far, fits cursor `k` and can still
/// become a complete piece.
pub open spec fn partial_ok(slot: Slot, k: Cursor, cur: Seq<char>) -> bool {
    match (slot, k) {
        (Slot::Lit(l), Cursor::Lit(n)) => n < l@.len() && cur == l@.subrange(0, n as int),
        (Slot::Val(ValueKind::Str), Cursor::StrStart) => cur.len() == 0,
        (Slot::Val(ValueKind::Str), Cursor::StrOpen) => cur.len() >= 1 && cur[0] == '"' && forall|m: int|
            1 <= m < cur.len() ==> plain_char(#[trigger] cur[m]),
        (Slot::Val(ValueKind::Int), Cursor::IntStart) => cur.len() == 0,
        (Slot::Val(ValueKind::Int), Cursor::IntSign) => cur == seq!['-'],
        (Slot::Val(ValueKind::Int), Cursor::IntZero) => cur == seq!['0'] || cur == seq!['-', '0'],
        (Slot::Val(ValueKind::Int), Cursor::IntDigits) => int_text(cur) && cur != seq!['0'] && cur != seq!['-', '0'],
        (Slot::Val(ValueKind::Bool), Cursor::BoolStart) => cur.len() == 0,
        (Slot::Val(ValueKind::Bool), Cursor::BoolTrue(n)) => 1 <= n < 4 && cur == true_text().subrange(0, n as int),
        (Slot::Val(ValueKind::Bool), Cursor::BoolFalse(n)) => 1 <= n < 5 && cur == false_text().subrange(0, n as int),
        _ => false,
    }
}

/// The whole state: the completed pieces of the slots before `s`, and the
/// text `cur` taken in slot `s`.
pub open spec fn state_ok(tpl: Seq<Slot>, done: Seq<Seq<char>>, cur: Seq<char>, s: int, k: Cursor) -> bool {
    &&& template_wf(tpl)
    &&& 0 <= s <= tpl.len()
    &&& done.len() == s
    &&& forall|i: int| 0 <= i < s ==> piece_ok(tpl[i], #[trigger] done[i])
    &&& s < tpl.len() ==> partial_ok(tpl[s], k, cur)
    &&& s == tpl.len() ==> cur.len() == 0
}

/// The completed pieces and the current text after taking `c`, where `c` is
/// taken (see `step_spec`).
pub open spec fn ghost_step(
    tpl: Seq<Slot>,
    done: Seq<Seq<char>>,
    cur: Seq<char>,
    s: int,
    k: Cursor,
    c: char,
) -> (Seq<Seq<char>>, Seq<char>) {
    let s2 = (step_spec(tpl, s, k, c)->0).0;
    if s2 == s {
        (done, cur.push(c))
    } else if k == Cursor::IntZero || k == Cursor::IntDigits {
        if s2 == s + 1 {
            (done.push(cur), seq![c])
        } else {
            (done.push(cur).push(seq![c]), Seq::empty())
        }
    } else {
        (done.push(cur.push(c)), Seq::empty())
    }
}

proof fn lemma_flatten_push(done: Seq<Seq<char>>, x: Seq<char>)
    ensures
        flatten(done.push(x)) == flatten(done) + x,
{
    assert(done.push(x).drop_last() =~= done);
}

proof fn lemma_enter_ok(tpl: Seq<Slot>, done: Seq<Seq<char>>, s: int)
    requires
        template_wf(tpl),
        0 <= s <= tpl.len(),
        done.len() == s,
        forall|i: int| 0 <= i < s ==> piece_ok(tpl[i], #[trigger] done[i]),
    ensures
        state_ok(tpl, done, Seq::empty(), enter(tpl, s).0, enter(tpl, s).1),
        enter(tpl, s).0 == s,
{
    if s < tpl.len() {
        if tpl[s] is Lit {
            assert(tpl[s]->Lit_0@.subrange(0, 0) =~= Seq::<char>::empty());
        }
    }
}

proof fn lemma_int_digit(cur: Seq<char>, c: char)
    requires
        is_digit(c),
        cur.len() == 0 || cur == seq!['-'] || (int_text(cur) && cur != seq!['0'] && cur != seq!['-', '0']),
        cur.len() == 0 || cur == seq!['-'] ==> c != '0',
    ensures
        int_text(cur.push(c)) && cur.push(c) != seq!['0'] && cur.push(c) != seq!['-', '0'],
{
    let v = cur.push(c);
    let d = unsigned_part(v);
    if cur.len() == 0 {
        assert(v =~= seq![c]);
        assert(d =~= seq![c]);
        assert(forall|k: int| 0 <= k < d.len() ==> is_digit(#[trigger] d[k]));
        assert(v != seq!['0']) by { assert(v[0] != seq!['0'][0]); }
        assert(v != seq!['-', '0']) by { assert(v.len() != seq!['-', '0'].len()); }
    } else if cur == seq!['-'] {
        assert(v =~= seq!['-', c]);
        assert(d =~= seq![c]);
        assert(forall|k: int| 0 <= k < d.len() ==> is_digit(#[trigger] d[k]));
        assert(v != seq!['0']) by { assert(v.len() != seq!['0'].len()); }
        assert(v != seq!['-', '0']) by { assert(v[1] != seq!['-', '0'][1]); }
    } else {
        let d0 = unsigned_part(cur);
        assert(v[0] == cur[0]);
        assert(d0[0] != '0') by {
            if d0.len() == 1 {
                if cur[0] == '-' {
                    assert(cur =~= seq!['-', d0[0]]);
                } else {
                    assert(cur =~= seq![d0[0]]);
                }
            }
        }
        assert(d =~= d0.push(c));
        assert(forall|k: int| 0 <= k < d.len() ==> is_digit(#[trigger] d[k])) by {
            assert forall|k: int| 0 <= k < d.len() implies is_digit(#[trigger] d[k]) by {
                assert(int_text(cur));
                assert(forall|j: int| 0 <= j < d0.len() ==> is_digit(#[trigger] d0[j]));
                if k < d0.len() {
                    assert(d[k] == d0[k]);
                } else {
                    assert(d[k] == c);
                }
            }
        }
        assert(v != seq!['0']) by { assert(v.len() != seq!['0'].len()); }
        if cur[0] == '-' {
            assert(v != seq!['-', '0']) by { assert(v.len() != seq!['-', '0'].len()); }
        } else {
            assert(v != seq!['-', '0']) by { assert(v[0] != seq!['-', '0'][0]); }
        }
    }
}

proof fn lemma_zero_is_int(cur: Seq<char>)
    requires
        cur == seq!['0'] || cur == seq!['-', '0'],
    ensures
        int_text(cur),
{
    if cur == seq!['-', '0'] {
        assert(cur.drop_first() =~= seq!['0']);
    }
}

proof fn lemma_same_partial(slot: Slot, tpl: Seq<Slot>, s: int, k: Cursor, cur: Seq<char>, c: char, k2: Cursor)
    requires
        template_wf(tpl),
        0 <= s < tpl.len(),
        tpl[s] == slot,
        partial_ok(slot, k, cur),
        step_spec(tpl, s, k, c) == Some((s, k2)),
    ensures
        partial_ok(slot, k2, cur.push(c)),
{
    let v = cur.push(c);
    match slot {
        Slot::Lit(l) => {
            assert(k is Lit);
            let n = k->Lit_0;
            assert(enter(tpl, s + 1).0 == s + 1);
            assert(n + 1 < l@.len());
            assert(v =~= l@.subrange(0, n + 1));
        },
        Slot::Val(ValueKind::Str) => {
            if k == Cursor::StrStart {
                assert(v[0] == '"');
            } else {
                assert(v[0] == '"');
                assert forall|m: int| 1 <= m < v.len() implies plain_char(#[trigger] v[m]) by {
                    if m < cur.len() {
                        assert(v[m] == cur[m]);
                    }
                }
            }
        },
        Slot::Val(ValueKind::Int) => {
            if k2 == Cursor::IntDigits {
                lemma_int_digit(cur, c);
            } else if k2 == Cursor::IntZero {
                if k == Cursor::IntSign {
                    assert(v =~= seq!['-', '0']);
                } else {
                    assert(v =~= seq!['0']);
                }
            } else {
                assert(v =~= seq!['-']);
            }
        },
        Slot::Val(ValueKind::Bool) => {
            lemma_same_bool(k, cur, c, k2);
        },
    }
}

proof fn lemma_same_bool(k: Cursor, cur: Seq<char>, c: char, k2: Cursor)
    requires
        partial_ok(Slot::Val(ValueKind::Bool), k, cur),
        match k {
            Cursor::BoolStart => (c == 't' && k2 == Cursor::BoolTrue(1)) || (c == 'f' && k2 == Cursor::BoolFalse(1)),
            Cursor::BoolTrue(n) => n + 1 < 4 && true_text()[n as int] == c && k2 == Cursor::BoolTrue((n + 1) as usize),
            Cursor::BoolFalse(n) => n + 1 < 5 && false_text()[n as int] == c && k2 == Cursor::BoolFalse((n + 1) as usize),
            _ => false,
        },
    ensures
        partial_ok(Slot::Val(ValueKind::Bool), k2, cur.push(c)),
{
    let v = cur.push(c);
    match k2 {
        Cursor::BoolTrue(n2) => {
            assert(v =~= true_text().subrange(0, n2 as int));
        },
        Cursor::BoolFalse(n2) => {
            assert(v =~= false_text().subrange(0, n2 as int));
        },
        _ => {},
    }
}

proof fn lemma_step_same(tpl: Seq<Slot>, done: Seq<Seq<char>>, cur: Seq<char>, s: int, k: Cursor, c: char, k2: Cursor)
    requires
        state_ok(tpl, done, cur, s, k),
        step_spec(tpl, s, k, c) == Some((s, k2)),
    ensures
        state_ok(tpl, done, cur.push(c), s, k2),
{
    lemma_same_partial(tpl[s], tpl, s, k, cur, c, k2);
}

proof fn lemma_step_complete(tpl: Seq<Slot>, done: Seq<Seq<char>>, cur: Seq<char>, s: int, k: Cursor, c: char)
    requires
        state_ok(tpl, done, cur, s, k),
        step_spec(tpl, s, k, c) is Some,
        (step_spec(tpl, s, k, c)->0).0 != s,
        k != Cursor::IntZero,
        k != Cursor::IntDigits,
    ensures
        step_spec(tpl, s, k, c)->0 == enter(tpl, s + 1),
        piece_ok(tpl[s], cur.push(c)),
        state_ok(tpl, done.push(cur.push(c)), Seq::empty(), s + 1, enter(tpl, s + 1).1),
        flatten(done.push(cur.push(c))) == flatten(done) + cur.push(c),
{
    let v = cur.push(c);
    match (tpl[s], k) {
        (Slot::Lit(l), Cursor::Lit(n)) => {
            assert(v =~= l@);
        },
        (Slot::Val(ValueKind::Str), Cursor::StrOpen) => {
            assert(v.last() == '"');
            assert(v[0] == '"');
            assert(forall|m: int| 1 <= m < v.len() - 1 ==> plain_char(#[trigger] v[m])) by {
                assert forall|m: int| 1 <= m < v.len() - 1 implies plain_char(#[trigger] v[m]) by {
                    assert(v[m] == cur[m]);
                }
            }
        },
        (Slot::Val(ValueKind::Bool), Cursor::BoolTrue(n)) => {
            assert(v =~= true_text());
        },
        (Slot::Val(ValueKind::Bool), Cursor::BoolFalse(n)) => {
            assert(v =~= false_text());
        },
        _ => {},
    }
    lemma_flatten_push(done, v);
    let done2 = done.push(v);
    assert forall|i: int| 0 <= i < s + 1 implies piece_ok(tpl[i], #[trigger] done2[i]) by {
        if i < s {
            assert(done2[i] == done[i]);
        }
    }
    lemma_enter_ok(tpl, done2, s + 1);
}

proof fn lemma_step_pass(tpl: Seq<Slot>, done: Seq<Seq<char>>, cur: Seq<char>, s: int, k: Cursor, c: char)
    requires
        state_ok(tpl, done, cur, s, k),
        step_spec(tpl, s, k, c) is Some,
        (step_spec(tpl, s, k, c)->0).0 != s,
        k == Cursor::IntZero || k == Cursor::IntDigits,
    ensures
        ({
            let (s2, k2) = step_spec(tpl, s, k, c)->0;
            let (done2, cur2) = ghost_step(tpl, done, cur, s, k, c);
            state_ok(tpl, done2, cur2, s2, k2) && flatten(done2) + cur2 == flatten(done) + cur.push(c)
        }),
{
    let (s2, k2) = step_spec(tpl, s, k, c)->0;
    let (done2, cur2) = ghost_step(tpl, done, cur, s, k, c);
    if k == Cursor::IntZero {
        lemma_zero_is_int(cur);
    }
    assert(tpl[s] == Slot::Val(ValueKind::Int));
    assert(piece_ok(tpl[s], cur));
    lemma_flatten_push(done, cur);
    let d1 = done.push(cur);
    assert forall|i: int| 0 <= i < s + 1 implies piece_ok(tpl[i], #[trigger] d1[i]) by {
        if i < s {
            assert(d1[i] == done[i]);
        }
    }
    let l = tpl[s + 1]->Lit_0@;
    if s2 == s + 1 {
        assert(seq![c] =~= l.subrange(0, 1));
        assert(flatten(done2) + cur2 =~= flatten(done) + cur.push(c));
    } else {
        assert(seq![c] =~= l);
        lemma_flatten_push(d1, seq![c]);
        let d2 = d1.push(seq![c]);
        assert forall|i: int| 0 <= i < s + 2 implies piece_ok(tpl[i], #[trigger] d2[i]) by {
            if i < s + 1 {
                assert(d2[i] == d1[i]);
            }
        }
        lemma_enter_ok(tpl, d2, s + 2);
        assert(flatten(done2) + cur2 =~= flatten(done) + cur.push(c));
    }
}

/// Taking a character that `step_spec` admits keeps the state sound: the
/// text so far grows by that character.
pub proof fn lemma_step(tpl: Seq<Slot>, done: Seq<Seq<char>>, cur: Seq<char>, s: int, k: Cursor, c: char)
    requires
        state_ok(tpl, done, cur, s, k),
        step_spec(tpl, s, k, c) is Some,
    ensures
        ({
            let (s2, k2) = step_spec(tpl, s, k, c)->0;
            let (done2, cur2) = ghost_step(tpl, done, cur, s, k, c);
            state_ok(tpl, done2, cur2, s2, k2) && flatten(done2) + cur2 == flatten(done) + cur.push(c)
        }),
{
    let (s2, k2) = step_spec(tpl, s, k, c)->0;
    if s2 == s {
        lemma_step_same(tpl, done, cur, s, k, c, k2);
        assert(flatten(done) + cur.push(c) =~= flatten(done) + cur.push(c));
    } else if k == Cursor::IntZero || k == Cursor::IntDigits {
        lemma_step_pass(tpl, done, cur, s, k, c);
    } else {
        lemma_step_complete(tpl, done, cur, s, k, c);
    }
}

/// A shortest complete piece for slot `slot`.
pub open spec fn default_piece(slot: Slot) -> Seq<char> {
    match slot {
        Slot::Lit(l) => l@,
        Slot::Val(ValueKind::Str) => seq!['"', '"'],
        Slot::Val(ValueKind::Int) => seq!['0'],
        Slot::Val(ValueKind::Bool) => true_text(),
    }
}

/// Text that completes the piece `cur` of slot `slot` at cursor `k`.
pub open spec fn completion(slot: Slot, k: Cursor) -> Seq<char> {
    match (slot, k) {
        (Slot::Lit(l), Cursor::Lit(n)) => l@.subrange(n as int, l@.len() as int),
        (_, Cursor::StrStart) => seq!['"', '"'],
        (_, Cursor::StrOpen) => seq!['"'],
        (_, Cursor::IntStart) => seq!['0'],
        (_, Cursor::IntSign) => seq!['0'],
        (_, Cursor::BoolStart) => true_text(),
        (_, Cursor::BoolTrue(n)) => true_text().subrange(n as int, 4),
        (_, Cursor::BoolFalse(n)) => false_text().subrange(n as int, 5),
        _ => Seq::empty(),
    }
}

proof fn lemma_default_ok(slot: Slot)
    ensures
        piece_ok(slot, default_piece(slot)),
{
    if slot == Slot::Val(ValueKind::Int) {
        assert(unsigned_part(seq!['0']) =~= seq!['0']);
    }
}

proof fn lemma_completion_ok(slot: Slot, k: Cursor, cur: Seq<char>)
    requires
        partial_ok(slot, k, cur),
    ensures
        piece_ok(slot, cur + completion(slot, k)),
{
    let v = cur + completion(slot, k);
    match (slot, k) {
        (Slot::Lit(l), Cursor::Lit(n)) => {
            assert(v =~= l@);
        },
        (Slot::Val(ValueKind::Str), Cursor::StrStart) => {
            assert(v =~= seq!['"', '"']);
        },
        (Slot::Val(ValueKind::Str), Cursor::StrOpen) => {
            assert(v[0] == '"');
            assert(v.last() == '"');
            assert forall|m: int| 1 <= m < v.len() - 1 implies plain_char(#[trigger] v[m]) by {
                assert(v[m] == cur[m]);
            }
        },
        (Slot::Val(ValueKind::Int), Cursor::IntStart) => {
            assert(v =~= seq!['0']);
            assert(unsigned_part(v) =~= seq!['0']);
        },
        (Slot::Val(ValueKind::Int), Cursor::IntSign) => {
            assert(v =~= seq!['-', '0']);
            assert(unsigned_part(v) =~= seq!['0']);
        },
        (Slot::Val(ValueKind::Int), Cursor::IntZero) => {
            assert(v =~= cur);
            lemma_zero_is_int(cur);
        },
        (Slot::Val(ValueKind::Int), Cursor::IntDigits) => {
            assert(v =~= cur);
        },
        (Slot::Val(ValueKind::Bool), Cursor::BoolStart) => {
            assert(v =~= true_text());
        },
        (Slot::Val(ValueKind::Bool), Cursor::BoolTrue(n)) => {
            assert(v =~= true_text());
        },
        (Slot::Val(ValueKind::Bool), Cursor::BoolFalse(n)) => {
            assert(v =~= false_text());
        },
        _ => {},
    }
}

/// Whatever a sound state has taken in can still be completed into a
/// document of the template; once every slot is complete, the text is one.
pub proof fn lemma_extends(tpl: Seq<Slot>, done: Seq<Seq<char>>, cur: Seq<char>, s: int, k: Cursor)
    requires
        state_ok(tpl, done, cur, s, k),
    ensures
        extends_to_conforming(tpl, flatten(done) + cur),
        s == tpl.len() ==> conforms(tpl, flatten(done) + cur),
{
    if s == tpl.len() {
        assert(flatten(done) + cur =~= flatten(done));
        assert(conforms(tpl, flatten(done) + cur));
        assert(flatten(done) + cur + Seq::<char>::empty() =~= flatten(done) + cur);
    } else {
        let piece = cur + completion(tpl[s], k);
        lemma_completion_ok(tpl[s], k, cur);
        let rest_pieces = Seq::new((tpl.len() - s - 1) as nat, |i: int| default_piece(tpl[s + 1 + i]));
        let pieces = done.push(piece) + rest_pieces;
        assert forall|i: int| 0 <= i < tpl.len() implies piece_ok(tpl[i], #[trigger] pieces[i]) by {
            if i < s {
                assert(pieces[i] == done[i]);
            } else if i == s {
                assert(pieces[i] == piece);
            } else {
                assert(pieces[i] == default_piece(tpl[i]));
                lemma_default_ok(tpl[i]);
            }
        }
        lemma_flatten_append(done.push(piece), rest_pieces);
        lemma_flatten_push(done, piece);
        let rest = completion(tpl[s], k) + flatten(rest_pieces);
        assert(flatten(pieces) =~= flatten(done) + cur + rest);
        assert(conforms(tpl, flatten(done) + cur + rest));
    }
}

/// One property of an object schema.
pub struct Property {
    pub name: String,
    pub kind: ValueKind,
}

/// The literal before a property: `{"name":` for the first, `,"name":` after.
pub open spec fn key_lit(first: bool, name: Seq<char>) -> Seq<char> {
    seq![if first { '{' } else { ',' }, '"'] + name + seq!['"', ':']
}

/// `tpl` is the template of an object with properties `props`, in order:
/// each key literal followed by its value slot, then `}` (`{}` without properties).
pub open spec fn template_of(props: Seq<Property>, tpl: Seq<Slot>) -> bool {
    if props.len() == 0 {
        tpl.len() == 1 && tpl[0] is Lit && tpl[0]->Lit_0@ == seq!['{', '}']
    } else {
        &&& tpl.len() == 2 * props.len() + 1
        &&& forall|i: int|
            0 <= i < props.len() ==> (#[trigger] tpl[2 * i]) is Lit && tpl[2 * i]->Lit_0@ == key_lit(i == 0, props[i].name@)
                && tpl[2 * i + 1] == Slot::Val(props[i].kind)
        &&& tpl.last() is Lit && tpl.last()->Lit_0@ == seq!['}']
    }
}

/// The ids of the tokens among the first `n` of `vocab` whose text `run_spec`
/// takes whole from slot `s`, cursor `k`; the end-of-text token and empty
/// texts are left out.
pub open spec fn admitted_ids(tpl: Seq<Slot>, s: int, k: Cursor, vocab: Seq<Seq<char>>, eot: u32, n: int) -> Seq<u32>
    decreases n,
{
    if n <= 0 {
        Seq::empty()
    } else {
        admitted_ids(tpl, s, k, vocab, eot, n - 1) + (if n - 1 != eot && vocab[n - 1].len() > 0 && run_spec(
            tpl,
            s,
            k,
            vocab[n - 1],
        ) is Some {
            seq![(n - 1) as u32]
        } else {
            Seq::empty()
        })
    }
}

fn enter_exec(tpl: &Vec<Slot>, s: usize) -> (r: (usize, Cursor))
    ensures
        (r.0 as int, r.1) == enter(tpl@, s as int),
{
    if s >= tpl.len() {
        (s, Cursor::Lit(0))
    } else {
        match &tpl[s] {
            Slot::Lit(_) => (s, Cursor::Lit(0)),
            Slot::Val(ValueKind::Str) => (s, Cursor::StrStart),
            Slot::Val(ValueKind::Int) => (s, Cursor::IntStart),
            Slot::Val(ValueKind::Bool) => (s, Cursor::BoolStart),
        }
    }
}

fn lit_first_exec(tpl: &Vec<Slot>, s: usize, c: char) -> (r: Option<(usize, Cursor)>)
    requires
        template_wf(tpl@),
        s <= tpl@.len(),
    ensures
        match r {
            Some(p) => lit_first(tpl@, s as int, c) == Some((p.0 as int, p.1)),
            None => lit_first(tpl@, s as int, c) is None,
        },
{
    if s >= tpl.len() {
        return None;
    }
    match &tpl[s] {
        Slot::Lit(l) => {
            if l.len() > 0 && l[0] == c {
                if l.len() == 1 {
                    Some(enter_exec(tpl, s + 1))
                } else {
                    Some((s, Cursor::Lit(1)))
                }
            } else {
                None
            }
        },
        Slot::Val(_) => None,
    }
}

fn is_digit_exec(c: char) -> (r: bool)
    ensures
        r == is_digit(c),
{
    '0' <= c && c <= '9'
}

fn true_char(n: usize) -> (r: char)
    requires
        n < 4,
    ensures
        r == true_text()[n as int],
{
    if n == 0 { 't' } else if n == 1 { 'r' } else if n == 2 { 'u' } else { 'e' }
}

fn false_char(n: usize) -> (r: char)
    requires
        n < 5,
    ensures
        r == false_text()[n as int],
{
    if n == 0 { 'f' } else if n == 1 { 'a' } else if n == 2 { 'l' } else if n == 3 { 's' } else { 'e' }
}

/// `step_spec`, computed.
fn step_exec(tpl: &Vec<Slot>, s: usize, k: Cursor, c: char) -> (r: Option<(usize, Cursor)>)
    requires
        template_wf(tpl@),
    ensures
        match r {
            Some(p) => step_spec(tpl@, s as int, k, c) == Some((p.0 as int, p.1)),
            None => step_spec(tpl@, s as int, k, c) is None,
        },
{
    if s >= tpl.len() {
        return None;
    }
    match (&tpl[s], k) {
        (Slot::Lit(l), Cursor::Lit(n)) => {
            proof {
                lemma_lit_len(tpl@[s as int]);
            }
            if n < l.len() && l[n] == c {
                if n + 1 == l.len() {
                    Some(enter_exec(tpl, s + 1))
                } else {
                    Some((s, Cursor::Lit(n + 1)))
                }
            } else {
                None
            }
        },
        (Slot::Val(ValueKind::Str), Cursor::StrStart) => if c == '"' {
            Some((s, Cursor::StrOpen))
        } else {
            None
        },
        (Slot::Val(ValueKind::Str), Cursor::StrOpen) => if c == '"' {
            Some(enter_exec(tpl, s + 1))
        } else if c != '"' && c != '\\' && c >= ' ' {
            Some((s, Cursor::StrOpen))
        } else {
            None
        },
        (Slot::Val(ValueKind::Int), Cursor::IntStart) => if c == '-' {
            Some((s, Cursor::IntSign))
        } else if c == '0' {
            Some((s, Cursor::IntZero))
        } else if is_digit_exec(c) {
            Some((s, Cursor::IntDigits))
        } else {
            None
        },
        (Slot::Val(ValueKind::Int), Cursor::IntSign) => if c == '0' {
            Some((s, Cursor::IntZero))
        } else if is_digit_exec(c) {
            Some((s, Cursor::IntDigits))
        } else {
            None
        },
        (Slot::Val(ValueKind::Int), Cursor::IntZero) => lit_first_exec(tpl, s + 1, c),
        (Slot::Val(ValueKind::Int), Cursor::IntDigits) => if is_digit_exec(c) {
            Some((s, Cursor::IntDigits))
        } else {
            lit_first_exec(tpl, s + 1, c)
        },
        (Slot::Val(ValueKind::Bool), Cursor::BoolStart) => if c == 't' {
            Some((s, Cursor::BoolTrue(1)))
        } else if c == 'f' {
            Some((s, Cursor::BoolFalse(1)))
        } else {
            None
        },
        (Slot::Val(ValueKind::Bool), Cursor::BoolTrue(n)) => if n < 4 && true_char(n) == c {
            if n + 1 == 4 {
                Some(enter_exec(tpl, s + 1))
            } else {
                Some((s, Cursor::BoolTrue(n + 1)))
            }
        } else {
            None
        },
        (Slot::Val(ValueKind::Bool), Cursor::BoolFalse(n)) => if n < 5 && false_char(n) == c {
            if n + 1 == 5 {
                Some(enter_exec(tpl, s + 1))
            } else {
                Some((s, Cursor::BoolFalse(n + 1)))
            }
        } else {
            None
        },
        _ => None,
    }
}

/// Whether `run_spec` takes all of `text` from slot `s`, cursor `k`.
fn runs(tpl: &Vec<Slot>, s: usize, k: Cursor, text: &String) -> (r: bool)
    requires
        template_wf(tpl@),
    ensures
        r == run_spec(tpl@, s as int, k, text@) is Some,
{
    let t = text.as_str();
    let n = t.unicode_len();
    let mut cs = s;
    let mut ck = k;
    let mut i: usize = 0;
    while i < n
        invariant
            template_wf(tpl@),
            n == t@.len(),
            t@ == text@,
            i <= n,
            run_spec(tpl@, s as int, k, t@.subrange(0, i as int)) == Some((cs as int, ck)),
        decreases n - i,
    {
        let c = t.get_char(i);
        let ghost pre = t@.subrange(0, i as int);
        let ghost next = t@.subrange(0, i + 1);
        assert(next.drop_last() =~= pre);
        match step_exec(tpl, cs, ck, c) {
            Some(p) => {
                cs = p.0;
                ck = p.1;
            },
            None => {
                proof {
                    lemma_run_dead(tpl@, s as int, k, t@, i as int + 1);
                }
                return false;
            },
        }
        i = i + 1;
    }
    assert(t@.subrange(0, n as int) =~= t@);
    true
}

/// Once a run fails on a prefix, it fails on all of the text.
proof fn lemma_run_dead(tpl: Seq<Slot>, s: int, k: Cursor, text: Seq<char>, i: int)
    requires
        0 <= i <= text.len(),
        run_spec(tpl, s, k, text.subrange(0, i)) is None,
    ensures
        run_spec(tpl, s, k, text) is None,
    decreases text.len() - i,
{
    if i < text.len() {
        assert(text.subrange(0, i + 1).drop_last() =~= text.subrange(0, i));
        lemma_run_dead(tpl, s, k, text, i + 1);
    } else {
        assert(text.subrange(0, i) =~= text);
    }
}

proof fn lemma_lit_len(slot: Slot)
    requires
        slot is Lit,
    ensures
        slot->Lit_0@.len() <= usize::MAX,
{
    match slot {
        Slot::Lit(v) => {
            assert(v@.len() == v.len());
        },
        _ => {},
    }
}

proof fn lemma_template_of_wf(props: Seq<Property>, t: Seq<Slot>)
    requires
        template_of(props, t),
    ensures
        template_wf(t),
{
    let n = props.len() as int;
    assert forall|i: int| 0 <= i < t.len() && (#[trigger] t[i]) is Lit implies 0 < t[i]->Lit_0@.len() <= usize::MAX by {
        lemma_lit_len(t[i]);
        if n > 0 && i < 2 * n {
            let j = i / 2;
            assert(i == 2 * j || i == 2 * j + 1);
            if i == 2 * j + 1 {
                assert(t[2 * j + 1] == Slot::Val(props[j].kind));
            } else {
                assert(t[2 * j]->Lit_0@ == key_lit(j == 0, props[j].name@));
            }
        }
    }
    assert forall|i: int| 0 <= i < t.len() - 1 && (#[trigger] t[i]) is Val implies t[i + 1] is Lit by {
        let j = i / 2;
        assert(i == 2 * j || i == 2 * j + 1);
        if i == 2 * j {
            assert(t[2 * j] is Lit);
        } else if j + 1 < n {
            assert(t[2 * (j + 1)] is Lit);
        }
    }
}

/// A biaser that keeps the output a prefix of a compact JSON object of an
/// object schema, its properties in order.
pub struct JsonBiaser {
    tpl: Vec<Slot>,
    slot: usize,
    cursor: Cursor,
    done: Ghost<Seq<Seq<char>>>,
    cur: Ghost<Seq<char>>,
}

fn push_str(out: &mut Vec<char>, s: &String)
    ensures
        final(out)@ == old(out)@ + s@,
{
    let t = s.as_str();
    let n = t.unicode_len();
    let ghost start = out@;
    let mut i: usize = 0;
    while i < n
        invariant
            n == t@.len(),
            i <= n,
            out@ == start + t@.subrange(0, i as int),
        decreases n - i,
    {
        out.push(t.get_char(i));
        i = i + 1;
        assert(out@ =~= start + t@.subrange(0, i as int));
    }
    assert(t@.subrange(0, n as int) =~= t@);
}

proof fn lemma_first_lit(props: Seq<Property>, t: Seq<Slot>)
    requires
        template_of(props, t),
    ensures
        t[0] is Lit,
{
    if props.len() > 0 {
        assert(t[2 * 0int] is Lit);
    }
}

proof fn lemma_start_ok(t: Seq<Slot>)
    requires
        template_wf(t),
        t[0] is Lit,
    ensures
        state_ok(t, Seq::empty(), Seq::empty(), 0, Cursor::Lit(0)),
{
    assert(t[0]->Lit_0@.subrange(0, 0) =~= Seq::<char>::empty());
}

fn build_template(props: &Vec<Property>) -> (tpl: Vec<Slot>)
    ensures
        template_of(props@, tpl@),
{
    let mut tpl: Vec<Slot> = Vec::new();
    if props.len() == 0 {
        let mut l: Vec<char> = Vec::new();
        l.push('{');
        l.push('}');
        assert(l@ =~= seq!['{', '}']);
        tpl.push(Slot::Lit(l));
    } else {
        let mut i: usize = 0;
        while i < props.len()
            invariant
                i <= props@.len(),
                props@.len() > 0,
                tpl@.len() == 2 * i,
                forall|j: int|
                    0 <= j < i ==> (#[trigger] tpl@[2 * j]) is Lit && tpl@[2 * j]->Lit_0@ == key_lit(j == 0, props@[j].name@)
                        && tpl@[2 * j + 1] == Slot::Val(props@[j].kind),
            decreases props@.len() - i,
        {
            let mut l: Vec<char> = Vec::new();
            l.push(if i == 0 { '{' } else { ',' });
            l.push('"');
            push_str(&mut l, &props[i].name);
            l.push('"');
            l.push(':');
            assert(l@ =~= key_lit(i == 0, props@[i as int].name@));
            let ghost before = tpl@;
            tpl.push(Slot::Lit(l));
            tpl.push(Slot::Val(props[i].kind));
            proof {
                assert forall|j: int| 0 <= j < i + 1 implies (#[trigger] tpl@[2 * j]) is Lit && tpl@[2 * j]->Lit_0@ == key_lit(j == 0, props@[j].name@)
                    && tpl@[2 * j + 1] == Slot::Val(props@[j].kind) by {
                    if j < i {
                        assert(tpl@[2 * j] == before[2 * j]);
                        assert(tpl@[2 * j + 1] == before[2 * j + 1]);
                    }
                }
            }
            i = i + 1;
        }
        let mut l: Vec<char> = Vec::new();
        l.push('}');
        assert(l@ =~= seq!['}']);
        let ghost before = tpl@;
        tpl.push(Slot::Lit(l));
        proof {
            assert forall|j: int| 0 <= j < props@.len() implies (#[trigger] tpl@[2 * j]) is Lit && tpl@[2 * j]->Lit_0@ == key_lit(j == 0, props@[j].name@)
                && tpl@[2 * j + 1] == Slot::Val(props@[j].kind) by {
                assert(tpl@[2 * j] == before[2 * j]);
                assert(tpl@[2 * j + 1] == before[2 * j + 1]);
            }
        }
    }
    tpl
}

impl JsonBiaser {
    pub closed spec fn template(&self) -> Seq<Slot> {
        self.tpl@
    }

    /// The text taken in so far.
    pub closed spec fn emitted(&self) -> Seq<char> {
        flatten(self.done@) + self.cur@
    }

    /// Every slot is complete.
    pub closed spec fn is_done(&self) -> bool {
        self.slot == self.tpl@.len()
    }

    pub closed spec fn slot_at(&self) -> int {
        self.slot as int
    }

    pub closed spec fn cursor_at(&self) -> Cursor {
        self.cursor
    }

    pub closed spec fn wf(&self) -> bool {
        state_ok(self.tpl@, self.done@, self.cur@, self.slot as int, self.cursor)
    }

    /// A biaser at the start of an object with properties `props`.
    pub fn new(props: &Vec<Property>) -> (r: JsonBiaser)
        ensures
            r.wf(),
            template_of(props@, r.template()),
            r.emitted() == Seq::<char>::empty(),
            r.slot_at() == 0,
            r.cursor_at() == Cursor::Lit(0),
    {
        let tpl = build_template(props);
        proof {
            lemma_template_of_wf(props@, tpl@);
            lemma_first_lit(props@, tpl@);
            lemma_start_ok(tpl@);
        }
        let r = JsonBiaser { tpl, slot: 0, cursor: Cursor::Lit(0), done: Ghost(Seq::empty()), cur: Ghost(Seq::empty()) };
        assert(flatten(Seq::<Seq<char>>::empty()) + Seq::<char>::empty() =~= Seq::<char>::empty());
        r
    }

    /// `r` is the answer for the next token: see `bias`.
    pub open spec fn answer_ok(&self, vocab: Seq<String>, eot: u32, r: Seq<BiasEntry>) -> bool {
        &&& self.is_done() ==> r == seq![BiasEntry { token: eot, positive: true }]
        &&& !self.is_done() ==> r.map_values(|e: BiasEntry| e.token) == admitted_ids(
            self.template(),
            self.slot_at(),
            self.cursor_at(),
            vocab.map_values(|t: String| t@),
            eot,
            vocab.len() as int,
        )
        &&& forall|i: int| 0 <= i < r.len() ==> (#[trigger] r[i]).positive
    }

    /// The admissible next tokens, each with a positive bias: once every slot
    /// is complete, the end-of-text token alone; before that, every token of
    /// `vocab` (by index, end-of-text and empty texts left out) whose whole
    /// text can come next.
    pub fn bias(&self, vocab: &Vec<String>, eot: u32) -> (r: Vec<BiasEntry>)
        requires
            self.wf(),
            vocab@.len() <= u32::MAX,
        ensures
            self.answer_ok(vocab@, eot, r@),
    {
        let mut out: Vec<BiasEntry> = Vec::new();
        if self.slot == self.tpl.len() {
            out.push(BiasEntry { token: eot, positive: true });
            assert(out@ =~= seq![BiasEntry { token: eot, positive: true }]);
            return out;
        }
        let ghost views = vocab@.map_values(|t: String| t@);
        let mut i: usize = 0;
        while i < vocab.len()
            invariant
                self.wf(),
                self.slot < self.tpl@.len(),
                vocab@.len() <= u32::MAX,
                views == vocab@.map_values(|t: String| t@),
                i <= vocab@.len(),
                out@.map_values(|e: BiasEntry| e.token) == admitted_ids(self.tpl@, self.slot as int, self.cursor, views, eot, i as int),
                forall|j: int| 0 <= j < out@.len() ==> (#[trigger] out@[j]).positive,
            decreases vocab@.len() - i,
        {
            let ghost before = out@;
            if i as u32 != eot && vocab[i].as_str().unicode_len() > 0 && runs(&self.tpl, self.slot, self.cursor, &vocab[i]) {
                out.push(BiasEntry { token: i as u32, positive: true });
            }
            proof {
                assert(views[i as int] == vocab@[i as int]@);
                assert(out@.map_values(|e: BiasEntry| e.token) =~= admitted_ids(self.tpl@, self.slot as int, self.cursor, views, eot, i + 1));
                assert forall|j: int| 0 <= j < out@.len() implies (#[trigger] out@[j]).positive by {
                    if j < before.len() {
                        assert(out@[j] == before[j]);
                    }
                }
            }
            i = i + 1;
        }
        out
    }

    fn take(&mut self, c: char) -> (ok: bool)
        requires
            old(self).wf(),
        ensures
            final(self).wf(),
            final(self).tpl@ == old(self).tpl@,
            ok == step_spec(old(self).tpl@, old(self).slot as int, old(self).cursor, c) is Some,
            ok ==> Some((final(self).slot as int, final(self).cursor)) == step_spec(old(self).tpl@, old(self).slot as int, old(self).cursor, c),
            ok ==> final(self).emitted() == old(self).emitted().push(c),
    {
        match step_exec(&self.tpl, self.slot, self.cursor, c) {
            Some(p) => {
                proof {
                    lemma_step(self.tpl@, self.done@, self.cur@, self.slot as int, self.cursor, c);
                }
                let ghost g = ghost_step(self.tpl@, self.done@, self.cur@, self.slot as int, self.cursor, c);
                self.slot = p.0;
                self.cursor = p.1;
                self.done = Ghost(g.0);
                self.cur = Ghost(g.1);
                assert(self.emitted() =~= old(self).emitted().push(c));
                true
            },
            None => false,
        }
    }

    /// Takes in the text of the chosen token. Where the whole text can come
    /// next it is taken and true returned; else nothing changes.
    pub fn advance(&mut self, text: &String) -> (taken: bool)
        requires
            old(self).wf(),
        ensures
            final(self).wf(),
            final(self).template() == old(self).template(),
            taken == run_spec(old(self).template(), old(self).slot_at(), old(self).cursor_at(), text@) is Some,
            taken ==> final(self).emitted() == old(self).emitted() + text@ && Some((final(self).slot_at(), final(self).cursor_at()))
                == run_spec(old(self).template(), old(self).slot_at(), old(self).cursor_at(), text@),
            !taken ==> final(self).emitted() == old(self).emitted() && final(self).slot_at() == old(self).slot_at()
                && final(self).cursor_at() == old(self).cursor_at(),
    {
        if !runs(&self.tpl, self.slot, self.cursor, text) {
            return false;
        }
        let t = text.as_str();
        let n = t.unicode_len();
        let ghost s0 = self.slot as int;
        let ghost k0 = self.cursor;
        let ghost e0 = self.emitted();
        let mut i: usize = 0;
        while i < n
            invariant
                n == t@.len(),
                t@ == text@,
                i <= n,
                self.wf(),
                self.tpl@ == old(self).tpl@,
                s0 == old(self).slot as int,
                k0 == old(self).cursor,
                e0 == old(self).emitted(),
                run_spec(self.tpl@, s0, k0, text@) is Some,
                run_spec(self.tpl@, s0, k0, t@.subrange(0, i as int)) == Some((self.slot as int, self.cursor)),
                self.emitted() == e0 + t@.subrange(0, i as int),
            decreases n - i,
        {
            let c = t.get_char(i);
            let ghost pre = t@.subrange(0, i as int);
            let ghost next = t@.subrange(0, i + 1);
            assert(next.drop_last() =~= pre);
            if !self.take(c) {
                proof {
                    lemma_run_dead(self.tpl@, s0, k0, t@, i as int + 1);
                }
                return false;
            }
            assert(self.emitted() =~= e0 + next);
            i = i + 1;
        }
        assert(t@.subrange(0, n as int) =~= t@);
        true
    }
}

/// What a JSON-schema biaser has let through can always be completed into a
/// document of its schema, and is one once every slot is complete: a run
/// that ends on the forced end-of-text token has produced a whole document.
pub proof fn lemma_json_output(b: JsonBiaser)
    requires
        b.wf(),
    ensures
        extends_to_conforming(b.template(), b.emitted()),
        b.is_done() ==> conforms(b.template(), b.emitted()),
{
    lemma_extends(b.tpl@, b.done@, b.cur@, b.slot as int, b.cursor);
}

/// The biaser of a completion.
pub enum Biaser {
    /// No constraint: an empty answer.
    Null,
    JsonSchema(JsonBiaser),
}

impl Biaser {
    pub open spec fn wf(&self) -> bool {
        match self {
            Biaser::Null => true,
            Biaser::JsonSchema(b) => b.wf(),
        }
    }

    /// The biaser's answer for the next token.
    pub fn bias(&self, vocab: &Vec<String>, eot: u32) -> (r: Vec<BiasEntry>)
        requires
            self.wf(),
            vocab@.len() <= u32::MAX,
        ensures
            match self {
                Biaser::Null => r@.len() == 0,
                Biaser::JsonSchema(b) => b.answer_ok(vocab@, eot, r@),
            },
    {
        match self {
            Biaser::Null => Vec::new(),
            Biaser::JsonSchema(b) => b.bias(vocab, eot),
        }
    }

    /// Takes in the text of the chosen token (a no-op without constraint).
    pub fn advance(&mut self, text: &String)
        requires
            old(self).wf(),
        ensures
            final(self).wf(),
            match (*old(self), *final(self)) {
                (Biaser::Null, Biaser::Null) => true,
                (Biaser::JsonSchema(a), Biaser::JsonSchema(b)) => b.template() == a.template() && (if run_spec(
                    a.template(),
                    a.slot_at(),
                    a.cursor_at(),
                    text@,
                ) is Some {
                    b.emitted() == a.emitted() + text@
                } else {
                    b.emitted() == a.emitted() && b.slot_at() == a.slot_at() && b.cursor_at() == a.cursor_at()
                }),
                _ => false,
            },
    {
        match self {
            Biaser::Null => {},
            Biaser::JsonSchema(b) => {
                b.advance(text);
            },
        }
    }
}

} // verus!
