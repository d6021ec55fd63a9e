//! A minimal parser for the defaults files that configure the copy engine:
//! `#` comments, `KEY=value` lines, values trimmed of surrounding spaces,
//! later assignments replacing earlier ones.

use vstd::prelude::*;

use crate::text::{char_is_alnum, char_is_alpha, is_alnum, is_alpha, push_char, str_chars, str_eq};
use crate::unix::{all_dec_digits, dec_body, dec_val, is_dec_digit};

verus! {

/// Why a defaults file was rejected.
#[derive(Debug, Clone, Copy, PartialEq, Eq, Structural)]
pub enum DefaultsError {
    /// A character that fits no rule of the grammar.
    BadChar,
    /// A `#` inside a key name.
    CommentInKey,
}

impl DefaultsError {
    /// A short description of the failure.
    pub fn message(&self) -> String {
        match self {
            DefaultsError::BadChar => String::from_str("unexpected character"),
            DefaultsError::CommentInKey => String::from_str("unexpected comment in key name"),
        }
    }
}

/// Association-list insertion: replaces the value of an existing key in
/// place, or appends a new pair.
pub open spec fn assoc_insert(
    ps: Seq<(Seq<char>, Seq<char>)>,
    k: Seq<char>,
    v: Seq<char>,
) -> Seq<(Seq<char>, Seq<char>)>
    decreases ps.len(),
{
    if ps.len() == 0 {
        seq![(k, v)]
    } else if ps[0].0 == k {
        seq![(k, v)] + ps.drop_first()
    } else {
        seq![ps[0]] + assoc_insert(ps.drop_first(), k, v)
    }
}

/// The value stored under `k`, if any.
pub open spec fn assoc_get(ps: Seq<(Seq<char>, Seq<char>)>, k: Seq<char>) -> Option<Seq<char>>
    decreases ps.len(),
{
    if ps.len() == 0 {
        None
    } else if ps.last().0 == k {
        Some(ps.last().1)
    } else {
        assoc_get(ps.drop_last(), k)
    }
}

pub open spec fn assoc_has(ps: Seq<(Seq<char>, Seq<char>)>, k: Seq<char>) -> bool {
    exists|i: int| 0 <= i < ps.len() && ps[i].0 == k
}

proof fn lemma_assoc_insert_absent(ps: Seq<(Seq<char>, Seq<char>)>, k: Seq<char>, v: Seq<char>)
    requires
        !assoc_has(ps, k),
    ensures
        assoc_insert(ps, k, v) =~~= ps.push((k, v)),
    decreases ps.len(),
{
    if ps.len() > 0 {
        assert(ps[0].0 != k);
        assert(!assoc_has(ps.drop_first(), k)) by {
            if assoc_has(ps.drop_first(), k) {
                let i = choose|i: int|
                    0 <= i < ps.drop_first().len() && ps.drop_first()[i].0 == k;
                assert(ps[i + 1].0 == k);
            }
        }
        lemma_assoc_insert_absent(ps.drop_first(), k, v);
        assert(seq![ps[0]] + ps.drop_first().push((k, v)) =~~= ps.push((k, v)));
    }
}

/// Spaces dropped from the front of a value.
pub open spec fn drop_leading(s: Seq<char>) -> Seq<char>
    decreases s.len(),
{
    if s.len() > 0 && s[0] == ' ' {
        drop_leading(s.drop_first())
    } else {
        s
    }
}

/// Spaces dropped from the end of a value.
pub open spec fn drop_trailing(s: Seq<char>) -> Seq<char>
    decreases s.len(),
{
    if s.len() > 0 && s.last() == ' ' {
        drop_trailing(s.drop_last())
    } else {
        s
    }
}

/// A value trimmed of surrounding spaces.
pub open spec fn trim_spaces(s: Seq<char>) -> Seq<char> {
    drop_trailing(drop_leading(s))
}

proof fn lemma_drop_leading(s: Seq<char>, j: int)
    requires
        0 <= j <= s.len(),
        forall|k: int| 0 <= k < j ==> s[k] == ' ',
        j < s.len() ==> s[j] != ' ',
    ensures
        drop_leading(s) =~= s.skip(j),
    decreases j,
{
    if j == 0 {
        if s.len() > 0 {
            assert(s[0] != ' ');
        }
        assert(s.skip(0) =~= s);
    } else {
        assert(s[0] == ' ');
        lemma_drop_leading(s.drop_first(), j - 1);
        assert(s.drop_first().skip(j - 1) =~= s.skip(j));
    }
}

proof fn lemma_drop_trailing(s: Seq<char>, j: int)
    requires
        0 <= j <= s.len(),
        forall|k: int| j <= k < s.len() ==> s[k] == ' ',
        j > 0 ==> s[j - 1] != ' ',
    ensures
        drop_trailing(s) =~= s.take(j),
    decreases s.len() - j,
{
    if j == s.len() {
        if s.len() > 0 {
            assert(s.last() != ' ');
        }
        assert(s.take(j) =~= s);
    } else {
        assert(s.last() == ' ');
        lemma_drop_trailing(s.drop_last(), j);
        assert(s.drop_last().take(j) =~= s.take(j));
    }
}

/// Trims surrounding spaces from the characters of `v`.
fn trim_value(cs: &Vec<char>) -> (r: Vec<char>)
    ensures
        r@ =~= trim_spaces(cs@),
{
    let n = cs.len();
    let mut a: usize = 0;
    while a < n && cs[a] == ' '
        invariant
            a <= n,
            n == cs@.len(),
            forall|k: int| 0 <= k < a ==> cs@[k] == ' ',
        decreases n - a,
    {
        a = a + 1;
    }
    proof {
        lemma_drop_leading(cs@, a as int);
    }
    let mut b: usize = n;
    while b > a && cs[b - 1] == ' '
        invariant
            a <= b <= n,
            n == cs@.len(),
            forall|k: int| b <= k < n ==> cs@[k] == ' ',
        decreases b,
    {
        b = b - 1;
    }
    let r = crate::text::subvec(cs, a, b);
    proof {
        let led = cs@.skip(a as int);
        assert(forall|k: int| b - a <= k < led.len() ==> led[k] == ' ');
        if b > a {
            assert(led[b - a - 1] == cs@[b - 1]);
        } else {
            if a < n {
                assert(led[0] == cs@[a as int]);
            }
        }
        lemma_drop_trailing(led, b - a);
        assert(led.take(b - a) =~= cs@.subrange(a as int, b as int));
    }
    r
}

/// ASCII graphic characters (printable, space excluded).
pub open spec fn is_graphic(c: char) -> bool {
    33 <= c as u32 && c as u32 <= 126
}

/// ASCII control characters.
pub open spec fn is_control(c: char) -> bool {
    c as u32 <= 31 || c as u32 == 127
}

/// The states of the defaults grammar.
#[derive(Debug, Clone, Copy, PartialEq, Eq, Structural)]
pub enum DefState {
    Rest,
    Comment,
    Key,
    Value,
}

/// The whole state of the defaults scanner.
#[verifier::ext_equal]
pub struct DefMachine {
    pub state: DefState,
    pub k: Seq<char>,
    pub v: Seq<char>,
    pub values: Seq<(Seq<char>, Seq<char>)>,
}

pub open spec fn def_init() -> DefMachine {
    DefMachine { state: DefState::Rest, k: Seq::empty(), v: Seq::empty(), values: Seq::empty() }
}

/// One transition of the defaults scanner on character `c`.
pub open spec fn def_step(m: DefMachine, c: char) -> Result<DefMachine, DefaultsError> {
    match m.state {
        DefState::Rest => if c == '#' {
            Ok(DefMachine { state: DefState::Comment, ..m })
        } else if c == '\n' {
            Ok(m)
        } else if is_alpha(c) {
            Ok(DefMachine { state: DefState::Key, k: seq![c], ..m })
        } else {
            Err(DefaultsError::BadChar)
        },
        DefState::Comment => if c == '\n' {
            Ok(DefMachine { state: DefState::Rest, ..m })
        } else if is_control(c) && c != '\t' {
            Err(DefaultsError::BadChar)
        } else {
            Ok(m)
        },
        DefState::Key => if c == '#' {
            Err(DefaultsError::CommentInKey)
        } else if is_alnum(c) || c == '_' {
            Ok(DefMachine { k: m.k.push(c), ..m })
        } else if c == '=' {
            Ok(DefMachine { state: DefState::Value, v: Seq::empty(), ..m })
        } else {
            Err(DefaultsError::BadChar)
        },
        DefState::Value => if c == '#' || c == '\n' {
            Ok(
                DefMachine {
                    state: if c == '#' {
                        DefState::Comment
                    } else {
                        DefState::Rest
                    },
                    k: Seq::empty(),
                    v: Seq::empty(),
                    values: assoc_insert(m.values, m.k, trim_spaces(m.v)),
                },
            )
        } else if is_graphic(c) || c == ' ' {
            Ok(DefMachine { v: m.v.push(c), ..m })
        } else {
            Ok(m)
        },
    }
}

/// The scanner run over the whole file text.
pub open spec fn run_defaults(s: Seq<char>) -> Result<DefMachine, DefaultsError>
    decreases s.len(),
{
    if s.len() == 0 {
        Ok(def_init())
    } else {
        match run_defaults(s.drop_last()) {
            Ok(m) => def_step(m, s.last()),
            Err(e) => Err(e),
        }
    }
}

proof fn lemma_run_defaults_err(s: Seq<char>, i: int)
    requires
        0 <= i <= s.len(),
        run_defaults(s.take(i)) is Err,
    ensures
        run_defaults(s) == run_defaults(s.take(i)),
    decreases s.len(),
{
    if i == s.len() {
        assert(s.take(i) =~= s);
    } else {
        assert(s.drop_last().take(i) =~= s.take(i));
        lemma_run_defaults_err(s.drop_last(), i);
    }
}

/// The key/value pairs a defaults file denotes.  An assignment still open
/// at the end of the text is discarded.
pub open spec fn defaults_spec(s: Seq<char>) -> Result<Seq<(Seq<char>, Seq<char>)>, DefaultsError> {
    match run_defaults(s) {
        Ok(m) => Ok(m.values),
        Err(e) => Err(e),
    }
}

/// The number a tunable value denotes, as `usize::from_str` reads it.
pub open spec fn parse_usize_spec(s: Seq<char>) -> Option<usize> {
    if dec_body(s).len() > 0 && all_dec_digits(dec_body(s)) && dec_val(dec_body(s)) <= usize::MAX
        as nat {
        Some(dec_val(dec_body(s)) as usize)
    } else {
        None
    }
}

proof fn lemma_dec_prefix_here(t: Seq<char>, j: int)
    requires
        0 <= j <= t.len(),
    ensures
        dec_val(t) >= dec_val(t.take(j)),
    decreases t.len(),
{
    if j < t.len() {
        assert(t.drop_last().take(j) =~= t.take(j));
        lemma_dec_prefix_here(t.drop_last(), j);
    } else {
        assert(t.take(j) =~= t);
    }
}

/// Reads a decimal number as `usize::from_str` does.
#[verifier::loop_isolation(false)]
fn parse_usize(s: &str) -> (r: Option<usize>)
    ensures
        r == parse_usize_spec(s@),
{
    let cs = str_chars(s);
    let n = cs.len();
    let start: usize = if n > 0 && cs[0] == '+' {
        1
    } else {
        0
    };
    let ghost t = dec_body(s@);
    proof {
        assert(t =~= cs@.subrange(start as int, n as int));
    }
    if start == n {
        return None;
    }
    let mut acc: usize = 0;
    let mut i = start;
    while i < n
        invariant
            start <= i <= n,
            forall|k: int| 0 <= k < i - start ==> is_dec_digit(t[k]),
            acc as nat == dec_val(t.take(i - start)),
        decreases n - i,
    {
        let c = cs[i];
        proof {
            assert(t.take(i + 1 - start).drop_last() =~= t.take(i - start));
            assert(t.take(i + 1 - start).last() == cs@[i as int]);
        }
        let u = c as u32;
        if !(48 <= u && u <= 57) {
            proof {
                let w = i - start;
                assert(0 <= w < t.len() && !is_dec_digit(t[w]));
                assert(!all_dec_digits(t));
            }
            return None;
        }
        let d = u - 48;
        let wide: u128 = acc as u128 * 10 + d as u128;
        if wide > usize::MAX as u128 {
            proof {
                assert(dec_val(t.take(i + 1 - start)) > usize::MAX as nat);
                lemma_dec_prefix_here(t, i + 1 - start);
            }
            return None;
        }
        acc = wide as usize;
        i = i + 1;
    }
    proof {
        assert(t.take(n - start) =~= t);
    }
    Some(acc)
}

/// The tunables read from a defaults file: an ordered association list
/// with unique keys, later assignments replacing earlier values.
#[derive(Debug)]
pub struct DefaultsFile {
    values: Vec<(String, String)>,
}

impl View for DefaultsFile {
    type V = Seq<(Seq<char>, Seq<char>)>;

    closed spec fn view(&self) -> Seq<(Seq<char>, Seq<char>)> {
        self.values.deep_view()
    }
}

/// Pairwise-distinct keys.
pub open spec fn unique_keys(ps: Seq<(Seq<char>, Seq<char>)>) -> bool {
    forall|i: int, j: int| 0 <= i < j < ps.len() ==> ps[i].0 != ps[j].0
}

/// Replaces the value of `key`, or appends the pair if the key is new.
#[verifier::loop_isolation(false)]
fn assoc_put(vals: &mut Vec<(String, String)>, key: &str, value: &str)
    requires
        unique_keys(old(vals).deep_view()),
    ensures
        unique_keys(final(vals).deep_view()),
        final(vals).deep_view() =~~= assoc_insert(old(vals).deep_view(), key@, value@),
{
    let ghost ps = vals.deep_view();
    let mut i: usize = 0;
    while i < vals.len()
        invariant
            i <= vals@.len(),
            vals == old(vals),
            forall|k: int| 0 <= k < i ==> ps[k].0 != key@,
        decreases vals@.len() - i,
    {
        if str_eq(vals[i].0.as_str(), key) {
            let mut updated: Vec<(String, String)> = Vec::new();
            let mut j: usize = 0;
            let ghost goal = assoc_insert(ps, key@, value@);
            proof {
                lemma_assoc_replace(ps, i as int, key@, value@);
            }
            while j < vals.len()
                invariant
                    j <= vals@.len(),
                    vals == old(vals),
                    i < vals@.len(),
                    goal == assoc_insert(ps, key@, value@),
                    goal =~~= Seq::new(
                        ps.len(),
                        |m: int|
                            if m == i {
                                (key@, value@)
                            } else {
                                ps[m]
                            },
                    ),
                    updated.deep_view() =~~= goal.take(j as int),
                decreases vals@.len() - j,
            {
                if j == i {
                    updated.push((key.to_owned(), value.to_owned()));
                } else {
                    updated.push((vals[j].0.clone(), vals[j].1.clone()));
                }
                j = j + 1;
                proof {
                    assert(updated.deep_view() =~~= goal.take(j as int));
                }
            }
            proof {
                assert(goal.take(vals@.len() as int) =~~= goal);
                assert(unique_keys(goal)) by {
                    assert forall|m: int, m2: int|
                        0 <= m < m2 < goal.len() implies goal[m].0 != goal[m2].0 by {
                        assert(ps[m].0 != ps[m2].0);
                        if m == i {
                            assert(goal[m].0 == key@ && goal[m2].0 == ps[m2].0);
                            assert(ps[i as int].0 == key@);
                        } else if m2 == i {
                            assert(ps[i as int].0 == key@);
                        }
                    }
                }
            }
            *vals = updated;
            return ;
        }
        i = i + 1;
    }
    proof {
        assert(!assoc_has(ps, key@)) by {
            if assoc_has(ps, key@) {
                let m = choose|m: int| 0 <= m < ps.len() && ps[m].0 == key@;
            }
        }
        lemma_assoc_insert_absent(ps, key@, value@);
    }
    vals.push((key.to_owned(), value.to_owned()));
    proof {
        assert(vals.deep_view() =~~= ps.push((key@, value@)));
        assert(unique_keys(vals.deep_view())) by {
            assert forall|m: int, m2: int|
                0 <= m < m2 < vals.deep_view().len() implies vals.deep_view()[m].0
                != vals.deep_view()[m2].0 by {
                if m2 == ps.len() {
                    assert(ps[m].0 != key@);
                } else {
                    assert(ps[m].0 != ps[m2].0);
                }
            }
        }
    }
}

/// Replacing the pair at the unique index carrying `key` is what
/// association-list insertion does.
proof fn lemma_assoc_replace(ps: Seq<(Seq<char>, Seq<char>)>, i: int, k: Seq<char>, v: Seq<char>)
    requires
        unique_keys(ps),
        0 <= i < ps.len(),
        ps[i].0 == k,
    ensures
        assoc_insert(ps, k, v) =~~= Seq::new(
            ps.len(),
            |m: int|
                if m == i {
                    (k, v)
                } else {
                    ps[m]
                },
        ),
    decreases ps.len(),
{
    if i == 0 {
        assert(ps[0].0 == k);
        assert(seq![(k, v)] + ps.drop_first() =~~= Seq::new(
            ps.len(),
            |m: int|
                if m == 0 {
                    (k, v)
                } else {
                    ps[m]
                },
        ));
    } else {
        assert(ps[0].0 != k) by {
            assert(ps[0].0 != ps[i].0);
        }
        assert(ps.drop_first()[i - 1].0 == k);
        assert(unique_keys(ps.drop_first())) by {
            assert forall|m: int, m2: int|
                0 <= m < m2 < ps.drop_first().len() implies ps.drop_first()[m].0
                != ps.drop_first()[m2].0 by {
                assert(ps[m + 1].0 != ps[m2 + 1].0);
            }
        }
        lemma_assoc_replace(ps.drop_first(), i - 1, k, v);
        assert(seq![ps[0]] + Seq::new(
            ps.drop_first().len(),
            |m: int|
                if m == i - 1 {
                    (k, v)
                } else {
                    ps.drop_first()[m]
                },
        ) =~~= Seq::new(
            ps.len(),
            |m: int|
                if m == i {
                    (k, v)
                } else {
                    ps[m]
                },
        ));
    }
}

impl DefaultsFile {
    /// The keys stored are pairwise distinct.
    pub closed spec fn wf(&self) -> bool {
        unique_keys(self@)
    }

    /// The value of `name` read as a number, or nothing if the key is
    /// absent or its value is not a number.
    pub fn get_usize(&self, name: &str) -> (r: Option<usize>)
        ensures
            r == (match assoc_get(self@, name@) {
                Some(v) => parse_usize_spec(v),
                None => None::<usize>,
            }),
    {
        let ghost ps = self@;
        let mut i: usize = self.values.len();
        proof {
            assert(ps.take(i as int) =~= ps);
        }
        while i > 0
            invariant
                i <= self.values@.len(),
                ps == self@,
                assoc_get(ps, name@) == assoc_get(ps.take(i as int), name@),
            decreases i,
        {
            i = i - 1;
            proof {
                assert(ps.take(i + 1).drop_last() =~= ps.take(i as int));
                assert(ps.take(i + 1).last() == ps[i as int]);
            }
            if str_eq(self.values[i].0.as_str(), name) {
                return parse_usize(self.values[i].1.as_str());
            }
        }
        proof {
            assert(ps.take(0) =~= Seq::<(Seq<char>, Seq<char>)>::empty());
        }
        None
    }

    /// Parses a defaults file from its text.
    #[verifier::loop_isolation(false)]
    pub fn parse(input: &str) -> (r: Result<DefaultsFile, DefaultsError>)
        ensures
            match r {
                Ok(df) => df.wf() && defaults_spec(input@) == Ok::<
                    Seq<(Seq<char>, Seq<char>)>,
                    DefaultsError,
                >(df@),
                Err(e) => defaults_spec(input@) == Err::<
                    Seq<(Seq<char>, Seq<char>)>,
                    DefaultsError,
                >(e),
            },
    {
        let cs = str_chars(input);
        let n = cs.len();
        let mut st = DefState::Rest;
        let mut key = String::new();
        let mut cur: Vec<char> = Vec::new();
        let mut values: Vec<(String, String)> = Vec::new();
        let mut i: usize = 0;
        proof {
            assert(cs@.take(0) =~= Seq::<char>::empty());
            assert(DefMachine {
                state: st,
                k: key@,
                v: cur@,
                values: values.deep_view(),
            } =~~= def_init());
        }
        while i < n
            invariant
                i <= n,
                unique_keys(values.deep_view()),
                run_defaults(cs@.take(i as int)) == Ok::<DefMachine, DefaultsError>(
                    DefMachine { state: st, k: key@, v: cur@, values: values.deep_view() },
                ),
            decreases n - i,
        {
            let c = cs[i];
            proof {
                assert(cs@.take(i + 1).drop_last() =~= cs@.take(i as int));
                assert(cs@.take(i + 1).last() == cs@[i as int]);
            }
            let ghost m0 = DefMachine {
                state: st,
                k: key@,
                v: cur@,
                values: values.deep_view(),
            };
            let u = c as u32;
            match st {
                DefState::Rest => {
                    if c == '#' {
                        st = DefState::Comment;
                    } else if c == '\n' {
                    } else if char_is_alpha(c) {
                        key = String::new();
                        push_char(&mut key, c);
                        st = DefState::Key;
                        proof {
                            assert(key@ =~= seq![c]);
                        }
                    } else {
                        proof {
                            lemma_run_defaults_err(cs@, i + 1);
                        }
                        return Err(DefaultsError::BadChar);
                    }
                },
                DefState::Comment => {
                    if c == '\n' {
                        st = DefState::Rest;
                    } else if (u <= 31 || u == 127) && c != '\t' {
                        proof {
                            lemma_run_defaults_err(cs@, i + 1);
                        }
                        return Err(DefaultsError::BadChar);
                    }
                },
                DefState::Key => {
                    if c == '#' {
                        proof {
                            lemma_run_defaults_err(cs@, i + 1);
                        }
                        return Err(DefaultsError::CommentInKey);
                    } else if char_is_alnum(c) || c == '_' {
                        push_char(&mut key, c);
                    } else if c == '=' {
                        cur = Vec::new();
                        st = DefState::Value;
                    } else {
                        proof {
                            lemma_run_defaults_err(cs@, i + 1);
                        }
                        return Err(DefaultsError::BadChar);
                    }
                },
                DefState::Value => {
                    if c == '#' || c == '\n' {
                        let trimmed = trim_value(&cur);
                        let tv = crate::text::chars_string(&trimmed);
                        assoc_put(&mut values, key.as_str(), tv.as_str());
                        key = String::new();
                        cur = Vec::new();
                        st = if c == '#' {
                            DefState::Comment
                        } else {
                            DefState::Rest
                        };
                        proof {
                            assert(values.deep_view() =~~= assoc_insert(
                                m0.values,
                                m0.k,
                                trim_spaces(m0.v),
                            ));
                        }
                    } else if (33 <= u && u <= 126) || c == ' ' {
                        cur.push(c);
                    }
                },
            }
            i = i + 1;
            proof {
                assert(run_defaults(cs@.take(i as int)) == Ok::<DefMachine, DefaultsError>(
                    DefMachine { state: st, k: key@, v: cur@, values: values.deep_view() },
                )) by {
                    assert(def_step(m0, cs@[i - 1]) == Ok::<DefMachine, DefaultsError>(
                        DefMachine { state: st, k: key@, v: cur@, values: values.deep_view() },
                    ));
                }
            }
        }
        proof {
            assert(cs@.take(n as int) =~= cs@);
        }
        Ok(DefaultsFile { values })
    }
}

} // verus!
