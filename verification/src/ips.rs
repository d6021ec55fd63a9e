//! Package manifest actions: the line-oriented manifest grammar, the
//! property bag with consumed-key tracking, and the typed action records
//! extracted from each line.

use vstd::prelude::*;

use crate::fmri::{parse_fmri_seq, FmriError, Package, PackageView};
use crate::text::{
    char_is_alnum, char_is_alpha, find_from, is_alnum, is_alpha, lemma_split_first, push_char,
    split_seq, str_chars, str_eq, strip_cr,
};

verus! {

/// Why a manifest line was rejected.
#[derive(Debug, Clone, Copy, PartialEq, Eq, Structural)]
pub enum ManifestError {
    /// A character where an action type or property was expected.
    BadChar,
    /// A character outside the key alphabet.
    BadKeyChar,
    /// A backslash inside a quoted value; escapes are unsupported.
    Backslash,
    /// A quote character inside an unquoted value.
    ErrantQuote,
    /// A closing quote followed by something other than a space.
    AfterQuote,
    /// A line ending in the middle of a key, value or quoted string.
    BadEnd,
    /// More than one value for a property read as single-valued.
    MultipleValues,
    /// No value for a required single-valued property.
    MissingValue,
    /// No value for a required list-valued property.
    EmptyList,
    /// Properties present that the action type does not consume.
    Unconsumed,
    /// Bareword tokens on an action that allows none.
    SpareArguments,
    /// More than one bareword token on a file action.
    MultipleFileIds,
    /// A mode string that is not an octal number fitting 32 bits.
    BadMode,
    /// An unrecognized dependency type.
    BadDependType,
    /// A malformed package identifier in a depend action.
    Fmri(FmriError),
}

impl ManifestError {
    /// A short description of the failure.
    pub fn message(&self) -> String {
        match self {
            ManifestError::BadChar => String::from_str("invalid character in line"),
            ManifestError::BadKeyChar => String::from_str("invalid character in key"),
            ManifestError::Backslash => String::from_str("backslash in quoted value"),
            ManifestError::ErrantQuote => String::from_str("errant quote in value"),
            ManifestError::AfterQuote => String::from_str("expected space after quote"),
            ManifestError::BadEnd => String::from_str("line ended in an invalid state"),
            ManifestError::MultipleValues => String::from_str(
                "more than one value, wanted a single value",
            ),
            ManifestError::MissingValue => String::from_str("no values found"),
            ManifestError::EmptyList => String::from_str("wanted at least one value, found none"),
            ManifestError::Unconsumed => String::from_str(
                "some properties present but not consumed",
            ),
            ManifestError::SpareArguments => String::from_str("spare arguments"),
            ManifestError::MultipleFileIds => String::from_str("more than one fileid"),
            ManifestError::BadMode => String::from_str("mode is not a valid octal number"),
            ManifestError::BadDependType => String::from_str("unknown depend type"),
            ManifestError::Fmri(e) => e.message(),
        }
    }
}

/// The values attached to `key` among the ordered property pairs, oldest
/// first.
pub open spec fn values_of(pairs: Seq<(Seq<char>, Seq<char>)>, key: Seq<char>) -> Seq<Seq<char>>
    decreases pairs.len(),
{
    if pairs.len() == 0 {
        seq![]
    } else {
        let rest = values_of(pairs.drop_last(), key);
        if pairs.last().0 == key {
            rest.push(pairs.last().1)
        } else {
            rest
        }
    }
}

/// Whether some pair carries `key`.
pub open spec fn pairs_has_key(pairs: Seq<(Seq<char>, Seq<char>)>, key: Seq<char>) -> bool {
    exists|i: int| 0 <= i < pairs.len() && pairs[i].0 == key
}

/// The values found in a prefix of the pairs are a prefix of all the
/// values found.
proof fn lemma_values_of_take_prefix(pairs: Seq<(Seq<char>, Seq<char>)>, i: int, key: Seq<char>)
    requires
        0 <= i <= pairs.len(),
    ensures
        values_of(pairs.take(i), key).is_prefix_of(values_of(pairs, key)),
    decreases pairs.len(),
{
    if i == pairs.len() {
        assert(pairs.take(i) =~= pairs);
    } else {
        let d = pairs.drop_last();
        assert(pairs.take(i) =~= d.take(i));
        lemma_values_of_take_prefix(d, i, key);
    }
}

/// Keys matching `facet.*` are silently dropped on insertion.
pub open spec fn is_facet_key(k: Seq<char>) -> bool {
    k.len() >= 6 && k.take(6) == seq!['f', 'a', 'c', 'e', 't', '.']
}

fn key_is_facet(key: &str) -> (r: bool)
    ensures
        r == is_facet_key(key@),
{
    let n = key.unicode_len();
    if n < 6 {
        return false;
    }
    let r = key.get_char(0) == 'f' && key.get_char(1) == 'a' && key.get_char(2) == 'c'
        && key.get_char(3) == 'e' && key.get_char(4) == 't' && key.get_char(5) == '.';
    proof {
        if r {
            assert(key@.take(6) =~= seq!['f', 'a', 'c', 'e', 't', '.']);
        } else {
            if key@.take(6) == seq!['f', 'a', 'c', 'e', 't', '.'] {
                assert(key@.take(6)[0] == 'f');
                assert(key@.take(6)[1] == 'a');
                assert(key@.take(6)[2] == 'c');
                assert(key@.take(6)[3] == 'e');
                assert(key@.take(6)[4] == 't');
                assert(key@.take(6)[5] == '.');
            }
        }
    }
    r
}

/// Whether `v` holds a string whose characters are `k`.
pub open spec fn has_str(v: Seq<String>, k: Seq<char>) -> bool {
    exists|i: int| 0 <= i < v.len() && v[i]@ == k
}

fn contains_str(v: &Vec<String>, key: &str) -> (r: bool)
    ensures
        r == has_str(v@, key@),
{
    let mut i: usize = 0;
    while i < v.len()
        invariant
            i <= v@.len(),
            forall|k: int| 0 <= k < i ==> v@[k]@ != key@,
        decreases v@.len() - i,
    {
        if str_eq(v[i].as_str(), key) {
            return true;
        }
        i = i + 1;
    }
    false
}

/// The set of keys carried by the pairs.
pub open spec fn keys_set(pairs: Seq<(Seq<char>, Seq<char>)>) -> Set<Seq<char>> {
    Set::new(|k: Seq<char>| pairs_has_key(pairs, k))
}

proof fn lemma_keys_set_push(pairs: Seq<(Seq<char>, Seq<char>)>, k: Seq<char>, v: Seq<char>)
    ensures
        keys_set(pairs.push((k, v))) =~= keys_set(pairs).insert(k),
{
    let p2 = pairs.push((k, v));
    assert forall|x: Seq<char>| keys_set(p2).contains(x) implies keys_set(pairs).insert(k).contains(
        x,
    ) by {
        let i = choose|i: int| 0 <= i < p2.len() && p2[i].0 == x;
        if i < pairs.len() {
            assert(pairs[i].0 == x);
        }
    }
    assert forall|x: Seq<char>| keys_set(pairs).insert(k).contains(x) implies keys_set(p2).contains(
        x,
    ) by {
        if x == k {
            assert(p2[p2.len() - 1].0 == x);
        } else {
            let i = choose|i: int| 0 <= i < pairs.len() && pairs[i].0 == x;
            assert(p2[i].0 == x);
        }
    }
}

/// An ordered multi-map of property keys to values, with a separately
/// tracked set of keys not yet consumed by field extraction.
#[derive(Debug, Clone)]
pub struct Vals {
    vals: Vec<(String, String)>,
    extra: Vec<String>,
}

impl Vals {
    /// The ordered key/value pairs.
    pub closed spec fn pairs(&self) -> Seq<(Seq<char>, Seq<char>)> {
        self.vals.deep_view()
    }

    /// The keys inserted but not yet consumed.
    pub closed spec fn extra_keys(&self) -> Set<Seq<char>> {
        Set::new(|k: Seq<char>| has_str(self.extra@, k))
    }

    /// The unconsumed-key list holds no duplicates.
    pub closed spec fn wf(&self) -> bool {
        forall|i: int, j: int| 0 <= i < j < self.extra@.len() ==> self.extra@[i]@ != self.extra@[j]@
    }

    pub fn new() -> (r: Vals)
        ensures
            r.wf(),
            r.pairs() =~= Seq::<(Seq<char>, Seq<char>)>::empty(),
            r.extra_keys() =~= Set::<Seq<char>>::empty(),
    {
        Vals { vals: Vec::new(), extra: Vec::new() }
    }

    /// Records a property pair, dropping `facet.*` keys, and marks the key
    /// unconsumed.
    pub fn insert(&mut self, key: &str, value: &str)
        requires
            old(self).wf(),
        ensures
            final(self).wf(),
            is_facet_key(key@) ==> final(self).pairs() == old(self).pairs()
                && final(self).extra_keys() == old(self).extra_keys(),
            !is_facet_key(key@) ==> final(self).pairs() =~= old(self).pairs().push((key@, value@))
                && final(self).extra_keys() =~= old(self).extra_keys().insert(key@),
    {
        if key_is_facet(key) {
            return ;
        }
        self.vals.push((key.to_owned(), value.to_owned()));
        proof {
            assert(self.pairs() =~= old(self).pairs().push((key@, value@)));
        }
        if !contains_str(&self.extra, key) {
            self.extra.push(key.to_owned());
            proof {
                assert forall|k: Seq<char>| self.extra_keys().contains(k) implies old(
                    self,
                ).extra_keys().insert(key@).contains(k) by {
                    let i = choose|i: int| 0 <= i < self.extra@.len() && self.extra@[i]@ == k;
                    if i < self.extra@.len() - 1 {
                        assert(has_str(old(self).extra@, k));
                    }
                }
                assert forall|k: Seq<char>| old(self).extra_keys().insert(key@).contains(
                    k,
                ) implies self.extra_keys().contains(k) by {
                    if k == key@ {
                        assert(self.extra@[self.extra@.len() - 1]@ == k);
                    } else {
                        let i = choose|i: int| 0 <= i < old(self).extra@.len() && old(
                            self,
                        ).extra@[i]@ == k;
                        assert(self.extra@[i]@ == k);
                    }
                }
                assert(self.extra_keys() =~= old(self).extra_keys().insert(key@));
            }
        } else {
            proof {
                assert(self.extra_keys() =~= old(self).extra_keys().insert(key@)) by {
                    assert forall|k: Seq<char>| old(self).extra_keys().insert(key@).contains(
                        k,
                    ) implies self.extra_keys().contains(k) by {
                        if k == key@ {
                            assert(has_str(self.extra@, k));
                        }
                    }
                }
            }
        }
    }

    /// Drops `key` from the unconsumed set.
    fn consume(&mut self, key: &str)
        requires
            old(self).wf(),
        ensures
            final(self).wf(),
            final(self).pairs() == old(self).pairs(),
            final(self).extra_keys() =~= old(self).extra_keys().remove(key@),
    {
        let mut i: usize = 0;
        while i < self.extra.len()
            invariant
                old(self).wf(),
                i <= self.extra@.len(),
                self.extra == old(self).extra,
                self.vals == old(self).vals,
                forall|k: int| 0 <= k < i ==> self.extra@[k]@ != key@,
            decreases self.extra@.len() - i,
        {
            if str_eq(self.extra[i].as_str(), key) {
                self.extra.remove(i);
                proof {
                    let oe = old(self).extra@;
                    assert(self.extra@ =~= oe.take(i as int) + oe.skip(i as int + 1));
                    assert forall|k: Seq<char>|
                        self.extra_keys().contains(k) implies old(self).extra_keys().remove(
                        key@,
                    ).contains(k) by {
                        let m = choose|m: int| 0 <= m < self.extra@.len() && self.extra@[m]@ == k;
                        if m < i {
                            assert(oe[m]@ == k);
                            assert(k != key@);
                        } else {
                            assert(oe[m + 1]@ == k);
                            assert(k != key@) by {
                                assert(oe[i as int]@ == key@);
                            }
                        }
                    }
                    assert forall|k: Seq<char>|
                        old(self).extra_keys().remove(key@).contains(k) implies self.extra_keys()
                        .contains(k) by {
                        let m = choose|m: int| 0 <= m < oe.len() && oe[m]@ == k;
                        if m < i {
                            assert(self.extra@[m]@ == k);
                        } else if m > i {
                            assert(self.extra@[m - 1]@ == k);
                        } else {
                            assert(k == key@);
                        }
                    }
                    assert(self.extra_keys() =~= old(self).extra_keys().remove(key@));
                }
                return ;
            }
            i = i + 1;
        }
        proof {
            assert(!has_str(self.extra@, key@));
            assert(self.extra_keys() =~= old(self).extra_keys().remove(key@));
        }
    }

    /// The value of `name` if it occurs at most once; an error if it occurs
    /// several times.  Consumes the key either way.
    #[verifier::loop_isolation(false)]
    pub fn maybe_single(&mut self, name: &str) -> (r: Result<Option<String>, ManifestError>)
        requires
            old(self).wf(),
        ensures
            final(self).wf(),
            final(self).pairs() == old(self).pairs(),
            final(self).extra_keys() =~= old(self).extra_keys().remove(name@),
            match r {
                Ok(Some(s)) => values_of(old(self).pairs(), name@) =~= seq![s@],
                Ok(None) => values_of(old(self).pairs(), name@) =~= Seq::<Seq<char>>::empty(),
                Err(e) => e == ManifestError::MultipleValues && values_of(
                    old(self).pairs(),
                    name@,
                ).len() > 1,
            },
    {
        self.consume(name);
        let ghost ps = self.pairs();
        let mut out: Option<String> = None;
        let mut i: usize = 0;
        while i < self.vals.len()
            invariant
                i <= self.vals@.len(),
                match out {
                    Some(s) => values_of(ps.take(i as int), name@) =~= seq![s@],
                    None => values_of(ps.take(i as int), name@) =~= Seq::<Seq<char>>::empty(),
                },
            decreases self.vals@.len() - i,
        {
            proof {
                assert(ps.take(i as int + 1).drop_last() =~= ps.take(i as int));
                assert(ps.take(i as int + 1).last() == ps[i as int]);
            }
            if str_eq(self.vals[i].0.as_str(), name) {
                if out.is_some() {
                    proof {
                        lemma_values_of_take_prefix(ps, i as int + 1, name@);
                        assert(values_of(ps.take(i as int + 1), name@).len() == 2);
                    }
                    return Err(ManifestError::MultipleValues);
                }
                out = Some(self.vals[i].1.clone());
            }
            i = i + 1;
        }
        proof {
            assert(ps.take(self.vals@.len() as int) =~= ps);
        }
        Ok(out)
    }

    /// The single value of `name`; an error if it is absent or repeated.
    pub fn single(&mut self, name: &str) -> (r: Result<String, ManifestError>)
        requires
            old(self).wf(),
        ensures
            final(self).wf(),
            final(self).pairs() == old(self).pairs(),
            final(self).extra_keys() =~= old(self).extra_keys().remove(name@),
            match r {
                Ok(s) => values_of(old(self).pairs(), name@) =~= seq![s@],
                Err(e) => (e == ManifestError::MultipleValues && values_of(
                    old(self).pairs(),
                    name@,
                ).len() > 1) || (e == ManifestError::MissingValue && values_of(
                    old(self).pairs(),
                    name@,
                ).len() == 0),
            },
    {
        match self.maybe_single(name)? {
            Some(out) => Ok(out),
            None => Err(ManifestError::MissingValue),
        }
    }

    /// Every value of `name`, oldest first; consumes the key.
    #[verifier::loop_isolation(false)]
    pub fn maybe_list(&mut self, name: &str) -> (r: Vec<String>)
        requires
            old(self).wf(),
        ensures
            final(self).wf(),
            final(self).pairs() == old(self).pairs(),
            final(self).extra_keys() =~= old(self).extra_keys().remove(name@),
            r.deep_view() =~= values_of(old(self).pairs(), name@),
    {
        self.consume(name);
        let ghost ps = self.pairs();
        let mut out: Vec<String> = Vec::new();
        let mut i: usize = 0;
        while i < self.vals.len()
            invariant
                i <= self.vals@.len(),
                out.deep_view() =~= values_of(ps.take(i as int), name@),
            decreases self.vals@.len() - i,
        {
            proof {
                assert(ps.take(i as int + 1).drop_last() =~= ps.take(i as int));
                assert(ps.take(i as int + 1).last() == ps[i as int]);
            }
            if str_eq(self.vals[i].0.as_str(), name) {
                out.push(self.vals[i].1.clone());
            }
            i = i + 1;
            proof {
                assert(out.deep_view() =~= values_of(ps.take(i as int), name@));
            }
        }
        proof {
            assert(ps.take(self.vals@.len() as int) =~= ps);
        }
        out
    }

    /// Every value of `name`; an error if there are none.
    pub fn list(&mut self, name: &str) -> (r: Result<Vec<String>, ManifestError>)
        requires
            old(self).wf(),
        ensures
            final(self).wf(),
            final(self).pairs() == old(self).pairs(),
            final(self).extra_keys() =~= old(self).extra_keys().remove(name@),
            match r {
                Ok(vs) => vs.deep_view() =~= values_of(old(self).pairs(), name@) && vs@.len() > 0,
                Err(e) => e == ManifestError::EmptyList && values_of(old(self).pairs(), name@).len()
                    == 0,
            },
    {
        let out = self.maybe_list(name);
        if out.is_empty() {
            proof {
                assert(values_of(self.pairs(), name@).len() == 0);
            }
            Err(ManifestError::EmptyList)
        } else {
            Ok(out)
        }
    }

    /// Succeeds only when every inserted key has been consumed.
    pub fn check_for_extra(&self) -> (r: Result<(), ManifestError>)
        requires
            self.wf(),
        ensures
            match r {
                Ok(()) => self.extra_keys() =~= Set::<Seq<char>>::empty(),
                Err(e) => e == ManifestError::Unconsumed && exists|k: Seq<char>|
                    self.extra_keys().contains(k),
            },
    {
        if self.extra.is_empty() {
            proof {
                assert(self.extra_keys() =~= Set::<Seq<char>>::empty());
            }
            Ok(())
        } else {
            proof {
                assert(self.extra_keys().contains(self.extra@[0]@));
            }
            Err(ManifestError::Unconsumed)
        }
    }
}

/// The states of the line grammar, one per position in
/// `<type> <bareword...> <key>=<value> ...`.
#[derive(Debug, Clone, Copy, PartialEq, Eq, Structural)]
pub enum LineState {
    Rest,
    Type,
    Key,
    Value,
    ValueQuoted,
    ValueQuotedSpace,
    ValueUnquoted,
}

/// Characters allowed in a property key or bareword token.
pub open spec fn is_key_char(c: char) -> bool {
    is_alnum(c) || c == '.' || c == '-' || c == '_' || c == '/' || c == '@' || c == '+'
}

fn char_is_key(c: char) -> (r: bool)
    ensures
        r == is_key_char(c),
{
    char_is_alnum(c) || c == '.' || c == '-' || c == '_' || c == '/' || c == '@' || c == '+'
}

/// The whole state of the line scanner: the current grammar state and the
/// accumulated action type, key, value, property pairs and bareword tokens.
#[verifier::ext_equal]
pub struct LineMachine {
    pub state: LineState,
    pub a: Seq<char>,
    pub k: Seq<char>,
    pub v: Seq<char>,
    pub pairs: Seq<(Seq<char>, Seq<char>)>,
    pub free: Seq<Seq<char>>,
    pub quote: char,
}

pub open spec fn machine_init() -> LineMachine {
    LineMachine {
        state: LineState::Rest,
        a: Seq::empty(),
        k: Seq::empty(),
        v: Seq::empty(),
        pairs: Seq::empty(),
        free: Seq::empty(),
        quote: '"',
    }
}

/// Recording a finished key/value pair; `facet.*` keys are dropped.
pub open spec fn machine_insert(
    pairs: Seq<(Seq<char>, Seq<char>)>,
    k: Seq<char>,
    v: Seq<char>,
) -> Seq<(Seq<char>, Seq<char>)> {
    if is_facet_key(k) {
        pairs
    } else {
        pairs.push((k, v))
    }
}

/// One transition of the line scanner on character `c`.
pub open spec fn line_step(m: LineMachine, c: char) -> Result<LineMachine, ManifestError> {
    match m.state {
        LineState::Rest => if is_alpha(c) {
            Ok(LineMachine { state: LineState::Type, a: seq![c], ..m })
        } else {
            Err(ManifestError::BadChar)
        },
        LineState::Type => if is_alpha(c) {
            Ok(LineMachine { a: m.a.push(c), ..m })
        } else if c == ' ' {
            Ok(LineMachine { state: LineState::Key, ..m })
        } else {
            Err(ManifestError::BadChar)
        },
        LineState::Key => if is_key_char(c) {
            Ok(LineMachine { k: m.k.push(c), ..m })
        } else if c == ' ' {
            Ok(LineMachine { free: m.free.push(m.k), k: Seq::empty(), ..m })
        } else if c == '=' {
            Ok(LineMachine { state: LineState::Value, ..m })
        } else {
            Err(ManifestError::BadKeyChar)
        },
        LineState::Value => if c == '"' || c == '\'' {
            Ok(LineMachine { state: LineState::ValueQuoted, v: Seq::empty(), quote: c, ..m })
        } else {
            Ok(LineMachine { state: LineState::ValueUnquoted, v: seq![c], ..m })
        },
        LineState::ValueQuoted => if c == '\\' {
            Err(ManifestError::Backslash)
        } else if c == m.quote {
            Ok(LineMachine { state: LineState::ValueQuotedSpace, ..m })
        } else {
            Ok(LineMachine { v: m.v.push(c), ..m })
        },
        LineState::ValueQuotedSpace => if c == ' ' {
            Ok(
                LineMachine {
                    state: LineState::Key,
                    pairs: machine_insert(m.pairs, m.k, m.v),
                    k: Seq::empty(),
                    ..m
                },
            )
        } else {
            Err(ManifestError::AfterQuote)
        },
        LineState::ValueUnquoted => if c == '"' || c == '\'' {
            Err(ManifestError::ErrantQuote)
        } else if c == ' ' {
            Ok(
                LineMachine {
                    state: LineState::Key,
                    pairs: machine_insert(m.pairs, m.k, m.v),
                    k: Seq::empty(),
                    ..m
                },
            )
        } else {
            Ok(LineMachine { v: m.v.push(c), ..m })
        },
    }
}

/// The scanner run over a whole line.
pub open spec fn run_line(s: Seq<char>) -> Result<LineMachine, ManifestError>
    decreases s.len(),
{
    if s.len() == 0 {
        Ok(machine_init())
    } else {
        match run_line(s.drop_last()) {
            Ok(m) => line_step(m, s.last()),
            Err(e) => Err(e),
        }
    }
}

/// An error reached while scanning a prefix decides the whole line.
proof fn lemma_run_line_err(s: Seq<char>, i: int)
    requires
        0 <= i <= s.len(),
        run_line(s.take(i)) is Err,
    ensures
        run_line(s) == run_line(s.take(i)),
    decreases s.len(),
{
    if i == s.len() {
        assert(s.take(i) =~= s);
    } else {
        assert(s.drop_last().take(i) =~= s.take(i));
        lemma_run_line_err(s.drop_last(), i);
    }
}

/// The scanner continued from an intermediate result over further text.
pub open spec fn run_steps(m: Result<LineMachine, ManifestError>, t: Seq<char>) -> Result<
    LineMachine,
    ManifestError,
>
    decreases t.len(),
{
    if t.len() == 0 {
        m
    } else {
        match run_steps(m, t.drop_last()) {
            Ok(m2) => line_step(m2, t.last()),
            Err(e) => Err(e),
        }
    }
}

/// Running a concatenation is running the first part and continuing over
/// the second.
pub proof fn lemma_run_line_concat(s: Seq<char>, t: Seq<char>)
    ensures
        run_line(s + t) == run_steps(run_line(s), t),
    decreases t.len(),
{
    if t.len() == 0 {
        assert(s + t =~= s);
    } else {
        lemma_run_line_concat(s, t.drop_last());
        assert((s + t).drop_last() =~= s + t.drop_last());
        assert((s + t).len() > 0);
        assert((s + t).last() == t.last());
    }
}

/// Characters of an unquoted value accumulate one by one.
pub open spec fn value_char(c: char) -> bool {
    c != '"' && c != '\'' && c != ' '
}

pub proof fn lemma_run_value_chars(m: LineMachine, t: Seq<char>)
    requires
        m.state is ValueUnquoted,
        forall|i: int| 0 <= i < t.len() ==> value_char(#[trigger] t[i]),
    ensures
        run_steps(Ok(m), t) == Ok::<LineMachine, ManifestError>(
            LineMachine { v: m.v + t, ..m },
        ),
    decreases t.len(),
{
    if t.len() == 0 {
        assert(m.v + t =~= m.v);
        assert(LineMachine { v: m.v + t, ..m } =~~= m);
    } else {
        assert(forall|i: int| 0 <= i < t.drop_last().len() ==> value_char(
            #[trigger] t.drop_last()[i],
        ));
        lemma_run_value_chars(m, t.drop_last());
        assert(value_char(t.last())) by {
            assert(t[t.len() - 1] == t.last());
        }
        assert((m.v + t.drop_last()).push(t.last()) =~= m.v + t);
        assert(LineMachine { v: (m.v + t.drop_last()).push(t.last()), ..m } =~~= (LineMachine {
            v: m.v + t,
            ..m
        }));
    }
}

pub proof fn lemma_run_steps_concat(
    m: Result<LineMachine, ManifestError>,
    t1: Seq<char>,
    t2: Seq<char>,
)
    ensures
        run_steps(m, t1 + t2) == run_steps(run_steps(m, t1), t2),
    decreases t2.len(),
{
    if t2.len() == 0 {
        assert(t1 + t2 =~= t1);
    } else {
        lemma_run_steps_concat(m, t1, t2.drop_last());
        assert((t1 + t2).drop_last() =~= t1 + t2.drop_last());
        assert((t1 + t2).len() > 0);
        assert((t1 + t2).last() == t2.last());
    }
}

/// The tokens of one manifest line: the action type, the property pairs
/// and the bareword tokens.
pub open spec fn line_tokens(s: Seq<char>) -> Result<
    (Seq<char>, Seq<(Seq<char>, Seq<char>)>, Seq<Seq<char>>),
    ManifestError,
> {
    match run_line(s) {
        Ok(m) => match m.state {
            LineState::ValueQuotedSpace | LineState::ValueUnquoted => Ok(
                (m.a, machine_insert(m.pairs, m.k, m.v), m.free),
            ),
            LineState::Type => Ok((m.a, m.pairs, m.free)),
            _ => Err(ManifestError::BadEnd),
        },
        Err(e) => Err(e),
    }
}

/// Scans the characters of `cs` in `[from, to)` as one manifest line,
/// yielding the action type, the property bag (with every key still
/// unconsumed) and the bareword tokens.
#[verifier::loop_isolation(false)]
fn parse_line_tokens(cs: &Vec<char>, from: usize, to: usize) -> (r: Result<
    (String, Vals, Vec<String>),
    ManifestError,
>)
    requires
        from <= to <= cs@.len(),
    ensures
        match r {
            Ok(t) => {
                &&& t.1.wf()
                &&& t.1.extra_keys() =~= keys_set(t.1.pairs())
                &&& line_tokens(cs@.subrange(from as int, to as int)) == Ok::<
                    (Seq<char>, Seq<(Seq<char>, Seq<char>)>, Seq<Seq<char>>),
                    ManifestError,
                >((t.0@, t.1.pairs(), t.2.deep_view()))
            },
            Err(e) => line_tokens(cs@.subrange(from as int, to as int)) == Err::<
                (Seq<char>, Seq<(Seq<char>, Seq<char>)>, Seq<Seq<char>>),
                ManifestError,
            >(e),
        },
{
    let ghost l = cs@.subrange(from as int, to as int);
    let mut st = LineState::Rest;
    let mut a = String::new();
    let mut key = String::new();
    let mut cur = String::new();
    let mut vals = Vals::new();
    let mut free: Vec<String> = Vec::new();
    let mut quote: char = '"';
    let mut i = from;
    proof {
        assert(l.take(0) =~= Seq::<char>::empty());
        assert(keys_set(vals.pairs()) =~= Set::<Seq<char>>::empty());
        assert(LineMachine {
            state: st,
            a: a@,
            k: key@,
            v: cur@,
            pairs: vals.pairs(),
            free: free.deep_view(),
            quote: quote,
        } =~~= machine_init());
    }
    while i < to
        invariant
            from <= i <= to,
            vals.wf(),
            vals.extra_keys() =~= keys_set(vals.pairs()),
            run_line(l.take(i - from)) == Ok::<LineMachine, ManifestError>(
                LineMachine {
                    state: st,
                    a: a@,
                    k: key@,
                    v: cur@,
                    pairs: vals.pairs(),
                    free: free.deep_view(),
                    quote: quote,
                },
            ),
        decreases to - i,
    {
        let c = cs[i];
        proof {
            assert(l.take(i + 1 - from).drop_last() =~= l.take(i - from));
            assert(l.take(i + 1 - from).last() == cs@[i as int]);
        }
        let ghost m0 = LineMachine {
            state: st,
            a: a@,
            k: key@,
            v: cur@,
            pairs: vals.pairs(),
            free: free.deep_view(),
            quote: quote,
        };
        match st {
            LineState::Rest => {
                if char_is_alpha(c) {
                    push_char(&mut a, c);
                    st = LineState::Type;
                    proof {
                        assert(a@ =~= seq![c]);
                    }
                } else {
                    proof {
                        lemma_run_line_err(l, i + 1 - from);
                    }
                    return Err(ManifestError::BadChar);
                }
            },
            LineState::Type => {
                if char_is_alpha(c) {
                    push_char(&mut a, c);
                } else if c == ' ' {
                    st = LineState::Key;
                } else {
                    proof {
                        lemma_run_line_err(l, i + 1 - from);
                    }
                    return Err(ManifestError::BadChar);
                }
            },
            LineState::Key => {
                if char_is_key(c) {
                    push_char(&mut key, c);
                } else if c == ' ' {
                    free.push(key);
                    key = String::new();
                    proof {
                        assert(free.deep_view() =~= m0.free.push(m0.k));
                    }
                } else if c == '=' {
                    st = LineState::Value;
                } else {
                    proof {
                        lemma_run_line_err(l, i + 1 - from);
                    }
                    return Err(ManifestError::BadKeyChar);
                }
            },
            LineState::Value => {
                if c == '"' || c == '\'' {
                    quote = c;
                    cur = String::new();
                    st = LineState::ValueQuoted;
                } else {
                    cur = String::new();
                    push_char(&mut cur, c);
                    st = LineState::ValueUnquoted;
                    proof {
                        assert(cur@ =~= seq![c]);
                    }
                }
            },
            LineState::ValueQuoted => {
                if c == '\\' {
                    proof {
                        lemma_run_line_err(l, i + 1 - from);
                    }
                    return Err(ManifestError::Backslash);
                } else if c == quote {
                    st = LineState::ValueQuotedSpace;
                } else {
                    push_char(&mut cur, c);
                }
            },
            LineState::ValueQuotedSpace => {
                if c == ' ' {
                    vals.insert(key.as_str(), cur.as_str());
                    key = String::new();
                    st = LineState::Key;
                    proof {
                        assert(vals.pairs() =~~= machine_insert(m0.pairs, m0.k, m0.v));
                        if is_facet_key(m0.k) {
                            assert(vals.extra_keys() =~= keys_set(vals.pairs()));
                        } else {
                            lemma_keys_set_push(m0.pairs, m0.k, m0.v);
                        }
                    }
                } else {
                    proof {
                        lemma_run_line_err(l, i + 1 - from);
                    }
                    return Err(ManifestError::AfterQuote);
                }
            },
            LineState::ValueUnquoted => {
                if c == '"' || c == '\'' {
                    proof {
                        lemma_run_line_err(l, i + 1 - from);
                    }
                    return Err(ManifestError::ErrantQuote);
                } else if c == ' ' {
                    vals.insert(key.as_str(), cur.as_str());
                    key = String::new();
                    st = LineState::Key;
                    proof {
                        assert(vals.pairs() =~~= machine_insert(m0.pairs, m0.k, m0.v));
                        if is_facet_key(m0.k) {
                            assert(vals.extra_keys() =~= keys_set(vals.pairs()));
                        } else {
                            lemma_keys_set_push(m0.pairs, m0.k, m0.v);
                        }
                    }
                } else {
                    push_char(&mut cur, c);
                }
            },
        }
        i = i + 1;
        proof {
            assert(run_line(l.take(i - from)) == Ok::<LineMachine, ManifestError>(
                LineMachine {
                    state: st,
                    a: a@,
                    k: key@,
                    v: cur@,
                    pairs: vals.pairs(),
                    free: free.deep_view(),
                    quote: quote,
                },
            )) by {
                assert(line_step(m0, cs@[i - 1]) == Ok::<LineMachine, ManifestError>(
                    LineMachine {
                        state: st,
                        a: a@,
                        k: key@,
                        v: cur@,
                        pairs: vals.pairs(),
                        free: free.deep_view(),
                        quote: quote,
                    },
                ));
            }
        }
    }
    proof {
        assert(l.take(to - from) =~= l);
    }
    match st {
        LineState::ValueQuotedSpace | LineState::ValueUnquoted => {
            let ghost m0 = LineMachine {
                state: st,
                a: a@,
                k: key@,
                v: cur@,
                pairs: vals.pairs(),
                free: free.deep_view(),
                quote: quote,
            };
            vals.insert(key.as_str(), cur.as_str());
            proof {
                assert(vals.pairs() =~~= machine_insert(m0.pairs, m0.k, m0.v));
                if is_facet_key(m0.k) {
                    assert(vals.extra_keys() =~= keys_set(vals.pairs()));
                } else {
                    lemma_keys_set_push(m0.pairs, m0.k, m0.v);
                }
            }
            Ok((a, vals, free))
        },
        LineState::Type => Ok((a, vals, free)),
        _ => Err(ManifestError::BadEnd),
    }
}

/// Octal digits.
pub open spec fn is_octal_digit(c: char) -> bool {
    48 <= c as u32 && c as u32 <= 55
}

pub open spec fn digit_octal(c: char) -> nat {
    if is_octal_digit(c) {
        (c as u32 - 48) as nat
    } else {
        0
    }
}

/// The value of a run of octal digits, most significant first.
pub open spec fn octal_val(s: Seq<char>) -> nat
    decreases s.len(),
{
    if s.len() == 0 {
        0
    } else {
        octal_val(s.drop_last()) * 8 + digit_octal(s.last())
    }
}

/// The digit run of an octal mode string, past any leading `+`.
pub open spec fn octal_body(s: Seq<char>) -> Seq<char> {
    if s.len() > 0 && s[0] == '+' {
        s.drop_first()
    } else {
        s
    }
}

pub open spec fn all_octal_digits(t: Seq<char>) -> bool {
    forall|i: int| 0 <= i < t.len() ==> is_octal_digit(t[i])
}

/// The number an octal mode string denotes: an optional leading `+`, then
/// at least one octal digit, the value fitting 32 bits.
pub open spec fn parse_octal(s: Seq<char>) -> Option<u32> {
    if octal_body(s).len() > 0 && all_octal_digits(octal_body(s)) && octal_val(octal_body(s))
        <= u32::MAX as nat {
        Some(octal_val(octal_body(s)) as u32)
    } else {
        None
    }
}

/// The value of a digit string dominates the value of any of its prefixes.
proof fn lemma_octal_prefix(t: Seq<char>, j: int)
    requires
        0 <= j <= t.len(),
    ensures
        octal_val(t) >= octal_val(t.take(j)),
    decreases t.len(),
{
    if j < t.len() {
        assert(t.drop_last().take(j) =~= t.take(j));
        lemma_octal_prefix(t.drop_last(), j);
    } else {
        assert(t.take(j) =~= t);
    }
}

/// Reads an octal number as `u32::from_str_radix` with radix eight does.
#[verifier::loop_isolation(false)]
pub fn parse_octal_u32(s: &str) -> (r: Option<u32>)
    ensures
        r == parse_octal(s@),
{
    let cs = str_chars(s);
    let n = cs.len();
    let start: usize = if n > 0 && cs[0] == '+' {
        1
    } else {
        0
    };
    let ghost t = octal_body(s@);
    proof {
        assert(t =~= cs@.subrange(start as int, n as int));
    }
    if start == n {
        return None;
    }
    let mut acc: u32 = 0;
    let mut i = start;
    while i < n
        invariant
            start <= i <= n,
            n == cs@.len(),
            t =~= cs@.subrange(start as int, n as int),
            forall|k: int| 0 <= k < i - start ==> is_octal_digit(t[k]),
            acc as nat == octal_val(t.take(i - start)),
        decreases n - i,
    {
        let c = cs[i];
        proof {
            assert(t.take(i + 1 - start).drop_last() =~= t.take(i - start));
            assert(t.take(i + 1 - start).last() == cs@[i as int]);
        }
        let u = c as u32;
        if !(48 <= u && u <= 55) {
            proof {
                let w = i - start;
                assert(0 <= w < t.len() && !is_octal_digit(t[w]));
                assert(!all_octal_digits(t));
                assert(parse_octal(s@) is None);
            }
            return None;
        }
        let d = u - 48;
        let wide: u64 = acc as u64 * 8 + d as u64;
        if wide > u32::MAX as u64 {
            proof {
                assert(octal_val(t.take(i + 1 - start)) > u32::MAX as nat);
                lemma_octal_prefix(t, i + 1 - start);
            }
            return None;
        }
        acc = wide as u32;
        i = i + 1;
    }
    proof {
        assert(t.take(n - start) =~= t);
    }
    Some(acc)
}

/// The relationship class of a dependency.
#[derive(Debug, Clone, Copy, PartialEq, Eq, PartialOrd, Ord, Structural)]
pub enum DependType {
    Incorporate,
    Require,
    RequireAny,
    Group,
    GroupAny,
    Optional,
    Conditional,
}

/// The dependency type a manifest token denotes.
pub open spec fn depend_type_of(s: Seq<char>) -> Option<DependType> {
    if s == "incorporate"@ {
        Some(DependType::Incorporate)
    } else if s == "require"@ {
        Some(DependType::Require)
    } else if s == "require-any"@ {
        Some(DependType::RequireAny)
    } else if s == "group"@ {
        Some(DependType::Group)
    } else if s == "group-any"@ {
        Some(DependType::GroupAny)
    } else if s == "optional"@ {
        Some(DependType::Optional)
    } else if s == "conditional"@ {
        Some(DependType::Conditional)
    } else {
        None
    }
}

/// The manifest token of each dependency type.
pub open spec fn depend_type_text(t: DependType) -> Seq<char> {
    match t {
        DependType::Incorporate => "incorporate"@,
        DependType::Require => "require"@,
        DependType::RequireAny => "require-any"@,
        DependType::Group => "group"@,
        DependType::GroupAny => "group-any"@,
        DependType::Optional => "optional"@,
        DependType::Conditional => "conditional"@,
    }
}

impl DependType {
    /// Parses a dependency-type token.
    pub fn parse(s: &str) -> (r: Option<DependType>)
        ensures
            r == depend_type_of(s@),
    {
        if str_eq(s, "incorporate") {
            Some(DependType::Incorporate)
        } else if str_eq(s, "require") {
            Some(DependType::Require)
        } else if str_eq(s, "require-any") {
            Some(DependType::RequireAny)
        } else if str_eq(s, "group") {
            Some(DependType::Group)
        } else if str_eq(s, "group-any") {
            Some(DependType::GroupAny)
        } else if str_eq(s, "optional") {
            Some(DependType::Optional)
        } else if str_eq(s, "conditional") {
            Some(DependType::Conditional)
        } else {
            None
        }
    }

    /// The manifest token for this dependency type.
    pub fn text(&self) -> (r: String)
        ensures
            r@ == depend_type_text(*self),
    {
        match self {
            DependType::Incorporate => String::from_str("incorporate"),
            DependType::Require => String::from_str("require"),
            DependType::RequireAny => String::from_str("require-any"),
            DependType::Group => String::from_str("group"),
            DependType::GroupAny => String::from_str("group-any"),
            DependType::Optional => String::from_str("optional"),
            DependType::Conditional => String::from_str("conditional"),
        }
    }
}

/// The fields shared by file and directory actions.
#[derive(Debug, Clone)]
pub struct ActionFile {
    path: String,
    owner: String,
    group: String,
    mode: u32,
    fileid: Option<String>,
}

#[verifier::ext_equal]
pub struct ActionFileView {
    pub path: Seq<char>,
    pub owner: Seq<char>,
    pub group: Seq<char>,
    pub mode: u32,
    pub fileid: Option<Seq<char>>,
}

impl View for ActionFile {
    type V = ActionFileView;

    closed spec fn view(&self) -> ActionFileView {
        ActionFileView {
            path: self.path@,
            owner: self.owner@,
            group: self.group@,
            mode: self.mode,
            fileid: match self.fileid {
                Some(f) => Some(f@),
                None => None,
            },
        }
    }
}

impl ActionFile {
    pub fn path(&self) -> (r: &str)
        ensures
            r@ == self@.path,
    {
        self.path.as_str()
    }

    pub fn fileid(&self) -> (r: Option<&str>)
        ensures
            match r {
                Some(f) => self@.fileid == Some(f@),
                None => self@.fileid is None,
            },
    {
        match &self.fileid {
            Some(f) => Some(f.as_str()),
            None => None,
        }
    }

    pub fn mode(&self) -> (r: u32)
        ensures
            r == self@.mode,
    {
        self.mode
    }

    pub fn owner(&self) -> (r: &str)
        ensures
            r@ == self@.owner,
    {
        self.owner.as_str()
    }

    pub fn group(&self) -> (r: &str)
        ensures
            r@ == self@.group,
    {
        self.group.as_str()
    }
}

/// A symbolic or hard link action.
#[derive(Debug, Clone)]
pub struct ActionLink {
    path: String,
    target: String,
}

#[verifier::ext_equal]
pub struct ActionLinkView {
    pub path: Seq<char>,
    pub target: Seq<char>,
}

impl View for ActionLink {
    type V = ActionLinkView;

    closed spec fn view(&self) -> ActionLinkView {
        ActionLinkView { path: self.path@, target: self.target@ }
    }
}

impl ActionLink {
    pub fn path(&self) -> (r: &str)
        ensures
            r@ == self@.path,
    {
        self.path.as_str()
    }

    pub fn target(&self) -> (r: &str)
        ensures
            r@ == self@.target,
    {
        self.target.as_str()
    }
}

/// A dependency on other packages.
#[derive(Debug, Clone)]
pub struct ActionDepend {
    fmri: Vec<Package>,
    type_: DependType,
    predicate: Vec<String>,
}

#[verifier::ext_equal]
pub struct ActionDependView {
    pub fmris: Seq<PackageView>,
    pub type_: DependType,
    pub predicate: Seq<Seq<char>>,
}

impl View for ActionDepend {
    type V = ActionDependView;

    closed spec fn view(&self) -> ActionDependView {
        ActionDependView {
            fmris: self.fmri.deep_view(),
            type_: self.type_,
            predicate: self.predicate.deep_view(),
        }
    }
}

impl ActionDepend {
    pub fn fmris(&self) -> (r: &Vec<Package>)
        ensures
            r.deep_view() == self@.fmris,
    {
        &self.fmri
    }

    pub fn predicate(&self) -> (r: &Vec<String>)
        ensures
            r.deep_view() == self@.predicate,
    {
        &self.predicate
    }

    pub fn type_(&self) -> (r: DependType)
        ensures
            r == self@.type_,
    {
        self.type_
    }
}

/// One manifest entry, a tagged union over the action types.
#[derive(Debug, Clone)]
pub enum ActionKind {
    SetProp(String, Vec<String>),
    Depend(ActionDepend),
    Unknown(String, Vec<String>),
    File(ActionFile),
    Dir(ActionFile),
    Link(ActionLink),
    Hardlink(ActionLink),
}

#[verifier::ext_equal]
pub enum ActionKindView {
    SetProp(Seq<char>, Seq<Seq<char>>),
    Depend(ActionDependView),
    Unknown(Seq<char>, Seq<Seq<char>>),
    File(ActionFileView),
    Dir(ActionFileView),
    Link(ActionLinkView),
    Hardlink(ActionLinkView),
}

impl View for ActionKind {
    type V = ActionKindView;

    closed spec fn view(&self) -> ActionKindView {
        match self {
            ActionKind::SetProp(n, vs) => ActionKindView::SetProp(n@, vs.deep_view()),
            ActionKind::Depend(d) => ActionKindView::Depend(d@),
            ActionKind::Unknown(n, vs) => ActionKindView::Unknown(n@, vs.deep_view()),
            ActionKind::File(f) => ActionKindView::File(f@),
            ActionKind::Dir(f) => ActionKindView::Dir(f@),
            ActionKind::Link(l) => ActionKindView::Link(l@),
            ActionKind::Hardlink(l) => ActionKindView::Hardlink(l@),
        }
    }
}

/// One parsed manifest line: its action, the raw property pairs, and the
/// zone variant tags that classify global-zone-only content.
#[derive(Debug, Clone)]
pub struct Action {
    kind: ActionKind,
    vals: Vals,
    variant_zone: Option<String>,
    variant_imagetype: Option<String>,
}

#[verifier::ext_equal]
pub struct ActionView {
    pub kind: ActionKindView,
    pub pairs: Seq<(Seq<char>, Seq<char>)>,
    pub variant_zone: Option<Seq<char>>,
    pub variant_imagetype: Option<Seq<char>>,
}

impl View for Action {
    type V = ActionView;

    closed spec fn view(&self) -> ActionView {
        ActionView {
            kind: self.kind@,
            pairs: self.vals.pairs(),
            variant_zone: match self.variant_zone {
                Some(z) => Some(z@),
                None => None,
            },
            variant_imagetype: match self.variant_imagetype {
                Some(z) => Some(z@),
                None => None,
            },
        }
    }
}

impl DeepView for Action {
    type V = ActionView;

    open spec fn deep_view(&self) -> ActionView {
        self.view()
    }
}

/// The view of an action kind follows its variant, carrying the views of
/// its payloads.
pub proof fn lemma_kind_view(k: &ActionKind)
    ensures
        match k {
            ActionKind::SetProp(n, vs) => k@ == ActionKindView::SetProp(n@, vs.deep_view()),
            ActionKind::Depend(d) => k@ == ActionKindView::Depend(d@),
            ActionKind::Unknown(n, vs) => k@ == ActionKindView::Unknown(n@, vs.deep_view()),
            ActionKind::File(f) => k@ == ActionKindView::File(f@),
            ActionKind::Dir(f) => k@ == ActionKindView::Dir(f@),
            ActionKind::Link(l) => k@ == ActionKindView::Link(l@),
            ActionKind::Hardlink(l) => k@ == ActionKindView::Hardlink(l@),
        },
{
}

impl Action {
    pub fn kind(&self) -> (r: &ActionKind)
        ensures
            r@ == self@.kind,
    {
        &self.kind
    }

    /// Whether every reference to this entry is tagged for the global zone
    /// only.
    pub fn gz_only(&self) -> (r: bool)
        ensures
            r == (self@.variant_zone == Some("global"@)),
    {
        match &self.variant_zone {
            Some(z) => str_eq(z.as_str(), "global"),
            None => false,
        }
    }
}

/// Parsing every FMRI of a depend action, failing at the first malformed
/// one.
pub open spec fn parse_fmris(vs: Seq<Seq<char>>) -> Result<Seq<PackageView>, FmriError>
    decreases vs.len(),
{
    if vs.len() == 0 {
        Ok(seq![])
    } else {
        match parse_fmris(vs.drop_last()) {
            Ok(ps) => match parse_fmri_seq(vs.last()) {
                Ok(p) => Ok(ps.push(p)),
                Err(e) => Err(e),
            },
            Err(e) => Err(e),
        }
    }
}

proof fn lemma_parse_fmris_err(vs: Seq<Seq<char>>, i: int, e: FmriError)
    requires
        0 <= i < vs.len(),
        parse_fmris(vs.take(i)) is Ok,
        parse_fmri_seq(vs[i]) == Err::<PackageView, FmriError>(e),
    ensures
        parse_fmris(vs) == Err::<Seq<PackageView>, FmriError>(e),
    decreases vs.len(),
{
    if i == vs.len() - 1 {
        assert(vs.take(i) =~= vs.drop_last());
        assert(vs.last() == vs[i]);
    } else {
        assert(vs.drop_last().take(i) =~= vs.take(i));
        lemma_parse_fmris_err(vs.drop_last(), i, e);
    }
}

/// Whether every property key appears in the consumed list.
pub open spec fn consumed_ok(pairs: Seq<(Seq<char>, Seq<char>)>, consumed: Seq<Seq<char>>) -> bool {
    forall|i: int| 0 <= i < pairs.len() ==> consumed.contains(#[trigger] pairs[i].0)
}

/// The keys a `set` action consumes.
pub open spec fn set_consumed() -> Seq<Seq<char>> {
    seq!["variant.opensolaris.zone"@, "variant.opensolaris.imagetype"@, "name"@, "value"@]
}

/// The keys a `depend` action consumes.
pub open spec fn depend_consumed() -> Seq<Seq<char>> {
    seq![
        "variant.opensolaris.zone"@,
        "variant.opensolaris.imagetype"@,
        "fmri"@,
        "type"@,
        "predicate"@,
        "pkg.linted"@,
    ]
}

/// An emptied unconsumed set means every key was consumed; a non-empty one
/// names a key the action did not consume.
proof fn lemma_unconsumed_bridge(
    pairs: Seq<(Seq<char>, Seq<char>)>,
    extra: Set<Seq<char>>,
    consumed: Seq<Seq<char>>,
)
    requires
        forall|k: Seq<char>| #[trigger] extra.contains(k) <==> (pairs_has_key(pairs, k)
            && !consumed.contains(k)),
    ensures
        (extra =~= Set::<Seq<char>>::empty()) ==> consumed_ok(pairs, consumed),
        (exists|k: Seq<char>| #[trigger] extra.contains(k)) ==> !consumed_ok(pairs, consumed),
{
    if extra =~= Set::<Seq<char>>::empty() {
        assert forall|i: int| 0 <= i < pairs.len() implies consumed.contains(
            #[trigger] pairs[i].0,
        ) by {
            let k = pairs[i].0;
            assert(pairs_has_key(pairs, k));
            assert(!extra.contains(k));
        }
    }
    if exists|k: Seq<char>| #[trigger] extra.contains(k) {
        let k = choose|k: Seq<char>| #[trigger] extra.contains(k);
        let i = choose|i: int| 0 <= i < pairs.len() && pairs[i].0 == k;
        if consumed_ok(pairs, consumed) {
            assert(consumed.contains(pairs[i].0));
        }
    }
}

/// The `set` action: one `name`, at least one `value`, nothing else.
pub open spec fn extract_set(pairs: Seq<(Seq<char>, Seq<char>)>) -> Result<
    ActionKindView,
    ManifestError,
> {
    let names = values_of(pairs, "name"@);
    let vs = values_of(pairs, "value"@);
    if names.len() > 1 {
        Err(ManifestError::MultipleValues)
    } else if names.len() == 0 {
        Err(ManifestError::MissingValue)
    } else if vs.len() == 0 {
        Err(ManifestError::EmptyList)
    } else if !consumed_ok(pairs, set_consumed()) {
        Err(ManifestError::Unconsumed)
    } else {
        Ok(ActionKindView::SetProp(names[0], vs))
    }
}

/// The `depend` action: at least one well-formed `fmri`, a known `type`,
/// optional `predicate` and `pkg.linted`, nothing else.
pub open spec fn extract_depend(pairs: Seq<(Seq<char>, Seq<char>)>) -> Result<
    ActionKindView,
    ManifestError,
> {
    let fm = values_of(pairs, "fmri"@);
    if fm.len() == 0 {
        Err(ManifestError::EmptyList)
    } else {
        match parse_fmris(fm) {
            Err(e) => Err(ManifestError::Fmri(e)),
            Ok(pkgs) => {
                let ts = values_of(pairs, "type"@);
                if ts.len() > 1 {
                    Err(ManifestError::MultipleValues)
                } else if ts.len() == 0 {
                    Err(ManifestError::MissingValue)
                } else {
                    match depend_type_of(ts[0]) {
                        None => Err(ManifestError::BadDependType),
                        Some(t) => {
                            let pred = values_of(pairs, "predicate"@);
                            let pl = values_of(pairs, "pkg.linted"@);
                            if pl.len() > 1 {
                                Err(ManifestError::MultipleValues)
                            } else if !consumed_ok(pairs, depend_consumed()) {
                                Err(ManifestError::Unconsumed)
                            } else {
                                Ok(
                                    ActionKindView::Depend(
                                        ActionDependView { fmris: pkgs, type_: t, predicate: pred },
                                    ),
                                )
                            }
                        },
                    }
                }
            },
        }
    }
}

/// One single-valued property, shared by the file-like extractions.
pub open spec fn one_value(pairs: Seq<(Seq<char>, Seq<char>)>, key: Seq<char>) -> Result<
    Seq<char>,
    ManifestError,
> {
    let vs = values_of(pairs, key);
    if vs.len() > 1 {
        Err(ManifestError::MultipleValues)
    } else if vs.len() == 0 {
        Err(ManifestError::MissingValue)
    } else {
        Ok(vs[0])
    }
}

/// The `dir` and `file` actions: a path, ownership and an octal mode; a
/// `file` may carry one bareword content identifier, a `dir` none.
pub open spec fn extract_filedir(
    pairs: Seq<(Seq<char>, Seq<char>)>,
    free: Seq<Seq<char>>,
    is_file: bool,
) -> Result<ActionKindView, ManifestError> {
    match one_value(pairs, "path"@) {
        Err(e) => Err(e),
        Ok(path) => {
            if !is_file && free.len() > 0 {
                Err(ManifestError::SpareArguments)
            } else if is_file && free.len() > 1 {
                Err(ManifestError::MultipleFileIds)
            } else {
                let fileid = if is_file && free.len() == 1 {
                    Some(free[0])
                } else {
                    None
                };
                match one_value(pairs, "owner"@) {
                    Err(e) => Err(e),
                    Ok(owner) => match one_value(pairs, "group"@) {
                        Err(e) => Err(e),
                        Ok(group) => match one_value(pairs, "mode"@) {
                            Err(e) => Err(e),
                            Ok(ms) => match parse_octal(ms) {
                                None => Err(ManifestError::BadMode),
                                Some(mode) => {
                                    let f = ActionFileView { path, owner, group, mode, fileid };
                                    Ok(
                                        if is_file {
                                            ActionKindView::File(f)
                                        } else {
                                            ActionKindView::Dir(f)
                                        },
                                    )
                                },
                            },
                        },
                    },
                }
            }
        },
    }
}

/// The `link` and `hardlink` actions: a path and a target, no barewords.
pub open spec fn extract_linklike(
    pairs: Seq<(Seq<char>, Seq<char>)>,
    free: Seq<Seq<char>>,
    hard: bool,
) -> Result<ActionKindView, ManifestError> {
    match one_value(pairs, "path"@) {
        Err(e) => Err(e),
        Ok(path) => match one_value(pairs, "target"@) {
            Err(e) => Err(e),
            Ok(target) => {
                if free.len() > 0 {
                    Err(ManifestError::SpareArguments)
                } else {
                    let l = ActionLinkView { path, target };
                    Ok(
                        if hard {
                            ActionKindView::Hardlink(l)
                        } else {
                            ActionKindView::Link(l)
                        },
                    )
                }
            },
        },
    }
}

pub open spec fn extract_kind(
    a: Seq<char>,
    pairs: Seq<(Seq<char>, Seq<char>)>,
    free: Seq<Seq<char>>,
) -> Result<ActionKindView, ManifestError> {
    if a == "set"@ {
        extract_set(pairs)
    } else if a == "depend"@ {
        extract_depend(pairs)
    } else if a == "dir"@ {
        extract_filedir(pairs, free, false)
    } else if a == "file"@ {
        extract_filedir(pairs, free, true)
    } else if a == "link"@ {
        extract_linklike(pairs, free, false)
    } else if a == "hardlink"@ {
        extract_linklike(pairs, free, true)
    } else {
        Ok(ActionKindView::Unknown(a, free))
    }
}

/// The action a line's tokens denote: the zone variant tags are read
/// first, then the fields of the action type.
pub open spec fn extract_action(
    a: Seq<char>,
    pairs: Seq<(Seq<char>, Seq<char>)>,
    free: Seq<Seq<char>>,
) -> Result<ActionView, ManifestError> {
    let vz = values_of(pairs, "variant.opensolaris.zone"@);
    let vit = values_of(pairs, "variant.opensolaris.imagetype"@);
    if vz.len() > 1 {
        Err(ManifestError::MultipleValues)
    } else if vit.len() > 1 {
        Err(ManifestError::MultipleValues)
    } else {
        match extract_kind(a, pairs, free) {
            Err(e) => Err(e),
            Ok(kind) => Ok(
                ActionView {
                    kind,
                    pairs,
                    variant_zone: if vz.len() == 1 {
                        Some(vz[0])
                    } else {
                        None
                    },
                    variant_imagetype: if vit.len() == 1 {
                        Some(vit[0])
                    } else {
                        None
                    },
                },
            ),
        }
    }
}

/// What one manifest line denotes.
pub open spec fn parse_line_spec(l: Seq<char>) -> Result<ActionView, ManifestError> {
    match line_tokens(l) {
        Ok(t) => extract_action(t.0, t.1, t.2),
        Err(e) => Err(e),
    }
}

/// The canonical text of a link or hardlink action.
pub open spec fn link_line(path: Seq<char>, target: Seq<char>, hard: bool) -> Seq<char> {
    (if hard {
        "hardlink path="@
    } else {
        "link path="@
    }) + path + " target="@ + target
}

/// Serializing the fields of a link or hardlink action and parsing the
/// line back yields exactly those fields: the field-level round trip of
/// the manifest grammar for link-like actions.
#[verifier::rlimit(100)]
pub proof fn lemma_link_round_trip(path: Seq<char>, target: Seq<char>, hard: bool)
    requires
        path.len() > 0,
        target.len() > 0,
        forall|i: int| 0 <= i < path.len() ==> value_char(#[trigger] path[i]),
        forall|i: int| 0 <= i < target.len() ==> value_char(#[trigger] target[i]),
    ensures
        parse_line_spec(link_line(path, target, hard)) == Ok::<ActionView, ManifestError>(
            ActionView {
                kind: if hard {
                    ActionKindView::Hardlink(ActionLinkView { path, target })
                } else {
                    ActionKindView::Link(ActionLinkView { path, target })
                },
                pairs: seq![("path"@, path), ("target"@, target)],
                variant_zone: None,
                variant_imagetype: None,
            },
        ),
{
    reveal_strlit("link path=");
    reveal_strlit("hardlink path=");
    reveal_strlit(" target=");
    reveal_strlit("link");
    reveal_strlit("hardlink");
    reveal_strlit("path");
    reveal_strlit("target");
    reveal_strlit("set");
    reveal_strlit("depend");
    reveal_strlit("dir");
    reveal_strlit("file");
    reveal_strlit("facet.");
    reveal_strlit("variant.opensolaris.zone");
    reveal_strlit("variant.opensolaris.imagetype");
    let l1 = if hard {
        "hardlink path="@
    } else {
        "link path="@
    };
    let a0 = if hard {
        "hardlink"@
    } else {
        "link"@
    };
    let s = link_line(path, target, hard);
    let m1 = LineMachine {
        state: LineState::Value,
        a: a0,
        k: "path"@,
        v: Seq::empty(),
        pairs: Seq::empty(),
        free: Seq::empty(),
        quote: '"',
    };
    assert(run_line(l1) == Ok::<LineMachine, ManifestError>(m1)) by {
        reveal_with_fuel(run_line, 16);
        if hard {
            assert(Seq::empty().push('h').push('a').push('r').push('d').push('l').push(
                'i',
            ).push('n').push('k') =~= "hardlink"@);
        } else {
            assert(Seq::empty().push('l').push('i').push('n').push('k') =~= "link"@);
        }
        assert(Seq::empty().push('p').push('a').push('t').push('h') =~= "path"@);
    }
    // the value of `path` accumulates character by character
    let m2 = LineMachine { state: LineState::ValueUnquoted, v: path, ..m1 };
    assert(run_line(l1 + path) == Ok::<LineMachine, ManifestError>(m2)) by {
        lemma_run_line_concat(l1, path);
        assert(path =~= seq![path[0]] + path.skip(1));
        lemma_run_steps_concat(Ok(m1), seq![path[0]], path.skip(1));
        assert(run_steps(Ok(m1), seq![path[0]]) == Ok::<LineMachine, ManifestError>(
            LineMachine { state: LineState::ValueUnquoted, v: seq![path[0]], ..m1 },
        )) by {
            reveal_with_fuel(run_steps, 2);
            assert(seq![path[0]].drop_last() =~= Seq::<char>::empty());
            assert(seq![path[0]].last() == path[0]);
            assert(value_char(path[0]));
            assert(Seq::empty().push(path[0]) =~= seq![path[0]]);
        }
        assert(forall|i: int| 0 <= i < path.skip(1).len() ==> value_char(
            #[trigger] path.skip(1)[i],
        ));
        lemma_run_value_chars(
            LineMachine { state: LineState::ValueUnquoted, v: seq![path[0]], ..m1 },
            path.skip(1),
        );
        assert(seq![path[0]] + path.skip(1) =~= path);
        assert(LineMachine {
            v: seq![path[0]] + path.skip(1),
            ..LineMachine { state: LineState::ValueUnquoted, v: seq![path[0]], ..m1 }
        } =~~= m2);
    }
    // the literal between the values records the first pair and opens the
    // second key
    let m3 = LineMachine {
        state: LineState::Value,
        a: a0,
        k: "target"@,
        v: path,
        pairs: seq![("path"@, path)],
        free: Seq::empty(),
        quote: '"',
    };
    assert(run_line(l1 + path + " target="@) == Ok::<LineMachine, ManifestError>(m3)) by {
        lemma_run_line_concat(l1 + path, " target="@);
        assert(!is_facet_key("path"@)) by {
            assert("path"@.len() == 4);
        }
        assert(run_steps(Ok(m2), " target="@) == Ok::<LineMachine, ManifestError>(m3)) by {
            reveal_with_fuel(run_steps, 10);
            assert(Seq::empty().push('t').push('a').push('r').push('g').push('e').push(
                't',
            ) =~= "target"@);
            assert(Seq::<(Seq<char>, Seq<char>)>::empty().push(("path"@, path)) =~= seq![
                ("path"@, path),
            ]);
        }
    }
    // the value of `target` accumulates the same way
    let m4 = LineMachine { state: LineState::ValueUnquoted, v: target, ..m3 };
    assert(run_line(s) == Ok::<LineMachine, ManifestError>(m4)) by {
        assert(s =~= (l1 + path + " target="@) + target);
        lemma_run_line_concat(l1 + path + " target="@, target);
        assert(target =~= seq![target[0]] + target.skip(1));
        lemma_run_steps_concat(Ok(m3), seq![target[0]], target.skip(1));
        assert(run_steps(Ok(m3), seq![target[0]]) == Ok::<LineMachine, ManifestError>(
            LineMachine { state: LineState::ValueUnquoted, v: seq![target[0]], ..m3 },
        )) by {
            reveal_with_fuel(run_steps, 2);
            assert(seq![target[0]].drop_last() =~= Seq::<char>::empty());
            assert(seq![target[0]].last() == target[0]);
            assert(value_char(target[0]));
            assert(Seq::empty().push(target[0]) =~= seq![target[0]]);
        }
        assert(forall|i: int| 0 <= i < target.skip(1).len() ==> value_char(
            #[trigger] target.skip(1)[i],
        ));
        lemma_run_value_chars(
            LineMachine { state: LineState::ValueUnquoted, v: seq![target[0]], ..m3 },
            target.skip(1),
        );
        assert(seq![target[0]] + target.skip(1) =~= target);
        assert(LineMachine {
            v: seq![target[0]] + target.skip(1),
            ..LineMachine { state: LineState::ValueUnquoted, v: seq![target[0]], ..m3 }
        } =~~= m4);
    }
    // the line ends inside the unquoted value, so the final pair is
    // recorded by the terminal step
    let pairs = seq![("path"@, path), ("target"@, target)];
    assert(line_tokens(s) == Ok::<
        (Seq<char>, Seq<(Seq<char>, Seq<char>)>, Seq<Seq<char>>),
        ManifestError,
    >((a0, pairs, Seq::empty()))) by {
        assert(!is_facet_key("target"@)) by {
            assert("target"@.len() == 6);
            if "target"@.take(6) == "facet."@ {
                assert("target"@.take(6)[0] == 't');
                assert("facet."@[0] == 'f');
            }
        }
        assert(machine_insert(m4.pairs, m4.k, m4.v) =~~= pairs);
    }
    // the extraction sees exactly one value per key and no barewords
    let vzk = "variant.opensolaris.zone"@;
    let vitk = "variant.opensolaris.imagetype"@;
    assert(pairs.drop_last() =~= seq![("path"@, path)]);
    assert(seq![("path"@, path)].drop_last() =~= Seq::<(Seq<char>, Seq<char>)>::empty());
    assert("path"@ != "target"@) by {
        assert("path"@.len() == 4);
        assert("target"@.len() == 6);
    }
    assert("path"@ != vzk && "target"@ != vzk) by {
        assert(vzk.len() == 24);
    }
    assert("path"@ != vitk && "target"@ != vitk) by {
        assert(vitk.len() == 29);
    }
    let one = seq![("path"@, path)];
    let nil = Seq::<(Seq<char>, Seq<char>)>::empty();
    assert(pairs.drop_last() =~= one);
    assert(one.drop_last() =~= nil);
    assert(pairs.last() == ("target"@, target));
    assert(one.last() == ("path"@, path));
    assert(values_of(nil, vzk) =~~= Seq::<Seq<char>>::empty());
    assert(values_of(one, vzk) =~~= Seq::<Seq<char>>::empty());
    assert(values_of(pairs, vzk) =~~= Seq::<Seq<char>>::empty());
    assert(values_of(nil, vitk) =~~= Seq::<Seq<char>>::empty());
    assert(values_of(one, vitk) =~~= Seq::<Seq<char>>::empty());
    assert(values_of(pairs, vitk) =~~= Seq::<Seq<char>>::empty());
    assert(values_of(nil, "path"@) =~~= Seq::<Seq<char>>::empty());
    assert(values_of(one, "path"@) =~~= seq![path]);
    assert(values_of(pairs, "path"@) =~~= seq![path]);
    assert(values_of(nil, "target"@) =~~= Seq::<Seq<char>>::empty());
    assert(values_of(one, "target"@) =~~= Seq::<Seq<char>>::empty());
    assert(values_of(pairs, "target"@) =~~= seq![target]);
    assert(a0 != "set"@ && a0 != "depend"@ && a0 != "dir"@ && a0 != "file"@) by {
        assert("set"@.len() == 3);
        assert("depend"@.len() == 6);
        assert("dir"@.len() == 3);
        assert("file"@.len() == 4);
        assert("link"@.len() == 4);
        assert("hardlink"@.len() == 8);
        if !hard && a0 == "file"@ {
            assert(a0[0] == 'l');
            assert("file"@[0] == 'f');
        }
        if hard && a0 == "hardlink"@ {
        }
    }
    if hard {
        assert(a0 != "link"@) by {
            assert("link"@.len() == 4);
        }
    }
    assert(extract_kind(a0, pairs, Seq::empty()) == Ok::<ActionKindView, ManifestError>(
        if hard {
            ActionKindView::Hardlink(ActionLinkView { path, target })
        } else {
            ActionKindView::Link(ActionLinkView { path, target })
        },
    ));
}

/// The canonical text of a property-set action with one value.
pub open spec fn set_line(name: Seq<char>, value: Seq<char>) -> Seq<char> {
    "set name="@ + name + " value="@ + value
}

/// Serializing the fields of a single-valued property-set action and
/// parsing the line back yields exactly those fields.
#[verifier::rlimit(100)]
pub proof fn lemma_set_round_trip(name: Seq<char>, value: Seq<char>)
    requires
        name.len() > 0,
        value.len() > 0,
        forall|i: int| 0 <= i < name.len() ==> value_char(#[trigger] name[i]),
        forall|i: int| 0 <= i < value.len() ==> value_char(#[trigger] value[i]),
    ensures
        parse_line_spec(set_line(name, value)) == Ok::<ActionView, ManifestError>(
            ActionView {
                kind: ActionKindView::SetProp(name, seq![value]),
                pairs: seq![("name"@, name), ("value"@, value)],
                variant_zone: None,
                variant_imagetype: None,
            },
        ),
{
    reveal_strlit("set name=");
    reveal_strlit(" value=");
    reveal_strlit("set");
    reveal_strlit("name");
    reveal_strlit("value");
    reveal_strlit("facet.");
    reveal_strlit("variant.opensolaris.zone");
    reveal_strlit("variant.opensolaris.imagetype");
    let l1 = "set name="@;
    let a0 = "set"@;
    let s = set_line(name, value);
    let m1 = LineMachine {
        state: LineState::Value,
        a: a0,
        k: "name"@,
        v: Seq::empty(),
        pairs: Seq::empty(),
        free: Seq::empty(),
        quote: '"',
    };
    assert(run_line(l1) == Ok::<LineMachine, ManifestError>(m1)) by {
        reveal_with_fuel(run_line, 11);
        assert(Seq::empty().push('s').push('e').push('t') =~= "set"@);
        assert(Seq::empty().push('n').push('a').push('m').push('e') =~= "name"@);
    }
    let m2 = LineMachine { state: LineState::ValueUnquoted, v: name, ..m1 };
    assert(run_line(l1 + name) == Ok::<LineMachine, ManifestError>(m2)) by {
        lemma_run_line_concat(l1, name);
        assert(name =~= seq![name[0]] + name.skip(1));
        lemma_run_steps_concat(Ok(m1), seq![name[0]], name.skip(1));
        assert(run_steps(Ok(m1), seq![name[0]]) == Ok::<LineMachine, ManifestError>(
            LineMachine { state: LineState::ValueUnquoted, v: seq![name[0]], ..m1 },
        )) by {
            reveal_with_fuel(run_steps, 2);
            assert(seq![name[0]].drop_last() =~= Seq::<char>::empty());
            assert(seq![name[0]].last() == name[0]);
            assert(value_char(name[0]));
            assert(Seq::empty().push(name[0]) =~= seq![name[0]]);
        }
        assert(forall|i: int| 0 <= i < name.skip(1).len() ==> value_char(
            #[trigger] name.skip(1)[i],
        ));
        lemma_run_value_chars(
            LineMachine { state: LineState::ValueUnquoted, v: seq![name[0]], ..m1 },
            name.skip(1),
        );
        assert(seq![name[0]] + name.skip(1) =~= name);
        assert(LineMachine {
            v: seq![name[0]] + name.skip(1),
            ..LineMachine { state: LineState::ValueUnquoted, v: seq![name[0]], ..m1 }
        } =~~= m2);
    }
    let m3 = LineMachine {
        state: LineState::Value,
        a: a0,
        k: "value"@,
        v: name,
        pairs: seq![("name"@, name)],
        free: Seq::empty(),
        quote: '"',
    };
    assert(run_line(l1 + name + " value="@) == Ok::<LineMachine, ManifestError>(m3)) by {
        lemma_run_line_concat(l1 + name, " value="@);
        assert(!is_facet_key("name"@)) by {
            assert("name"@.len() == 4);
        }
        assert(run_steps(Ok(m2), " value="@) == Ok::<LineMachine, ManifestError>(m3)) by {
            reveal_with_fuel(run_steps, 9);
            assert(Seq::empty().push('v').push('a').push('l').push('u').push('e') =~= "value"@);
            assert(Seq::<(Seq<char>, Seq<char>)>::empty().push(("name"@, name)) =~= seq![
                ("name"@, name),
            ]);
        }
    }
    let m4 = LineMachine { state: LineState::ValueUnquoted, v: value, ..m3 };
    assert(run_line(s) == Ok::<LineMachine, ManifestError>(m4)) by {
        assert(s =~= (l1 + name + " value="@) + value);
        lemma_run_line_concat(l1 + name + " value="@, value);
        assert(value =~= seq![value[0]] + value.skip(1));
        lemma_run_steps_concat(Ok(m3), seq![value[0]], value.skip(1));
        assert(run_steps(Ok(m3), seq![value[0]]) == Ok::<LineMachine, ManifestError>(
            LineMachine { state: LineState::ValueUnquoted, v: seq![value[0]], ..m3 },
        )) by {
            reveal_with_fuel(run_steps, 2);
            assert(seq![value[0]].drop_last() =~= Seq::<char>::empty());
            assert(seq![value[0]].last() == value[0]);
            assert(value_char(value[0]));
            assert(Seq::empty().push(value[0]) =~= seq![value[0]]);
        }
        assert(forall|i: int| 0 <= i < value.skip(1).len() ==> value_char(
            #[trigger] value.skip(1)[i],
        ));
        lemma_run_value_chars(
            LineMachine { state: LineState::ValueUnquoted, v: seq![value[0]], ..m3 },
            value.skip(1),
        );
        assert(seq![value[0]] + value.skip(1) =~= value);
        assert(LineMachine {
            v: seq![value[0]] + value.skip(1),
            ..LineMachine { state: LineState::ValueUnquoted, v: seq![value[0]], ..m3 }
        } =~~= m4);
    }
    let pairs = seq![("name"@, name), ("value"@, value)];
    assert(line_tokens(s) == Ok::<
        (Seq<char>, Seq<(Seq<char>, Seq<char>)>, Seq<Seq<char>>),
        ManifestError,
    >((a0, pairs, Seq::empty()))) by {
        assert(!is_facet_key("value"@)) by {
            assert("value"@.len() == 5);
        }
        assert(machine_insert(m4.pairs, m4.k, m4.v) =~~= pairs);
    }
    let vzk = "variant.opensolaris.zone"@;
    let vitk = "variant.opensolaris.imagetype"@;
    let one = seq![("name"@, name)];
    let nil = Seq::<(Seq<char>, Seq<char>)>::empty();
    assert(pairs.drop_last() =~= one);
    assert(one.drop_last() =~= nil);
    assert(pairs.last() == ("value"@, value));
    assert(one.last() == ("name"@, name));
    assert("name"@ != "value"@ && "name"@ != vzk && "name"@ != vitk && "value"@ != vzk
        && "value"@ != vitk) by {
        assert("name"@.len() == 4);
        assert("value"@.len() == 5);
        assert(vzk.len() == 24);
        assert(vitk.len() == 29);
    }
    assert(values_of(nil, vzk) =~~= Seq::<Seq<char>>::empty());
    assert(values_of(one, vzk) =~~= Seq::<Seq<char>>::empty());
    assert(values_of(pairs, vzk) =~~= Seq::<Seq<char>>::empty());
    assert(values_of(nil, vitk) =~~= Seq::<Seq<char>>::empty());
    assert(values_of(one, vitk) =~~= Seq::<Seq<char>>::empty());
    assert(values_of(pairs, vitk) =~~= Seq::<Seq<char>>::empty());
    assert(values_of(nil, "name"@) =~~= Seq::<Seq<char>>::empty());
    assert(values_of(one, "name"@) =~~= seq![name]);
    assert(values_of(pairs, "name"@) =~~= seq![name]);
    assert(values_of(nil, "value"@) =~~= Seq::<Seq<char>>::empty());
    assert(values_of(one, "value"@) =~~= Seq::<Seq<char>>::empty());
    assert(values_of(pairs, "value"@) =~~= seq![value]);
    // every key of the line is one the set extraction consumes
    assert(consumed_ok(pairs, set_consumed())) by {
        assert(set_consumed()[2] == "name"@);
        assert(set_consumed()[3] == "value"@);
        assert forall|i: int| 0 <= i < pairs.len() implies set_consumed().contains(
            #[trigger] pairs[i].0,
        ) by {
            if i == 0 {
                assert(set_consumed().contains("name"@));
            } else {
                assert(set_consumed().contains("value"@));
            }
        }
    }
    assert(extract_kind(a0, pairs, Seq::empty()) == Ok::<ActionKindView, ManifestError>(
        ActionKindView::SetProp(name, seq![value]),
    ));
}

/// Relates the unconsumed-key set left by extraction to the consumed-key
/// list of the specification.
proof fn lemma_consumed_set(
    pairs: Seq<(Seq<char>, Seq<char>)>,
    extra: Set<Seq<char>>,
    consumed: Seq<Seq<char>>,
)
    requires
        consumed.len() <= 6,
        forall|k: Seq<char>| #[trigger] extra.contains(k) <==> (pairs_has_key(pairs, k) && (forall|
            j: int,
        |
            0 <= j < consumed.len() ==> k != consumed[j])),
    ensures
        (extra =~= Set::<Seq<char>>::empty()) ==> consumed_ok(pairs, consumed),
        (exists|k: Seq<char>| #[trigger] extra.contains(k)) ==> !consumed_ok(pairs, consumed),
{
    assert forall|k: Seq<char>| #[trigger] extra.contains(k) <==> (pairs_has_key(pairs, k)
        && !consumed.contains(k)) by {
        if consumed.contains(k) {
            let j = choose|j: int| 0 <= j < consumed.len() && consumed[j] == k;
            assert(!(forall|j2: int| 0 <= j2 < consumed.len() ==> k != consumed[j2]));
        } else {
            assert forall|j: int| 0 <= j < consumed.len() implies k != consumed[j] by {
                if k == consumed[j] {
                    assert(consumed.contains(k));
                }
            }
        }
    }
    lemma_unconsumed_bridge(pairs, extra, consumed);
}

/// Parses the characters of `cs` in `[from, to)` as one manifest action.
#[verifier::loop_isolation(false)]
#[verifier::rlimit(100)]
fn parse_line(cs: &Vec<char>, from: usize, to: usize) -> (r: Result<Action, ManifestError>)
    requires
        from <= to <= cs@.len(),
    ensures
        match r {
            Ok(act) => parse_line_spec(cs@.subrange(from as int, to as int)) == Ok::<
                ActionView,
                ManifestError,
            >(act@),
            Err(e) => parse_line_spec(cs@.subrange(from as int, to as int)) == Err::<
                ActionView,
                ManifestError,
            >(e),
        },
{
    let ghost l = cs@.subrange(from as int, to as int);
    let (a, mut vals, mut free) = match parse_line_tokens(cs, from, to) {
        Ok(t) => t,
        Err(e) => {
            return Err(e);
        },
    };
    let ghost pairs = vals.pairs();
    let ghost free0 = free.deep_view();
    let variant_zone = match vals.maybe_single("variant.opensolaris.zone") {
        Ok(v) => v,
        Err(e) => {
            return Err(e);
        },
    };
    let variant_imagetype = match vals.maybe_single("variant.opensolaris.imagetype") {
        Ok(v) => v,
        Err(e) => {
            return Err(e);
        },
    };
    let ghost vzv: Option<Seq<char>> = match variant_zone {
        Some(ref z) => Some(z@),
        None => None,
    };
    let ghost vitv: Option<Seq<char>> = match variant_imagetype {
        Some(ref z) => Some(z@),
        None => None,
    };
    proof {
        assert(vzv == (if values_of(pairs, "variant.opensolaris.zone"@).len() == 1 {
            Some(values_of(pairs, "variant.opensolaris.zone"@)[0])
        } else {
            None::<Seq<char>>
        }));
        assert(vitv == (if values_of(pairs, "variant.opensolaris.imagetype"@).len() == 1 {
            Some(values_of(pairs, "variant.opensolaris.imagetype"@)[0])
        } else {
            None::<Seq<char>>
        }));
    }
    if str_eq(a.as_str(), "set") {
        let name = match vals.single("name") {
            Ok(v) => v,
            Err(e) => {
                return Err(e);
            },
        };
        let values = match vals.list("value") {
            Ok(v) => v,
            Err(e) => {
                return Err(e);
            },
        };
        proof {
            lemma_consumed_set(pairs, vals.extra_keys(), set_consumed());
        }
        match vals.check_for_extra() {
            Ok(()) => {},
            Err(e) => {
                return Err(e);
            },
        }
        let act = Action {
            kind: ActionKind::SetProp(name, values),
            vals,
            variant_zone,
            variant_imagetype,
        };
        proof {
            assert(extract_action(a@, pairs, free0) == Ok::<ActionView, ManifestError>(act@)) by {
                assert(act@ =~~= (ActionView {
                    kind: ActionKindView::SetProp(
                        values_of(pairs, "name"@)[0],
                        values_of(pairs, "value"@),
                    ),
                    pairs,
                    variant_zone: vzv,
                    variant_imagetype: vitv,
                }));
            }
        }
        Ok(act)
    } else if str_eq(a.as_str(), "depend") {
        let fmri_strs = match vals.list("fmri") {
            Ok(v) => v,
            Err(e) => {
                return Err(e);
            },
        };
        let ghost fm = fmri_strs.deep_view();
        let mut packages: Vec<Package> = Vec::new();
        let mut i: usize = 0;
        proof {
            assert(fm.take(0) =~= Seq::<Seq<char>>::empty());
            assert(packages.deep_view() =~= Seq::<PackageView>::empty());
        }
        while i < fmri_strs.len()
            invariant
                i <= fmri_strs@.len(),
                parse_fmris(fm.take(i as int)) == Ok::<Seq<PackageView>, FmriError>(
                    packages.deep_view(),
                ),
            decreases fmri_strs@.len() - i,
        {
            proof {
                assert(fm.take(i as int + 1).drop_last() =~= fm.take(i as int));
                assert(fm.take(i as int + 1).last() == fm[i as int]);
            }
            match Package::parse_fmri(fmri_strs[i].as_str()) {
                Ok(p) => {
                    packages.push(p);
                    proof {
                        assert(packages.deep_view() =~= parse_fmris(
                            fm.take(i as int + 1),
                        )->Ok_0);
                    }
                },
                Err(e) => {
                    proof {
                        lemma_parse_fmris_err(fm, i as int, e);
                    }
                    return Err(ManifestError::Fmri(e));
                },
            }
            i = i + 1;
        }
        proof {
            assert(fm.take(fmri_strs@.len() as int) =~= fm);
        }
        let type_s = match vals.single("type") {
            Ok(v) => v,
            Err(e) => {
                return Err(e);
            },
        };
        let t = match DependType::parse(type_s.as_str()) {
            Some(t) => t,
            None => {
                return Err(ManifestError::BadDependType);
            },
        };
        let predicate = vals.maybe_list("predicate");
        match vals.maybe_single("pkg.linted") {
            Ok(_) => {},
            Err(e) => {
                return Err(e);
            },
        }
        proof {
            lemma_consumed_set(pairs, vals.extra_keys(), depend_consumed());
        }
        match vals.check_for_extra() {
            Ok(()) => {},
            Err(e) => {
                return Err(e);
            },
        }
        let act = Action {
            kind: ActionKind::Depend(ActionDepend { fmri: packages, type_: t, predicate }),
            vals,
            variant_zone,
            variant_imagetype,
        };
        proof {
            assert(extract_action(a@, pairs, free0) == Ok::<ActionView, ManifestError>(act@)) by {
                assert(act@ =~~= (ActionView {
                    kind: ActionKindView::Depend(
                        ActionDependView {
                            fmris: parse_fmris(values_of(pairs, "fmri"@))->Ok_0,
                            type_: t,
                            predicate: values_of(pairs, "predicate"@),
                        },
                    ),
                    pairs,
                    variant_zone: vzv,
                    variant_imagetype: vitv,
                }));
            }
        }
        Ok(act)
    } else if str_eq(a.as_str(), "dir") || str_eq(a.as_str(), "file") {
        proof {
            reveal_strlit("dir");
            reveal_strlit("file");
            assert("dir"@.len() == 3);
            assert("file"@.len() == 4);
            assert("dir"@ != "file"@);
        }
        let is_file = str_eq(a.as_str(), "file");
        let path = match vals.single("path") {
            Ok(v) => v,
            Err(e) => {
                return Err(e);
            },
        };
        if !is_file && free.len() > 0 {
            return Err(ManifestError::SpareArguments);
        }
        if is_file && free.len() > 1 {
            return Err(ManifestError::MultipleFileIds);
        }
        let fileid = if is_file {
            free.pop()
        } else {
            None
        };
        let owner = match vals.single("owner") {
            Ok(v) => v,
            Err(e) => {
                return Err(e);
            },
        };
        let group = match vals.single("group") {
            Ok(v) => v,
            Err(e) => {
                return Err(e);
            },
        };
        let mode_s = match vals.single("mode") {
            Ok(v) => v,
            Err(e) => {
                return Err(e);
            },
        };
        let mode = match parse_octal_u32(mode_s.as_str()) {
            Some(m) => m,
            None => {
                return Err(ManifestError::BadMode);
            },
        };
        let f = ActionFile { path, owner, group, mode, fileid };
        let act = Action {
            kind: if is_file {
                ActionKind::File(f)
            } else {
                ActionKind::Dir(f)
            },
            vals,
            variant_zone,
            variant_imagetype,
        };
        proof {
            assert(extract_action(a@, pairs, free0) == Ok::<ActionView, ManifestError>(act@)) by {
                let fv = ActionFileView {
                    path: values_of(pairs, "path"@)[0],
                    owner: values_of(pairs, "owner"@)[0],
                    group: values_of(pairs, "group"@)[0],
                    mode,
                    fileid: if is_file && free0.len() == 1 {
                        Some(free0[0])
                    } else {
                        None
                    },
                };
                assert(act@ =~~= (ActionView {
                    kind: if is_file {
                        ActionKindView::File(fv)
                    } else {
                        ActionKindView::Dir(fv)
                    },
                    pairs,
                    variant_zone: vzv,
                    variant_imagetype: vitv,
                }));
            }
        }
        Ok(act)
    } else if str_eq(a.as_str(), "link") || str_eq(a.as_str(), "hardlink") {
        proof {
            reveal_strlit("link");
            reveal_strlit("hardlink");
            assert("link"@.len() == 4);
            assert("hardlink"@.len() == 8);
            assert("link"@ != "hardlink"@);
        }
        let hard = str_eq(a.as_str(), "hardlink");
        let path = match vals.single("path") {
            Ok(v) => v,
            Err(e) => {
                return Err(e);
            },
        };
        let target = match vals.single("target") {
            Ok(v) => v,
            Err(e) => {
                return Err(e);
            },
        };
        if free.len() > 0 {
            return Err(ManifestError::SpareArguments);
        }
        let lk = ActionLink { path, target };
        let act = Action {
            kind: if hard {
                ActionKind::Hardlink(lk)
            } else {
                ActionKind::Link(lk)
            },
            vals,
            variant_zone,
            variant_imagetype,
        };
        proof {
            assert(extract_action(a@, pairs, free0) == Ok::<ActionView, ManifestError>(act@)) by {
                let lv = ActionLinkView {
                    path: values_of(pairs, "path"@)[0],
                    target: values_of(pairs, "target"@)[0],
                };
                assert(act@ =~~= (ActionView {
                    kind: if hard {
                        ActionKindView::Hardlink(lv)
                    } else {
                        ActionKindView::Link(lv)
                    },
                    pairs,
                    variant_zone: vzv,
                    variant_imagetype: vitv,
                }));
            }
        }
        Ok(act)
    } else {
        let act = Action {
            kind: ActionKind::Unknown(a, free),
            vals,
            variant_zone,
            variant_imagetype,
        };
        proof {
            assert(extract_action(act@.kind->Unknown_0, pairs, free0) == Ok::<
                ActionView,
                ManifestError,
            >(act@)) by {
                assert(act@ =~~= (ActionView {
                    kind: ActionKindView::Unknown(act@.kind->Unknown_0, free0),
                    pairs,
                    variant_zone: vzv,
                    variant_imagetype: vitv,
                }));
            }
        }
        Ok(act)
    }
}

/// What a whole manifest text denotes: one action per line, split on
/// newlines, carriage returns stripped from terminated lines, failing at
/// the first bad line.
pub open spec fn parse_manifest_spec(s: Seq<char>) -> Result<Seq<ActionView>, ManifestError>
    decreases s.len(),
{
    if s.len() == 0 {
        Ok(seq![])
    } else {
        let p = split_seq(s, '\n')[0];
        if p.len() >= s.len() {
            match parse_line_spec(s) {
                Ok(a) => Ok(seq![a]),
                Err(e) => Err(e),
            }
        } else {
            match parse_line_spec(strip_cr(p)) {
                Ok(a) => match parse_manifest_spec(s.skip(p.len() as int + 1)) {
                    Ok(rest) => Ok(seq![a] + rest),
                    Err(e) => Err(e),
                },
                Err(e) => Err(e),
            }
        }
    }
}

/// Parses a whole package manifest, one action per line.
#[verifier::loop_isolation(false)]
#[verifier::rlimit(50)]
pub fn parse_manifest(input: &str) -> (r: Result<Vec<Action>, ManifestError>)
    ensures
        match r {
            Ok(acts) => parse_manifest_spec(input@) == Ok::<Seq<ActionView>, ManifestError>(
                acts.deep_view(),
            ),
            Err(e) => parse_manifest_spec(input@) == Err::<Seq<ActionView>, ManifestError>(e),
        },
{
    let cs = str_chars(input);
    let n = cs.len();
    let mut out: Vec<Action> = Vec::new();
    let mut pos: usize = 0;
    proof {
        assert(cs@.skip(0) =~= cs@);
        assert(out.deep_view() =~= Seq::<ActionView>::empty());
    }
    while pos < n
        invariant
            pos <= n,
            match parse_manifest_spec(cs@.skip(pos as int)) {
                Ok(rest) => parse_manifest_spec(cs@) == Ok::<Seq<ActionView>, ManifestError>(
                    out.deep_view() + rest,
                ),
                Err(e) => parse_manifest_spec(cs@) == Err::<Seq<ActionView>, ManifestError>(e),
            },
        decreases n - pos,
    {
        let ghost rem = cs@.skip(pos as int);
        let ghost p = split_seq(rem, '\n')[0];
        proof {
            lemma_split_first(rem, '\n');
        }
        let nl = find_from(&cs, pos, '\n');
        let end = match nl {
            Some(e) => e,
            None => n,
        };
        proof {
            match nl {
                Some(e_) => {
                    assert(p.len() == e_ - pos) by {
                        if p.len() < e_ - pos {
                            assert(rem[p.len() as int] == '\n');
                            assert(cs@[pos + p.len() as int] == '\n');
                        } else if p.len() > e_ - pos {
                            assert(rem[e_ - pos] == cs@[e_ as int]);
                        }
                    }
                },
                None => {
                    assert(!rem.contains('\n')) by {
                        if rem.contains('\n') {
                            let k = choose|k: int| 0 <= k < rem.len() && rem[k] == '\n';
                            assert(cs@[pos + k] == '\n');
                        }
                    }
                },
            }
            assert(p =~= cs@.subrange(pos as int, end as int));
        }
        let line_end = match nl {
            Some(_) => {
                if end > pos && cs[end - 1] == '\r' {
                    end - 1
                } else {
                    end
                }
            },
            None => n,
        };
        proof {
            match nl {
                Some(_) => {
                    assert(cs@.subrange(pos as int, line_end as int) =~= strip_cr(p));
                },
                None => {
                    assert(cs@.subrange(pos as int, line_end as int) =~= rem);
                },
            }
        }
        match parse_line(&cs, pos, line_end) {
            Ok(act) => {
                let ghost out0 = out.deep_view();
                out.push(act);
                proof {
                    assert(out.deep_view() =~= out0.push(act@));
                }
                match nl {
                    Some(_) => {
                        proof {
                            assert(cs@.skip(end + 1) =~= rem.skip(p.len() as int + 1));
                            assert(p.len() < rem.len());
                            match parse_manifest_spec(rem.skip(p.len() as int + 1)) {
                                Ok(rest2) => {
                                    assert(parse_manifest_spec(rem) == Ok::<
                                        Seq<ActionView>,
                                        ManifestError,
                                    >(seq![act@] + rest2));
                                    assert(out0.push(act@) + rest2 =~= out0 + (seq![act@]
                                        + rest2));
                                },
                                Err(_) => {},
                            }
                        }
                        pos = end + 1;
                    },
                    None => {
                        proof {
                            assert(p.len() == rem.len());
                            assert(parse_manifest_spec(rem) == Ok::<
                                Seq<ActionView>,
                                ManifestError,
                            >(seq![act@]));
                            assert(cs@.skip(n as int) =~= Seq::<char>::empty());
                            assert(out0.push(act@) + Seq::<ActionView>::empty() =~= out0 + seq![
                                act@,
                            ]);
                        }
                        pos = n;
                    },
                }
            },
            Err(e) => {
                proof {
                    match nl {
                        Some(_) => {
                            assert(p.len() < rem.len());
                            assert(parse_manifest_spec(rem) == Err::<
                                Seq<ActionView>,
                                ManifestError,
                            >(e));
                        },
                        None => {
                            assert(parse_manifest_spec(rem) == Err::<
                                Seq<ActionView>,
                                ManifestError,
                            >(e));
                        },
                    }
                }
                return Err(e);
            },
        }
    }
    proof {
        assert(cs@.skip(n as int) =~= Seq::<char>::empty());
        assert(out.deep_view() + Seq::<ActionView>::empty() =~= out.deep_view());
    }
    Ok(out)
}

} // verus!
