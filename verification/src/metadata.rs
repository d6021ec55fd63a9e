//! The archive metadata record: the first entry of every image archive,
//! stored under a fixed well-known name and never extracted onto disk.
//! Its body is a small object of string fields, read and written here.

use vstd::prelude::*;

use crate::ips::values_of;
use crate::text::{push_char, str_chars, str_eq};

verus! {

/// Whether an archive is a full baseline image or an additional layer
/// applied on top of one.
#[derive(Debug, Clone, Copy, PartialEq, Eq, Structural)]
pub enum ArchiveType {
    Baseline,
    Layer,
}

/// The metadata record carried as the first entry of every archive:
/// a format version string and the archive type.
#[derive(Debug)]
pub struct Metadata {
    pub v: String,
    pub t: ArchiveType,
}

impl Metadata {
    pub fn is_layer(&self) -> (r: bool)
        ensures
            r == (self.t is Layer),
    {
        matches!(self.t, ArchiveType::Layer)
    }

    pub fn is_baseline(&self) -> (r: bool)
        ensures
            r == (self.t is Baseline),
    {
        matches!(self.t, ArchiveType::Baseline)
    }
}

/// Why a metadata record was rejected.
#[derive(Debug, Clone, Copy, PartialEq, Eq, Structural)]
pub enum MetadataError {
    /// A character that fits no rule of the record grammar.
    BadChar,
    /// Text ending inside the record.
    BadEnd,
    /// A backslash escape, which record strings never carry.
    Escape,
    /// Not exactly one `v` field.
    BadVersion,
    /// Not exactly one `t` field, or one naming no archive type.
    BadType,
}

impl MetadataError {
    /// A short description of the failure.
    pub fn message(&self) -> String {
        match self {
            MetadataError::BadChar => String::from_str("unexpected character in record"),
            MetadataError::BadEnd => String::from_str("record ended early"),
            MetadataError::Escape => String::from_str("escapes are not supported in records"),
            MetadataError::BadVersion => String::from_str("expected exactly one version field"),
            MetadataError::BadType => String::from_str("expected a valid archive type field"),
        }
    }
}

/// The textual tag of each archive type.
pub open spec fn type_tag(t: ArchiveType) -> Seq<char> {
    match t {
        ArchiveType::Baseline => "baseline"@,
        ArchiveType::Layer => "layer"@,
    }
}

/// Characters plain enough to stand unescaped in a record string: ASCII
/// printable, quote and backslash excluded.
pub open spec fn plain_char(c: char) -> bool {
    32 <= c as u32 && c as u32 <= 126 && c != '"' && c != '\\'
}

pub open spec fn plain_text(s: Seq<char>) -> bool {
    forall|i: int| 0 <= i < s.len() ==> plain_char(s[i])
}

/// The canonical text of a metadata record.
pub open spec fn meta_text(v: Seq<char>, t: ArchiveType) -> Seq<char> {
    "{\"v\":\""@ + v + "\",\"t\":\""@ + type_tag(t) + "\"}"@
}

/// The states of the record grammar.
#[derive(Debug, Clone, Copy, PartialEq, Eq, Structural)]
pub enum MetaState {
    Start,
    Gap,
    Key,
    AfterKey,
    BeforeVal,
    Val,
    AfterVal,
    Done,
}

/// The whole state of the record scanner.
#[verifier::ext_equal]
pub struct MetaMachine {
    pub state: MetaState,
    pub k: Seq<char>,
    pub v: Seq<char>,
    pub pairs: Seq<(Seq<char>, Seq<char>)>,
}

pub open spec fn meta_init() -> MetaMachine {
    MetaMachine { state: MetaState::Start, k: Seq::empty(), v: Seq::empty(), pairs: Seq::empty() }
}

pub open spec fn is_ws(c: char) -> bool {
    c == ' ' || c == '\t' || c == '\n' || c == '\r'
}

/// One transition of the record scanner: an object of string fields, with
/// whitespace between tokens and no escapes.
pub open spec fn meta_step(m: MetaMachine, c: char) -> Result<MetaMachine, MetadataError> {
    match m.state {
        MetaState::Start => if is_ws(c) {
            Ok(m)
        } else if c == '{' {
            Ok(MetaMachine { state: MetaState::Gap, ..m })
        } else {
            Err(MetadataError::BadChar)
        },
        MetaState::Gap => if is_ws(c) {
            Ok(m)
        } else if c == '"' {
            Ok(MetaMachine { state: MetaState::Key, k: Seq::empty(), ..m })
        } else if c == '}' && m.pairs.len() == 0 {
            Ok(MetaMachine { state: MetaState::Done, ..m })
        } else {
            Err(MetadataError::BadChar)
        },
        MetaState::Key => if c == '\\' {
            Err(MetadataError::Escape)
        } else if c == '"' {
            Ok(MetaMachine { state: MetaState::AfterKey, ..m })
        } else {
            Ok(MetaMachine { k: m.k.push(c), ..m })
        },
        MetaState::AfterKey => if is_ws(c) {
            Ok(m)
        } else if c == ':' {
            Ok(MetaMachine { state: MetaState::BeforeVal, ..m })
        } else {
            Err(MetadataError::BadChar)
        },
        MetaState::BeforeVal => if is_ws(c) {
            Ok(m)
        } else if c == '"' {
            Ok(MetaMachine { state: MetaState::Val, v: Seq::empty(), ..m })
        } else {
            Err(MetadataError::BadChar)
        },
        MetaState::Val => if c == '\\' {
            Err(MetadataError::Escape)
        } else if c == '"' {
            Ok(
                MetaMachine {
                    state: MetaState::AfterVal,
                    pairs: m.pairs.push((m.k, m.v)),
                    k: Seq::empty(),
                    v: Seq::empty(),
                    ..m
                },
            )
        } else {
            Ok(MetaMachine { v: m.v.push(c), ..m })
        },
        MetaState::AfterVal => if is_ws(c) {
            Ok(m)
        } else if c == ',' {
            Ok(MetaMachine { state: MetaState::Gap, ..m })
        } else if c == '}' {
            Ok(MetaMachine { state: MetaState::Done, ..m })
        } else {
            Err(MetadataError::BadChar)
        },
        MetaState::Done => if is_ws(c) {
            Ok(m)
        } else {
            Err(MetadataError::BadChar)
        },
    }
}

/// The scanner run over the whole record text.
pub open spec fn run_meta(s: Seq<char>) -> Result<MetaMachine, MetadataError>
    decreases s.len(),
{
    if s.len() == 0 {
        Ok(meta_init())
    } else {
        match run_meta(s.drop_last()) {
            Ok(m) => meta_step(m, s.last()),
            Err(e) => Err(e),
        }
    }
}

proof fn lemma_run_meta_err(s: Seq<char>, i: int)
    requires
        0 <= i <= s.len(),
        run_meta(s.take(i)) is Err,
    ensures
        run_meta(s) == run_meta(s.take(i)),
    decreases s.len(),
{
    if i == s.len() {
        assert(s.take(i) =~= s);
    } else {
        assert(s.drop_last().take(i) =~= s.take(i));
        lemma_run_meta_err(s.drop_last(), i);
    }
}

/// The record a metadata text denotes: exactly one `v` field and one `t`
/// field naming an archive type; other fields are ignored.
pub open spec fn parse_meta_spec(s: Seq<char>) -> Result<(Seq<char>, ArchiveType), MetadataError> {
    match run_meta(s) {
        Err(e) => Err(e),
        Ok(m) => if !(m.state is Done) {
            Err(MetadataError::BadEnd)
        } else {
            let vs = values_of(m.pairs, "v"@);
            let ts = values_of(m.pairs, "t"@);
            if vs.len() != 1 {
                Err(MetadataError::BadVersion)
            } else if ts.len() != 1 {
                Err(MetadataError::BadType)
            } else if ts[0] == "baseline"@ {
                Ok((vs[0], ArchiveType::Baseline))
            } else if ts[0] == "layer"@ {
                Ok((vs[0], ArchiveType::Layer))
            } else {
                Err(MetadataError::BadType)
            }
        },
    }
}

/// The single value stored under `name`, when it occurs exactly once.
#[verifier::loop_isolation(false)]
fn one_value_of(pairs: &Vec<(String, String)>, name: &str) -> (r: Option<String>)
    ensures
        match r {
            Some(s) => values_of(pairs.deep_view(), name@) =~= seq![s@],
            None => values_of(pairs.deep_view(), name@).len() != 1,
        },
{
    let ghost ps = pairs.deep_view();
    let mut count: usize = 0;
    let mut first: Option<String> = None;
    let mut i: usize = 0;
    proof {
        assert(ps.take(0) =~= Seq::<(Seq<char>, Seq<char>)>::empty());
    }
    while i < pairs.len()
        invariant
            i <= pairs@.len(),
            count <= i,
            count == values_of(ps.take(i as int), name@).len(),
            match first {
                Some(f) => count > 0 && f@ == values_of(ps.take(i as int), name@)[0],
                None => count == 0,
            },
        decreases pairs@.len() - i,
    {
        proof {
            assert(ps.take(i + 1).drop_last() =~= ps.take(i as int));
            assert(ps.take(i + 1).last() == ps[i as int]);
        }
        if str_eq(pairs[i].0.as_str(), name) {
            if first.is_none() {
                first = Some(pairs[i].1.clone());
            }
            count = count + 1;
        }
        i = i + 1;
    }
    proof {
        assert(ps.take(pairs@.len() as int) =~= ps);
    }
    if count == 1 {
        proof {
            match first {
                Some(ref f) => {
                    assert(values_of(ps, name@) =~= seq![f@]);
                },
                None => {
                    assert(false);
                },
            }
        }
        first
    } else {
        None
    }
}

/// Parses a metadata record from its text.
#[verifier::loop_isolation(false)]
pub fn parse(s: &str) -> (r: Result<Metadata, MetadataError>)
    ensures
        match r {
            Ok(md) => parse_meta_spec(s@) == Ok::<(Seq<char>, ArchiveType), MetadataError>(
                (md.v@, md.t),
            ),
            Err(e) => parse_meta_spec(s@) == Err::<(Seq<char>, ArchiveType), MetadataError>(e),
        },
{
    let cs = str_chars(s);
    let n = cs.len();
    let mut st = MetaState::Start;
    let mut key = String::new();
    let mut val = String::new();
    let mut pairs: Vec<(String, String)> = Vec::new();
    let mut i: usize = 0;
    proof {
        assert(cs@.take(0) =~= Seq::<char>::empty());
        assert(MetaMachine {
            state: st,
            k: key@,
            v: val@,
            pairs: pairs.deep_view(),
        } =~~= meta_init());
    }
    while i < n
        invariant
            i <= n,
            run_meta(cs@.take(i as int)) == Ok::<MetaMachine, MetadataError>(
                MetaMachine { state: st, k: key@, v: val@, pairs: pairs.deep_view() },
            ),
        decreases n - i,
    {
        let c = cs[i];
        proof {
            assert(cs@.take(i + 1).drop_last() =~= cs@.take(i as int));
            assert(cs@.take(i + 1).last() == cs@[i as int]);
        }
        let ghost m0 = MetaMachine { state: st, k: key@, v: val@, pairs: pairs.deep_view() };
        let ws = c == ' ' || c == '\t' || c == '\n' || c == '\r';
        match st {
            MetaState::Start => {
                if ws {
                } else if c == '{' {
                    st = MetaState::Gap;
                } else {
                    proof {
                        lemma_run_meta_err(cs@, i + 1);
                    }
                    return Err(MetadataError::BadChar);
                }
            },
            MetaState::Gap => {
                if ws {
                } else if c == '"' {
                    key = String::new();
                    st = MetaState::Key;
                } else if c == '}' && pairs.len() == 0 {
                    st = MetaState::Done;
                } else {
                    proof {
                        lemma_run_meta_err(cs@, i + 1);
                    }
                    return Err(MetadataError::BadChar);
                }
            },
            MetaState::Key => {
                if c == '\\' {
                    proof {
                        lemma_run_meta_err(cs@, i + 1);
                    }
                    return Err(MetadataError::Escape);
                } else if c == '"' {
                    st = MetaState::AfterKey;
                } else {
                    push_char(&mut key, c);
                }
            },
            MetaState::AfterKey => {
                if ws {
                } else if c == ':' {
                    st = MetaState::BeforeVal;
                } else {
                    proof {
                        lemma_run_meta_err(cs@, i + 1);
                    }
                    return Err(MetadataError::BadChar);
                }
            },
            MetaState::BeforeVal => {
                if ws {
                } else if c == '"' {
                    val = String::new();
                    st = MetaState::Val;
                } else {
                    proof {
                        lemma_run_meta_err(cs@, i + 1);
                    }
                    return Err(MetadataError::BadChar);
                }
            },
            MetaState::Val => {
                if c == '\\' {
                    proof {
                        lemma_run_meta_err(cs@, i + 1);
                    }
                    return Err(MetadataError::Escape);
                } else if c == '"' {
                    pairs.push((key, val));
                    key = String::new();
                    val = String::new();
                    st = MetaState::AfterVal;
                    proof {
                        assert(pairs.deep_view() =~~= m0.pairs.push((m0.k, m0.v)));
                    }
                } else {
                    push_char(&mut val, c);
                }
            },
            MetaState::AfterVal => {
                if ws {
                } else if c == ',' {
                    st = MetaState::Gap;
                } else if c == '}' {
                    st = MetaState::Done;
                } else {
                    proof {
                        lemma_run_meta_err(cs@, i + 1);
                    }
                    return Err(MetadataError::BadChar);
                }
            },
            MetaState::Done => {
                if ws {
                } else {
                    proof {
                        lemma_run_meta_err(cs@, i + 1);
                    }
                    return Err(MetadataError::BadChar);
                }
            },
        }
        i = i + 1;
        proof {
            assert(run_meta(cs@.take(i as int)) == Ok::<MetaMachine, MetadataError>(
                MetaMachine { state: st, k: key@, v: val@, pairs: pairs.deep_view() },
            )) by {
                assert(meta_step(m0, cs@[i - 1]) == Ok::<MetaMachine, MetadataError>(
                    MetaMachine { state: st, k: key@, v: val@, pairs: pairs.deep_view() },
                ));
            }
        }
    }
    proof {
        assert(cs@.take(n as int) =~= cs@);
    }
    if !matches!(st, MetaState::Done) {
        return Err(MetadataError::BadEnd);
    }
    let v = match one_value_of(&pairs, "v") {
        Some(v) => v,
        None => {
            return Err(MetadataError::BadVersion);
        },
    };
    let t = match one_value_of(&pairs, "t") {
        Some(t) => t,
        None => {
            return Err(MetadataError::BadType);
        },
    };
    if str_eq(t.as_str(), "baseline") {
        Ok(Metadata { v, t: ArchiveType::Baseline })
    } else if str_eq(t.as_str(), "layer") {
        Ok(Metadata { v, t: ArchiveType::Layer })
    } else {
        Err(MetadataError::BadType)
    }
}

impl Metadata {
    /// The canonical record text, as written into an archive.
    pub fn to_json(&self) -> (r: String)
        requires
            plain_text(self.v@),
        ensures
            r@ == meta_text(self.v@, self.t),
    {
        let mut s = String::from_str("{\"v\":\"");
        s.append(self.v.as_str());
        s.append("\",\"t\":\"");
        match self.t {
            ArchiveType::Baseline => s.append("baseline"),
            ArchiveType::Layer => s.append("layer"),
        }
        s.append("\"}");
        proof {
            assert(s@ =~= meta_text(self.v@, self.t));
        }
        s
    }
}

} // verus!
