//! Package identifiers (FMRIs): parsing from their textual form and
//! formatting back to the canonical `pkg:/[[publisher/]]name[@version[:date]]`
//! shape, with a proof that formatting a canonical identifier and parsing it
//! back is the identity.

use vstd::prelude::*;

use crate::text::{
    char_is_alnum, chars_string, find_from, is_alnum, lemma_split_concat, lemma_split_contains,
    lemma_split_first, lemma_split_len, lemma_split_no_sep, split_seq, str_chars, subvec,
};

verus! {

/// A package identifier, immutable once parsed.
#[derive(Debug, Clone, PartialEq, Eq, PartialOrd, Ord)]
pub struct Package {
    name: String,
    publisher: Option<String>,
    version: Option<String>,
    date: Option<String>,
}

/// The mathematical content of a `Package`: its four fields as character
/// sequences.
#[verifier::ext_equal]
pub struct PackageView {
    pub name: Seq<char>,
    pub publisher: Option<Seq<char>>,
    pub version: Option<Seq<char>>,
    pub date: Option<Seq<char>>,
}

impl DeepView for Package {
    type V = PackageView;

    open spec fn deep_view(&self) -> PackageView {
        self.view()
    }
}

impl View for Package {
    type V = PackageView;

    closed spec fn view(&self) -> PackageView {
        PackageView {
            name: self.name@,
            publisher: match self.publisher {
                Some(p) => Some(p@),
                None => None,
            },
            version: match self.version {
                Some(v) => Some(v@),
                None => None,
            },
            date: match self.date {
                Some(d) => Some(d@),
                None => None,
            },
        }
    }
}

/// Why an FMRI failed to parse.
#[derive(Debug, Clone, Copy, PartialEq, Eq, Structural)]
pub enum FmriError {
    /// A character in the publisher segment outside its allowed set.
    BadPublisherChar,
    /// A `pkg://` form whose publisher segment is empty.
    EmptyPublisher,
    /// A leading `//` without the `pkg:` scheme.
    PublisherWithoutPkg,
    /// More than one `@` separating name from version.
    TooManyAt,
    /// More than one `:` separating version from date.
    TooManyColon,
}

impl FmriError {
    /// A short description of the failure.
    pub fn message(&self) -> String {
        match self {
            FmriError::BadPublisherChar => String::from_str("unexpected character in publisher"),
            FmriError::EmptyPublisher => String::from_str("expected publisher"),
            FmriError::PublisherWithoutPkg => String::from_str("unexpected publisher without pkg:"),
            FmriError::TooManyAt => String::from_str("too much @ in fmri"),
            FmriError::TooManyColon => String::from_str("too much : in fmri"),
        }
    }
}

/// The scheme prefix every rooted FMRI starts with.
pub open spec fn fmri_prefix() -> Seq<char> {
    seq!['p', 'k', 'g', ':', '/']
}

/// Characters allowed in a publisher segment.
pub open spec fn pubchar(c: char) -> bool {
    is_alnum(c) || c == '.' || c == '-'
}

/// Splits `input` (scheme and publisher already removed) into name,
/// optional version and optional release date.
pub open spec fn parse_core(publisher: Option<Seq<char>>, input: Seq<char>) -> Result<
    PackageView,
    FmriError,
> {
    let tp = split_seq(input, '@');
    if tp.len() == 1 {
        Ok(PackageView { name: tp[0], publisher, version: None, date: None })
    } else if tp.len() == 2 {
        let cp = split_seq(tp[1], ':');
        if cp.len() == 1 {
            Ok(PackageView { name: tp[0], publisher, version: Some(cp[0]), date: None })
        } else if cp.len() == 2 {
            Ok(PackageView { name: tp[0], publisher, version: Some(cp[0]), date: Some(cp[1]) })
        } else {
            Err(FmriError::TooManyColon)
        }
    } else {
        Err(FmriError::TooManyAt)
    }
}

/// What parsing an FMRI string yields: the scheme prefix is optional; a
/// second `/` after it introduces a publisher segment terminated by `/`;
/// the remainder splits on the first `@` into name and version, and the
/// version part splits on `:` into version and release date.
pub open spec fn parse_fmri_seq(s: Seq<char>) -> Result<PackageView, FmriError> {
    if s.len() >= 5 && s.take(5) == fmri_prefix() {
        let i = s.skip(5);
        if i.len() > 0 && i[0] == '/' {
            let j = i.skip(1);
            let p = split_seq(j, '/')[0];
            if exists|k: int| 0 <= k < p.len() && !pubchar(p[k]) {
                Err(FmriError::BadPublisherChar)
            } else if p.len() == j.len() {
                parse_core(Some(p), Seq::empty())
            } else if p.len() == 0 {
                Err(FmriError::EmptyPublisher)
            } else {
                parse_core(Some(p), j.skip(p.len() as int + 1))
            }
        } else {
            parse_core(None, i)
        }
    } else if s.len() >= 1 && s[0] == '/' {
        if s.len() >= 2 && s[1] == '/' {
            Err(FmriError::PublisherWithoutPkg)
        } else {
            parse_core(None, s.skip(1))
        }
    } else {
        parse_core(None, s)
    }
}

/// The publisher portion of the canonical text.
pub open spec fn pub_text(publisher: Option<Seq<char>>) -> Seq<char> {
    match publisher {
        Some(pb) => seq!['/'] + pb + seq!['/'],
        None => Seq::<char>::empty(),
    }
}

/// The version-and-date portion of the canonical text.
pub open spec fn ver_text(version: Option<Seq<char>>, date: Option<Seq<char>>) -> Seq<char> {
    match version {
        Some(v) => seq!['@'] + v + (match date {
            Some(d) => seq![':'] + d,
            None => Seq::<char>::empty(),
        }),
        None => Seq::<char>::empty(),
    }
}

/// The canonical text of a package identifier.
pub open spec fn fmri_text(p: PackageView) -> Seq<char> {
    fmri_prefix() + pub_text(p.publisher) + p.name + ver_text(p.version, p.date)
}

/// The fields of a package identifier whose canonical text parses back to
/// exactly those fields: the name avoids `@` and, without a publisher, does
/// not begin with `/`; a publisher is nonempty and drawn from its character
/// set; version and date avoid the separators; and a date only accompanies
/// a version.
pub open spec fn canonical_fields(p: PackageView) -> bool {
    &&& !p.name.contains('@')
    &&& (p.publisher is None ==> !(p.name.len() > 0 && p.name[0] == '/'))
    &&& (match p.publisher {
        Some(pb) => pb.len() > 0 && forall|k: int| 0 <= k < pb.len() ==> pubchar(pb[k]),
        None => true,
    })
    &&& (match p.version {
        Some(v) => !v.contains('@') && !v.contains(':'),
        None => p.date is None,
    })
    &&& (match p.date {
        Some(d) => !d.contains('@') && !d.contains(':'),
        None => true,
    })
}

/// Parsing the name / version / date portion of a canonical text recovers
/// the fields it was assembled from.
proof fn lemma_parse_core_round(
    publisher: Option<Seq<char>>,
    name: Seq<char>,
    version: Option<Seq<char>>,
    date: Option<Seq<char>>,
)
    requires
        !name.contains('@'),
        match version {
            Some(v) => !v.contains('@') && !v.contains(':'),
            None => date is None,
        },
        match date {
            Some(d) => !d.contains('@') && !d.contains(':'),
            None => true,
        },
    ensures
        parse_core(publisher, name + ver_text(version, date)) == Ok::<PackageView, FmriError>(
            PackageView { name, publisher, version, date },
        ),
{
    let input = name + ver_text(version, date);
    match version {
        None => {
            assert(input =~= name);
            lemma_split_no_sep(name, '@');
            assert(parse_core(publisher, input) == Ok::<PackageView, FmriError>(
                PackageView { name, publisher, version: None, date: None },
            ));
        },
        Some(v) => {
            let x = match date {
                Some(d) => v + seq![':'] + d,
                None => v,
            };
            assert(input =~= name + seq!['@'] + x);
            assert(!x.contains('@')) by {
                if x.contains('@') {
                    let i = choose|i: int| 0 <= i < x.len() && x[i] == '@';
                    match date {
                        Some(d) => {
                            if i < v.len() {
                                assert(v[i] == '@');
                            } else if i > v.len() {
                                assert(d[i - v.len() - 1] == '@');
                            }
                        },
                        None => {
                            assert(v[i] == '@');
                        },
                    }
                }
            }
            lemma_split_concat(name, x, '@');
            lemma_split_no_sep(x, '@');
            assert(split_seq(input, '@') =~~= seq![name, x]);
            match date {
                None => {
                    lemma_split_no_sep(v, ':');
                    assert(parse_core(publisher, input) == Ok::<PackageView, FmriError>(
                        PackageView { name, publisher, version: Some(v), date: None },
                    ));
                },
                Some(d) => {
                    lemma_split_concat(v, d, ':');
                    lemma_split_no_sep(d, ':');
                    assert(split_seq(x, ':') =~~= seq![v, d]);
                    assert(parse_core(publisher, input) == Ok::<PackageView, FmriError>(
                        PackageView { name, publisher, version: Some(v), date: Some(d) },
                    ));
                },
            }
        },
    }
}

/// Formatting a canonical package identifier and parsing the text back is
/// the identity on the identifier.
pub proof fn lemma_fmri_round_trip(p: PackageView)
    requires
        canonical_fields(p),
    ensures
        parse_fmri_seq(fmri_text(p)) == Ok::<PackageView, FmriError>(p),
{
    let s = fmri_text(p);
    let core = p.name + ver_text(p.version, p.date);
    assert(s.take(5) =~= fmri_prefix());
    match p.publisher {
        None => {
            let i = s.skip(5);
            assert(i =~= core);
            assert(!(i.len() > 0 && i[0] == '/')) by {
                if i.len() > 0 {
                    if p.name.len() > 0 {
                        assert(i[0] == p.name[0]);
                    } else {
                        match p.version {
                            Some(v) => {
                                assert(i[0] == '@');
                            },
                            None => {},
                        }
                    }
                }
            }
            lemma_parse_core_round(None, p.name, p.version, p.date);
            assert(parse_fmri_seq(s) == parse_core(None, i));
            assert(Ok::<PackageView, FmriError>(
                PackageView { name: p.name, publisher: None, version: p.version, date: p.date },
            ) == Ok::<PackageView, FmriError>(p)) by {
                assert(PackageView {
                    name: p.name,
                    publisher: None,
                    version: p.version,
                    date: p.date,
                } =~= p);
            }
        },
        Some(pb) => {
            let i = s.skip(5);
            assert(i =~= seq!['/'] + pb + seq!['/'] + core);
            assert(i.len() > 0 && i[0] == '/');
            let j = i.skip(1);
            assert(j =~= pb + seq!['/'] + core);
            assert(!pb.contains('/')) by {
                if pb.contains('/') {
                    let k = choose|k: int| 0 <= k < pb.len() && pb[k] == '/';
                    assert(pubchar(pb[k]));
                    assert(('/' as u32) == 47);
                }
            }
            lemma_split_concat(pb, core, '/');
            lemma_split_len(core, '/');
            let q = split_seq(j, '/')[0];
            assert(q == pb);
            assert(!(exists|k: int| 0 <= k < q.len() && !pubchar(q[k])));
            assert(q.len() != j.len());
            assert(q.len() > 0);
            assert(j.skip(q.len() as int + 1) =~= core);
            lemma_parse_core_round(Some(pb), p.name, p.version, p.date);
            assert(parse_fmri_seq(s) == parse_core(Some(pb), core));
            assert(PackageView {
                name: p.name,
                publisher: Some(pb),
                version: p.version,
                date: p.date,
            } =~= p);
        },
    }
}

/// The view of an optional string.
pub open spec fn opt_view(o: Option<String>) -> Option<Seq<char>> {
    match o {
        Some(s) => Some(s@),
        None => None,
    }
}

/// Parses the name / version / date portion of an FMRI, whose characters
/// start at index `start` of `v`, attaching the already-parsed publisher.
fn parse_core_exec(v: &Vec<char>, start: usize, publisher: Option<String>) -> (r: Result<
    Package,
    FmriError,
>)
    requires
        start <= v@.len(),
    ensures
        match r {
            Ok(p) => parse_core(opt_view(publisher), v@.skip(start as int)) == Ok::<
                PackageView,
                FmriError,
            >(p@),
            Err(e) => parse_core(opt_view(publisher), v@.skip(start as int)) == Err::<
                PackageView,
                FmriError,
            >(e),
        },
{
    let ghost input = v@.skip(start as int);
    let n = v.len();
    match find_from(v, start, '@') {
        None => {
            proof {
                assert(!input.contains('@')) by {
                    if input.contains('@') {
                        let i = choose|i: int| 0 <= i < input.len() && input[i] == '@';
                        assert(v@[start + i] == '@');
                    }
                }
                lemma_split_no_sep(input, '@');
            }
            let namev = subvec(v, start, n);
            let name = chars_string(&namev);
            let r = Package { name, publisher, version: None, date: None };
            proof {
                assert(r@ =~= (PackageView {
                    name: input,
                    publisher: opt_view(publisher),
                    version: None,
                    date: None,
                }));
            }
            Ok(r)
        },
        Some(ai) => {
            let ghost a = v@.subrange(start as int, ai as int);
            let ghost b = v@.skip(ai as int + 1);
            proof {
                assert(input =~= a + seq!['@'] + b);
                assert(!a.contains('@')) by {
                    if a.contains('@') {
                        let i = choose|i: int| 0 <= i < a.len() && a[i] == '@';
                        assert(v@[start + i] == '@');
                    }
                }
                lemma_split_concat(a, b, '@');
            }
            match find_from(v, ai + 1, '@') {
                Some(ai2) => {
                    proof {
                        assert(b.contains('@')) by {
                            assert(b[ai2 - (ai + 1)] == '@');
                        }
                        lemma_split_contains(b, '@');
                    }
                    Err(FmriError::TooManyAt)
                },
                None => {
                    proof {
                        assert(!b.contains('@')) by {
                            if b.contains('@') {
                                let i = choose|i: int| 0 <= i < b.len() && b[i] == '@';
                                assert(v@[ai + 1 + i] == '@');
                            }
                        }
                        lemma_split_no_sep(b, '@');
                    }
                    let namev = subvec(v, start, ai);
                    let name = chars_string(&namev);
                    match find_from(v, ai + 1, ':') {
                        None => {
                            proof {
                                assert(!b.contains(':')) by {
                                    if b.contains(':') {
                                        let i = choose|i: int|
                                            0 <= i < b.len() && b[i] == ':';
                                        assert(v@[ai + 1 + i] == ':');
                                    }
                                }
                                lemma_split_no_sep(b, ':');
                            }
                            let verv = subvec(v, ai + 1, n);
                            let version = chars_string(&verv);
                            let r = Package {
                                name,
                                publisher,
                                version: Some(version),
                                date: None,
                            };
                            proof {
                                assert(verv@ =~= b);
                                assert(r@ =~= (PackageView {
                                    name: a,
                                    publisher: opt_view(publisher),
                                    version: Some(b),
                                    date: None,
                                }));
                            }
                            Ok(r)
                        },
                        Some(ci) => {
                            let ghost bv = v@.subrange(ai as int + 1, ci as int);
                            let ghost bd = v@.skip(ci as int + 1);
                            proof {
                                assert(b =~= bv + seq![':'] + bd);
                                assert(!bv.contains(':')) by {
                                    if bv.contains(':') {
                                        let i = choose|i: int|
                                            0 <= i < bv.len() && bv[i] == ':';
                                        assert(v@[ai + 1 + i] == ':');
                                    }
                                }
                                lemma_split_concat(bv, bd, ':');
                            }
                            match find_from(v, ci + 1, ':') {
                                Some(ci2) => {
                                    proof {
                                        assert(bd.contains(':')) by {
                                            assert(bd[ci2 - (ci + 1)] == ':');
                                        }
                                        lemma_split_contains(bd, ':');
                                    }
                                    Err(FmriError::TooManyColon)
                                },
                                None => {
                                    proof {
                                        assert(!bd.contains(':')) by {
                                            if bd.contains(':') {
                                                let i = choose|i: int|
                                                    0 <= i < bd.len() && bd[i] == ':';
                                                assert(v@[ci + 1 + i] == ':');
                                            }
                                        }
                                        lemma_split_no_sep(bd, ':');
                                    }
                                    let verv = subvec(v, ai + 1, ci);
                                    let datev = subvec(v, ci + 1, n);
                                    let version = chars_string(&verv);
                                    let date = chars_string(&datev);
                                    let r = Package {
                                        name,
                                        publisher,
                                        version: Some(version),
                                        date: Some(date),
                                    };
                                    proof {
                                        assert(r@ =~= (PackageView {
                                            name: a,
                                            publisher: opt_view(publisher),
                                            version: Some(bv),
                                            date: Some(bd),
                                        }));
                                    }
                                    Ok(r)
                                },
                            }
                        },
                    }
                },
            }
        },
    }
}

impl Package {
    /// Parses an FMRI from a depend action or a package listing.  Partial
    /// package names are anchored at the publisher root.
    #[verifier::loop_isolation(false)]
    pub fn parse_fmri(fmri: &str) -> (r: Result<Package, FmriError>)
        ensures
            match r {
                Ok(p) => parse_fmri_seq(fmri@) == Ok::<PackageView, FmriError>(p@),
                Err(e) => parse_fmri_seq(fmri@) == Err::<PackageView, FmriError>(e),
            },
    {
        let v = str_chars(fmri);
        let ghost s = fmri@;
        let n = v.len();
        let has_prefix = n >= 5 && v[0] == 'p' && v[1] == 'k' && v[2] == 'g' && v[3] == ':'
            && v[4] == '/';
        proof {
            if n >= 5 {
                if v@[0] == 'p' && v@[1] == 'k' && v@[2] == 'g' && v@[3] == ':' && v@[4] == '/' {
                    assert(s.take(5) =~= fmri_prefix());
                } else {
                    assert(s.take(5) != fmri_prefix()) by {
                        if s.take(5) == fmri_prefix() {
                            assert(s.take(5)[0] == 'p');
                            assert(s.take(5)[1] == 'k');
                            assert(s.take(5)[2] == 'g');
                            assert(s.take(5)[3] == ':');
                            assert(s.take(5)[4] == '/');
                        }
                    }
                }
            }
        }
        if has_prefix {
            let ghost i = s.skip(5);
            if n >= 6 && v[5] == '/' {
                let ghost j = s.skip(6);
                proof {
                    assert(i[0] == '/');
                    assert(i.drop_first() =~= j);
                }
                let ghost p = split_seq(j, '/')[0];
                proof {
                    lemma_split_first(j, '/');
                }
                let slash = find_from(&v, 6, '/');
                let limit = match slash {
                    Some(si) => si,
                    None => n,
                };
                proof {
                    match slash {
                        Some(si) => {
                            // the first piece ends exactly at the first slash
                            assert(p.len() == si - 6) by {
                                if p.len() < si - 6 {
                                    assert(j[p.len() as int] == '/');
                                    assert(s[6 + p.len() as int] == '/');
                                } else if p.len() > si - 6 {
                                    assert(p[si - 6] == j[si - 6]);
                                    assert(j[si - 6] == s[si as int]);
                                }
                            }
                        },
                        None => {
                            assert(!j.contains('/')) by {
                                if j.contains('/') {
                                    let k = choose|k: int| 0 <= k < j.len() && j[k] == '/';
                                    assert(s[6 + k] == '/');
                                }
                            }
                        },
                    }
                    assert(p =~= s.subrange(6, limit as int));
                }
                // scan the publisher segment for a character outside its set
                let mut k: usize = 6;
                while k < limit
                    invariant
                        6 <= k <= limit <= v@.len(),
                        p =~= v@.subrange(6, limit as int),
                        forall|m: int| 0 <= m < k - 6 ==> pubchar(p[m]),
                    decreases limit - k,
                {
                    let c = v[k];
                    if !(char_is_alnum(c) || c == '.' || c == '-') {
                        proof {
                            assert(p[k - 6] == v@[k as int]);
                            assert(!pubchar(p[k - 6]));
                        }
                        return Err(FmriError::BadPublisherChar);
                    }
                    k = k + 1;
                }
                proof {
                    assert(forall|m: int| 0 <= m < p.len() ==> pubchar(p[m]));
                }
                match slash {
                    None => {
                        proof {
                            assert(p.len() == j.len());
                        }
                        let pubv = subvec(&v, 6, n);
                        let publisher = chars_string(&pubv);
                        let name = String::new();
                        let r = Package { name, publisher: Some(publisher), version: None, date: None };
                        proof {
                            assert(parse_core(Some(p), Seq::<char>::empty()) == Ok::<
                                PackageView,
                                FmriError,
                            >(r@)) by {
                                assert(split_seq(Seq::<char>::empty(), '@') =~~= seq![
                                    Seq::<char>::empty(),
                                ]);
                                assert(r@ =~= (PackageView {
                                    name: Seq::<char>::empty(),
                                    publisher: Some(p),
                                    version: None,
                                    date: None,
                                }));
                            }
                        }
                        Ok(r)
                    },
                    Some(si) => {
                        if si == 6 {
                            proof {
                                assert(p.len() == 0);
                                assert(j.len() > 0);
                            }
                            Err(FmriError::EmptyPublisher)
                        } else {
                            let pubv = subvec(&v, 6, si);
                            let publisher = chars_string(&pubv);
                            proof {
                                assert(p.len() < j.len());
                                assert(j.skip(p.len() as int + 1) =~= v@.skip(si as int + 1));
                            }
                            parse_core_exec(&v, si + 1, Some(publisher))
                        }
                    },
                }
            } else {
                proof {
                    assert(!(i.len() > 0 && i[0] == '/')) by {
                        if i.len() > 0 {
                            assert(i[0] == s[5]);
                        }
                    }
                    assert(i =~= v@.skip(5));
                }
                parse_core_exec(&v, 5, None)
            }
        } else if n >= 1 && v[0] == '/' {
            if n >= 2 && v[1] == '/' {
                Err(FmriError::PublisherWithoutPkg)
            } else {
                proof {
                    assert(!(n >= 2 && s[1] == '/'));
                    assert(s.skip(1) =~= v@.skip(1));
                }
                parse_core_exec(&v, 1, None)
            }
        } else {
            proof {
                assert(s.skip(0) =~= s);
            }
            parse_core_exec(&v, 0, None)
        }
    }

    pub fn name(&self) -> (r: &str)
        ensures
            r@ == self@.name,
    {
        self.name.as_str()
    }

    pub fn version(&self) -> (r: Option<&str>)
        ensures
            match r {
                Some(v) => self@.version == Some(v@),
                None => self@.version is None,
            },
    {
        match &self.version {
            Some(v) => Some(v.as_str()),
            None => None,
        }
    }

    pub fn publisher(&self) -> (r: Option<&str>)
        ensures
            match r {
                Some(p) => self@.publisher == Some(p@),
                None => self@.publisher is None,
            },
    {
        match &self.publisher {
            Some(p) => Some(p.as_str()),
            None => None,
        }
    }

    pub fn date(&self) -> (r: Option<&str>)
        ensures
            match r {
                Some(d) => self@.date == Some(d@),
                None => self@.date is None,
            },
    {
        match &self.date {
            Some(d) => Some(d.as_str()),
            None => None,
        }
    }

    /// A package with only a name.
    pub fn new_bare(name: &str) -> (r: Package)
        ensures
            r@.name == name@,
            r@.publisher is None,
            r@.version is None,
            r@.date is None,
    {
        Package { name: name.to_owned(), publisher: None, version: None, date: None }
    }

    /// A package with a name and a version.
    pub fn new_bare_version(name: &str, version: &str) -> (r: Package)
        ensures
            r@.name == name@,
            r@.publisher is None,
            r@.version == Some(version@),
            r@.date is None,
    {
        Package {
            name: name.to_owned(),
            publisher: None,
            version: Some(version.to_owned()),
            date: None,
        }
    }

    /// The canonical textual form of this identifier.
    pub fn to_fmri(&self) -> (r: String)
        ensures
            r@ == fmri_text(self@),
    {
        proof {
            reveal_strlit("pkg:/");
            reveal_strlit("/");
            reveal_strlit("@");
            reveal_strlit(":");
        }
        let mut s = String::from_str("pkg:/");
        proof {
            assert(s@ =~= fmri_prefix());
        }
        if let Some(p) = &self.publisher {
            s.append("/");
            s.append(p.as_str());
            s.append("/");
        }
        s.append(self.name.as_str());
        if let Some(v) = &self.version {
            s.append("@");
            s.append(v.as_str());
            if let Some(d) = &self.date {
                s.append(":");
                s.append(d.as_str());
            }
        }
        proof {
            assert(s@ =~= fmri_text(self@));
        }
        s
    }
}

} // verus!
