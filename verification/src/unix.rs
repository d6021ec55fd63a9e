//! The colon-delimited user and group databases of an installed image:
//! parsing, serialization, name-to-id lookup, and the password update made
//! while sealing an image.

use vstd::prelude::*;

use crate::text::{
    join_seq, lemma_split_first, split_chars, split_seq, str_chars, str_eq, strip_cr, subvec,
};

verus! {

/// Why a database operation failed.
#[derive(Debug, Clone, Copy, PartialEq, Eq, Structural)]
pub enum UnixError {
    /// A `+` or `-` compat line, which these databases do not support.
    CompatLine,
    /// A line with the wrong number of colon-delimited fields.
    BadFieldCount,
    /// No entry with the requested name.
    UserNotFound,
    /// Several entries with the requested name.
    MultipleUsers,
    /// An id field that is not a decimal number fitting 64 bits.
    BadId,
}

impl UnixError {
    /// A short description of the failure.
    pub fn message(&self) -> String {
        match self {
            UnixError::CompatLine => String::from_str("compat not supported"),
            UnixError::BadFieldCount => String::from_str("invalid number of fields"),
            UnixError::UserNotFound => String::from_str("could not find user"),
            UnixError::MultipleUsers => String::from_str("found several matches for user"),
            UnixError::BadId => String::from_str("id is not a valid number"),
        }
    }
}

/// One database entry: its colon-delimited fields, in order.
#[derive(Debug, Clone)]
pub struct Row {
    fields: Vec<String>,
}

impl View for Row {
    type V = Seq<Seq<char>>;

    closed spec fn view(&self) -> Seq<Seq<char>> {
        self.fields.deep_view()
    }
}

impl DeepView for Row {
    type V = Seq<Seq<char>>;

    open spec fn deep_view(&self) -> Seq<Seq<char>> {
        self.view()
    }
}

/// The fields one database line denotes.
pub open spec fn db_line_spec(l: Seq<char>, nfields: nat) -> Result<Seq<Seq<char>>, UnixError> {
    if l.len() > 0 && (l[0] == '-' || l[0] == '+') {
        Err(UnixError::CompatLine)
    } else {
        let fs = split_seq(l, ':');
        if fs.len() != nfields {
            Err(UnixError::BadFieldCount)
        } else {
            Ok(fs)
        }
    }
}

/// The rows a whole database text denotes, one per line.
pub open spec fn db_parse_spec(s: Seq<char>, nfields: nat) -> Result<
    Seq<Seq<Seq<char>>>,
    UnixError,
>
    decreases s.len(),
{
    if s.len() == 0 {
        Ok(seq![])
    } else {
        let p = split_seq(s, '\n')[0];
        if p.len() >= s.len() {
            match db_line_spec(s, nfields) {
                Ok(fs) => Ok(seq![fs]),
                Err(e) => Err(e),
            }
        } else {
            match db_line_spec(strip_cr(p), nfields) {
                Ok(fs) => match db_parse_spec(s.skip(p.len() as int + 1), nfields) {
                    Ok(rest) => Ok(seq![fs] + rest),
                    Err(e) => Err(e),
                },
                Err(e) => Err(e),
            }
        }
    }
}

/// One row serialized with colons between its fields.
pub open spec fn row_text(fs: Seq<Seq<char>>) -> Seq<char> {
    join_seq(fs, ':')
}

/// The rows serialized with newlines between them.
pub open spec fn rows_text(rows: Seq<Seq<Seq<char>>>) -> Seq<char>
    decreases rows.len(),
{
    if rows.len() == 0 {
        Seq::empty()
    } else if rows.len() == 1 {
        row_text(rows[0])
    } else {
        rows_text(rows.drop_last()) + seq!['\n'] + row_text(rows.last())
    }
}

/// A whole database text: every row, newline-terminated.
pub open spec fn db_text(rows: Seq<Seq<Seq<char>>>) -> Seq<char> {
    rows_text(rows) + seq!['\n']
}

/// The rows whose first field is `n`, in order.
pub open spec fn rows_matching(rows: Seq<Seq<Seq<char>>>, n: Seq<char>) -> Seq<Seq<Seq<char>>>
    decreases rows.len(),
{
    if rows.len() == 0 {
        seq![]
    } else {
        let rest = rows_matching(rows.drop_last(), n);
        if rows.last()[0] == n {
            rest.push(rows.last())
        } else {
            rest
        }
    }
}

proof fn lemma_rows_matching_take_prefix(rows: Seq<Seq<Seq<char>>>, i: int, n: Seq<char>)
    requires
        0 <= i <= rows.len(),
    ensures
        rows_matching(rows.take(i), n).is_prefix_of(rows_matching(rows, n)),
    decreases rows.len(),
{
    if i == rows.len() {
        assert(rows.take(i) =~= rows);
    } else {
        assert(rows.drop_last().take(i) =~= rows.take(i));
        lemma_rows_matching_take_prefix(rows.drop_last(), i, n);
    }
}

/// Decimal digits.
pub open spec fn is_dec_digit(c: char) -> bool {
    48 <= c as u32 && c as u32 <= 57
}

pub open spec fn digit_dec(c: char) -> nat {
    if is_dec_digit(c) {
        (c as u32 - 48) as nat
    } else {
        0
    }
}

/// The value of a run of decimal digits, most significant first.
pub open spec fn dec_val(s: Seq<char>) -> nat
    decreases s.len(),
{
    if s.len() == 0 {
        0
    } else {
        dec_val(s.drop_last()) * 10 + digit_dec(s.last())
    }
}

/// The digit run of a decimal string, past any leading `+`.
pub open spec fn dec_body(s: Seq<char>) -> Seq<char> {
    if s.len() > 0 && s[0] == '+' {
        s.drop_first()
    } else {
        s
    }
}

pub open spec fn all_dec_digits(t: Seq<char>) -> bool {
    forall|i: int| 0 <= i < t.len() ==> is_dec_digit(t[i])
}

/// The number a decimal id string denotes, as `u64::from_str` reads it.
pub open spec fn parse_dec(s: Seq<char>) -> Option<u64> {
    if dec_body(s).len() > 0 && all_dec_digits(dec_body(s)) && dec_val(dec_body(s)) <= u64::MAX
        as nat {
        Some(dec_val(dec_body(s)) as u64)
    } else {
        None
    }
}

proof fn lemma_dec_prefix(t: Seq<char>, j: int)
    requires
        0 <= j <= t.len(),
    ensures
        dec_val(t) >= dec_val(t.take(j)),
    decreases t.len(),
{
    if j < t.len() {
        assert(t.drop_last().take(j) =~= t.take(j));
        lemma_dec_prefix(t.drop_last(), j);
    } else {
        assert(t.take(j) =~= t);
    }
}

/// Reads a decimal number as `u64::from_str` does.
#[verifier::loop_isolation(false)]
fn parse_dec_u64(s: &str) -> (r: Option<u64>)
    ensures
        r == parse_dec(s@),
{
    let cs = str_chars(s);
    let n = cs.len();
    let start: usize = if n > 0 && cs[0] == '+' {
        1
    } else {
        0
    };
    let ghost t = dec_body(s@);
    proof {
        assert(t =~= cs@.subrange(start as int, n as int));
    }
    if start == n {
        return None;
    }
    let mut acc: u64 = 0;
    let mut i = start;
    while i < n
        invariant
            start <= i <= n,
            forall|k: int| 0 <= k < i - start ==> is_dec_digit(t[k]),
            acc as nat == dec_val(t.take(i - start)),
        decreases n - i,
    {
        let c = cs[i];
        proof {
            assert(t.take(i + 1 - start).drop_last() =~= t.take(i - start));
            assert(t.take(i + 1 - start).last() == cs@[i as int]);
        }
        let u = c as u32;
        if !(48 <= u && u <= 57) {
            proof {
                let w = i - start;
                assert(0 <= w < t.len() && !is_dec_digit(t[w]));
                assert(!all_dec_digits(t));
            }
            return None;
        }
        let d = u - 48;
        let wide: u128 = acc as u128 * 10 + d as u128;
        if wide > u64::MAX as u128 {
            proof {
                assert(dec_val(t.take(i + 1 - start)) > u64::MAX as nat);
                lemma_dec_prefix(t, i + 1 - start);
            }
            return None;
        }
        acc = wide as u64;
        i = i + 1;
    }
    proof {
        assert(t.take(n - start) =~= t);
    }
    Some(acc)
}

/// What looking a name up yields: the id field of the single matching row.
pub open spec fn lookup_spec(rows: Seq<Seq<Seq<char>>>, n: Seq<char>) -> Result<u64, UnixError> {
    let m = rows_matching(rows, n);
    if m.len() == 1 {
        match parse_dec(m[0][2]) {
            Some(id) => Ok(id),
            None => Err(UnixError::BadId),
        }
    } else if m.len() == 0 {
        Err(UnixError::UserNotFound)
    } else {
        Err(UnixError::MultipleUsers)
    }
}

/// A colon-delimited database with a fixed field count per row.
#[derive(Debug)]
struct Database {
    nfields: usize,
    entries: Vec<Row>,
}

impl Database {
    spec fn rows(&self) -> Seq<Seq<Seq<char>>> {
        self.entries.deep_view()
    }

    spec fn wf(&self) -> bool {
        forall|i: int| 0 <= i < self.rows().len() ==> (#[trigger] self.rows()[i]).len()
            == self.nfields
    }

    /// Parses a database from its file text.
    #[verifier::loop_isolation(false)]
    #[verifier::rlimit(60)]
    fn parse(content: &str, nfields: usize) -> (r: Result<Database, UnixError>)
        ensures
            match r {
                Ok(db) => db.wf() && db.nfields == nfields && db_parse_spec(content@, nfields as nat)
                    == Ok::<Seq<Seq<Seq<char>>>, UnixError>(db.rows()),
                Err(e) => db_parse_spec(content@, nfields as nat) == Err::<
                    Seq<Seq<Seq<char>>>,
                    UnixError,
                >(e),
            },
    {
        let cs = str_chars(content);
        let n = cs.len();
        let mut entries: Vec<Row> = Vec::new();
        let mut pos: usize = 0;
        proof {
            assert(cs@.skip(0) =~= cs@);
            assert(entries.deep_view() =~= Seq::<Seq<Seq<char>>>::empty());
        }
        while pos < n
            invariant
                pos <= n,
                forall|i: int| 0 <= i < entries.deep_view().len() ==> (
                #[trigger] entries.deep_view()[i]).len() == nfields,
                match db_parse_spec(cs@.skip(pos as int), nfields as nat) {
                    Ok(rest) => db_parse_spec(cs@, nfields as nat) == Ok::<
                        Seq<Seq<Seq<char>>>,
                        UnixError,
                    >(entries.deep_view() + rest),
                    Err(e) => db_parse_spec(cs@, nfields as nat) == Err::<
                        Seq<Seq<Seq<char>>>,
                        UnixError,
                    >(e),
                },
            decreases n - pos,
        {
            let ghost rem = cs@.skip(pos as int);
            let ghost p = split_seq(rem, '\n')[0];
            proof {
                lemma_split_first(rem, '\n');
            }
            let nl = crate::text::find_from(&cs, pos, '\n');
            let end = match nl {
                Some(e) => e,
                None => n,
            };
            proof {
                match nl {
                    Some(e_) => {
                        assert(p.len() == e_ - pos) by {
                            if p.len() < e_ - pos {
                                assert(rem[p.len() as int] == '\n');
                                assert(cs@[pos + p.len() as int] == '\n');
                            } else if p.len() > e_ - pos {
                                assert(rem[e_ - pos] == cs@[e_ as int]);
                            }
                        }
                    },
                    None => {
                        assert(!rem.contains('\n')) by {
                            if rem.contains('\n') {
                                let k = choose|k: int| 0 <= k < rem.len() && rem[k] == '\n';
                                assert(cs@[pos + k] == '\n');
                            }
                        }
                    },
                }
                assert(p =~= cs@.subrange(pos as int, end as int));
            }
            let line_end = match nl {
                Some(_) => {
                    if end > pos && cs[end - 1] == '\r' {
                        end - 1
                    } else {
                        end
                    }
                },
                None => n,
            };
            let ghost line = cs@.subrange(pos as int, line_end as int);
            proof {
                match nl {
                    Some(_) => {
                        assert(line =~= strip_cr(p));
                    },
                    None => {
                        assert(line =~= rem);
                    },
                }
            }
            // reject compat lines, then split the fields
            if line_end > pos && (cs[pos] == '-' || cs[pos] == '+') {
                proof {
                    assert(line[0] == cs@[pos as int]);
                    assert(db_line_spec(line, nfields as nat) == Err::<Seq<Seq<char>>, UnixError>(
                        UnixError::CompatLine,
                    ));
                }
                return Err(UnixError::CompatLine);
            }
            let fields = split_chars(&cs, pos, line_end, ':');
            if fields.len() != nfields {
                proof {
                    assert(db_line_spec(line, nfields as nat) == Err::<Seq<Seq<char>>, UnixError>(
                        UnixError::BadFieldCount,
                    ));
                }
                return Err(UnixError::BadFieldCount);
            }
            let ghost entries0 = entries.deep_view();
            let row = Row { fields };
            proof {
                assert(db_line_spec(line, nfields as nat) == Ok::<Seq<Seq<char>>, UnixError>(
                    row.deep_view(),
                ));
            }
            entries.push(row);
            proof {
                assert(entries.deep_view() =~= entries0.push(
                    split_seq(line, ':'),
                ));
            }
            match nl {
                Some(_) => {
                    proof {
                        assert(cs@.skip(end + 1) =~= rem.skip(p.len() as int + 1));
                        assert(p.len() < rem.len());
                        match db_parse_spec(rem.skip(p.len() as int + 1), nfields as nat) {
                            Ok(rest2) => {
                                assert(entries0.push(split_seq(line, ':')) + rest2 =~= entries0 + (
                                seq![split_seq(line, ':')] + rest2));
                            },
                            Err(_) => {},
                        }
                    }
                    pos = end + 1;
                },
                None => {
                    proof {
                        assert(p.len() == rem.len());
                        assert(cs@.skip(n as int) =~= Seq::<char>::empty());
                        assert(entries0.push(split_seq(line, ':')) + Seq::<
                            Seq<Seq<char>>,
                        >::empty() =~= entries0 + seq![split_seq(line, ':')]);
                    }
                    pos = n;
                },
            }
        }
        proof {
            assert(cs@.skip(n as int) =~= Seq::<char>::empty());
            assert(entries.deep_view() + Seq::<Seq<Seq<char>>>::empty() =~= entries.deep_view());
        }
        Ok(Database { nfields, entries })
    }

    /// Serializes the database back to its newline-terminated file text.
    fn store(&self) -> (r: String)
        ensures
            r@ == db_text(self.rows()),
    {
        let ghost rows = self.rows();
        let mut s = String::new();
        let mut i: usize = 0;
        proof {
            assert(rows.take(0) =~= Seq::<Seq<Seq<char>>>::empty());
        }
        while i < self.entries.len()
            invariant
                i <= self.entries@.len(),
                rows == self.rows(),
                s@ == rows_text(rows.take(i as int)),
            decreases self.entries@.len() - i,
        {
            if i > 0 {
                crate::text::push_char(&mut s, '\n');
            }
            let ghost base = s@;
            let row = &self.entries[i];
            let ghost fs = rows[i as int];
            let mut j: usize = 0;
            proof {
                assert(fs.take(0) =~= Seq::<Seq<char>>::empty());
            }
            while j < row.fields.len()
                invariant
                    j <= row.fields@.len(),
                    fs == row.deep_view(),
                    base == base,
                    s@ == base + join_seq(fs.take(j as int), ':'),
                decreases row.fields@.len() - j,
            {
                if j > 0 {
                    crate::text::push_char(&mut s, ':');
                }
                s.append(row.fields[j].as_str());
                j = j + 1;
                proof {
                    assert(fs.take(j as int).drop_last() =~= fs.take(j as int - 1));
                    assert(fs.take(j as int).last() == fs[j - 1]);
                    if j == 1 {
                        assert(join_seq(fs.take(1), ':') == fs[0]);
                    }
                }
            }
            proof {
                assert(fs.take(row.fields@.len() as int) =~= fs);
                assert(rows.take(i + 1).drop_last() =~= rows.take(i as int));
                assert(rows.take(i + 1).last() == rows[i as int]);
                if i == 0 {
                    assert(rows_text(rows.take(1)) == row_text(rows[0]));
                }
            }
            i = i + 1;
        }
        proof {
            assert(rows.take(self.entries@.len() as int) =~= rows);
        }
        crate::text::push_char(&mut s, '\n');
        proof {
            assert(s@ =~= db_text(rows));
        }
        s
    }

    /// Finds the numeric id of the entry named `n`: its third field.
    #[verifier::loop_isolation(false)]
    fn lookup_by_name(&self, n: &str) -> (r: Result<u64, UnixError>)
        requires
            self.wf(),
            self.nfields >= 3,
        ensures
            match r {
                Ok(id) => lookup_spec(self.rows(), n@) == Ok::<u64, UnixError>(id),
                Err(e) => lookup_spec(self.rows(), n@) == Err::<u64, UnixError>(e),
            },
    {
        let ghost rows = self.rows();
        let mut count: usize = 0;
        let mut first: Option<String> = None;
        let mut i: usize = 0;
        proof {
            assert(rows.take(0) =~= Seq::<Seq<Seq<char>>>::empty());
        }
        while i < self.entries.len()
            invariant
                i <= self.entries@.len(),
                count == rows_matching(rows.take(i as int), n@).len(),
                count <= i,
                match first {
                    Some(f) => count > 0 && f@ == rows_matching(rows.take(i as int), n@)[0][2],
                    None => count == 0,
                },
            decreases self.entries@.len() - i,
        {
            proof {
                assert(rows.take(i + 1).drop_last() =~= rows.take(i as int));
                assert(rows.take(i + 1).last() == rows[i as int]);
            }
            if str_eq(self.entries[i].fields[0].as_str(), n) {
                if first.is_none() {
                    first = Some(self.entries[i].fields[2].clone());
                }
                count = count + 1;
                proof {
                    if count == 1 {
                        assert(rows_matching(rows.take(i + 1), n@) =~= seq![rows[i as int]]);
                    }
                }
            }
            i = i + 1;
        }
        proof {
            assert(rows.take(self.entries@.len() as int) =~= rows);
        }
        if count == 1 {
            match first {
                Some(f) => match parse_dec_u64(f.as_str()) {
                    Some(id) => Ok(id),
                    None => Err(UnixError::BadId),
                },
                None => {
                    proof {
                        assert(false);
                    }
                    Err(UnixError::UserNotFound)
                },
            }
        } else if count == 0 {
            Err(UnixError::UserNotFound)
        } else {
            Err(UnixError::MultipleUsers)
        }
    }
}

/// The rows after setting the password field of every row named `user`.
pub open spec fn password_set_rows(
    rows: Seq<Seq<Seq<char>>>,
    user: Seq<char>,
    pw: Seq<char>,
) -> Seq<Seq<Seq<char>>> {
    Seq::new(
        rows.len(),
        |i: int|
            if rows[i][0] == user {
                rows[i].update(1, pw)
            } else {
                rows[i]
            },
    )
}

impl Database {
    /// Replaces the password field of the single entry named `user`.
    #[verifier::loop_isolation(false)]
    fn password_set(&mut self, user: &str, password: &str) -> (r: Result<(), UnixError>)
        requires
            old(self).wf(),
            old(self).nfields >= 2,
        ensures
            final(self).wf(),
            final(self).nfields == old(self).nfields,
            match r {
                Ok(()) => rows_matching(old(self).rows(), user@).len() == 1 && final(self).rows()
                    =~= password_set_rows(old(self).rows(), user@, password@),
                Err(e) => final(self).rows() == old(self).rows() && ((e == UnixError::UserNotFound
                    && rows_matching(old(self).rows(), user@).len() == 0) || (e
                    == UnixError::MultipleUsers && rows_matching(old(self).rows(), user@).len()
                    > 1)),
            },
    {
        let ghost rows = self.rows();
        let mut count: usize = 0;
        let mut i: usize = 0;
        proof {
            assert(rows.take(0) =~= Seq::<Seq<Seq<char>>>::empty());
        }
        while i < self.entries.len()
            invariant
                i <= self.entries@.len(),
                self == old(self),
                count <= i,
                count == rows_matching(rows.take(i as int), user@).len(),
            decreases self.entries@.len() - i,
        {
            proof {
                assert(rows.take(i + 1).drop_last() =~= rows.take(i as int));
                assert(rows.take(i + 1).last() == rows[i as int]);
                assert(self.rows()[i as int].len() == self.nfields);
            }
            if str_eq(self.entries[i].fields[0].as_str(), user) {
                count = count + 1;
            }
            i = i + 1;
        }
        proof {
            assert(rows.take(self.entries@.len() as int) =~= rows);
        }
        if count == 0 {
            return Err(UnixError::UserNotFound);
        }
        if count > 1 {
            return Err(UnixError::MultipleUsers);
        }
        let mut updated: Vec<Row> = Vec::new();
        let mut i: usize = 0;
        proof {
            assert(updated.deep_view() =~= password_set_rows(rows, user@, password@).take(0));
        }
        while i < self.entries.len()
            invariant
                i <= self.entries@.len(),
                self == old(self),
                count == 1,
                updated.deep_view() =~= password_set_rows(rows, user@, password@).take(i as int),
                forall|k: int| 0 <= k < updated.deep_view().len() ==> (
                #[trigger] updated.deep_view()[k]).len() == self.nfields,
            decreases self.entries@.len() - i,
        {
            let row = &self.entries[i];
            proof {
                assert(self.rows()[i as int].len() == self.nfields);
                assert(row.deep_view() == rows[i as int]);
            }
            if str_eq(row.fields[0].as_str(), user) {
                let mut nf: Vec<String> = Vec::new();
                let mut j: usize = 0;
                while j < row.fields.len()
                    invariant
                        j <= row.fields@.len(),
                        row.fields@.len() == rows[i as int].len(),
                        row.deep_view() == rows[i as int],
                        1 < row.fields@.len(),
                        nf.deep_view() =~= rows[i as int].update(1, password@).take(j as int),
                    decreases row.fields@.len() - j,
                {
                    if j == 1 {
                        nf.push(password.to_owned());
                    } else {
                        nf.push(row.fields[j].clone());
                    }
                    j = j + 1;
                    proof {
                        assert(nf.deep_view() =~= rows[i as int].update(1, password@).take(
                            j as int,
                        ));
                    }
                }
                proof {
                    assert(rows[i as int].update(1, password@).take(
                        row.fields@.len() as int,
                    ) =~= rows[i as int].update(1, password@));
                }
                updated.push(Row { fields: nf });
            } else {
                let mut nf: Vec<String> = Vec::new();
                let mut j: usize = 0;
                while j < row.fields.len()
                    invariant
                        j <= row.fields@.len(),
                        row.deep_view() == rows[i as int],
                        nf.deep_view() =~= rows[i as int].take(j as int),
                    decreases row.fields@.len() - j,
                {
                    nf.push(row.fields[j].clone());
                    j = j + 1;
                    proof {
                        assert(nf.deep_view() =~= rows[i as int].take(j as int));
                    }
                }
                proof {
                    assert(rows[i as int].take(row.fields@.len() as int) =~= rows[i as int]);
                }
                updated.push(Row { fields: nf });
            }
            i = i + 1;
            proof {
                assert(updated.deep_view() =~= password_set_rows(rows, user@, password@).take(
                    i as int,
                ));
            }
        }
        proof {
            assert(password_set_rows(rows, user@, password@).take(
                self.entries@.len() as int,
            ) =~= password_set_rows(rows, user@, password@));
        }
        self.entries = updated;
        Ok(())
    }
}

/// The group database: four colon-delimited fields per row.
pub struct Group {
    database: Database,
}

impl View for Group {
    type V = Seq<Seq<Seq<char>>>;

    closed spec fn view(&self) -> Seq<Seq<Seq<char>>> {
        self.database.rows()
    }
}

impl Group {
    /// Every row has exactly the group database's four fields.
    pub closed spec fn wf(&self) -> bool {
        self.database.wf() && self.database.nfields == 4
    }

    /// Parses a group database from its file text.
    pub fn load(content: &str) -> (r: Result<Group, UnixError>)
        ensures
            match r {
                Ok(g) => g.wf() && db_parse_spec(content@, 4) == Ok::<
                    Seq<Seq<Seq<char>>>,
                    UnixError,
                >(g@),
                Err(e) => db_parse_spec(content@, 4) == Err::<Seq<Seq<Seq<char>>>, UnixError>(e),
            },
    {
        match Database::parse(content, 4) {
            Ok(database) => Ok(Group { database }),
            Err(e) => Err(e),
        }
    }

    /// The newline-terminated file text of this database.
    pub fn store(&self) -> (r: String)
        ensures
            r@ == db_text(self@),
    {
        self.database.store()
    }

    /// The numeric id of the group named `n`.
    pub fn lookup_by_name(&self, n: &str) -> (r: Result<u64, UnixError>)
        requires
            self.wf(),
        ensures
            match r {
                Ok(id) => lookup_spec(self@, n@) == Ok::<u64, UnixError>(id),
                Err(e) => lookup_spec(self@, n@) == Err::<u64, UnixError>(e),
            },
    {
        self.database.lookup_by_name(n)
    }
}

/// The password database: seven colon-delimited fields per row.
pub struct Passwd {
    database: Database,
}

impl View for Passwd {
    type V = Seq<Seq<Seq<char>>>;

    closed spec fn view(&self) -> Seq<Seq<Seq<char>>> {
        self.database.rows()
    }
}

impl Passwd {
    /// Every row has exactly the password database's seven fields.
    pub closed spec fn wf(&self) -> bool {
        self.database.wf() && self.database.nfields == 7
    }

    /// Parses a password database from its file text.
    pub fn load(content: &str) -> (r: Result<Passwd, UnixError>)
        ensures
            match r {
                Ok(p) => p.wf() && db_parse_spec(content@, 7) == Ok::<
                    Seq<Seq<Seq<char>>>,
                    UnixError,
                >(p@),
                Err(e) => db_parse_spec(content@, 7) == Err::<Seq<Seq<Seq<char>>>, UnixError>(e),
            },
    {
        match Database::parse(content, 7) {
            Ok(database) => Ok(Passwd { database }),
            Err(e) => Err(e),
        }
    }

    /// The newline-terminated file text of this database.
    pub fn store(&self) -> (r: String)
        ensures
            r@ == db_text(self@),
    {
        self.database.store()
    }

    /// The numeric id of the user named `n`.
    pub fn lookup_by_name(&self, n: &str) -> (r: Result<u64, UnixError>)
        requires
            self.wf(),
        ensures
            match r {
                Ok(id) => lookup_spec(self@, n@) == Ok::<u64, UnixError>(id),
                Err(e) => lookup_spec(self@, n@) == Err::<u64, UnixError>(e),
            },
    {
        self.database.lookup_by_name(n)
    }
}

/// The shadow database: nine colon-delimited fields per row.
pub struct Shadow {
    database: Database,
}

impl View for Shadow {
    type V = Seq<Seq<Seq<char>>>;

    closed spec fn view(&self) -> Seq<Seq<Seq<char>>> {
        self.database.rows()
    }
}

impl Shadow {
    /// Every row has exactly the shadow database's nine fields.
    pub closed spec fn wf(&self) -> bool {
        self.database.wf() && self.database.nfields == 9
    }

    /// Parses a shadow database from its file text.
    pub fn load(content: &str) -> (r: Result<Shadow, UnixError>)
        ensures
            match r {
                Ok(s) => s.wf() && db_parse_spec(content@, 9) == Ok::<
                    Seq<Seq<Seq<char>>>,
                    UnixError,
                >(s@),
                Err(e) => db_parse_spec(content@, 9) == Err::<Seq<Seq<Seq<char>>>, UnixError>(e),
            },
    {
        match Database::parse(content, 9) {
            Ok(database) => Ok(Shadow { database }),
            Err(e) => Err(e),
        }
    }

    /// Replaces the password field of the single entry named `user`.
    pub fn password_set(&mut self, user: &str, password: &str) -> (r: Result<(), UnixError>)
        requires
            old(self).wf(),
        ensures
            final(self).wf(),
            match r {
                Ok(()) => rows_matching(old(self)@, user@).len() == 1 && final(self)@
                    =~= password_set_rows(old(self)@, user@, password@),
                Err(e) => final(self)@ == old(self)@ && ((e == UnixError::UserNotFound
                    && rows_matching(old(self)@, user@).len() == 0) || (e
                    == UnixError::MultipleUsers && rows_matching(old(self)@, user@).len() > 1)),
            },
    {
        self.database.password_set(user, password)
    }

    /// The newline-terminated file text of this database.
    pub fn store(&self) -> (r: String)
        ensures
            r@ == db_text(self@),
    {
        self.database.store()
    }
}

} // verus!
