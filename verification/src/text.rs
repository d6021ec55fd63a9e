//! Shared text machinery: a mathematical model of splitting a character
//! sequence on a separator, its algebraic lemmas, character classes, and
//! small executable helpers over `&str` used by the parsers.

use vstd::prelude::*;

verus! {

/// The pieces of `s` between occurrences of the separator `c`, in order.
/// Mirrors `str::split`: the empty sequence yields one empty piece, and a
/// trailing separator yields a final empty piece.
pub open spec fn split_seq(s: Seq<char>, c: char) -> Seq<Seq<char>>
    decreases s.len(),
{
    if s.len() == 0 {
        seq![Seq::<char>::empty()]
    } else {
        let rest = split_seq(s.drop_last(), c);
        if s.last() == c {
            rest + seq![Seq::<char>::empty()]
        } else {
            rest.drop_last() + seq![rest.last().push(s.last())]
        }
    }
}

/// The pieces joined back together with `c` between them.
pub open spec fn join_seq(parts: Seq<Seq<char>>, c: char) -> Seq<char>
    decreases parts.len(),
{
    if parts.len() == 0 {
        Seq::empty()
    } else if parts.len() == 1 {
        parts[0]
    } else {
        join_seq(parts.drop_last(), c) + seq![c] + parts.last()
    }
}

pub proof fn lemma_split_len(s: Seq<char>, c: char)
    ensures
        split_seq(s, c).len() >= 1,
    decreases s.len(),
{
    if s.len() > 0 {
        lemma_split_len(s.drop_last(), c);
    }
}

/// Splitting a sequence free of the separator yields that sequence alone.
pub proof fn lemma_split_no_sep(s: Seq<char>, c: char)
    requires
        !s.contains(c),
    ensures
        split_seq(s, c) =~~= seq![s],
    decreases s.len(),
{
    if s.len() > 0 {
        assert(!s.drop_last().contains(c)) by {
            if s.drop_last().contains(c) {
                let i = choose|i: int| 0 <= i < s.drop_last().len() && s.drop_last()[i] == c;
                assert(s[i] == c);
            }
        }
        lemma_split_no_sep(s.drop_last(), c);
        assert(s.last() != c) by {
            assert(s[s.len() - 1] == s.last());
        }
        assert(s.drop_last().push(s.last()) =~= s);
    }
}

/// Splitting around the first separator: the part before it becomes the
/// first piece, and the remainder splits independently.
pub proof fn lemma_split_concat(a: Seq<char>, b: Seq<char>, c: char)
    requires
        !a.contains(c),
    ensures
        split_seq(a + seq![c] + b, c) =~~= seq![a] + split_seq(b, c),
    decreases b.len(),
{
    let s = a + seq![c] + b;
    if b.len() == 0 {
        assert(s.drop_last() =~= a);
        assert(s.last() == c);
        lemma_split_no_sep(a, c);
    } else {
        lemma_split_concat(a, b.drop_last(), c);
        assert(s.drop_last() =~= a + seq![c] + b.drop_last());
        assert(s.last() == b.last());
        lemma_split_len(b.drop_last(), c);
        if b.last() == c {
            assert(split_seq(b, c) =~= split_seq(b.drop_last(), c) + seq![Seq::<char>::empty()]);
        } else {
            let rest = split_seq(b.drop_last(), c);
            assert(split_seq(b, c) =~= rest.drop_last() + seq![rest.last().push(b.last())]);
            assert((seq![a] + rest).last() == rest.last());
            assert((seq![a] + rest).drop_last() =~= seq![a] + rest.drop_last());
        }
    }
}

/// A sequence containing the separator splits into at least two pieces.
pub proof fn lemma_split_contains(s: Seq<char>, c: char)
    requires
        s.contains(c),
    ensures
        split_seq(s, c).len() >= 2,
    decreases s.len(),
{
    lemma_split_len(s.drop_last(), c);
    if s.last() != c {
        assert(s.drop_last().contains(c)) by {
            let i = choose|i: int| 0 <= i < s.len() && s[i] == c;
            assert(s.drop_last()[i] == c);
        }
        lemma_split_contains(s.drop_last(), c);
    }
}

/// The first piece of a split is the run of characters before the first
/// separator, or the whole sequence if the separator never occurs.
pub proof fn lemma_split_first(s: Seq<char>, c: char)
    ensures
        split_seq(s, c)[0].len() <= s.len(),
        split_seq(s, c)[0] =~= s.take(split_seq(s, c)[0].len() as int),
        forall|k: int| 0 <= k < split_seq(s, c)[0].len() ==> s[k] != c,
        split_seq(s, c)[0].len() < s.len() ==> s[split_seq(s, c)[0].len() as int] == c,
        (split_seq(s, c)[0].len() == s.len()) <==> !s.contains(c),
    decreases s.len(),
{
    lemma_split_len(s, c);
    if s.len() == 0 {
        assert(!s.contains(c));
    } else {
        let d = s.drop_last();
        lemma_split_first(d, c);
        lemma_split_len(d, c);
        let rest = split_seq(d, c);
        let p0 = rest[0];
        if s.last() == c {
            assert(split_seq(s, c)[0] == p0);
            assert(p0 =~= s.take(p0.len() as int));
            assert(s[s.len() - 1] == c);
            assert(s.contains(c));
            assert forall|k: int| 0 <= k < p0.len() implies s[k] != c by {
                assert(d[k] != c);
            }
        } else {
            if rest.len() == 1 {
                assert(!d.contains(c)) by {
                    if d.contains(c) {
                        lemma_split_contains(d, c);
                    }
                }
                assert(split_seq(s, c)[0] == p0.push(s.last()));
                assert(p0 =~= d);
                assert(p0.push(s.last()) =~= s);
                assert(!s.contains(c)) by {
                    if s.contains(c) {
                        let i = choose|i: int| 0 <= i < s.len() && s[i] == c;
                        if i < s.len() - 1 {
                            assert(d[i] == c);
                        }
                    }
                }
                assert forall|k: int| 0 <= k < s.len() implies s[k] != c by {
                    if s[k] == c {
                        assert(s.contains(c));
                    }
                }
            } else {
                assert(split_seq(s, c)[0] == rest.drop_last()[0]);
                assert(rest.drop_last()[0] == p0);
                assert(d.contains(c)) by {
                    if !d.contains(c) {
                        lemma_split_no_sep(d, c);
                    }
                }
                assert(p0.len() < d.len());
                assert(p0 =~= s.take(p0.len() as int));
                assert(s[p0.len() as int] == d[p0.len() as int]);
                assert forall|k: int| 0 <= k < p0.len() implies s[k] != c by {
                    assert(d[k] != c);
                }
                assert(s.contains(c)) by {
                    let i = choose|i: int| 0 <= i < d.len() && d[i] == c;
                    assert(s[i] == c);
                }
            }
        }
    }
}

/// Finds the first occurrence of `c` in `v` at or after `from`.
pub fn find_from(v: &Vec<char>, from: usize, c: char) -> (r: Option<usize>)
    requires
        from <= v@.len(),
    ensures
        match r {
            Some(i) => from <= i < v@.len() && v@[i as int] == c && forall|k: int|
                from <= k < i ==> v@[k] != c,
            None => forall|k: int| from <= k < v@.len() ==> v@[k] != c,
        },
{
    let mut i = from;
    while i < v.len()
        invariant
            from <= i <= v@.len(),
            forall|k: int| from <= k < i ==> v@[k] != c,
        decreases v@.len() - i,
    {
        if v[i] == c {
            return Some(i);
        }
        i = i + 1;
    }
    None
}

/// Copies the characters of `v` in the range `[from, to)`.
pub fn subvec(v: &Vec<char>, from: usize, to: usize) -> (r: Vec<char>)
    requires
        from <= to <= v@.len(),
    ensures
        r@ =~= v@.subrange(from as int, to as int),
{
    let mut r: Vec<char> = Vec::new();
    let mut i = from;
    while i < to
        invariant
            from <= i <= to <= v@.len(),
            r@ =~= v@.subrange(from as int, i as int),
        decreases to - i,
    {
        r.push(v[i]);
        i = i + 1;
        proof {
            assert(r@ =~= v@.subrange(from as int, i as int));
        }
    }
    r
}

/// Splits the characters of `cs` in `[from, to)` on `sep` into strings,
/// one per piece, empty pieces included.
pub fn split_chars(cs: &Vec<char>, from: usize, to: usize, sep: char) -> (r: Vec<String>)
    requires
        from <= to <= cs@.len(),
    ensures
        r.deep_view() =~~= split_seq(cs@.subrange(from as int, to as int), sep),
{
    let ghost whole = cs@.subrange(from as int, to as int);
    let mut r: Vec<String> = Vec::new();
    let mut pos = from;
    proof {
        assert(whole =~= cs@.subrange(pos as int, to as int));
    }
    loop
        invariant_except_break
            from <= pos <= to <= cs@.len(),
            whole == cs@.subrange(from as int, to as int),
            split_seq(whole, sep) =~~= r.deep_view() + split_seq(
                cs@.subrange(pos as int, to as int),
                sep,
            ),
        ensures
            r.deep_view() =~~= split_seq(whole, sep),
        decreases to - pos,
    {
        let ghost rest = cs@.subrange(pos as int, to as int);
        match find_from_to(cs, pos, to, sep) {
            Some(si) => {
                let ghost piece = cs@.subrange(pos as int, si as int);
                proof {
                    assert(rest =~= piece + seq![sep] + cs@.subrange(si as int + 1, to as int));
                    assert(!piece.contains(sep)) by {
                        if piece.contains(sep) {
                            let k = choose|k: int| 0 <= k < piece.len() && piece[k] == sep;
                            assert(cs@[pos + k] == sep);
                        }
                    }
                    lemma_split_concat(piece, cs@.subrange(si as int + 1, to as int), sep);
                }
                let pv = subvec(cs, pos, si);
                let s = chars_string(&pv);
                r.push(s);
                pos = si + 1;
            },
            None => {
                let ghost piece = rest;
                proof {
                    assert(!piece.contains(sep)) by {
                        if piece.contains(sep) {
                            let k = choose|k: int| 0 <= k < piece.len() && piece[k] == sep;
                            assert(cs@[pos + k] == sep);
                        }
                    }
                    lemma_split_no_sep(piece, sep);
                }
                let pv = subvec(cs, pos, to);
                let s = chars_string(&pv);
                r.push(s);
                break ;
            },
        }
    }
    r
}

/// Finds the first occurrence of `c` in `v` within `[from, to)`.
pub fn find_from_to(v: &Vec<char>, from: usize, to: usize, c: char) -> (r: Option<usize>)
    requires
        from <= to <= v@.len(),
    ensures
        match r {
            Some(i) => from <= i < to && v@[i as int] == c && forall|k: int|
                from <= k < i ==> v@[k] != c,
            None => forall|k: int| from <= k < to ==> v@[k] != c,
        },
{
    let mut i = from;
    while i < to
        invariant
            from <= i <= to <= v@.len(),
            forall|k: int| from <= k < i ==> v@[k] != c,
        decreases to - i,
    {
        if v[i] == c {
            return Some(i);
        }
        i = i + 1;
    }
    None
}

/// A line with its terminating carriage return removed.
pub open spec fn strip_cr(l: Seq<char>) -> Seq<char> {
    if l.len() > 0 && l.last() == '\r' {
        l.drop_last()
    } else {
        l
    }
}

/// Whether `n` occurs contiguously inside `h`.
pub open spec fn contains_sub(h: Seq<char>, n: Seq<char>) -> bool {
    exists|i: int| 0 <= i <= h.len() - n.len() && #[trigger] h.subrange(i, i + n.len()) == n
}

/// Searches `h` for the substring `n`.
#[verifier::loop_isolation(false)]
pub fn contains_str_sub(h: &str, n: &str) -> (r: bool)
    ensures
        r == contains_sub(h@, n@),
{
    let hv = str_chars(h);
    let nv = str_chars(n);
    let hn = hv.len();
    let nn = nv.len();
    if nn > hn {
        return false;
    }
    if nn == 0 {
        proof {
            assert(h@.subrange(0, 0 + n@.len() as int) =~= n@);
        }
        return true;
    }
    let mut i: usize = 0;
    while i <= hn - nn
        invariant
            1 <= nn <= hn,
            0 <= i <= hn - nn + 1,
            forall|m: int| 0 <= m < i ==> #[trigger] h@.subrange(m, m + nn) != n@,
        decreases hn - nn - i + 1,
    {
        let mut j: usize = 0;
        let mut matched = true;
        while j < nn
            invariant
                0 <= j <= nn,
                i + nn <= hn,
                matched ==> h@.subrange(i as int, i + j) =~= n@.subrange(0, j as int),
                !matched ==> h@.subrange(i as int, i + nn) != n@,
            decreases nn - j,
        {
            if hv[i + j] != nv[j] {
                proof {
                    assert(h@.subrange(i as int, i + nn)[j as int] != n@[j as int]);
                }
                matched = false;
                j = nn;
            } else {
                proof {
                    if matched {
                        assert(h@.subrange(i as int, i + j + 1) =~= n@.subrange(0, j + 1));
                    }
                }
                j = j + 1;
            }
        }
        if matched {
            proof {
                assert(h@.subrange(i as int, i + nn) =~= n@);
            }
            return true;
        }
        i = i + 1;
    }
    proof {
        assert(!contains_sub(h@, n@)) by {
            if contains_sub(h@, n@) {
                let m = choose|m: int|
                    0 <= m <= h@.len() - n@.len() && #[trigger] h@.subrange(m, m + n@.len())
                        == n@;
            }
        }
    }
    false
}

/// Strict lexicographic order on character sequences, by code point.
pub open spec fn chars_lt(a: Seq<char>, b: Seq<char>) -> bool
    decreases a.len(),
{
    if b.len() == 0 {
        false
    } else if a.len() == 0 {
        true
    } else if a[0] != b[0] {
        (a[0] as u32) < (b[0] as u32)
    } else {
        chars_lt(a.drop_first(), b.drop_first())
    }
}

pub proof fn lemma_chars_lt_irrefl(a: Seq<char>)
    ensures
        !chars_lt(a, a),
    decreases a.len(),
{
    if a.len() > 0 {
        lemma_chars_lt_irrefl(a.drop_first());
    }
}

/// Exactly one of `a < b`, `a == b`, `b < a` holds.
pub proof fn lemma_chars_lt_connex(a: Seq<char>, b: Seq<char>)
    ensures
        chars_lt(a, b) || chars_lt(b, a) || a == b,
    decreases a.len(),
{
    if a.len() == 0 && b.len() == 0 {
        assert(a =~= b);
    } else if a.len() == 0 {
        assert(chars_lt(a, b));
    } else if b.len() == 0 {
        assert(chars_lt(b, a));
    } else if a[0] == b[0] {
        lemma_chars_lt_connex(a.drop_first(), b.drop_first());
        if chars_lt(a.drop_first(), b.drop_first()) {
            assert(chars_lt(a, b));
        } else if chars_lt(b.drop_first(), a.drop_first()) {
            assert(chars_lt(b, a));
        } else {
            assert(a.len() == b.len());
            assert forall|i: int| 0 <= i < a.len() implies a[i] == b[i] by {
                if i > 0 {
                    assert(a.drop_first()[i - 1] == b.drop_first()[i - 1]);
                }
            }
            assert(a =~= b);
        }
    } else {
        if (a[0] as u32) == (b[0] as u32) {
            lemma_char_cast_inj(a[0], b[0]);
        }
        if (a[0] as u32) < (b[0] as u32) {
            assert(chars_lt(a, b));
        } else {
            assert(chars_lt(b, a));
        }
    }
}

pub proof fn lemma_chars_lt_asym(a: Seq<char>, b: Seq<char>)
    ensures
        !(chars_lt(a, b) && chars_lt(b, a)),
    decreases a.len(),
{
    if a.len() > 0 && b.len() > 0 && a[0] == b[0] {
        lemma_chars_lt_asym(a.drop_first(), b.drop_first());
    }
}

pub proof fn lemma_chars_lt_trans(a: Seq<char>, b: Seq<char>, c: Seq<char>)
    requires
        chars_lt(a, b),
        chars_lt(b, c),
    ensures
        chars_lt(a, c),
    decreases a.len() + b.len() + c.len(),
{
    if b.len() == 0 {
    } else if c.len() == 0 {
    } else if a.len() == 0 {
    } else {
        if a[0] == b[0] && b[0] == c[0] {
            lemma_chars_lt_trans(a.drop_first(), b.drop_first(), c.drop_first());
        }
    }
}

/// Compares two strings in code-point order.
#[verifier::loop_isolation(false)]
pub fn str_lt(a: &str, b: &str) -> (r: bool)
    ensures
        r == chars_lt(a@, b@),
{
    let av = str_chars(a);
    let bv = str_chars(b);
    let na = av.len();
    let nb = bv.len();
    let mut i: usize = 0;
    proof {
        assert(a@.skip(0) =~= a@);
        assert(b@.skip(0) =~= b@);
    }
    while i < na && i < nb
        invariant
            i <= na,
            i <= nb,
            forall|k: int| 0 <= k < i ==> a@[k] == b@[k],
            chars_lt(a@, b@) == chars_lt(a@.skip(i as int), b@.skip(i as int)),
        decreases na - i,
    {
        let ca = av[i];
        let cb = bv[i];
        if ca != cb {
            proof {
                assert(a@.skip(i as int)[0] == a@[i as int]);
                assert(b@.skip(i as int)[0] == b@[i as int]);
            }
            return (ca as u32) < (cb as u32);
        }
        proof {
            assert(a@.skip(i as int)[0] == b@.skip(i as int)[0]);
            assert(a@.skip(i as int).drop_first() =~= a@.skip(i + 1));
            assert(b@.skip(i as int).drop_first() =~= b@.skip(i + 1));
        }
        i = i + 1;
    }
    proof {
        if i >= nb {
            assert(b@.skip(i as int).len() == 0);
        } else {
            assert(a@.skip(i as int).len() == 0);
            assert(b@.skip(i as int).len() > 0);
        }
    }
    na < nb
}

/// ASCII alphanumeric characters.
pub open spec fn is_alnum(c: char) -> bool {
    (97 <= c as u32 && c as u32 <= 122) || (65 <= c as u32 && c as u32 <= 90) || (48 <= c as u32
        && c as u32 <= 57)
}

/// ASCII alphabetic characters.
pub open spec fn is_alpha(c: char) -> bool {
    (97 <= c as u32 && c as u32 <= 122) || (65 <= c as u32 && c as u32 <= 90)
}

pub fn char_is_alnum(c: char) -> (r: bool)
    ensures
        r == is_alnum(c),
{
    let u = c as u32;
    (97 <= u && u <= 122) || (65 <= u && u <= 90) || (48 <= u && u <= 57)
}

pub fn char_is_alpha(c: char) -> (r: bool)
    ensures
        r == is_alpha(c),
{
    let u = c as u32;
    (97 <= u && u <= 122) || (65 <= u && u <= 90)
}

/// Compares two strings character by character.
pub fn str_eq(a: &str, b: &str) -> (r: bool)
    ensures
        r == (a@ == b@),
{
    let na = a.unicode_len();
    let nb = b.unicode_len();
    if na != nb {
        proof {
            assert(a@ != b@);
        }
        return false;
    }
    let mut i: usize = 0;
    while i < na
        invariant
            i <= na,
            na == a@.len(),
            na == b@.len(),
            forall|k: int| 0 <= k < i ==> a@[k] == b@[k],
        decreases na - i,
    {
        if a.get_char(i) != b.get_char(i) {
            proof {
                assert(a@[i as int] != b@[i as int]);
            }
            return false;
        }
        i = i + 1;
    }
    proof {
        assert(a@ =~= b@);
    }
    true
}

/// Relies on `String::push`: appends exactly the one character.
#[verifier::external_body]
pub fn push_char(s: &mut String, c: char)
    ensures
        final(s)@ == old(s)@.push(c),
{
    s.push(c)
}

/// Collects the characters of `s` into a vector.
pub fn str_chars(s: &str) -> (v: Vec<char>)
    ensures
        v@ == s@,
{
    let n = s.unicode_len();
    let mut v: Vec<char> = Vec::new();
    let mut i: usize = 0;
    while i < n
        invariant
            i <= n,
            n == s@.len(),
            v@ =~= s@.take(i as int),
        decreases n - i,
    {
        v.push(s.get_char(i));
        i = i + 1;
        proof {
            assert(v@ =~= s@.take(i as int));
        }
    }
    proof {
        assert(s@.take(n as int) =~= s@);
    }
    v
}

/// Builds a string holding exactly the characters of `v`.
pub fn chars_string(v: &Vec<char>) -> (s: String)
    ensures
        s@ == v@,
{
    let mut s = String::new();
    let mut i: usize = 0;
    while i < v.len()
        invariant
            i <= v@.len(),
            s@ =~= v@.take(i as int),
        decreases v@.len() - i,
    {
        push_char(&mut s, v[i]);
        i = i + 1;
        proof {
            assert(s@ =~= v@.take(i as int));
        }
    }
    proof {
        assert(v@.take(v@.len() as int) =~= v@);
    }
    s
}

/// Distinct characters have distinct code points.
pub proof fn lemma_char_cast_inj(x: char, y: char)
    requires
        x as u32 == y as u32,
    ensures
        x == y,
{
}

} // verus!
