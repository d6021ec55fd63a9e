//! Reconciliation of the packaged index against a discovered proto area:
//! the per-path metadata index with its global-zone-only policy, the type
//! cross-check, the ordered archive plan, and the exclusion list.

use vstd::prelude::*;

use crate::ips::{Action, ActionKind, ActionKindView, ActionView};
use crate::tree::{components, joined, path_components};
use crate::unix::{lookup_spec, Group, Passwd, UnixError};
use crate::text::{
    chars_lt, lemma_chars_lt_asym, lemma_chars_lt_connex, lemma_chars_lt_irrefl,
    lemma_chars_lt_trans, str_chars, str_eq, str_lt, subvec,
};

verus! {

/// The filesystem classification of one path.
#[derive(Debug, Clone, PartialEq, Eq)]
pub enum EntryType {
    Dir,
    File,
    Link(String),
    Hardlink(String),
}

#[verifier::ext_equal]
pub enum EntryTypeView {
    Dir,
    File,
    Link(Seq<char>),
    Hardlink(Seq<char>),
}

impl View for EntryType {
    type V = EntryTypeView;

    closed spec fn view(&self) -> EntryTypeView {
        match self {
            EntryType::Dir => EntryTypeView::Dir,
            EntryType::File => EntryTypeView::File,
            EntryType::Link(t) => EntryTypeView::Link(t@),
            EntryType::Hardlink(t) => EntryTypeView::Hardlink(t@),
        }
    }
}

impl DeepView for EntryType {
    type V = EntryTypeView;

    open spec fn deep_view(&self) -> EntryTypeView {
        self.view()
    }
}

/// The packaged metadata of one path.
#[derive(Debug, Clone)]
pub struct Packaged {
    pub owner: String,
    pub group: String,
    pub mode: u32,
    pub etype: EntryType,
}

#[verifier::ext_equal]
pub struct PackagedView {
    pub owner: Seq<char>,
    pub group: Seq<char>,
    pub mode: u32,
    pub etype: EntryTypeView,
}

impl View for Packaged {
    type V = PackagedView;

    closed spec fn view(&self) -> PackagedView {
        PackagedView {
            owner: self.owner@,
            group: self.group@,
            mode: self.mode,
            etype: self.etype@,
        }
    }
}

impl DeepView for Packaged {
    type V = PackagedView;

    open spec fn deep_view(&self) -> PackagedView {
        self.view()
    }
}

/// Keys strictly increasing in code-point order.
pub open spec fn sorted_keys<T>(ps: Seq<(Seq<char>, T)>) -> bool {
    forall|i: int, j: int| 0 <= i < j < ps.len() ==> chars_lt(
        (#[trigger] ps[i]).0,
        (#[trigger] ps[j]).0,
    )
}

/// The value stored under `k`, if any.
pub open spec fn index_get<T>(ps: Seq<(Seq<char>, T)>, k: Seq<char>) -> Option<T>
    decreases ps.len(),
{
    if ps.len() == 0 {
        None
    } else if ps.last().0 == k {
        Some(ps.last().1)
    } else {
        index_get(ps.drop_last(), k)
    }
}

pub open spec fn index_has<T>(ps: Seq<(Seq<char>, T)>, k: Seq<char>) -> bool {
    index_get(ps, k) is Some
}

/// Sorted insertion, replacing the value of an existing key in place.
pub open spec fn sorted_put<T>(ps: Seq<(Seq<char>, T)>, k: Seq<char>, v: T) -> Seq<(Seq<char>, T)>
    decreases ps.len(),
{
    if ps.len() == 0 {
        seq![(k, v)]
    } else if chars_lt(k, ps[0].0) {
        seq![(k, v)] + ps
    } else if k == ps[0].0 {
        seq![(k, v)] + ps.drop_first()
    } else {
        seq![ps[0]] + sorted_put(ps.drop_first(), k, v)
    }
}

/// What lookups see after an insertion.
pub proof fn lemma_sorted_put_get<T>(ps: Seq<(Seq<char>, T)>, k: Seq<char>, v: T, q: Seq<char>)
    requires
        sorted_keys(ps),
    ensures
        index_get(sorted_put(ps, k, v), q) == (if q == k {
            Some(v)
        } else {
            index_get(ps, q)
        }),
    decreases ps.len(),
{
    lemma_chars_lt_irrefl(k);
    if ps.len() == 0 {
        if q != k {
            assert(seq![(k, v)].drop_last() =~= Seq::<(Seq<char>, T)>::empty());
            assert(index_get(Seq::<(Seq<char>, T)>::empty(), q) is None);
        }
        assert(index_get(sorted_put(ps, k, v), q) == (if q == k {
            Some(v)
        } else {
            index_get(ps, q)
        }));
    } else if chars_lt(k, ps[0].0) {
        let r = seq![(k, v)] + ps;
        lemma_index_get_front(r, q);
        lemma_index_get_front(ps, q);
        assert(r.drop_first() =~= ps);
        if q == k {
            // k is below every key of ps, so ps cannot carry it
            assert(index_get(ps, k) is None) by {
                assert forall|i: int| 0 <= i < ps.len() implies (#[trigger] ps[i]).0 != k by {
                    if i > 0 {
                        lemma_chars_lt_trans(k, ps[0].0, ps[i].0);
                    }
                    if ps[i].0 == k {
                        lemma_chars_lt_irrefl(k);
                    }
                }
                lemma_index_get_none(ps, k);
            }
        }
        assert(index_get(sorted_put(ps, k, v), q) == (if q == k {
            Some(v)
        } else {
            index_get(ps, q)
        }));
    } else if k == ps[0].0 {
        let r = seq![(k, v)] + ps.drop_first();
        lemma_index_get_front(r, q);
        lemma_index_get_front(ps, q);
        assert(r.drop_first() =~= ps.drop_first());
        if q == k {
            // the keys past the head are all greater than the head's, so
            // none of them carries k
            assert(index_get(ps.drop_first(), k) is None) by {
                assert forall|i: int| 0 <= i < ps.drop_first().len() implies (
                #[trigger] ps.drop_first()[i]).0 != k by {
                    assert(chars_lt(ps[0].0, ps[i + 1].0));
                    if ps[i + 1].0 == k {
                        lemma_chars_lt_irrefl(ps[i + 1].0);
                    }
                }
                lemma_index_get_none(ps.drop_first(), k);
            }
        }
        assert(index_get(sorted_put(ps, k, v), q) == (if q == k {
            Some(v)
        } else {
            index_get(ps, q)
        }));
    } else {
        assert(sorted_keys(ps.drop_first())) by {
            assert forall|i: int, j: int|
                0 <= i < j < ps.drop_first().len() implies chars_lt(
                (#[trigger] ps.drop_first()[i]).0,
                (#[trigger] ps.drop_first()[j]).0,
            ) by {
                assert(chars_lt(ps[i + 1].0, ps[j + 1].0));
            }
        }
        lemma_sorted_put_get(ps.drop_first(), k, v, q);
        let r = seq![ps[0]] + sorted_put(ps.drop_first(), k, v);
        lemma_index_get_front(r, q);
        lemma_index_get_front(ps, q);
        assert(r.drop_first() =~= sorted_put(ps.drop_first(), k, v));
        assert(r[0] == ps[0]);
        if q == k {
            lemma_chars_lt_connex(k, ps[0].0);
            assert(chars_lt(ps[0].0, k));
            assert(ps[0].0 != k);
        }
        assert(index_get(sorted_put(ps, k, v), q) == (if q == k {
            Some(v)
        } else {
            index_get(ps, q)
        }));
    }
}

/// A lookup of a key no entry carries finds nothing.
proof fn lemma_index_get_none<T>(ps: Seq<(Seq<char>, T)>, k: Seq<char>)
    requires
        forall|i: int| 0 <= i < ps.len() ==> (#[trigger] ps[i]).0 != k,
    ensures
        index_get(ps, k) is None,
    decreases ps.len(),
{
    if ps.len() > 0 {
        assert(ps.last().0 != k);
        assert forall|i: int| 0 <= i < ps.drop_last().len() implies (
        #[trigger] ps.drop_last()[i]).0 != k by {
            assert(ps[i].0 != k);
        }
        lemma_index_get_none(ps.drop_last(), k);
    }
}

/// A lookup sees the head only when no deeper entry carries the key; with
/// unique keys, the head answers for its own key.
proof fn lemma_index_get_front<T>(ps: Seq<(Seq<char>, T)>, q: Seq<char>)
    requires
        ps.len() > 0,
    ensures
        index_get(ps, q) == (match index_get(ps.drop_first(), q) {
            Some(v) => Some(v),
            None => if ps[0].0 == q {
                Some(ps[0].1)
            } else {
                None
            },
        }),
    decreases ps.len(),
{
    if ps.len() == 1 {
        assert(ps.drop_first() =~= Seq::<(Seq<char>, T)>::empty());
        assert(ps.drop_last() =~= Seq::<(Seq<char>, T)>::empty());
        assert(ps.last() == ps[0]);
    } else {
        lemma_index_get_front(ps.drop_last(), q);
        assert(ps.drop_last().drop_first() =~= ps.drop_first().drop_last());
        assert(ps.drop_last()[0] == ps[0]);
        assert(ps.drop_first().last() == ps.last());
    }
}

/// Sorted insertion keeps the keys sorted.
pub proof fn lemma_sorted_put_sorted<T>(ps: Seq<(Seq<char>, T)>, k: Seq<char>, v: T)
    requires
        sorted_keys(ps),
    ensures
        sorted_keys(sorted_put(ps, k, v)),
    decreases ps.len(),
{
    if ps.len() == 0 {
    } else if chars_lt(k, ps[0].0) {
        let r = seq![(k, v)] + ps;
        assert forall|i: int, j: int| 0 <= i < j < r.len() implies chars_lt(
            (#[trigger] r[i]).0,
            (#[trigger] r[j]).0,
        ) by {
            if i == 0 {
                if j > 1 {
                    lemma_chars_lt_trans(k, ps[0].0, ps[j - 1].0);
                }
            } else {
                assert(chars_lt(ps[i - 1].0, ps[j - 1].0));
            }
        }
    } else if k == ps[0].0 {
        let r = seq![(k, v)] + ps.drop_first();
        assert forall|i: int, j: int| 0 <= i < j < r.len() implies chars_lt(
            (#[trigger] r[i]).0,
            (#[trigger] r[j]).0,
        ) by {
            if i == 0 {
                assert(chars_lt(ps[0].0, ps[j].0));
            } else {
                assert(chars_lt(ps[i].0, ps[j].0));
            }
        }
    } else {
        assert(sorted_keys(ps.drop_first())) by {
            assert forall|i: int, j: int|
                0 <= i < j < ps.drop_first().len() implies chars_lt(
                (#[trigger] ps.drop_first()[i]).0,
                (#[trigger] ps.drop_first()[j]).0,
            ) by {
                assert(chars_lt(ps[i + 1].0, ps[j + 1].0));
            }
        }
        lemma_sorted_put_sorted(ps.drop_first(), k, v);
        lemma_chars_lt_connex(k, ps[0].0);
        assert(chars_lt(ps[0].0, k));
        let r = seq![ps[0]] + sorted_put(ps.drop_first(), k, v);
        assert forall|i: int, j: int| 0 <= i < j < r.len() implies chars_lt(
            (#[trigger] r[i]).0,
            (#[trigger] r[j]).0,
        ) by {
            let sub = sorted_put(ps.drop_first(), k, v);
            if i == 0 {
                lemma_sorted_put_head(ps.drop_first(), k, v, ps[0].0);
            } else {
                assert(chars_lt(sub[i - 1].0, sub[j - 1].0));
            }
        }
    }
}

/// Every key of the inserted list is either `k` or a key of the original,
/// so a lower bound below both bounds the result's keys.
proof fn lemma_sorted_put_head<T>(ps: Seq<(Seq<char>, T)>, k: Seq<char>, v: T, lo: Seq<char>)
    requires
        chars_lt(lo, k),
        forall|i: int| 0 <= i < ps.len() ==> chars_lt(lo, (#[trigger] ps[i]).0),
    ensures
        forall|i: int| 0 <= i < sorted_put(ps, k, v).len() ==> chars_lt(
            lo,
            (#[trigger] sorted_put(ps, k, v)[i]).0,
        ),
    decreases ps.len(),
{
    if ps.len() == 0 {
    } else if chars_lt(k, ps[0].0) {
    } else if k == ps[0].0 {
        let r = seq![(k, v)] + ps.drop_first();
        assert forall|i: int| 0 <= i < r.len() implies chars_lt(lo, (#[trigger] r[i]).0) by {
            if i > 0 {
                assert(chars_lt(lo, ps[i].0));
            }
        }
    } else {
        assert(forall|i: int| 0 <= i < ps.drop_first().len() ==> chars_lt(
            lo,
            (#[trigger] ps.drop_first()[i]).0,
        )) by {
            assert forall|i: int| 0 <= i < ps.drop_first().len() implies chars_lt(
                lo,
                (#[trigger] ps.drop_first()[i]).0,
            ) by {
                assert(chars_lt(lo, ps[i + 1].0));
            }
        }
        lemma_sorted_put_head(ps.drop_first(), k, v, lo);
        let r = seq![ps[0]] + sorted_put(ps.drop_first(), k, v);
        assert forall|i: int| 0 <= i < r.len() implies chars_lt(lo, (#[trigger] r[i]).0) by {
            if i > 0 {
                assert(chars_lt(lo, sorted_put(ps.drop_first(), k, v)[i - 1].0));
            }
        }
    }
}

/// Where the element belongs in the sorted list: past every smaller key.
proof fn lemma_sorted_put_at<T>(ps: Seq<(Seq<char>, T)>, k: Seq<char>, v: T, i: int)
    requires
        sorted_keys(ps),
        0 <= i <= ps.len(),
        forall|m: int| 0 <= m < i ==> chars_lt((#[trigger] ps[m]).0, k),
        i < ps.len() ==> !chars_lt(ps[i].0, k),
    ensures
        sorted_put(ps, k, v) =~~= (if i < ps.len() && ps[i].0 == k {
            ps.update(i, (k, v))
        } else {
            ps.insert(i, (k, v))
        }),
    decreases ps.len(),
{
    if i == 0 {
        if ps.len() == 0 {
            assert(sorted_put(ps, k, v) =~~= ps.insert(0, (k, v)));
        } else {
            lemma_chars_lt_connex(k, ps[0].0);
            if chars_lt(k, ps[0].0) {
                assert(seq![(k, v)] + ps =~~= ps.insert(0, (k, v)));
            } else {
                assert(k == ps[0].0);
                assert(seq![(k, v)] + ps.drop_first() =~~= ps.update(0, (k, v)));
            }
        }
    } else {
        assert(chars_lt(ps[0].0, k));
        lemma_chars_lt_asym(ps[0].0, k);
        lemma_chars_lt_irrefl(k);
        assert(ps[0].0 != k) by {
            if ps[0].0 == k {
                lemma_chars_lt_irrefl(k);
            }
        }
        let d = ps.drop_first();
        assert(sorted_keys(d)) by {
            assert forall|m: int, m2: int| 0 <= m < m2 < d.len() implies chars_lt(
                (#[trigger] d[m]).0,
                (#[trigger] d[m2]).0,
            ) by {
                assert(chars_lt(ps[m + 1].0, ps[m2 + 1].0));
            }
        }
        assert forall|m: int| 0 <= m < i - 1 implies chars_lt((#[trigger] d[m]).0, k) by {
            assert(chars_lt(ps[m + 1].0, k));
        }
        lemma_sorted_put_at(d, k, v, i - 1);
        if i < ps.len() && ps[i].0 == k {
            assert(seq![ps[0]] + d.update(i - 1, (k, v)) =~~= ps.update(i, (k, v)));
        } else {
            assert(seq![ps[0]] + d.insert(i - 1, (k, v)) =~~= ps.insert(i, (k, v)));
        }
    }
}

/// A map from paths to values, kept sorted by path text.
#[derive(Debug)]
pub struct PathMap<V> {
    entries: Vec<(String, V)>,
}

impl<V: DeepView> PathMap<V> {
    /// The entries in key order.
    pub closed spec fn pairs(&self) -> Seq<(Seq<char>, V::V)> {
        self.entries.deep_view()
    }

    pub closed spec fn wf(&self) -> bool {
        sorted_keys(self.pairs())
    }

    pub fn new() -> (r: Self)
        ensures
            r.wf(),
            r.pairs() =~= Seq::<(Seq<char>, V::V)>::empty(),
    {
        PathMap { entries: Vec::new() }
    }

    pub fn len(&self) -> (r: usize)
        ensures
            r == self.pairs().len(),
    {
        self.entries.len()
    }

    pub fn key_at(&self, i: usize) -> (r: &String)
        requires
            i < self.pairs().len(),
        ensures
            r@ == self.pairs()[i as int].0,
    {
        &self.entries[i].0
    }

    pub fn val_at(&self, i: usize) -> (r: &V)
        requires
            i < self.pairs().len(),
        ensures
            r.deep_view() == self.pairs()[i as int].1,
    {
        &self.entries[i].1
    }

    /// The value stored under `k`, if any.
    pub fn get(&self, k: &str) -> (r: Option<&V>)
        ensures
            match r {
                Some(v) => index_get(self.pairs(), k@) == Some(v.deep_view()),
                None => index_get(self.pairs(), k@) is None,
            },
    {
        let ghost ps = self.pairs();
        let mut i: usize = self.entries.len();
        proof {
            assert(ps.take(i as int) =~= ps);
        }
        while i > 0
            invariant
                i <= self.entries@.len(),
                ps == self.pairs(),
                index_get(ps, k@) == index_get(ps.take(i as int), k@),
            decreases i,
        {
            i = i - 1;
            proof {
                assert(ps.take(i + 1).drop_last() =~= ps.take(i as int));
                assert(ps.take(i + 1).last() == ps[i as int]);
            }
            if crate::text::str_eq(self.entries[i].0.as_str(), k) {
                return Some(&self.entries[i].1);
            }
        }
        proof {
            assert(ps.take(0) =~= Seq::<(Seq<char>, V::V)>::empty());
        }
        None
    }

    /// Inserts `k`, replacing any existing value for it in place.
    #[verifier::loop_isolation(false)]
    pub fn insert(&mut self, k: String, v: V)
        requires
            old(self).wf(),
        ensures
            final(self).wf(),
            final(self).pairs() =~~= sorted_put(old(self).pairs(), k@, v.deep_view()),
    {
        let ghost ps = self.pairs();
        let mut i: usize = 0;
        while i < self.entries.len() && str_lt(self.entries[i].0.as_str(), k.as_str())
            invariant
                i <= self.entries@.len(),
                self == old(self),
                forall|m: int| 0 <= m < i ==> chars_lt((#[trigger] ps[m]).0, k@),
            decreases self.entries@.len() - i,
    {
            i = i + 1;
        }
        proof {
            lemma_sorted_put_at(ps, k@, v.deep_view(), i as int);
        }
        if i < self.entries.len() && crate::text::str_eq(self.entries[i].0.as_str(), k.as_str()) {
            self.entries.remove(i);
            self.entries.insert(i, (k, v));
            proof {
                assert(self.pairs() =~~= ps.update(i as int, (k@, v.deep_view())));
                lemma_sorted_put_sorted(ps, k@, v.deep_view());
            }
        } else {
            self.entries.insert(i, (k, v));
            proof {
                assert(self.pairs() =~~= ps.insert(i as int, (k@, v.deep_view())));
                lemma_sorted_put_sorted(ps, k@, v.deep_view());
            }
        }
    }
}

/// A set of paths, kept sorted by path text.
#[derive(Debug)]
pub struct PathSet {
    inner: PathMap<bool>,
}

impl PathSet {
    /// The members in order.
    pub closed spec fn keys(&self) -> Seq<Seq<char>> {
        self.inner.pairs().map_values(|p: (Seq<char>, bool)| p.0)
    }

    pub closed spec fn wf(&self) -> bool {
        self.inner.wf()
    }

    /// Membership.
    pub open spec fn has(&self, k: Seq<char>) -> bool {
        self.keys().contains(k)
    }

    pub fn new() -> (r: Self)
        ensures
            r.wf(),
            r.keys() =~= Seq::<Seq<char>>::empty(),
    {
        PathSet { inner: PathMap::new() }
    }

    pub fn len(&self) -> (r: usize)
        ensures
            r == self.keys().len(),
    {
        self.inner.len()
    }

    pub fn at(&self, i: usize) -> (r: &String)
        requires
            i < self.keys().len(),
        ensures
            r@ == self.keys()[i as int],
    {
        self.inner.key_at(i)
    }

    pub fn contains(&self, k: &str) -> (r: bool)
        ensures
            r == self.has(k@),
    {
        proof {
            lemma_keys_index_get(self.inner.pairs(), k@);
        }
        match self.inner.get(k) {
            Some(_) => true,
            None => false,
        }
    }

    /// Adds `k` to the set.
    pub fn insert(&mut self, k: String)
        requires
            old(self).wf(),
        ensures
            final(self).wf(),
            forall|q: Seq<char>| final(self).has(q) <==> (old(self).has(q) || q == k@),
    {
        let ghost ps = self.inner.pairs();
        self.inner.insert(k, true);
        proof {
            assert forall|q: Seq<char>| final(self).has(q) <==> (old(self).has(q) || q == k@) by {
                lemma_sorted_put_get(ps, k@, true, q);
                lemma_keys_index_get(self.inner.pairs(), q);
                lemma_keys_index_get(ps, q);
            }
        }
    }
}

/// Key membership agrees with lookup success.
proof fn lemma_keys_index_get(ps: Seq<(Seq<char>, bool)>, k: Seq<char>)
    ensures
        ps.map_values(|p: (Seq<char>, bool)| p.0).contains(k) <==> index_get(ps, k) is Some,
    decreases ps.len(),
{
    let ks = ps.map_values(|p: (Seq<char>, bool)| p.0);
    if ps.len() == 0 {
        assert(!ks.contains(k));
    } else {
        lemma_keys_index_get(ps.drop_last(), k);
        let dks = ps.drop_last().map_values(|p: (Seq<char>, bool)| p.0);
        assert(dks =~= ks.drop_last());
        if ps.last().0 == k {
            assert(ks[ks.len() - 1] == k);
            assert(ks.contains(k));
        } else {
            if ks.contains(k) {
                let i = choose|i: int| 0 <= i < ks.len() && ks[i] == k;
                assert(i < ks.len() - 1);
                assert(dks[i] == k);
                assert(dks.contains(k));
            }
            if dks.contains(k) {
                let i = choose|i: int| 0 <= i < dks.len() && dks[i] == k;
                assert(ks[i] == k);
            }
        }
    }
}

/// A path with its leading slashes removed.
pub open spec fn trim_slashes(p: Seq<char>) -> Seq<char>
    decreases p.len(),
{
    if p.len() > 0 && p[0] == '/' {
        trim_slashes(p.drop_first())
    } else {
        p
    }
}

fn trim_slashes_exec(p: &str) -> (r: String)
    ensures
        r@ =~= trim_slashes(p@),
{
    let cs = str_chars(p);
    let n = cs.len();
    let mut i: usize = 0;
    proof {
        assert(p@.skip(0) =~= p@);
    }
    while i < n && cs[i] == '/'
        invariant
            i <= n,
            n == cs@.len(),
            cs@ == p@,
            forall|k: int| 0 <= k < i ==> p@[k] == '/',
            trim_slashes(p@) == trim_slashes(p@.skip(i as int)),
        decreases n - i,
    {
        proof {
            assert(p@.skip(i as int)[0] == p@[i as int]);
            assert(p@.skip(i as int).drop_first() =~= p@.skip(i + 1));
        }
        i = i + 1;
    }
    proof {
        if i < n {
            assert(p@.skip(i as int)[0] == p@[i as int]);
        }
    }
    let tail = subvec(&cs, i, n);
    crate::text::chars_string(&tail)
}

/// The path and filesystem classification a file-like action declares.
pub open spec fn file_kind_path(a: ActionView) -> Option<(Seq<char>, EntryTypeView)> {
    match a.kind {
        ActionKindView::File(af) => Some((trim_slashes(af.path), EntryTypeView::File)),
        ActionKindView::Dir(af) => Some((trim_slashes(af.path), EntryTypeView::Dir)),
        ActionKindView::Link(l) => Some((trim_slashes(l.path), EntryTypeView::Link(l.target))),
        ActionKindView::Hardlink(l) => Some(
            (trim_slashes(l.path), EntryTypeView::Hardlink(l.target)),
        ),
        _ => None,
    }
}

/// Whether the action takes part in the gz-only tracking sets: files and
/// links do, directories do not.
pub open spec fn gz_tracked(a: ActionView) -> bool {
    a.kind is File || a.kind is Link || a.kind is Hardlink
}

/// Whether the action carries the global-zone-only variant.
pub open spec fn action_gz(a: ActionView) -> bool {
    a.variant_zone == Some("global"@)
}

/// The ownership and mode an action declares: links get fixed root
/// ownership and a zero mode.
pub open spec fn action_packaged(a: ActionView) -> PackagedView {
    match a.kind {
        ActionKindView::File(af) => PackagedView {
            owner: af.owner,
            group: af.group,
            mode: af.mode,
            etype: EntryTypeView::File,
        },
        ActionKindView::Dir(af) => PackagedView {
            owner: af.owner,
            group: af.group,
            mode: af.mode,
            etype: EntryTypeView::Dir,
        },
        ActionKindView::Link(l) => PackagedView {
            owner: "root"@,
            group: "root"@,
            mode: 0,
            etype: EntryTypeView::Link(l.target),
        },
        ActionKindView::Hardlink(l) => PackagedView {
            owner: "root"@,
            group: "root"@,
            mode: 0,
            etype: EntryTypeView::Hardlink(l.target),
        },
        _ => PackagedView {
            owner: Seq::empty(),
            group: Seq::empty(),
            mode: 0,
            etype: EntryTypeView::File,
        },
    }
}

/// The paths whose every tracking action matches `global` on the gz-only
/// variant contribute to the respective set.
pub open spec fn gz_fold(acts: Seq<ActionView>, global: bool) -> Set<Seq<char>>
    decreases acts.len(),
{
    if acts.len() == 0 {
        Set::empty()
    } else {
        let rest = gz_fold(acts.drop_last(), global);
        let a = acts.last();
        match file_kind_path(a) {
            Some(pe) => if gz_tracked(a) && action_gz(a) == global {
                rest.insert(pe.0)
            } else {
                rest
            },
            None => rest,
        }
    }
}

/// The packaged index: every file-like action not marked gz-only lands in
/// it, later actions overriding earlier metadata for the same path.
pub open spec fn pkg_fold(acts: Seq<ActionView>) -> Seq<(Seq<char>, PackagedView)>
    decreases acts.len(),
{
    if acts.len() == 0 {
        Seq::empty()
    } else {
        let rest = pkg_fold(acts.drop_last());
        let a = acts.last();
        match file_kind_path(a) {
            Some(pe) => if action_gz(a) {
                rest
            } else {
                sorted_put(rest, pe.0, action_packaged(a))
            },
            None => rest,
        }
    }
}

pub proof fn lemma_pkg_fold_sorted(acts: Seq<ActionView>)
    ensures
        sorted_keys(pkg_fold(acts)),
    decreases acts.len(),
{
    if acts.len() > 0 {
        lemma_pkg_fold_sorted(acts.drop_last());
        let a = acts.last();
        match file_kind_path(a) {
            Some(pe) => {
                if !action_gz(a) {
                    lemma_sorted_put_sorted(
                        pkg_fold(acts.drop_last()),
                        pe.0,
                        action_packaged(a),
                    );
                }
            },
            None => {},
        }
    }
}

/// A path some non-gz-only action declares stays in the index whatever the
/// other actions say of it.
pub proof fn lemma_index_retains(acts: Seq<ActionView>, i: int)
    requires
        0 <= i < acts.len(),
        file_kind_path(acts[i]) is Some,
        !action_gz(acts[i]),
    ensures
        index_has(pkg_fold(acts), file_kind_path(acts[i])->Some_0.0),
    decreases acts.len(),
{
    let p = file_kind_path(acts[i])->Some_0.0;
    lemma_pkg_fold_sorted(acts.drop_last());
    if i == acts.len() - 1 {
        lemma_sorted_put_get(pkg_fold(acts.drop_last()), p, action_packaged(acts[i]), p);
    } else {
        assert(acts.drop_last()[i] == acts[i]);
        lemma_index_retains(acts.drop_last(), i);
        let a = acts.last();
        match file_kind_path(a) {
            Some(pe) => {
                if !action_gz(a) {
                    lemma_sorted_put_get(
                        pkg_fold(acts.drop_last()),
                        pe.0,
                        action_packaged(a),
                        p,
                    );
                }
            },
            None => {},
        }
    }
}

/// Any tracking action lands the path in its gz set.
pub proof fn lemma_gz_fold_has(acts: Seq<ActionView>, i: int, global: bool)
    requires
        0 <= i < acts.len(),
        file_kind_path(acts[i]) is Some,
        gz_tracked(acts[i]),
        action_gz(acts[i]) == global,
    ensures
        gz_fold(acts, global).contains(file_kind_path(acts[i])->Some_0.0),
    decreases acts.len(),
{
    if i < acts.len() - 1 {
        assert(acts.drop_last()[i] == acts[i]);
        lemma_gz_fold_has(acts.drop_last(), i, global);
    }
}

/// A path is declared gz-only by one action and not by another: it stays
/// in the packaged index and in the needed-everywhere set, so the
/// exclusion list never names it.
pub proof fn lemma_gz_only_policy(acts: Seq<ActionView>, i: int, j: int, tks: Seq<Seq<char>>)
    requires
        0 <= i < acts.len(),
        0 <= j < acts.len(),
        file_kind_path(acts[i]) is Some,
        file_kind_path(acts[j]) is Some,
        file_kind_path(acts[i])->Some_0.0 == file_kind_path(acts[j])->Some_0.0,
        gz_tracked(acts[i]),
        gz_tracked(acts[j]),
        action_gz(acts[i]),
        !action_gz(acts[j]),
    ensures
        index_has(pkg_fold(acts), file_kind_path(acts[i])->Some_0.0),
        gz_fold(acts, true).contains(file_kind_path(acts[i])->Some_0.0),
        gz_fold(acts, false).contains(file_kind_path(acts[i])->Some_0.0),
        !gz_list(tks, gz_fold(acts, false)).contains(file_kind_path(acts[i])->Some_0.0),
{
    lemma_index_retains(acts, j);
    lemma_gz_fold_has(acts, i, true);
    lemma_gz_fold_has(acts, j, false);
    lemma_gz_list_excluded(
        tks,
        gz_fold(acts, false),
        file_kind_path(acts[i])->Some_0.0,
    );
}

/// Whether a path falls under the device tree, handled separately by the
/// runtime.
pub open spec fn dev_prefixed(k: Seq<char>) -> bool {
    k.len() >= 3 && k.take(3) == seq!['d', 'e', 'v']
}

/// The exclusion list: every path of `ks`, walked in reverse, that the
/// exclusion set does not retain and that is not under the device tree.
pub open spec fn gz_list(ks: Seq<Seq<char>>, keep: Set<Seq<char>>) -> Seq<Seq<char>>
    decreases ks.len(),
{
    if ks.len() == 0 {
        Seq::empty()
    } else {
        let head = if !dev_prefixed(ks.last()) && !keep.contains(ks.last()) {
            seq![ks.last()]
        } else {
            Seq::<Seq<char>>::empty()
        };
        head + gz_list(ks.drop_last(), keep)
    }
}

/// A retained path never appears on the exclusion list.
pub proof fn lemma_gz_list_excluded(ks: Seq<Seq<char>>, keep: Set<Seq<char>>, p: Seq<char>)
    requires
        keep.contains(p),
    ensures
        !gz_list(ks, keep).contains(p),
    decreases ks.len(),
{
    if ks.len() > 0 {
        lemma_gz_list_excluded(ks.drop_last(), keep, p);
        let r = gz_list(ks, keep);
        if r.contains(p) {
            let m = choose|m: int| 0 <= m < r.len() && r[m] == p;
            let head = if !dev_prefixed(ks.last()) && !keep.contains(ks.last()) {
                seq![ks.last()]
            } else {
                Seq::<Seq<char>>::empty()
            };
            if m < head.len() {
                assert(ks.last() == p);
            } else {
                assert(gz_list(ks.drop_last(), keep)[m - head.len()] == p);
            }
        }
    }
}

/// What the walk recorded for one discovered path: its classification and
/// the mode bits found on disk.
#[derive(Debug, Clone)]
pub struct FoundEntry {
    pub etype: EntryType,
    pub fsmode: u32,
}

#[verifier::ext_equal]
pub struct FoundEntryView {
    pub etype: EntryTypeView,
    pub fsmode: u32,
}

impl View for FoundEntry {
    type V = FoundEntryView;

    closed spec fn view(&self) -> FoundEntryView {
        FoundEntryView { etype: self.etype@, fsmode: self.fsmode }
    }
}

impl DeepView for FoundEntry {
    type V = FoundEntryView;

    open spec fn deep_view(&self) -> FoundEntryView {
        self.view()
    }
}

/// Whether a discovered classification is acceptable against a packaged
/// one: they must agree, except that a discovered regular file is accepted
/// where packaging declares a hardlink, since a single stat cannot tell
/// the two apart.
pub open spec fn types_agree(f: EntryTypeView, p: EntryTypeView) -> bool {
    f == p || (f is File && p is Hardlink)
}

/// A discovered regular file passes against a packaged hardlink; every
/// other disagreement of classification is a conflict.
pub proof fn lemma_hardlink_exception(t: Seq<char>, f: EntryTypeView, p: EntryTypeView)
    ensures
        types_agree(EntryTypeView::File, EntryTypeView::Hardlink(t)),
        f != p && !(f is File && p is Hardlink) ==> !types_agree(f, p),
{
}

fn entry_types_agree(f: &EntryType, p: &EntryType) -> (r: bool)
    ensures
        r == types_agree(f@, p@),
{
    match (f, p) {
        (EntryType::File, EntryType::Hardlink(_)) => true,
        (EntryType::Dir, EntryType::Dir) => true,
        (EntryType::File, EntryType::File) => true,
        (EntryType::Link(a), EntryType::Link(b)) => crate::text::str_eq(a.as_str(), b.as_str()),
        (EntryType::Hardlink(a), EntryType::Hardlink(b)) => crate::text::str_eq(
            a.as_str(),
            b.as_str(),
        ),
        _ => false,
    }
}

/// Whether `p` equals `pat` or lies beneath it as a directory.
pub open spec fn path_under(p: Seq<char>, pat: Seq<char>) -> bool {
    p == pat || (p.len() > pat.len() && p.take(pat.len() as int) == pat && p[pat.len() as int]
        == '/')
}

#[verifier::loop_isolation(false)]
pub fn path_under_exec(p: &str, pat: &str) -> (r: bool)
    ensures
        r == path_under(p@, pat@),
{
    let pv = str_chars(p);
    let tv = str_chars(pat);
    let np = pv.len();
    let nt = tv.len();
    if np < nt {
        proof {
            if p@ == pat@ {
                assert(p@.len() == pat@.len());
            }
        }
        return false;
    }
    let mut i: usize = 0;
    while i < nt
        invariant
            i <= nt,
            forall|k: int| 0 <= k < i ==> p@[k] == pat@[k],
        decreases nt - i,
    {
        if pv[i] != tv[i] {
            proof {
                if p@ == pat@ {
                    assert(p@[i as int] == pat@[i as int]);
                }
                if p@.take(nt as int) == pat@ {
                    assert(p@.take(nt as int)[i as int] == pat@[i as int]);
                }
            }
            return false;
        }
        i = i + 1;
    }
    if np == nt {
        proof {
            assert(p@ =~= pat@);
        }
        return true;
    }
    proof {
        assert(p@.take(nt as int) =~= pat@);
        assert(p@ != pat@) by {
            if p@ == pat@ {
                assert(p@.len() == pat@.len());
            }
        }
    }
    pv[nt] == '/'
}

/// Packaging-system bookkeeping trees never shipped in an archive.
pub open spec fn skipped_path(p: Seq<char>) -> bool {
    path_under(p, "var/cache/pkg"@) || path_under(p, "var/pkg"@) || path_under(
        p,
        "var/log/pkg"@,
    ) || path_under(p, "var/sadm/pkg"@) || path_under(p, "var/spool/pkg"@) || path_under(
        p,
        "var/sadm/install/contents"@,
    )
}

fn skipped_path_exec(p: &str) -> (r: bool)
    ensures
        r == skipped_path(p@),
{
    path_under_exec(p, "var/cache/pkg") || path_under_exec(p, "var/pkg") || path_under_exec(
        p,
        "var/log/pkg",
    ) || path_under_exec(p, "var/sadm/pkg") || path_under_exec(p, "var/spool/pkg")
        || path_under_exec(p, "var/sadm/install/contents")
}

/// Trees that come from the shared system image at install time rather
/// than from the archive, so their packaged entries are not expected in
/// the proto area.
pub open spec fn suppressed_path(p: Seq<char>) -> bool {
    path_under(p, "usr"@) || path_under(p, "sbin"@) || (path_under(p, "lib"@) && !(path_under(
        p,
        "lib/svc/seed"@,
    ) || path_under(p, "lib/svc/manifest"@)))
}

fn suppressed_path_exec(p: &str) -> (r: bool)
    ensures
        r == suppressed_path(p@),
{
    path_under_exec(p, "usr") || path_under_exec(p, "sbin") || (path_under_exec(p, "lib") && !(
    path_under_exec(p, "lib/svc/seed") || path_under_exec(p, "lib/svc/manifest")))
}

/// The discovered paths whose classification conflicts with packaging.
pub open spec fn mismatched_paths(
    found: Seq<(Seq<char>, FoundEntryView)>,
    pkg: Seq<(Seq<char>, PackagedView)>,
) -> Seq<Seq<char>>
    decreases found.len(),
{
    if found.len() == 0 {
        Seq::empty()
    } else {
        let rest = mismatched_paths(found.drop_last(), pkg);
        let (p, fe) = found.last();
        if skipped_path(p) {
            rest
        } else {
            match index_get(pkg, p) {
                Some(pk) => if types_agree(fe.etype, pk.etype) {
                    rest
                } else {
                    rest.push(p)
                },
                None => rest,
            }
        }
    }
}

/// The packaged paths expected on disk but absent from the walk.
pub open spec fn missing_paths(
    pkg: Seq<(Seq<char>, PackagedView)>,
    found: Seq<(Seq<char>, FoundEntryView)>,
) -> Seq<Seq<char>>
    decreases pkg.len(),
{
    if pkg.len() == 0 {
        Seq::empty()
    } else {
        let rest = missing_paths(pkg.drop_last(), found);
        let p = pkg.last().0;
        if suppressed_path(p) || index_has(found, p) {
            rest
        } else {
            rest.push(p)
        }
    }
}

/// Cross-checks the walk against the packaged index, reporting every
/// conflicting path and every declared path missing from the proto area.
#[verifier::loop_isolation(false)]
pub fn reconcile_check(found: &PathMap<FoundEntry>, packaged: &PathMap<Packaged>) -> (r: (
    Vec<String>,
    Vec<String>,
))
    ensures
        r.0.deep_view() =~~= mismatched_paths(found.pairs(), packaged.pairs()),
        r.1.deep_view() =~~= missing_paths(packaged.pairs(), found.pairs()),
{
    let mut mismatched: Vec<String> = Vec::new();
    let mut i: usize = 0;
    proof {
        assert(found.pairs().take(0) =~= Seq::<(Seq<char>, FoundEntryView)>::empty());
        assert(mismatched.deep_view() =~~= mismatched_paths(
            found.pairs().take(0),
            packaged.pairs(),
        ));
    }
    while i < found.len()
        invariant
            i <= found.pairs().len(),
            mismatched.deep_view() =~~= mismatched_paths(
                found.pairs().take(i as int),
                packaged.pairs(),
            ),
        decreases found.pairs().len() - i,
    {
        proof {
            assert(found.pairs().take(i + 1).drop_last() =~= found.pairs().take(i as int));
            assert(found.pairs().take(i + 1).last() == found.pairs()[i as int]);
        }
        let p = found.key_at(i);
        let fe = found.val_at(i);
        if !skipped_path_exec(p.as_str()) {
            match packaged.get(p.as_str()) {
                Some(pk) => {
                    if !entry_types_agree(&fe.etype, &pk.etype) {
                        let ghost m0 = mismatched.deep_view();
                        mismatched.push(p.clone());
                        proof {
                            assert(mismatched.deep_view() =~~= m0.push(
                                found.pairs()[i as int].0,
                            ));
                        }
                    }
                },
                None => {},
            }
        }
        i = i + 1;
    }
    proof {
        assert(found.pairs().take(found.pairs().len() as int) =~= found.pairs());
    }
    let mut missing: Vec<String> = Vec::new();
    let mut j: usize = 0;
    proof {
        assert(packaged.pairs().take(0) =~= Seq::<(Seq<char>, PackagedView)>::empty());
        assert(missing.deep_view() =~~= missing_paths(packaged.pairs().take(0), found.pairs()));
    }
    while j < packaged.len()
        invariant
            j <= packaged.pairs().len(),
            missing.deep_view() =~~= missing_paths(
                packaged.pairs().take(j as int),
                found.pairs(),
            ),
        decreases packaged.pairs().len() - j,
    {
        proof {
            assert(packaged.pairs().take(j + 1).drop_last() =~= packaged.pairs().take(j as int));
            assert(packaged.pairs().take(j + 1).last() == packaged.pairs()[j as int]);
        }
        let p = packaged.key_at(j);
        if !suppressed_path_exec(p.as_str()) {
            match found.get(p.as_str()) {
                Some(_) => {},
                None => {
                    let ghost m0 = missing.deep_view();
                    missing.push(p.clone());
                    proof {
                        assert(missing.deep_view() =~~= m0.push(packaged.pairs()[j as int].0));
                    }
                },
            }
        }
        j = j + 1;
    }
    proof {
        assert(packaged.pairs().take(packaged.pairs().len() as int) =~= packaged.pairs());
    }
    (mismatched, missing)
}

/// Builds the packaged index and the two gz-only tracking sets from the
/// merged manifest actions of every package.
#[verifier::loop_isolation(false)]
pub fn build_packaged_index(actions: &Vec<Action>) -> (r: (PathMap<Packaged>, PathSet, PathSet))
    ensures
        r.0.wf(),
        r.0.pairs() =~~= pkg_fold(actions.deep_view()),
        r.1.wf(),
        forall|q: Seq<char>| r.1.has(q) <==> gz_fold(actions.deep_view(), true).contains(q),
        r.2.wf(),
        forall|q: Seq<char>| r.2.has(q) <==> gz_fold(actions.deep_view(), false).contains(q),
{
    let ghost acts = actions.deep_view();
    let mut idx: PathMap<Packaged> = PathMap::new();
    let mut gzt = PathSet::new();
    let mut gzf = PathSet::new();
    let mut i: usize = 0;
    proof {
        assert(acts.take(0) =~= Seq::<ActionView>::empty());
        assert(idx.pairs() =~~= pkg_fold(acts.take(0)));
        assert(forall|q: Seq<char>| gzt.has(q) <==> gz_fold(acts.take(0), true).contains(q));
        assert(forall|q: Seq<char>| gzf.has(q) <==> gz_fold(acts.take(0), false).contains(q));
    }
    while i < actions.len()
        invariant
            i <= acts.len(),
            idx.wf(),
            gzt.wf(),
            gzf.wf(),
            idx.pairs() =~~= pkg_fold(acts.take(i as int)),
            forall|q: Seq<char>| gzt.has(q) <==> gz_fold(acts.take(i as int), true).contains(q),
            forall|q: Seq<char>| gzf.has(q) <==> gz_fold(acts.take(i as int), false).contains(q),
        decreases acts.len() - i,
    {
        proof {
            assert(acts.take(i + 1).drop_last() =~= acts.take(i as int));
            assert(acts.take(i + 1).last() == acts[i as int]);
        }
        let ghost av = acts[i as int];
        let a = &actions[i];
        let k = a.kind();
        proof {
            crate::ips::lemma_kind_view(k);
        }
        let info: Option<(String, EntryType)> = match k {
            ActionKind::File(af) => Some((trim_slashes_exec(af.path()), EntryType::File)),
            ActionKind::Dir(af) => Some((trim_slashes_exec(af.path()), EntryType::Dir)),
            ActionKind::Link(al) => Some(
                (trim_slashes_exec(al.path()), EntryType::Link(al.target().to_owned())),
            ),
            ActionKind::Hardlink(al) => Some(
                (trim_slashes_exec(al.path()), EntryType::Hardlink(al.target().to_owned())),
            ),
            _ => None,
        };
        match info {
            Some((path, etype)) => {
                proof {
                    assert(file_kind_path(av) == Some((path@, etype@)));
                }
                let tracked_kind = match k {
                    ActionKind::File(_) | ActionKind::Link(_) | ActionKind::Hardlink(_) => true,
                    _ => false,
                };
                if tracked_kind {
                    if a.gz_only() {
                        gzt.insert(path.clone());
                    } else {
                        gzf.insert(path.clone());
                    }
                }
                if !a.gz_only() {
                    let pk = match k {
                        ActionKind::File(af) | ActionKind::Dir(af) => Packaged {
                            owner: af.owner().to_owned(),
                            group: af.group().to_owned(),
                            mode: af.mode(),
                            etype,
                        },
                        _ => Packaged {
                            owner: String::from_str("root"),
                            group: String::from_str("root"),
                            mode: 0,
                            etype,
                        },
                    };
                    proof {
                        assert(pk.deep_view() =~~= action_packaged(av));
                    }
                    idx.insert(path, pk);
                }
            },
            None => {
                proof {
                    assert(file_kind_path(av) is None);
                }
            },
        }
        i = i + 1;
        proof {
            assert(idx.pairs() =~~= pkg_fold(acts.take(i as int)));
        }
    }
    proof {
        assert(acts.take(acts.len() as int) =~= acts);
    }
    (idx, gzt, gzf)
}

/// The paths needed only in the global zone, deepest last paths first, the
/// device tree left out: the exclusion list shipped beside the archive.
#[verifier::loop_isolation(false)]
pub fn gzonly_exclusions(gzt: &PathSet, gzf: &PathSet) -> (r: Vec<String>)
    ensures
        r.deep_view() =~~= gz_list(gzt.keys(), Set::new(|q: Seq<char>| gzf.has(q))),
{
    let ghost ks = gzt.keys();
    let ghost keep = Set::new(|q: Seq<char>| gzf.has(q));
    let mut r: Vec<String> = Vec::new();
    let mut i: usize = gzt.len();
    proof {
        assert(ks.take(i as int) =~= ks);
    }
    while i > 0
        invariant
            i <= ks.len(),
            gz_list(ks, keep) =~~= r.deep_view() + gz_list(ks.take(i as int), keep),
        decreases i,
    {
        i = i - 1;
        proof {
            assert(ks.take(i + 1).drop_last() =~= ks.take(i as int));
            assert(ks.take(i + 1).last() == ks[i as int]);
        }
        let p = gzt.at(i);
        let n = p.as_str().unicode_len();
        let is_dev = n >= 3 && p.as_str().get_char(0) == 'd' && p.as_str().get_char(1) == 'e'
            && p.as_str().get_char(2) == 'v';
        proof {
            if is_dev {
                assert(p@.take(3) =~= seq!['d', 'e', 'v']);
            } else {
                if dev_prefixed(p@) {
                    assert(p@.take(3)[0] == 'd');
                    assert(p@.take(3)[1] == 'e');
                    assert(p@.take(3)[2] == 'v');
                }
            }
        }
        if !is_dev && !gzf.contains(p.as_str()) {
            let ghost r0 = r.deep_view();
            let q = p.clone();
            r.push(q);
            proof {
                assert(r.deep_view() =~~= r0.push(ks[i as int]));
            }
        }
    }
    proof {
        assert(ks.take(0) =~= Seq::<Seq<char>>::empty());
        assert(r.deep_view() + gz_list(ks.take(0), keep) =~~= r.deep_view());
    }
    r
}

/// The section of the archive an entry lands in: directories are written
/// first, then files, then hardlinks, then symlinks.
#[derive(Debug, Clone, Copy, PartialEq, Eq, Structural)]
pub enum PlanKind {
    Dir,
    File,
    Symlink,
    Hardlink,
}

/// One archive entry to be written: its source path in the proto area,
/// its path inside the archive, and the header metadata.
#[derive(Debug)]
pub struct PlanEntry {
    pub src_path: String,
    pub archive_path: String,
    pub kind: PlanKind,
    pub mode: u32,
    pub uname: String,
    pub gname: String,
    pub uid: u64,
    pub gid: u64,
    pub link: Option<String>,
    pub packaged: bool,
}

#[verifier::ext_equal]
pub struct PlanEntryView {
    pub src_path: Seq<char>,
    pub archive_path: Seq<char>,
    pub kind: PlanKind,
    pub mode: u32,
    pub uname: Seq<char>,
    pub gname: Seq<char>,
    pub uid: u64,
    pub gid: u64,
    pub link: Option<Seq<char>>,
    pub packaged: bool,
}

impl View for PlanEntry {
    type V = PlanEntryView;

    closed spec fn view(&self) -> PlanEntryView {
        PlanEntryView {
            src_path: self.src_path@,
            archive_path: self.archive_path@,
            kind: self.kind,
            mode: self.mode,
            uname: self.uname@,
            gname: self.gname@,
            uid: self.uid,
            gid: self.gid,
            link: match self.link {
                Some(ref l) => Some(l@),
                None => None,
            },
            packaged: self.packaged,
        }
    }
}

impl DeepView for PlanEntry {
    type V = PlanEntryView;

    open spec fn deep_view(&self) -> PlanEntryView {
        self.view()
    }
}

/// Why building a plan failed.
#[derive(Debug)]
pub enum BuildError {
    /// Type conflicts between walk and packaging, and packaged paths
    /// missing from the proto area: every offending path is reported.
    Conflicts { mismatched: Vec<String>, missing: Vec<String> },
    /// A packaged owner or group with no usable database entry.
    Lookup(UnixError),
    /// A discovered entry of a kind the walk cannot produce.
    UnexpectedFound,
}

#[verifier::ext_equal]
pub enum BuildErrView {
    Lookup(UnixError),
    UnexpectedFound,
}

/// A hardlink target resolved against its directory: `..` climbs, `.`
/// vanishes, and the rest accumulates.
pub open spec fn normalize_comps(cs: Seq<Seq<char>>) -> Seq<Seq<char>>
    decreases cs.len(),
{
    if cs.len() == 0 {
        seq![]
    } else {
        let r = normalize_comps(cs.drop_last());
        if cs.last() == ".."@ {
            if r.len() > 0 {
                r.drop_last()
            } else {
                r
            }
        } else if cs.last() == "."@ {
            r
        } else {
            r.push(cs.last())
        }
    }
}

/// The directory components of a path.
pub open spec fn parent_comps(p: Seq<char>) -> Seq<Seq<char>> {
    if components(p).len() > 0 {
        components(p).drop_last()
    } else {
        components(p)
    }
}

/// The archive path of a hardlink target declared relative to the linking
/// entry's own directory.
pub open spec fn hardlink_target(p: Seq<char>, t: Seq<char>) -> Seq<char> {
    "root/"@ + joined(normalize_comps(parent_comps(p) + components(t)))
}

/// Computes the archive path of a hardlink target.
#[verifier::loop_isolation(false)]
fn resolve_hardlink(p: &str, t: &str) -> (r: String)
    ensures
        r@ == hardlink_target(p@, t@),
{
    let pc = path_components(p);
    let tc = path_components(t);
    let ghost all = parent_comps(p@) + components(t@);
    let mut acc: Vec<String> = Vec::new();
    proof {
        assert(all.take(0) =~= Seq::<Seq<char>>::empty());
        assert(acc.deep_view() =~~= normalize_comps(all.take(0)));
    }
    let plen = pc.len();
    let parent = if plen > 0 {
        plen - 1
    } else {
        0
    };
    proof {
        assert(all.len() == parent + tc.deep_view().len()) by {
            assert(pc.deep_view().len() == components(p@).len());
            assert(parent_comps(p@).len() == parent);
        }
        assert forall|k: int| 0 <= k < parent implies all[k] == pc.deep_view()[k] by {
            assert(parent_comps(p@)[k] == components(p@)[k]);
        }
        assert forall|k: int| 0 <= k < tc.deep_view().len() implies all[parent + k]
            == tc.deep_view()[k] by {}
    }
    let mut i: usize = 0;
    while i < parent
        invariant
            i <= parent,
            acc.deep_view() =~~= normalize_comps(all.take(i as int)),
        decreases parent - i,
    {
        proof {
            assert(all.take(i + 1).drop_last() =~= all.take(i as int));
            assert(all.take(i + 1).last() == all[i as int]);
            assert(pc.deep_view()[i as int] == pc@[i as int]@);
        }
        step_normalize(&mut acc, &pc[i]);
        i = i + 1;
        proof {
            assert(acc.deep_view() =~~= normalize_comps(all.take(i as int)));
        }
    }
    let mut j: usize = 0;
    while j < tc.len()
        invariant
            j <= tc.deep_view().len(),
            acc.deep_view() =~~= normalize_comps(all.take(parent + j)),
        decreases tc.deep_view().len() - j,
    {
        proof {
            assert(all.take(parent + j + 1).drop_last() =~= all.take(parent + j));
            assert(all.take(parent + j + 1).last() == all[parent + j]);
            assert(tc.deep_view()[j as int] == tc@[j as int]@);
        }
        step_normalize(&mut acc, &tc[j]);
        j = j + 1;
        proof {
            assert(acc.deep_view() =~~= normalize_comps(all.take(parent + j)));
        }
    }
    proof {
        assert(all.take(parent + tc.deep_view().len() as int) =~= all);
    }
    let joined_all = crate::tree::join_from(&acc, 0);
    let mut out = String::from_str("root/");
    out.append(joined_all.as_str());
    proof {
        assert(acc.deep_view().skip(0) =~= acc.deep_view());
        assert(out@ =~= hardlink_target(p@, t@));
    }
    out
}

/// Applies one path component to the normalized accumulation.
fn step_normalize(acc: &mut Vec<String>, piece: &String)
    ensures
        final(acc).deep_view() =~~= (if piece@ == ".."@ {
            if old(acc).deep_view().len() > 0 {
                old(acc).deep_view().drop_last()
            } else {
                old(acc).deep_view()
            }
        } else if piece@ == "."@ {
            old(acc).deep_view()
        } else {
            old(acc).deep_view().push(piece@)
        }),
{
    if str_eq(piece.as_str(), "..") {
        if acc.len() > 0 {
            acc.pop();
            proof {
                assert(acc.deep_view() =~~= old(acc).deep_view().drop_last());
            }
        }
    } else if str_eq(piece.as_str(), ".") {
    } else {
        acc.push(piece.clone());
        proof {
            assert(acc.deep_view() =~~= old(acc).deep_view().push(piece@));
        }
    }
}

/// Prefixes a proto-relative path with the archive's content prefix.
fn archive_path_of(p: &str) -> (r: String)
    ensures
        r@ == "root/"@ + p@,
{
    let mut out = String::from_str("root/");
    out.append(p);
    out
}

/// The archive entry one discovered path becomes.  Packaged entries take
/// ownership and mode from packaging; unpackaged files and directories are
/// fabricated as `root:sys` with the on-disk mode, unpackaged symlinks as
/// `root:root`.  Link entries keep root ownership; hardlink headers carry
/// zero ids and their target resolved within the archive.
pub open spec fn plan_entry_spec(
    p: Seq<char>,
    fe: FoundEntryView,
    pi: Option<PackagedView>,
    pw: Seq<Seq<Seq<char>>>,
    gr: Seq<Seq<Seq<char>>>,
) -> Result<PlanEntryView, BuildErrView> {
    match pi {
        Some(pk) => match pk.etype {
            EntryTypeView::Dir | EntryTypeView::File => match lookup_spec(pw, pk.owner) {
                Err(e) => Err(BuildErrView::Lookup(e)),
                Ok(uid) => match lookup_spec(gr, pk.group) {
                    Err(e) => Err(BuildErrView::Lookup(e)),
                    Ok(gid) => Ok(
                        PlanEntryView {
                            src_path: p,
                            archive_path: "root/"@ + p,
                            kind: if pk.etype is Dir {
                                PlanKind::Dir
                            } else {
                                PlanKind::File
                            },
                            mode: pk.mode,
                            uname: pk.owner,
                            gname: pk.group,
                            uid,
                            gid,
                            link: None,
                            packaged: true,
                        },
                    ),
                },
            },
            EntryTypeView::Link(t) => match lookup_spec(pw, "root"@) {
                Err(e) => Err(BuildErrView::Lookup(e)),
                Ok(uid) => match lookup_spec(gr, "root"@) {
                    Err(e) => Err(BuildErrView::Lookup(e)),
                    Ok(gid) => Ok(
                        PlanEntryView {
                            src_path: p,
                            archive_path: "root/"@ + p,
                            kind: PlanKind::Symlink,
                            mode: fe.fsmode,
                            uname: "root"@,
                            gname: "root"@,
                            uid,
                            gid,
                            link: Some(t),
                            packaged: true,
                        },
                    ),
                },
            },
            EntryTypeView::Hardlink(t) => Ok(
                PlanEntryView {
                    src_path: p,
                    archive_path: "root/"@ + p,
                    kind: PlanKind::Hardlink,
                    mode: 0,
                    uname: "root"@,
                    gname: "root"@,
                    uid: 0,
                    gid: 0,
                    link: Some(hardlink_target(p, t)),
                    packaged: true,
                },
            ),
        },
        None => match fe.etype {
            EntryTypeView::Dir | EntryTypeView::File => match lookup_spec(pw, "root"@) {
                Err(e) => Err(BuildErrView::Lookup(e)),
                Ok(uid) => match lookup_spec(gr, "sys"@) {
                    Err(e) => Err(BuildErrView::Lookup(e)),
                    Ok(gid) => Ok(
                        PlanEntryView {
                            src_path: p,
                            archive_path: "root/"@ + p,
                            kind: if fe.etype is Dir {
                                PlanKind::Dir
                            } else {
                                PlanKind::File
                            },
                            mode: fe.fsmode,
                            uname: "root"@,
                            gname: "sys"@,
                            uid,
                            gid,
                            link: None,
                            packaged: false,
                        },
                    ),
                },
            },
            EntryTypeView::Link(t) => match lookup_spec(pw, "root"@) {
                Err(e) => Err(BuildErrView::Lookup(e)),
                Ok(uid) => match lookup_spec(gr, "root"@) {
                    Err(e) => Err(BuildErrView::Lookup(e)),
                    Ok(gid) => Ok(
                        PlanEntryView {
                            src_path: p,
                            archive_path: "root/"@ + p,
                            kind: PlanKind::Symlink,
                            mode: fe.fsmode,
                            uname: "root"@,
                            gname: "root"@,
                            uid,
                            gid,
                            link: Some(t),
                            packaged: false,
                        },
                    ),
                },
            },
            EntryTypeView::Hardlink(t) => Err(BuildErrView::UnexpectedFound),
        },
    }
}

/// Decides the archive entry for one discovered path.
fn plan_entry(
    p: &str,
    fe: &FoundEntry,
    pi: Option<&Packaged>,
    passwd: &Passwd,
    group: &Group,
) -> (r: Result<PlanEntry, BuildError>)
    requires
        passwd.wf(),
        group.wf(),
    ensures
        match r {
            Ok(pe) => plan_entry_spec(
                p@,
                fe@,
                match pi {
                    Some(pk) => Some(pk@),
                    None => None,
                },
                passwd@,
                group@,
            ) == Ok::<PlanEntryView, BuildErrView>(pe@),
            Err(BuildError::Lookup(e)) => plan_entry_spec(
                p@,
                fe@,
                match pi {
                    Some(pk) => Some(pk@),
                    None => None,
                },
                passwd@,
                group@,
            ) == Err::<PlanEntryView, BuildErrView>(BuildErrView::Lookup(e)),
            Err(BuildError::UnexpectedFound) => plan_entry_spec(
                p@,
                fe@,
                match pi {
                    Some(pk) => Some(pk@),
                    None => None,
                },
                passwd@,
                group@,
            ) == Err::<PlanEntryView, BuildErrView>(BuildErrView::UnexpectedFound),
            Err(BuildError::Conflicts { .. }) => false,
        },
{
    match pi {
        Some(pk) => match &pk.etype {
            EntryType::Dir | EntryType::File => {
                let uid = match passwd.lookup_by_name(pk.owner.as_str()) {
                    Ok(u) => u,
                    Err(e) => {
                        return Err(BuildError::Lookup(e));
                    },
                };
                let gid = match group.lookup_by_name(pk.group.as_str()) {
                    Ok(g) => g,
                    Err(e) => {
                        return Err(BuildError::Lookup(e));
                    },
                };
                Ok(
                    PlanEntry {
                        src_path: p.to_owned(),
                        archive_path: archive_path_of(p),
                        kind: if matches!(pk.etype, EntryType::Dir) {
                            PlanKind::Dir
                        } else {
                            PlanKind::File
                        },
                        mode: pk.mode,
                        uname: pk.owner.clone(),
                        gname: pk.group.clone(),
                        uid,
                        gid,
                        link: None,
                        packaged: true,
                    },
                )
            },
            EntryType::Link(t) => {
                let uid = match passwd.lookup_by_name("root") {
                    Ok(u) => u,
                    Err(e) => {
                        return Err(BuildError::Lookup(e));
                    },
                };
                let gid = match group.lookup_by_name("root") {
                    Ok(g) => g,
                    Err(e) => {
                        return Err(BuildError::Lookup(e));
                    },
                };
                Ok(
                    PlanEntry {
                        src_path: p.to_owned(),
                        archive_path: archive_path_of(p),
                        kind: PlanKind::Symlink,
                        mode: fe.fsmode,
                        uname: String::from_str("root"),
                        gname: String::from_str("root"),
                        uid,
                        gid,
                        link: Some(t.clone()),
                        packaged: true,
                    },
                )
            },
            EntryType::Hardlink(t) => Ok(
                PlanEntry {
                    src_path: p.to_owned(),
                    archive_path: archive_path_of(p),
                    kind: PlanKind::Hardlink,
                    mode: 0,
                    uname: String::from_str("root"),
                    gname: String::from_str("root"),
                    uid: 0,
                    gid: 0,
                    link: Some(resolve_hardlink(p, t.as_str())),
                    packaged: true,
                },
            ),
        },
        None => match &fe.etype {
            EntryType::Dir | EntryType::File => {
                let uid = match passwd.lookup_by_name("root") {
                    Ok(u) => u,
                    Err(e) => {
                        return Err(BuildError::Lookup(e));
                    },
                };
                let gid = match group.lookup_by_name("sys") {
                    Ok(g) => g,
                    Err(e) => {
                        return Err(BuildError::Lookup(e));
                    },
                };
                Ok(
                    PlanEntry {
                        src_path: p.to_owned(),
                        archive_path: archive_path_of(p),
                        kind: if matches!(fe.etype, EntryType::Dir) {
                            PlanKind::Dir
                        } else {
                            PlanKind::File
                        },
                        mode: fe.fsmode,
                        uname: String::from_str("root"),
                        gname: String::from_str("sys"),
                        uid,
                        gid,
                        link: None,
                        packaged: false,
                    },
                )
            },
            EntryType::Link(t) => {
                let uid = match passwd.lookup_by_name("root") {
                    Ok(u) => u,
                    Err(e) => {
                        return Err(BuildError::Lookup(e));
                    },
                };
                let gid = match group.lookup_by_name("root") {
                    Ok(g) => g,
                    Err(e) => {
                        return Err(BuildError::Lookup(e));
                    },
                };
                Ok(
                    PlanEntry {
                        src_path: p.to_owned(),
                        archive_path: archive_path_of(p),
                        kind: PlanKind::Symlink,
                        mode: fe.fsmode,
                        uname: String::from_str("root"),
                        gname: String::from_str("root"),
                        uid,
                        gid,
                        link: Some(t.clone()),
                        packaged: false,
                    },
                )
            },
            EntryType::Hardlink(_) => Err(BuildError::UnexpectedFound),
        },
    }
}

/// The archive plan: directory entries first, then the three deferred
/// sections flushed in the fixed order files, hardlinks, symlinks, plus
/// the paths included despite missing packaging.
#[derive(Debug)]
pub struct ArchivePlan {
    pub dirs: Vec<PlanEntry>,
    pub files: Vec<PlanEntry>,
    pub hardlinks: Vec<PlanEntry>,
    pub symlinks: Vec<PlanEntry>,
    pub missing_packaging: Vec<String>,
}

#[verifier::ext_equal]
pub struct PlanFold {
    pub dirs: Seq<PlanEntryView>,
    pub files: Seq<PlanEntryView>,
    pub hardlinks: Seq<PlanEntryView>,
    pub symlinks: Seq<PlanEntryView>,
    pub missing: Seq<Seq<char>>,
}

pub open spec fn plan_fold_init() -> PlanFold {
    PlanFold {
        dirs: Seq::empty(),
        files: Seq::empty(),
        hardlinks: Seq::empty(),
        symlinks: Seq::empty(),
        missing: Seq::empty(),
    }
}

/// The whole plan: every discovered entry placed into its section, in
/// walk order, skipping the packaging bookkeeping trees.
pub open spec fn plan_fold(
    entries: Seq<(Seq<char>, FoundEntryView)>,
    pkg: Seq<(Seq<char>, PackagedView)>,
    pw: Seq<Seq<Seq<char>>>,
    gr: Seq<Seq<Seq<char>>>,
) -> Result<PlanFold, BuildErrView>
    decreases entries.len(),
{
    if entries.len() == 0 {
        Ok(plan_fold_init())
    } else {
        match plan_fold(entries.drop_last(), pkg, pw, gr) {
            Err(e) => Err(e),
            Ok(acc) => {
                let (p, fe) = entries.last();
                if skipped_path(p) {
                    Ok(acc)
                } else {
                    match plan_entry_spec(p, fe, index_get(pkg, p), pw, gr) {
                        Err(e) => Err(e),
                        Ok(pe) => {
                            let acc2 = if index_get(pkg, p) is None {
                                PlanFold { missing: acc.missing.push(p), ..acc }
                            } else {
                                acc
                            };
                            Ok(
                                match pe.kind {
                                    PlanKind::Dir => PlanFold { dirs: acc2.dirs.push(pe), ..acc2 },
                                    PlanKind::File => PlanFold {
                                        files: acc2.files.push(pe),
                                        ..acc2
                                    },
                                    PlanKind::Hardlink => PlanFold {
                                        hardlinks: acc2.hardlinks.push(pe),
                                        ..acc2
                                    },
                                    PlanKind::Symlink => PlanFold {
                                        symlinks: acc2.symlinks.push(pe),
                                        ..acc2
                                    },
                                },
                            )
                        },
                    }
                }
            },
        }
    }
}

/// Reconciles the walk against packaging and lays out the archive.  Every
/// type conflict and every packaged-but-missing path is reported before
/// failing; otherwise each discovered entry lands in its section with the
/// metadata the packaging or the fabrication rules give it.
#[verifier::loop_isolation(false)]
pub fn build_plan(
    found: &PathMap<FoundEntry>,
    packaged: &PathMap<Packaged>,
    passwd: &Passwd,
    group: &Group,
) -> (r: Result<ArchivePlan, BuildError>)
    requires
        passwd.wf(),
        group.wf(),
    ensures
        match r {
            Ok(plan) => {
                &&& mismatched_paths(found.pairs(), packaged.pairs()).len() == 0
                &&& missing_paths(packaged.pairs(), found.pairs()).len() == 0
                &&& plan_fold(found.pairs(), packaged.pairs(), passwd@, group@) == Ok::<
                    PlanFold,
                    BuildErrView,
                >(
                    PlanFold {
                        dirs: plan.dirs.deep_view(),
                        files: plan.files.deep_view(),
                        hardlinks: plan.hardlinks.deep_view(),
                        symlinks: plan.symlinks.deep_view(),
                        missing: plan.missing_packaging.deep_view(),
                    },
                )
            },
            Err(BuildError::Conflicts { mismatched, missing }) => {
                &&& mismatched.deep_view() =~~= mismatched_paths(found.pairs(), packaged.pairs())
                &&& missing.deep_view() =~~= missing_paths(packaged.pairs(), found.pairs())
                &&& (mismatched.deep_view().len() > 0 || missing.deep_view().len() > 0)
            },
            Err(BuildError::Lookup(e)) => plan_fold(
                found.pairs(),
                packaged.pairs(),
                passwd@,
                group@,
            ) == Err::<PlanFold, BuildErrView>(BuildErrView::Lookup(e)),
            Err(BuildError::UnexpectedFound) => plan_fold(
                found.pairs(),
                packaged.pairs(),
                passwd@,
                group@,
            ) == Err::<PlanFold, BuildErrView>(BuildErrView::UnexpectedFound),
        },
{
    let (mismatched, missing) = reconcile_check(found, packaged);
    if mismatched.len() > 0 || missing.len() > 0 {
        return Err(BuildError::Conflicts { mismatched, missing });
    }
    let mut dirs: Vec<PlanEntry> = Vec::new();
    let mut files: Vec<PlanEntry> = Vec::new();
    let mut hardlinks: Vec<PlanEntry> = Vec::new();
    let mut symlinks: Vec<PlanEntry> = Vec::new();
    let mut missing_packaging: Vec<String> = Vec::new();
    let mut i: usize = 0;
    proof {
        assert(found.pairs().take(0) =~= Seq::<(Seq<char>, FoundEntryView)>::empty());
        assert(plan_fold(found.pairs().take(0), packaged.pairs(), passwd@, group@) == Ok::<
            PlanFold,
            BuildErrView,
        >(
            PlanFold {
                dirs: dirs.deep_view(),
                files: files.deep_view(),
                hardlinks: hardlinks.deep_view(),
                symlinks: symlinks.deep_view(),
                missing: missing_packaging.deep_view(),
            },
        )) by {
            assert(PlanFold {
                dirs: dirs.deep_view(),
                files: files.deep_view(),
                hardlinks: hardlinks.deep_view(),
                symlinks: symlinks.deep_view(),
                missing: missing_packaging.deep_view(),
            } =~~= plan_fold_init());
        }
    }
    while i < found.len()
        invariant
            i <= found.pairs().len(),
            plan_fold(found.pairs().take(i as int), packaged.pairs(), passwd@, group@) == Ok::<
                PlanFold,
                BuildErrView,
            >(
                PlanFold {
                    dirs: dirs.deep_view(),
                    files: files.deep_view(),
                    hardlinks: hardlinks.deep_view(),
                    symlinks: symlinks.deep_view(),
                    missing: missing_packaging.deep_view(),
                },
            ),
        decreases found.pairs().len() - i,
    {
        proof {
            assert(found.pairs().take(i + 1).drop_last() =~= found.pairs().take(i as int));
            assert(found.pairs().take(i + 1).last() == found.pairs()[i as int]);
        }
        let p = found.key_at(i);
        let fe = found.val_at(i);
        if !skipped_path_exec(p.as_str()) {
            let pi = packaged.get(p.as_str());
            let pe = match plan_entry(p.as_str(), fe, pi, passwd, group) {
                Ok(pe) => pe,
                Err(e) => {
                    proof {
                        lemma_plan_fold_err(
                            found.pairs(),
                            packaged.pairs(),
                            passwd@,
                            group@,
                            i as int,
                        );
                    }
                    return Err(e);
                },
            };
            if pi.is_none() {
                let ghost m0 = missing_packaging.deep_view();
                missing_packaging.push(p.clone());
                proof {
                    assert(missing_packaging.deep_view() =~~= m0.push(
                        found.pairs()[i as int].0,
                    ));
                }
            }
            let ghost d0 = dirs.deep_view();
            let ghost f0 = files.deep_view();
            let ghost h0 = hardlinks.deep_view();
            let ghost s0 = symlinks.deep_view();
            match pe.kind {
                PlanKind::Dir => {
                    dirs.push(pe);
                    proof {
                        assert(dirs.deep_view() =~~= d0.push(dirs.deep_view().last()));
                    }
                },
                PlanKind::File => {
                    files.push(pe);
                    proof {
                        assert(files.deep_view() =~~= f0.push(files.deep_view().last()));
                    }
                },
                PlanKind::Hardlink => {
                    hardlinks.push(pe);
                    proof {
                        assert(hardlinks.deep_view() =~~= h0.push(hardlinks.deep_view().last()));
                    }
                },
                PlanKind::Symlink => {
                    symlinks.push(pe);
                    proof {
                        assert(symlinks.deep_view() =~~= s0.push(symlinks.deep_view().last()));
                    }
                },
            }
        }
        i = i + 1;
        proof {
            assert(plan_fold(found.pairs().take(i as int), packaged.pairs(), passwd@, group@)
                == Ok::<PlanFold, BuildErrView>(
                PlanFold {
                    dirs: dirs.deep_view(),
                    files: files.deep_view(),
                    hardlinks: hardlinks.deep_view(),
                    symlinks: symlinks.deep_view(),
                    missing: missing_packaging.deep_view(),
                },
            ));
        }
    }
    proof {
        assert(found.pairs().take(found.pairs().len() as int) =~= found.pairs());
    }
    Ok(ArchivePlan { dirs, files, hardlinks, symlinks, missing_packaging })
}

/// A per-entry failure decides the whole fold.
proof fn lemma_plan_fold_err(
    entries: Seq<(Seq<char>, FoundEntryView)>,
    pkg: Seq<(Seq<char>, PackagedView)>,
    pw: Seq<Seq<Seq<char>>>,
    gr: Seq<Seq<Seq<char>>>,
    i: int,
)
    requires
        0 <= i < entries.len(),
        plan_fold(entries.take(i), pkg, pw, gr) is Ok,
        !skipped_path(entries[i].0),
        plan_entry_spec(entries[i].0, entries[i].1, index_get(pkg, entries[i].0), pw, gr) is Err,
    ensures
        plan_fold(entries, pkg, pw, gr) == Err::<PlanFold, BuildErrView>(
            plan_entry_spec(entries[i].0, entries[i].1, index_get(pkg, entries[i].0), pw, gr)
                ->Err_0,
        ),
    decreases entries.len(),
{
    if i == entries.len() - 1 {
        assert(entries.take(i) =~= entries.drop_last());
        assert(entries.last() == entries[i]);
    } else {
        assert(entries.drop_last().take(i) =~= entries.take(i));
        assert(entries.drop_last()[i] == entries[i]);
        lemma_plan_fold_err(entries.drop_last(), pkg, pw, gr, i);
    }
}

} // verus!
