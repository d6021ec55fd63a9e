//! Path prefix surgery and the per-entry decisions of the tree replicator,
//! which reproduces a system tree as a mix of copies and space-saving
//! symbolic links into a shared prefix tree.

use vstd::prelude::*;

use crate::text::{
    contains_str_sub, contains_sub, join_seq, push_char, split_chars, split_seq, str_chars,
    str_eq,
};

verus! {

/// Why a path operation failed.
#[derive(Debug, Clone, Copy, PartialEq, Eq, Structural)]
pub enum TreeError {
    /// A prefix and a path of which only one is absolute.
    MixedAbsolute,
    /// A path that does not start with the prefix.
    NotPrefixed,
    /// A target root that is not absolute.
    TargetNotAbsolute,
    /// A file that is neither a regular file, a directory nor a symlink.
    SpecialFile,
}

impl TreeError {
    /// A short description of the failure.
    pub fn message(&self) -> String {
        match self {
            TreeError::MixedAbsolute => String::from_str(
                "prefix and path must not be a mix of absolute and relative",
            ),
            TreeError::NotPrefixed => String::from_str("path does not start with prefix"),
            TreeError::TargetNotAbsolute => String::from_str("target must be absolute"),
            TreeError::SpecialFile => String::from_str("special file in tree"),
        }
    }
}

/// Whether a path begins at the root.
pub open spec fn is_absolute(p: Seq<char>) -> bool {
    p.len() > 0 && p[0] == '/'
}

/// The pieces of a split with the empty ones dropped.
pub open spec fn nonempty_parts(parts: Seq<Seq<char>>) -> Seq<Seq<char>>
    decreases parts.len(),
{
    if parts.len() == 0 {
        seq![]
    } else {
        let rest = nonempty_parts(parts.drop_last());
        if parts.last().len() == 0 {
            rest
        } else {
            rest.push(parts.last())
        }
    }
}

/// The components of a path: its nonempty `/`-separated pieces.
pub open spec fn components(p: Seq<char>) -> Seq<Seq<char>> {
    nonempty_parts(split_seq(p, '/'))
}

/// The text of a relative path with these components.
pub open spec fn joined(parts: Seq<Seq<char>>) -> Seq<char> {
    join_seq(parts, '/')
}

/// Stripping `prefix` off the front of `path`: both must be absolute or
/// both relative, and the prefix's components must lead the path's; the
/// rest of the path's components remain, as a relative path.
pub open spec fn unprefix_spec(prefix: Seq<char>, path: Seq<char>) -> Result<Seq<char>, TreeError> {
    if is_absolute(prefix) != is_absolute(path) {
        Err(TreeError::MixedAbsolute)
    } else {
        let cp = components(prefix);
        let cpath = components(path);
        if cp.is_prefix_of(cpath) {
            Ok(joined(cpath.skip(cp.len() as int)))
        } else {
            Err(TreeError::NotPrefixed)
        }
    }
}

/// Moving `path` from under `prefix` to under the absolute root `target`.
pub open spec fn reprefix_spec(prefix: Seq<char>, path: Seq<char>, target: Seq<char>) -> Result<
    Seq<char>,
    TreeError,
> {
    if !is_absolute(target) {
        Err(TreeError::TargetNotAbsolute)
    } else {
        match unprefix_spec(prefix, path) {
            Ok(tail) => Ok(
                seq!['/'] + joined(components(target) + components(tail)),
            ),
            Err(e) => Err(e),
        }
    }
}

/// Collects the components of a path.
pub fn path_components(p: &str) -> (r: Vec<String>)
    ensures
        r.deep_view() =~~= components(p@),
{
    let cs = str_chars(p);
    let n = cs.len();
    let parts = split_chars(&cs, 0, n, '/');
    let ghost ps = split_seq(p@, '/');
    proof {
        assert(cs@.subrange(0, n as int) =~= p@);
    }
    let mut r: Vec<String> = Vec::new();
    let mut i: usize = 0;
    proof {
        assert(ps.take(0) =~= Seq::<Seq<char>>::empty());
        assert(r.deep_view() =~= nonempty_parts(ps.take(0)));
    }
    while i < parts.len()
        invariant
            i <= parts@.len(),
            parts.deep_view() =~~= ps,
            r.deep_view() =~= nonempty_parts(ps.take(i as int)),
        decreases parts@.len() - i,
    {
        proof {
            assert(ps.take(i + 1).drop_last() =~= ps.take(i as int));
            assert(ps.take(i + 1).last() == ps[i as int]);
            assert(parts@[i as int]@ == ps[i as int]);
        }
        if !parts[i].as_str().is_empty() {
            let ghost r0 = r.deep_view();
            let piece = parts[i].clone();
            r.push(piece);
            proof {
                assert(r.deep_view() =~= r0.push(ps[i as int]));
            }
        }
        i = i + 1;
    }
    proof {
        assert(ps.take(parts@.len() as int) =~= ps);
    }
    r
}

/// Joins components `[from, ..)` of `parts` with `/` between them.
pub fn join_from(parts: &Vec<String>, from: usize) -> (r: String)
    requires
        from <= parts@.len(),
    ensures
        r@ == joined(parts.deep_view().skip(from as int)),
{
    let ghost tail = parts.deep_view().skip(from as int);
    let mut s = String::new();
    let mut i = from;
    proof {
        assert(tail.take(0) =~= Seq::<Seq<char>>::empty());
    }
    while i < parts.len()
        invariant
            from <= i <= parts@.len(),
            tail == parts.deep_view().skip(from as int),
            s@ == join_seq(tail.take(i - from), '/'),
        decreases parts@.len() - i,
    {
        if i > from {
            crate::text::push_char(&mut s, '/');
        }
        s.append(parts[i].as_str());
        i = i + 1;
        proof {
            assert(tail.take(i - from).drop_last() =~= tail.take(i - from - 1));
            assert(tail.take(i - from).last() == tail[i - from - 1]);
            assert(tail[i - from - 1] == parts.deep_view()[i - 1]);
            if i - from == 1 {
                assert(join_seq(tail.take(1), '/') == tail[0]);
            }
        }
    }
    proof {
        assert(tail.take(parts@.len() - from) =~= tail);
    }
    s
}

fn str_is_absolute(p: &str) -> (r: bool)
    ensures
        r == is_absolute(p@),
{
    p.unicode_len() > 0 && p.get_char(0) == '/'
}

/// Strips `prefix` off the front of `path`, yielding the relative rest.
#[verifier::loop_isolation(false)]
pub fn unprefix(prefix: &str, path: &str) -> (r: Result<String, TreeError>)
    ensures
        match r {
            Ok(tail) => unprefix_spec(prefix@, path@) == Ok::<Seq<char>, TreeError>(tail@),
            Err(e) => unprefix_spec(prefix@, path@) == Err::<Seq<char>, TreeError>(e),
        },
{
    if str_is_absolute(prefix) != str_is_absolute(path) {
        return Err(TreeError::MixedAbsolute);
    }
    let cp = path_components(prefix);
    let cpath = path_components(path);
    if cp.len() > cpath.len() {
        proof {
            assert(!components(prefix@).is_prefix_of(components(path@)));
        }
        return Err(TreeError::NotPrefixed);
    }
    let mut i: usize = 0;
    while i < cp.len()
        invariant
            i <= cp@.len() <= cpath@.len(),
            cp.deep_view() =~~= components(prefix@),
            cpath.deep_view() =~~= components(path@),
            forall|k: int| 0 <= k < i ==> cp.deep_view()[k] == cpath.deep_view()[k],
        decreases cp@.len() - i,
    {
        if !str_eq(cp[i].as_str(), cpath[i].as_str()) {
            proof {
                assert(cp.deep_view()[i as int] != cpath.deep_view()[i as int]);
                assert(!components(prefix@).is_prefix_of(components(path@)));
            }
            return Err(TreeError::NotPrefixed);
        }
        i = i + 1;
    }
    proof {
        assert(components(prefix@) =~~= components(path@).take(components(prefix@).len() as int));
    }
    Ok(join_from(&cpath, cp.len()))
}

/// Moves `path` from under `prefix` to under the absolute root `target`.
pub fn reprefix(prefix: &str, path: &str, target: &str) -> (r: Result<String, TreeError>)
    ensures
        match r {
            Ok(p) => reprefix_spec(prefix@, path@, target@) == Ok::<Seq<char>, TreeError>(p@),
            Err(e) => reprefix_spec(prefix@, path@, target@) == Err::<Seq<char>, TreeError>(e),
        },
{
    if !str_is_absolute(target) {
        return Err(TreeError::TargetNotAbsolute);
    }
    let tail = match unprefix(prefix, path) {
        Ok(t) => t,
        Err(e) => {
            return Err(e);
        },
    };
    let ct = path_components(target);
    let ctail = path_components(tail.as_str());
    let mut all = ct;
    let mut j: usize = 0;
    let ghost whole = components(target@) + components(tail@);
    proof {
        assert(all.deep_view() =~~= whole.take(all.deep_view().len() as int));
    }
    while j < ctail.len()
        invariant
            j <= ctail@.len(),
            ctail.deep_view() =~~= components(tail@),
            all.deep_view().len() == components(target@).len() + j,
            all.deep_view() =~~= whole.take(all.deep_view().len() as int),
            whole == components(target@) + components(tail@),
        decreases ctail@.len() - j,
    {
        let piece = ctail[j].clone();
        all.push(piece);
        j = j + 1;
        proof {
            assert(all.deep_view() =~~= whole.take(all.deep_view().len() as int));
        }
    }
    proof {
        assert(whole.take(whole.len() as int) =~= whole);
    }
    let joined_all = join_from(&all, 0);
    let mut out = String::from_str("/");
    out.append(joined_all.as_str());
    proof {
        reveal_strlit("/");
        assert(out@ =~= seq!['/'] + joined(whole));
        assert(all.deep_view().skip(0) =~= all.deep_view());
    }
    Ok(out)
}

/// What a walk found at one entry.
#[derive(Debug, Clone, Copy, PartialEq, Eq, Structural)]
pub enum WalkKind {
    Symlink,
    Directory,
    Regular,
    Other,
}

/// The work one tree entry calls for.
#[derive(Debug)]
pub enum ReplicateStep {
    /// Recreate the symlink at `dst` with the source's own target text.
    RecreateLink { dst: String },
    /// Create the directory `dst` if it does not exist yet.
    EnsureDir { dst: String },
    /// Create at `dst` an absolute symlink to the analogous file in the
    /// shared prefix tree.
    LinkToPrefix { linktarget: String, dst: String },
    /// Copy the file to `dst` through the copy queue.
    CopyFile { dst: String },
}

#[verifier::ext_equal]
pub enum ReplicateStepView {
    RecreateLink { dst: Seq<char> },
    EnsureDir { dst: Seq<char> },
    LinkToPrefix { linktarget: Seq<char>, dst: Seq<char> },
    CopyFile { dst: Seq<char> },
}

impl View for ReplicateStep {
    type V = ReplicateStepView;

    closed spec fn view(&self) -> ReplicateStepView {
        match self {
            ReplicateStep::RecreateLink { dst } => ReplicateStepView::RecreateLink { dst: dst@ },
            ReplicateStep::EnsureDir { dst } => ReplicateStepView::EnsureDir { dst: dst@ },
            ReplicateStep::LinkToPrefix { linktarget, dst } => ReplicateStepView::LinkToPrefix {
                linktarget: linktarget@,
                dst: dst@,
            },
            ReplicateStep::CopyFile { dst } => ReplicateStepView::CopyFile { dst: dst@ },
        }
    }
}

/// `..` components climbing `d` levels, joined with `/`.
pub open spec fn updots(d: nat) -> Seq<char>
    decreases d,
{
    if d == 0 {
        Seq::empty()
    } else if d == 1 {
        seq!['.', '.']
    } else {
        updots((d - 1) as nat) + seq!['/', '.', '.']
    }
}

/// Whether a regular file under these names is served from the shared
/// system image rather than copied.
pub open spec fn shared_file(path: Seq<char>, file_name: Seq<char>) -> bool {
    contains_sub(file_name, ".so"@) || contains_sub(path, "usr/bin"@) || contains_sub(
        path,
        "usr/libexec"@,
    ) || contains_sub(path, "usr/share/man"@) || contains_sub(path, "usr/share/locale"@)
        || contains_sub(path, "sbin"@)
}

/// The work one entry of the walk calls for: symlinks are recreated,
/// directories created in place, shared binaries become links back into
/// the prefix tree, and everything else is copied.
pub open spec fn replicate_step_spec(
    src: Seq<char>,
    target: Seq<char>,
    prefix: Seq<char>,
    path: Seq<char>,
    file_name: Seq<char>,
    depth: nat,
    kind: WalkKind,
) -> Result<ReplicateStepView, TreeError> {
    match kind {
        WalkKind::Symlink => match reprefix_spec(src, path, target) {
            Ok(d) => Ok(ReplicateStepView::RecreateLink { dst: d }),
            Err(e) => Err(e),
        },
        WalkKind::Directory => match reprefix_spec(src, path, target) {
            Ok(d) => Ok(ReplicateStepView::EnsureDir { dst: d }),
            Err(e) => Err(e),
        },
        WalkKind::Regular => if shared_file(path, file_name) {
            match reprefix_spec(src, path, target) {
                Ok(d) => match unprefix_spec(src, path) {
                    Ok(tail) => Ok(
                        ReplicateStepView::LinkToPrefix {
                            linktarget: updots(depth) + prefix + seq!['/'] + tail,
                            dst: d,
                        },
                    ),
                    Err(e) => Err(e),
                },
                Err(e) => Err(e),
            }
        } else {
            match reprefix_spec(src, path, target) {
                Ok(d) => Ok(ReplicateStepView::CopyFile { dst: d }),
                Err(e) => Err(e),
            }
        },
        WalkKind::Other => Err(TreeError::SpecialFile),
    }
}

/// Decides the work for one entry of the replication walk.
#[verifier::loop_isolation(false)]
pub fn replicate_step(
    src: &str,
    target: &str,
    prefix: &str,
    path: &str,
    file_name: &str,
    depth: usize,
    kind: WalkKind,
) -> (r: Result<ReplicateStep, TreeError>)
    ensures
        match r {
            Ok(step) => replicate_step_spec(
                src@,
                target@,
                prefix@,
                path@,
                file_name@,
                depth as nat,
                kind,
            ) == Ok::<ReplicateStepView, TreeError>(step@),
            Err(e) => replicate_step_spec(
                src@,
                target@,
                prefix@,
                path@,
                file_name@,
                depth as nat,
                kind,
            ) == Err::<ReplicateStepView, TreeError>(e),
        },
{
    match kind {
        WalkKind::Symlink => match reprefix(src, path, target) {
            Ok(d) => Ok(ReplicateStep::RecreateLink { dst: d }),
            Err(e) => Err(e),
        },
        WalkKind::Directory => match reprefix(src, path, target) {
            Ok(d) => Ok(ReplicateStep::EnsureDir { dst: d }),
            Err(e) => Err(e),
        },
        WalkKind::Regular => {
            let shared = contains_str_sub(file_name, ".so") || contains_str_sub(path, "usr/bin")
                || contains_str_sub(path, "usr/libexec") || contains_str_sub(
                path,
                "usr/share/man",
            ) || contains_str_sub(path, "usr/share/locale") || contains_str_sub(path, "sbin");
            if shared {
                let d = match reprefix(src, path, target) {
                    Ok(d) => d,
                    Err(e) => {
                        return Err(e);
                    },
                };
                let tail = match unprefix(src, path) {
                    Ok(t) => t,
                    Err(e) => {
                        return Err(e);
                    },
                };
                let mut linktarget = String::new();
                let mut k: usize = 0;
                while k < depth
                    invariant
                        k <= depth,
                        linktarget@ == updots(k as nat),
                        (linktarget@.len() == 0) == (k == 0),
                    decreases depth - k,
                {
                    if !linktarget.as_str().is_empty() {
                        push_char(&mut linktarget, '/');
                    }
                    push_char(&mut linktarget, '.');
                    push_char(&mut linktarget, '.');
                    k = k + 1;
                    proof {
                        if k == 1 {
                            assert(linktarget@ =~= seq!['.', '.']);
                        } else {
                            assert(linktarget@ =~= updots((k - 1) as nat) + seq!['/', '.', '.']);
                        }
                    }
                }
                linktarget.append(prefix);
                push_char(&mut linktarget, '/');
                linktarget.append(tail.as_str());
                proof {
                    assert(linktarget@ =~= updots(depth as nat) + prefix@ + seq!['/'] + tail@);
                }
                Ok(ReplicateStep::LinkToPrefix { linktarget, dst: d })
            } else {
                match reprefix(src, path, target) {
                    Ok(d) => Ok(ReplicateStep::CopyFile { dst: d }),
                    Err(e) => Err(e),
                }
            }
        },
        WalkKind::Other => Err(TreeError::SpecialFile),
    }
}

} // verus!
