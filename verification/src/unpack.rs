//! The per-entry decisions of the archive unpacker: what to create,
//! replace or leave alone at the target root, converging toward the
//! archive's declared state on a possibly non-empty target.

use vstd::prelude::*;

use crate::archive::path_under;
use crate::tree::{reprefix, reprefix_spec, TreeError};

verus! {

/// The entry types an archive may declare.
#[derive(Debug, Clone, Copy, PartialEq, Eq, Structural)]
pub enum TarKind {
    Dir,
    File,
    Symlink,
    Hardlink,
    Other,
}

/// What a symlink-aware stat found at the target path.
#[derive(Debug, Clone, Copy, PartialEq, Eq, Structural)]
pub enum ExistingKind {
    File,
    Symlink,
    Dir,
    Other,
}

/// The existing object at a target path: its kind and, for directories,
/// its permission bits and ownership.
#[derive(Debug, Clone, Copy, PartialEq, Eq, Structural)]
pub struct ExistingMeta {
    pub kind: ExistingKind,
    pub mode: u32,
    pub uid: u32,
    pub gid: u32,
}

/// Why an entry cannot be unpacked.
#[derive(Debug, Clone, Copy, PartialEq, Eq, Structural)]
pub enum UnpackError {
    /// The target path exists and is neither a regular file nor a symlink.
    ConflictNotFileOrLink,
    /// The target path exists and is not a directory.
    ConflictNotDir,
    /// An entry type the unpacker does not handle.
    UnsupportedEntry,
    /// A link entry without a link target in its header.
    MissingLinkTarget,
    /// A path that cannot be rooted under the target.
    Path(TreeError),
}

impl UnpackError {
    /// A short description of the failure.
    pub fn message(&self) -> String {
        match self {
            UnpackError::ConflictNotFileOrLink => String::from_str(
                "conflict: path is not a file or symlink",
            ),
            UnpackError::ConflictNotDir => String::from_str("conflict: path is not a dir"),
            UnpackError::UnsupportedEntry => String::from_str("unsupported entry type"),
            UnpackError::MissingLinkTarget => String::from_str("link entry without a target"),
            UnpackError::Path(e) => e.message(),
        }
    }
}

/// The work one archive entry calls for at the target.
#[derive(Debug)]
pub enum UnpackAction {
    /// An entry outside the content prefix: ignored.
    Skip,
    /// Create the directory if absent; bring mode and ownership to the
    /// declared values only where they differ.
    MakeDir { path: String, create: bool, chmod: bool, chown: bool, mode: u32, uid: u32, gid: u32 },
    /// Unlink any existing file or symlink, create the file exclusively,
    /// stream its content, then set mode and ownership.
    WriteFile { path: String, remove_first: bool, mode: u32, uid: u32, gid: u32 },
    /// Unlink any existing file or symlink, then create the symlink; links
    /// carry no mode or ownership of their own.
    MakeSymlink { path: String, remove_first: bool, target: String },
    /// Unlink any existing file or symlink, then hard-link to the already
    /// materialized file; its inode already carries the right metadata.
    MakeHardlink { path: String, remove_first: bool, target: String },
}

#[verifier::ext_equal]
pub enum UnpackActionView {
    Skip,
    MakeDir {
        path: Seq<char>,
        create: bool,
        chmod: bool,
        chown: bool,
        mode: u32,
        uid: u32,
        gid: u32,
    },
    WriteFile { path: Seq<char>, remove_first: bool, mode: u32, uid: u32, gid: u32 },
    MakeSymlink { path: Seq<char>, remove_first: bool, target: Seq<char> },
    MakeHardlink { path: Seq<char>, remove_first: bool, target: Seq<char> },
}

impl View for UnpackAction {
    type V = UnpackActionView;

    closed spec fn view(&self) -> UnpackActionView {
        match self {
            UnpackAction::Skip => UnpackActionView::Skip,
            UnpackAction::MakeDir { path, create, chmod, chown, mode, uid, gid } => UnpackActionView::MakeDir {
                path: path@,
                create: *create,
                chmod: *chmod,
                chown: *chown,
                mode: *mode,
                uid: *uid,
                gid: *gid,
            },
            UnpackAction::WriteFile { path, remove_first, mode, uid, gid } => UnpackActionView::WriteFile {
                path: path@,
                remove_first: *remove_first,
                mode: *mode,
                uid: *uid,
                gid: *gid,
            },
            UnpackAction::MakeSymlink { path, remove_first, target } => UnpackActionView::MakeSymlink {
                path: path@,
                remove_first: *remove_first,
                target: target@,
            },
            UnpackAction::MakeHardlink { path, remove_first, target } => UnpackActionView::MakeHardlink {
                path: path@,
                remove_first: *remove_first,
                target: target@,
            },
        }
    }
}

/// The fixed prefix under which every content entry is stored.
pub open spec fn content_prefix() -> Seq<char> {
    seq!['r', 'o', 'o', 't']
}

/// Whether an existing object may simply be unlinked and replaced.
pub open spec fn replaceable(k: ExistingKind) -> bool {
    k is File || k is Symlink
}

/// The decision for one archive entry, given what already exists at its
/// target path.  Files, symlinks and hardlinks are always fully recreated,
/// unlinking any existing file or symlink first; a directory is created
/// only when absent and its metadata touched only when it differs.
pub open spec fn unpack_step_spec(
    outdir: Seq<char>,
    p: Seq<char>,
    kind: TarKind,
    mode: u32,
    uid: u32,
    gid: u32,
    link_name: Option<Seq<char>>,
    existing: Option<ExistingMeta>,
) -> Result<UnpackActionView, UnpackError> {
    if !path_under(p, content_prefix()) {
        Ok(UnpackActionView::Skip)
    } else {
        match reprefix_spec(content_prefix(), p, outdir) {
            Err(e) => Err(UnpackError::Path(e)),
            Ok(target) => {
                let conflict = match existing {
                    Some(em) => !replaceable(em.kind),
                    None => false,
                };
                let remove_first = existing is Some;
                match kind {
                    TarKind::Dir => match existing {
                        Some(em) => if !(em.kind is Dir) {
                            Err(UnpackError::ConflictNotDir)
                        } else {
                            Ok(
                                UnpackActionView::MakeDir {
                                    path: target,
                                    create: false,
                                    chmod: em.mode != mode,
                                    chown: em.uid != uid || em.gid != gid,
                                    mode,
                                    uid,
                                    gid,
                                },
                            )
                        },
                        None => Ok(
                            UnpackActionView::MakeDir {
                                path: target,
                                create: true,
                                chmod: true,
                                chown: true,
                                mode,
                                uid,
                                gid,
                            },
                        ),
                    },
                    TarKind::File => if conflict {
                        Err(UnpackError::ConflictNotFileOrLink)
                    } else {
                        Ok(
                            UnpackActionView::WriteFile {
                                path: target,
                                remove_first,
                                mode,
                                uid,
                                gid,
                            },
                        )
                    },
                    TarKind::Symlink => if conflict {
                        Err(UnpackError::ConflictNotFileOrLink)
                    } else {
                        match link_name {
                            None => Err(UnpackError::MissingLinkTarget),
                            Some(t) => Ok(
                                UnpackActionView::MakeSymlink {
                                    path: target,
                                    remove_first,
                                    target: t,
                                },
                            ),
                        }
                    },
                    TarKind::Hardlink => if conflict {
                        Err(UnpackError::ConflictNotFileOrLink)
                    } else {
                        match link_name {
                            None => Err(UnpackError::MissingLinkTarget),
                            Some(t) => match reprefix_spec(content_prefix(), t, outdir) {
                                Err(e) => Err(UnpackError::Path(e)),
                                Ok(lt) => Ok(
                                    UnpackActionView::MakeHardlink {
                                        path: target,
                                        remove_first,
                                        target: lt,
                                    },
                                ),
                            },
                        }
                    },
                    TarKind::Other => Err(UnpackError::UnsupportedEntry),
                }
            },
        }
    }
}

/// Decides the work for one archive entry.
pub fn unpack_step(
    outdir: &str,
    p: &str,
    kind: TarKind,
    mode: u32,
    uid: u32,
    gid: u32,
    link_name: Option<&str>,
    existing: Option<&ExistingMeta>,
) -> (r: Result<UnpackAction, UnpackError>)
    ensures
        match r {
            Ok(a) => unpack_step_spec(
                outdir@,
                p@,
                kind,
                mode,
                uid,
                gid,
                match link_name {
                    Some(t) => Some(t@),
                    None => None,
                },
                match existing {
                    Some(em) => Some(*em),
                    None => None,
                },
            ) == Ok::<UnpackActionView, UnpackError>(a@),
            Err(e) => unpack_step_spec(
                outdir@,
                p@,
                kind,
                mode,
                uid,
                gid,
                match link_name {
                    Some(t) => Some(t@),
                    None => None,
                },
                match existing {
                    Some(em) => Some(*em),
                    None => None,
                },
            ) == Err::<UnpackActionView, UnpackError>(e),
        },
{
    proof {
        reveal_strlit("root");
        assert("root"@ =~= content_prefix());
    }
    if !crate::archive::path_under_exec(p, "root") {
        return Ok(UnpackAction::Skip);
    }
    let target = match reprefix("root", p, outdir) {
        Ok(t) => t,
        Err(e) => {
            return Err(UnpackError::Path(e));
        },
    };
    let conflict = match existing {
        Some(em) => !(matches!(em.kind, ExistingKind::File) || matches!(
            em.kind,
            ExistingKind::Symlink,
        )),
        None => false,
    };
    let remove_first = existing.is_some();
    match kind {
        TarKind::Dir => match existing {
            Some(em) => {
                if !matches!(em.kind, ExistingKind::Dir) {
                    Err(UnpackError::ConflictNotDir)
                } else {
                    Ok(
                        UnpackAction::MakeDir {
                            path: target,
                            create: false,
                            chmod: em.mode != mode,
                            chown: em.uid != uid || em.gid != gid,
                            mode,
                            uid,
                            gid,
                        },
                    )
                }
            },
            None => Ok(
                UnpackAction::MakeDir {
                    path: target,
                    create: true,
                    chmod: true,
                    chown: true,
                    mode,
                    uid,
                    gid,
                },
            ),
        },
        TarKind::File => {
            if conflict {
                Err(UnpackError::ConflictNotFileOrLink)
            } else {
                Ok(UnpackAction::WriteFile { path: target, remove_first, mode, uid, gid })
            }
        },
        TarKind::Symlink => {
            if conflict {
                Err(UnpackError::ConflictNotFileOrLink)
            } else {
                match link_name {
                    None => Err(UnpackError::MissingLinkTarget),
                    Some(t) => Ok(
                        UnpackAction::MakeSymlink {
                            path: target,
                            remove_first,
                            target: t.to_owned(),
                        },
                    ),
                }
            }
        },
        TarKind::Hardlink => {
            if conflict {
                Err(UnpackError::ConflictNotFileOrLink)
            } else {
                match link_name {
                    None => Err(UnpackError::MissingLinkTarget),
                    Some(t) => match reprefix("root", t, outdir) {
                        Err(e) => Err(UnpackError::Path(e)),
                        Ok(lt) => Ok(
                            UnpackAction::MakeHardlink {
                                path: target,
                                remove_first,
                                target: lt,
                            },
                        ),
                    },
                }
            }
        },
        TarKind::Other => Err(UnpackError::UnsupportedEntry),
    }
}

/// Unpacking a directory entry over a directory that already carries the
/// declared mode and ownership performs no write at all, and running any
/// entry twice yields the same decision: the second run converges.
pub proof fn lemma_unpack_dir_idempotent(
    outdir: Seq<char>,
    p: Seq<char>,
    mode: u32,
    uid: u32,
    gid: u32,
    em: ExistingMeta,
)
    requires
        path_under(p, content_prefix()),
        reprefix_spec(content_prefix(), p, outdir) is Ok,
        em.kind is Dir,
        em.mode == mode,
        em.uid == uid,
        em.gid == gid,
    ensures
        unpack_step_spec(outdir, p, TarKind::Dir, mode, uid, gid, None, Some(em)) == Ok::<
            UnpackActionView,
            UnpackError,
        >(
            UnpackActionView::MakeDir {
                path: reprefix_spec(content_prefix(), p, outdir)->Ok_0,
                create: false,
                chmod: false,
                chown: false,
                mode,
                uid,
                gid,
            },
        ),
{
}

/// Every archive entry the builder plans is reproduced by the unpacker on
/// an empty target: the same classification at the same relative path,
/// with the declared mode and ownership applied, files written whole and
/// links created with their declared targets.
pub proof fn lemma_plan_unpacks(
    outdir: Seq<char>,
    e: crate::archive::PlanEntryView,
    uid: u32,
    gid: u32,
)
    requires
        e.archive_path == "root/"@ + e.src_path,
        reprefix_spec(content_prefix(), e.archive_path, outdir) is Ok,
        e.kind is Hardlink ==> e.link is Some && reprefix_spec(
            content_prefix(),
            e.link->Some_0,
            outdir,
        ) is Ok,
        e.kind is Symlink ==> e.link is Some,
    ensures
        ({
            let target = reprefix_spec(content_prefix(), e.archive_path, outdir)->Ok_0;
            match e.kind {
                crate::archive::PlanKind::Dir => unpack_step_spec(
                    outdir,
                    e.archive_path,
                    TarKind::Dir,
                    e.mode,
                    uid,
                    gid,
                    None,
                    None,
                ) == Ok::<UnpackActionView, UnpackError>(
                    UnpackActionView::MakeDir {
                        path: target,
                        create: true,
                        chmod: true,
                        chown: true,
                        mode: e.mode,
                        uid,
                        gid,
                    },
                ),
                crate::archive::PlanKind::File => unpack_step_spec(
                    outdir,
                    e.archive_path,
                    TarKind::File,
                    e.mode,
                    uid,
                    gid,
                    None,
                    None,
                ) == Ok::<UnpackActionView, UnpackError>(
                    UnpackActionView::WriteFile {
                        path: target,
                        remove_first: false,
                        mode: e.mode,
                        uid,
                        gid,
                    },
                ),
                crate::archive::PlanKind::Symlink => unpack_step_spec(
                    outdir,
                    e.archive_path,
                    TarKind::Symlink,
                    e.mode,
                    uid,
                    gid,
                    e.link,
                    None,
                ) == Ok::<UnpackActionView, UnpackError>(
                    UnpackActionView::MakeSymlink {
                        path: target,
                        remove_first: false,
                        target: e.link->Some_0,
                    },
                ),
                crate::archive::PlanKind::Hardlink => unpack_step_spec(
                    outdir,
                    e.archive_path,
                    TarKind::Hardlink,
                    e.mode,
                    uid,
                    gid,
                    e.link,
                    None,
                ) == Ok::<UnpackActionView, UnpackError>(
                    UnpackActionView::MakeHardlink {
                        path: target,
                        remove_first: false,
                        target: reprefix_spec(content_prefix(), e.link->Some_0, outdir)->Ok_0,
                    },
                ),
            }
        }),
{
    reveal_strlit("root/");
    assert(path_under(e.archive_path, content_prefix())) by {
        let ap = e.archive_path;
        assert(ap.len() >= 5);
        assert(ap.take(4) =~= content_prefix()) by {
            assert(ap[0] == "root/"@[0]);
            assert(ap[1] == "root/"@[1]);
            assert(ap[2] == "root/"@[2]);
            assert(ap[3] == "root/"@[3]);
        }
        assert(ap[4] == "root/"@[4]);
        if ap.len() == 4 {
        } else {
            assert(ap.len() > content_prefix().len());
        }
    }
}

} // verus!
