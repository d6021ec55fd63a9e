//! The tabular package-contents listing: one tab-separated row per
//! packaged path, reduced to the files and hardlinks of the image.

use vstd::prelude::*;

use crate::fmri::{parse_fmri_seq, FmriError, Package, PackageView};
use crate::ips::{parse_octal, parse_octal_u32};
use crate::text::{lemma_split_first, split_chars, split_seq, str_chars, str_eq, strip_cr};

verus! {

/// Why a contents listing was rejected.
#[derive(Debug, Clone, Copy, PartialEq, Eq, Structural)]
pub enum ContentsError {
    /// A row without exactly the expected seven fields.
    BadRow,
    /// A file row whose mode is not an octal number.
    BadMode,
    /// A row naming a malformed package identifier.
    Fmri(FmriError),
}

impl ContentsError {
    /// A short description of the failure.
    pub fn message(&self) -> String {
        match self {
            ContentsError::BadRow => String::from_str("unexpected row shape in listing"),
            ContentsError::BadMode => String::from_str("mode is not a valid octal number"),
            ContentsError::Fmri(e) => e.message(),
        }
    }
}

/// What one row says of a packaged file.
#[derive(Debug)]
pub enum ImageFileDetails {
    File { owner: String, group: String, mode: u32 },
    Hardlink { target: String },
}

#[verifier::ext_equal]
pub enum ImageFileDetailsView {
    File { owner: Seq<char>, group: Seq<char>, mode: u32 },
    Hardlink { target: Seq<char> },
}

impl View for ImageFileDetails {
    type V = ImageFileDetailsView;

    closed spec fn view(&self) -> ImageFileDetailsView {
        match self {
            ImageFileDetails::File { owner, group, mode } => ImageFileDetailsView::File {
                owner: owner@,
                group: group@,
                mode: *mode,
            },
            ImageFileDetails::Hardlink { target } => ImageFileDetailsView::Hardlink {
                target: target@,
            },
        }
    }
}

/// One file or hardlink of the image, with the package that carries it.
#[derive(Debug)]
pub struct ImageFile {
    pub name: String,
    pub package: Package,
    pub details: ImageFileDetails,
}

#[verifier::ext_equal]
pub struct ImageFileView {
    pub name: Seq<char>,
    pub package: PackageView,
    pub details: ImageFileDetailsView,
}

impl View for ImageFile {
    type V = ImageFileView;

    closed spec fn view(&self) -> ImageFileView {
        ImageFileView { name: self.name@, package: self.package@, details: self.details@ }
    }
}

impl DeepView for ImageFile {
    type V = ImageFileView;

    open spec fn deep_view(&self) -> ImageFileView {
        self.view()
    }
}

/// What one seven-field row denotes: a file, a hardlink, or nothing for
/// the other entry types of the listing.
pub open spec fn row_spec(l: Seq<char>) -> Result<Option<ImageFileView>, ContentsError> {
    let t = split_seq(l, '\t');
    if t.len() != 7 {
        Err(ContentsError::BadRow)
    } else if t[0] == "file"@ {
        match parse_octal(t[4]) {
            None => Err(ContentsError::BadMode),
            Some(mode) => match parse_fmri_seq(t[6]) {
                Err(e) => Err(ContentsError::Fmri(e)),
                Ok(pkg) => Ok(
                    Some(
                        ImageFileView {
                            name: t[1],
                            package: pkg,
                            details: ImageFileDetailsView::File {
                                owner: t[2],
                                group: t[3],
                                mode,
                            },
                        },
                    ),
                ),
            },
        }
    } else if t[0] == "hardlink"@ {
        match parse_fmri_seq(t[6]) {
            Err(e) => Err(ContentsError::Fmri(e)),
            Ok(pkg) => Ok(
                Some(
                    ImageFileView {
                        name: t[1],
                        package: pkg,
                        details: ImageFileDetailsView::Hardlink { target: t[5] },
                    },
                ),
            ),
        }
    } else {
        Ok(None)
    }
}

/// The files and hardlinks a whole listing denotes, in row order.
pub open spec fn contents_spec(s: Seq<char>) -> Result<Seq<ImageFileView>, ContentsError>
    decreases s.len(),
{
    if s.len() == 0 {
        Ok(seq![])
    } else {
        let p = split_seq(s, '\n')[0];
        if p.len() >= s.len() {
            match row_spec(s) {
                Ok(Some(f)) => Ok(seq![f]),
                Ok(None) => Ok(seq![]),
                Err(e) => Err(e),
            }
        } else {
            match row_spec(strip_cr(p)) {
                Err(e) => Err(e),
                Ok(head) => match contents_spec(s.skip(p.len() as int + 1)) {
                    Err(e) => Err(e),
                    Ok(rest) => Ok(
                        (match head {
                            Some(f) => seq![f],
                            None => Seq::<ImageFileView>::empty(),
                        }) + rest,
                    ),
                },
            }
        }
    }
}

/// Parses one row of the listing.
#[verifier::loop_isolation(false)]
fn parse_row(cs: &Vec<char>, from: usize, to: usize) -> (r: Result<
    Option<ImageFile>,
    ContentsError,
>)
    requires
        from <= to <= cs@.len(),
    ensures
        match r {
            Ok(Some(f)) => row_spec(cs@.subrange(from as int, to as int)) == Ok::<
                Option<ImageFileView>,
                ContentsError,
            >(Some(f@)),
            Ok(None) => row_spec(cs@.subrange(from as int, to as int)) == Ok::<
                Option<ImageFileView>,
                ContentsError,
            >(None),
            Err(e) => row_spec(cs@.subrange(from as int, to as int)) == Err::<
                Option<ImageFileView>,
                ContentsError,
            >(e),
        },
{
    let fields = split_chars(cs, from, to, '\t');
    if fields.len() != 7 {
        return Err(ContentsError::BadRow);
    }
    proof {
        assert(fields.deep_view()[0] == fields@[0]@);
        assert(fields.deep_view()[1] == fields@[1]@);
        assert(fields.deep_view()[2] == fields@[2]@);
        assert(fields.deep_view()[3] == fields@[3]@);
        assert(fields.deep_view()[4] == fields@[4]@);
        assert(fields.deep_view()[5] == fields@[5]@);
        assert(fields.deep_view()[6] == fields@[6]@);
    }
    if str_eq(fields[0].as_str(), "file") {
        let mode = match parse_octal_u32(fields[4].as_str()) {
            Some(m) => m,
            None => {
                return Err(ContentsError::BadMode);
            },
        };
        let package = match Package::parse_fmri(fields[6].as_str()) {
            Ok(p) => p,
            Err(e) => {
                return Err(ContentsError::Fmri(e));
            },
        };
        let f = ImageFile {
            name: fields[1].clone(),
            package,
            details: ImageFileDetails::File {
                owner: fields[2].clone(),
                group: fields[3].clone(),
                mode,
            },
        };
        proof {
            assert(row_spec(cs@.subrange(from as int, to as int)) == Ok::<
                Option<ImageFileView>,
                ContentsError,
            >(Some(f@))) by {
                assert(f@ =~~= (ImageFileView {
                    name: fields.deep_view()[1],
                    package: f.package@,
                    details: ImageFileDetailsView::File {
                        owner: fields.deep_view()[2],
                        group: fields.deep_view()[3],
                        mode,
                    },
                }));
            }
        }
        Ok(Some(f))
    } else if str_eq(fields[0].as_str(), "hardlink") {
        let package = match Package::parse_fmri(fields[6].as_str()) {
            Ok(p) => p,
            Err(e) => {
                return Err(ContentsError::Fmri(e));
            },
        };
        let f = ImageFile {
            name: fields[1].clone(),
            package,
            details: ImageFileDetails::Hardlink { target: fields[5].clone() },
        };
        proof {
            assert(row_spec(cs@.subrange(from as int, to as int)) == Ok::<
                Option<ImageFileView>,
                ContentsError,
            >(Some(f@))) by {
                assert(f@ =~~= (ImageFileView {
                    name: fields.deep_view()[1],
                    package: f.package@,
                    details: ImageFileDetailsView::Hardlink {
                        target: fields.deep_view()[5],
                    },
                }));
            }
        }
        Ok(Some(f))
    } else {
        Ok(None)
    }
}

/// Parses a whole contents listing into its files and hardlinks.
#[verifier::loop_isolation(false)]
#[verifier::rlimit(50)]
pub fn parse_contents(input: &str) -> (r: Result<Vec<ImageFile>, ContentsError>)
    ensures
        match r {
            Ok(fs) => contents_spec(input@) == Ok::<Seq<ImageFileView>, ContentsError>(
                fs.deep_view(),
            ),
            Err(e) => contents_spec(input@) == Err::<Seq<ImageFileView>, ContentsError>(e),
        },
{
    let cs = str_chars(input);
    let n = cs.len();
    let mut out: Vec<ImageFile> = Vec::new();
    let mut pos: usize = 0;
    proof {
        assert(cs@.skip(0) =~= cs@);
        assert(out.deep_view() =~= Seq::<ImageFileView>::empty());
    }
    while pos < n
        invariant
            pos <= n,
            match contents_spec(cs@.skip(pos as int)) {
                Ok(rest) => contents_spec(cs@) == Ok::<Seq<ImageFileView>, ContentsError>(
                    out.deep_view() + rest,
                ),
                Err(e) => contents_spec(cs@) == Err::<Seq<ImageFileView>, ContentsError>(e),
            },
        decreases n - pos,
    {
        let ghost rem = cs@.skip(pos as int);
        let ghost p = split_seq(rem, '\n')[0];
        proof {
            lemma_split_first(rem, '\n');
        }
        let nl = crate::text::find_from(&cs, pos, '\n');
        let end = match nl {
            Some(e) => e,
            None => n,
        };
        proof {
            match nl {
                Some(e_) => {
                    assert(p.len() == e_ - pos) by {
                        if p.len() < e_ - pos {
                            assert(rem[p.len() as int] == '\n');
                            assert(cs@[pos + p.len() as int] == '\n');
                        } else if p.len() > e_ - pos {
                            assert(rem[e_ - pos] == cs@[e_ as int]);
                        }
                    }
                },
                None => {
                    assert(!rem.contains('\n')) by {
                        if rem.contains('\n') {
                            let k = choose|k: int| 0 <= k < rem.len() && rem[k] == '\n';
                            assert(cs@[pos + k] == '\n');
                        }
                    }
                },
            }
            assert(p =~= cs@.subrange(pos as int, end as int));
        }
        let line_end = match nl {
            Some(_) => {
                if end > pos && cs[end - 1] == '\r' {
                    end - 1
                } else {
                    end
                }
            },
            None => n,
        };
        let ghost line = cs@.subrange(pos as int, line_end as int);
        proof {
            match nl {
                Some(_) => {
                    assert(line =~= strip_cr(p));
                },
                None => {
                    assert(line =~= rem);
                },
            }
        }
        let ghost out0 = out.deep_view();
        match parse_row(&cs, pos, line_end) {
            Ok(Some(f)) => {
                out.push(f);
                proof {
                    assert(out.deep_view() =~= out0.push(out.deep_view().last()));
                }
            },
            Ok(None) => {},
            Err(e) => {
                proof {
                    match nl {
                        Some(_) => {
                            assert(p.len() < rem.len());
                        },
                        None => {},
                    }
                    assert(contents_spec(rem) == Err::<Seq<ImageFileView>, ContentsError>(e));
                }
                return Err(e);
            },
        }
        match nl {
            Some(_) => {
                proof {
                    assert(cs@.skip(end + 1) =~= rem.skip(p.len() as int + 1));
                    assert(p.len() < rem.len());
                    match contents_spec(rem.skip(p.len() as int + 1)) {
                        Ok(rest2) => {
                            assert(out.deep_view() + rest2 =~= out0 + ((match row_spec(line) {
                                Ok(Some(fv)) => seq![fv],
                                _ => Seq::<ImageFileView>::empty(),
                            }) + rest2));
                        },
                        Err(_) => {},
                    }
                }
                pos = end + 1;
            },
            None => {
                proof {
                    assert(p.len() == rem.len());
                    assert(cs@.skip(n as int) =~= Seq::<char>::empty());
                    assert(out.deep_view() + Seq::<ImageFileView>::empty() =~= out0 + (
                    match row_spec(line) {
                        Ok(Some(fv)) => seq![fv],
                        _ => Seq::<ImageFileView>::empty(),
                    }));
                }
                pos = n;
            },
        }
    }
    proof {
        assert(cs@.skip(n as int) =~= Seq::<char>::empty());
        assert(out.deep_view() + Seq::<ImageFileView>::empty() =~= out.deep_view());
    }
    Ok(out)
}

} // verus!
