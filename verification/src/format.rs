//! Input kinds and how they are recognised.

use vstd::prelude::*;

use crate::error::ParseError;
use crate::util::{portable_extension, last_component, name_extension, plain_path, chars_of, lower_chars, lower_seq, path_extension, push_str, str_eq, string_of};

verus! {

/// Plain-text inputs (`.txt`, `.log`) are handled in this build.
pub const TEXT_SUPPORT: bool = true;

/// HTML inputs (`.htm`, `.html`) are handled in this build.
pub const HTML_SUPPORT: bool = true;

/// JSON inputs (`.json`) are handled in this build.
pub const JSON_SUPPORT: bool = true;

/// The kinds of input the parser dispatches on.
#[derive(Debug, Clone, Copy, PartialEq, Eq, Structural)]
pub enum FileKind {
    Pdf,
    Docx,
    Xlsx,
    Pptx,
    Doc,
    Xls,
    Ppt,
    Txt,
    Csv,
    Html,
    Json,
    /// Markdown (`.md`), passed through unchanged.
    Markdown,
    /// Any archive the archive detector recognises (`.zip`, `.tar`,
    /// `.tar.gz`/`.tgz`, `.tar.bz2`/`.tbz2`, `.tar.xz`/`.txz`,
    /// `.tar.zst`/`.tzst`, `.7z`, `.rar`, `.gz`, `.bz2`, `.xz`, `.zst`).
    Archive,
}

/// The kind for a lowercase extension, or none when it is not supported.
pub open spec fn kind_of_ext(l: Seq<char>) -> Option<FileKind> {
    if l == "pdf"@ {
        Some(FileKind::Pdf)
    } else if l == "docx"@ {
        Some(FileKind::Docx)
    } else if l == "xlsx"@ || l == "xlsm"@ {
        Some(FileKind::Xlsx)
    } else if l == "pptx"@ {
        Some(FileKind::Pptx)
    } else if l == "doc"@ {
        Some(FileKind::Doc)
    } else if l == "xls"@ {
        Some(FileKind::Xls)
    } else if l == "ppt"@ {
        Some(FileKind::Ppt)
    } else if l == "txt"@ || l == "log"@ {
        if TEXT_SUPPORT {
            Some(FileKind::Txt)
        } else {
            None
        }
    } else if l == "csv"@ || l == "tsv"@ {
        Some(FileKind::Csv)
    } else if l == "htm"@ || l == "html"@ {
        if HTML_SUPPORT {
            Some(FileKind::Html)
        } else {
            None
        }
    } else if l == "json"@ {
        if JSON_SUPPORT {
            Some(FileKind::Json)
        } else {
            None
        }
    } else if l == "md"@ {
        Some(FileKind::Markdown)
    } else {
        None
    }
}

/// The message of the `UnsupportedExtension` error for a lowercase extension.
pub open spec fn unsupported_message(l: Seq<char>) -> Seq<char> {
    if l == "txt"@ || l == "log"@ {
        l + " (text support is gated behind the `text` cargo feature)"@
    } else if l == "htm"@ || l == "html"@ {
        l + " (HTML support is gated behind the `html` cargo feature)"@
    } else if l == "json"@ {
        l + " (JSON support is gated behind the `json` cargo feature)"@
    } else {
        l
    }
}

/// `r` is what recognising an input gives: `Archive` when the archive
/// detector accepted the name; otherwise the kind of the lowercase
/// extension, `MissingExtension(path)` without an extension, and
/// `UnsupportedExtension` for an extension that is not handled.
pub open spec fn kind_result(
    r: Result<FileKind, ParseError>,
    archive: bool,
    path: Seq<char>,
    ext: Option<Seq<char>>,
) -> bool {
    if archive {
        r == Ok::<FileKind, ParseError>(FileKind::Archive)
    } else {
        match ext {
            None => r matches Err(ParseError::MissingExtension(m)) && m@ == path,
            Some(e) => match kind_of_ext(lower_seq(e)) {
                Some(k) => r == Ok::<FileKind, ParseError>(k),
                None => r matches Err(ParseError::UnsupportedExtension(m)) && m@
                    == unsupported_message(lower_seq(e)),
            },
        }
    }
}

impl FileKind {
    /// Recognises an input from the archive detector's verdict and the
    /// path's extension.
    pub fn from_extension(archive: bool, path: &str, ext: Option<&str>) -> (r: Result<
        FileKind,
        ParseError,
    >)
        ensures
            kind_result(
                r,
                archive,
                path@,
                match ext {
                    Some(e) => Some(e@),
                    None => None,
                },
            ),
    {
        if archive {
            return Ok(FileKind::Archive);
        }
        let e = match ext {
            Some(e) => e,
            None => {
                return Err(ParseError::MissingExtension(String::from_str(path)));
            },
        };
        let ls = string_of(&lower_chars(&chars_of(e)));
        let l = ls.as_str();
        if str_eq(l, "pdf") {
            Ok(FileKind::Pdf)
        } else if str_eq(l, "docx") {
            Ok(FileKind::Docx)
        } else if str_eq(l, "xlsx") || str_eq(l, "xlsm") {
            Ok(FileKind::Xlsx)
        } else if str_eq(l, "pptx") {
            Ok(FileKind::Pptx)
        } else if str_eq(l, "doc") {
            Ok(FileKind::Doc)
        } else if str_eq(l, "xls") {
            Ok(FileKind::Xls)
        } else if str_eq(l, "ppt") {
            Ok(FileKind::Ppt)
        } else if str_eq(l, "txt") || str_eq(l, "log") {
            if TEXT_SUPPORT {
                Ok(FileKind::Txt)
            } else {
                let mut m = String::from_str(l);
                push_str(&mut m, " (text support is gated behind the `text` cargo feature)");
                Err(ParseError::UnsupportedExtension(m))
            }
        } else if str_eq(l, "csv") || str_eq(l, "tsv") {
            Ok(FileKind::Csv)
        } else if str_eq(l, "htm") || str_eq(l, "html") {
            if HTML_SUPPORT {
                Ok(FileKind::Html)
            } else {
                let mut m = String::from_str(l);
                push_str(&mut m, " (HTML support is gated behind the `html` cargo feature)");
                Err(ParseError::UnsupportedExtension(m))
            }
        } else if str_eq(l, "json") {
            if JSON_SUPPORT {
                Ok(FileKind::Json)
            } else {
                let mut m = String::from_str(l);
                push_str(&mut m, " (JSON support is gated behind the `json` cargo feature)");
                Err(ParseError::UnsupportedExtension(m))
            }
        } else if str_eq(l, "md") {
            Ok(FileKind::Markdown)
        } else {
            Err(ParseError::UnsupportedExtension(String::from_str(l)))
        }
    }

    /// Recognises an input path.  `archive` is the archive detector's
    /// verdict on the path; compound archive extensions such as `.tar.gz`
    /// are only known to it, so it is consulted first.
    pub fn from_path(path: &str, archive: bool) -> (r: Result<FileKind, ParseError>)
        ensures
            exists|ext: Option<Seq<char>>| kind_result(r, archive, path@, ext),
            !archive && !path@.contains('.') ==> (r matches Err(ParseError::MissingExtension(m)) && m@
                == path@),
            plain_path(path@) ==> kind_result(r, archive, path@, name_extension(last_component(path@))),
            portable_extension(path@) matches Some(e) ==> kind_result(r, archive, path@, Some(e)),
    {
        let ext = path_extension(path);
        let r = match &ext {
            Some(e) => FileKind::from_extension(archive, path, Some(e.as_str())),
            None => FileKind::from_extension(archive, path, None),
        };
        proof {
            let w: Option<Seq<char>> = match ext {
                Some(e) => Some(e@),
                None => None,
            };
            assert(kind_result(r, archive, path@, w));
        }
        r
    }
}

} // verus!
