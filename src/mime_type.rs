//! Content types of served files, by file extension.
use vstd::prelude::*;

use crate::text::{chars_of, last_index_of, lemma_last_index_of, rfind_char, str_eq, substring};

verus! {

/// The content type of a file whose kind is not known.
pub const UNKNOWN_BINARY_MIME: &'static str = "application/octet-stream";

/// Whether a path component is `.`, the current directory.
pub open spec fn is_cur_dir(c: Seq<char>) -> bool {
    c.len() == 1 && c[0] == '.'
}

/// Whether a path component is `..`, the parent directory.
pub open spec fn is_parent_dir(c: Seq<char>) -> bool {
    c.len() == 2 && c[0] == '.' && c[1] == '.'
}

/// The file name of a path: its last component, where empty components
/// (from repeated or trailing `/`) and `.` components after the first are
/// skipped; there is none when that component is empty, `.` or `..`.
pub open spec fn file_name(p: Seq<char>) -> Option<Seq<char>>
    decreases p.len(),
    via file_name_decreases
{
    let i = last_index_of(p, '/');
    let comp = p.subrange(i + 1, p.len() as int);
    if 0 <= i && (comp.len() == 0 || is_cur_dir(comp)) {
        file_name(p.subrange(0, i))
    } else if comp.len() == 0 || is_cur_dir(comp) || is_parent_dir(comp) {
        None
    } else {
        Some(comp)
    }
}

/// The last `/` lies inside the path, so what precedes it is shorter.
#[via_fn]
proof fn file_name_decreases(p: Seq<char>) {
    lemma_last_index_of(p, '/');
}

/// The extension of a file path: what follows the last `.` of its file
/// name, unless that `.` is the name's first character or the name has no
/// `.`.
pub open spec fn extension(path: Seq<char>) -> Option<Seq<char>> {
    match file_name(path) {
        Some(name) => {
            let d = last_index_of(name, '.');
            if d > 0 {
                Some(name.subrange(d + 1, name.len() as int))
            } else {
                None
            }
        },
        None => None,
    }
}

/// The content type for an extension.
pub open spec fn mime_of(ext: Option<Seq<char>>) -> Seq<char> {
    match ext {
        Some(e) => if e == "txt"@ {
            "text/plain"@
        } else if e == "html"@ {
            "text/html"@
        } else if e == "css"@ {
            "text/css"@
        } else if e == "js"@ {
            "text/javascript"@
        } else if e == "png"@ {
            "image/png"@
        } else if e == "svg"@ {
            "image/svg+xml"@
        } else if e == "jpeg"@ || e == "jpg"@ || e == "jfif"@ || e == "pjpeg"@ || e == "pjp"@ {
            "image/jpeg"@
        } else if e == "webp"@ {
            "image/webp"@
        } else {
            UNKNOWN_BINARY_MIME@
        },
        None => UNKNOWN_BINARY_MIME@,
    }
}

/// Bounds `start..hi` of the last component of `v` that is neither empty
/// nor `.`, where `v[..hi]` has the same file name as `v`; `start` is just
/// past the last `/` before `hi`, or `0`.
fn last_component(v: &Vec<char>) -> (r: (usize, usize))
    ensures
        r.0 <= r.1 <= v@.len(),
        file_name(v@) == file_name(v@.subrange(0, r.1 as int)),
        r.0 - 1 == last_index_of(v@.subrange(0, r.1 as int), '/'),
        !(r.0 > 0 && (r.0 == r.1 || (r.1 == r.0 + 1 && v@[r.0 as int] == '.'))),
{
    let n = v.len();
    proof {
        assert(v@.subrange(0, n as int) =~= v@);
    }
    let mut hi = n;
    loop
        invariant
            hi <= n == v@.len(),
            file_name(v@) == file_name(v@.subrange(0, hi as int)),
        decreases hi,
    {
        let ghost sub = v@.subrange(0, hi as int);
        match rfind_char(v, 0, hi, '/') {
            Some(i) => {
                if hi == i + 1 || (hi == i + 2 && v[i + 1] == '.') {
                    proof {
                        let comp = sub.subrange(i + 1, sub.len() as int);
                        assert(comp.len() == 0 || is_cur_dir(comp));
                        assert(sub.subrange(0, i as int) =~= v@.subrange(0, i as int));
                    }
                    hi = i;
                } else {
                    return (i + 1, hi);
                }
            },
            None => {
                return (0, hi);
            },
        }
    }
}

/// The extension of `path`, if it has one.
fn extension_text(path: &str) -> (r: Option<String>)
    ensures
        match r {
            Some(e) => extension(path@) == Some(e@),
            None => extension(path@) is None,
        },
{
    let cs = chars_of(path);
    let (start, hi) = last_component(&cs);
    let ghost s = path@;
    let ghost sub = s.subrange(0, hi as int);
    let ghost comp = sub.subrange(start as int, hi as int);
    proof {
        assert(comp =~= s.subrange(start as int, hi as int));
        assert(start > 0 ==> comp.len() > 0 && !is_cur_dir(comp));
    }
    if start == hi || (hi - start == 1 && cs[start] == '.') || (hi - start == 2 && cs[start] == '.'
        && cs[start + 1] == '.') {
        proof {
            assert(file_name(sub) is None);
        }
        return None;
    }
    proof {
        assert(file_name(sub) == Some(comp));
        assert(comp =~= cs@.subrange(start as int, hi as int));
    }
    match rfind_char(&cs, start, hi, '.') {
        Some(d) if d > start => {
            let e = substring(path, d + 1, hi);
            assert(e@ =~= comp.subrange(d - start + 1, comp.len() as int));
            Some(e)
        },
        _ => None,
    }
}

/// The content type of the file at `path`, from its extension.
pub fn mime_type(path: &str) -> (r: &'static str)
    ensures
        r@ == mime_of(extension(path@)),
{
    let ext = match extension_text(path) {
        Some(e) => e,
        None => return UNKNOWN_BINARY_MIME,
    };
    let e = ext.as_str();
    if str_eq(e, "txt") {
        "text/plain"
    } else if str_eq(e, "html") {
        "text/html"
    } else if str_eq(e, "css") {
        "text/css"
    } else if str_eq(e, "js") {
        "text/javascript"
    } else if str_eq(e, "png") {
        "image/png"
    } else if str_eq(e, "svg") {
        "image/svg+xml"
    } else if str_eq(e, "jpeg") || str_eq(e, "jpg") || str_eq(e, "jfif") || str_eq(e, "pjpeg")
        || str_eq(e, "pjp") {
        "image/jpeg"
    } else if str_eq(e, "webp") {
        "image/webp"
    } else {
        UNKNOWN_BINARY_MIME
    }
}

} // verus!
