//! Mesh file formats and their detection from a file name.
use crate::error::K1FixError;
use vstd::prelude::*;
use vstd::string::*;

verus! {

/// Detected mesh file format.
#[derive(Debug, Clone, Copy, PartialEq, Eq, Structural)]
pub enum MeshFormat {
    /// Stereolithography.
    Stl,
    /// 3D Manufacturing Format.
    ThreeMf,
    /// STEP CAD.
    Step,
}

/// The extension that `std::path::Path::extension` finds in `path`.
pub uninterp spec fn path_extension(path: Seq<char>) -> Option<Seq<char>>;

/// `path` is a bare file name: it holds no `/`, `\` or `:` (no directory
/// separator or drive prefix on any target) and is none of the empty path,
/// `.` and `..`, so that the whole path is its file name.
pub open spec fn plain_file_name(path: Seq<char>) -> bool {
    &&& !path.contains('/')
    &&& !path.contains('\\')
    &&& !path.contains(':')
    &&& path.len() > 0
    &&& path != seq!['.']
    &&& path != seq!['.', '.']
}

/// Position of the last `.` among the first `n` characters of `s`.
pub open spec fn last_dot_before(s: Seq<char>, n: int) -> Option<int>
    decreases n,
{
    if n <= 0 {
        None
    } else if s[n - 1] == '.' {
        Some(n - 1)
    } else {
        last_dot_before(s, n - 1)
    }
}

/// The extension of a file name as std documents it: nothing when the name
/// has no `.`, or only a leading one; else the part after its last `.`.
pub open spec fn file_name_extension(name: Seq<char>) -> Option<Seq<char>> {
    match last_dot_before(name, name.len() as int) {
        Some(k) => if k > 0 {
            Some(name.subrange(k + 1, name.len() as int))
        } else {
            None
        },
        None => None,
    }
}

/// `std::path::Path::new(path).extension()`, as a string. The result is
/// named by `path_extension`; when there is one it holds no `.` (std's
/// documentation: the part of the file name after its last `.`). For a
/// bare file name (see [`plain_file_name`]) it is what std's documentation
/// gives for that name (see [`file_name_extension`]). Which longer paths
/// have an extension, and where in them it stands (a trailing `/` or `/.`
/// is not part of the file name), is left to the name.
#[verifier::external_body]
fn extension_of(path: &str) -> (r: Option<String>)
    ensures
        match r {
            Some(e) => path_extension(path@) == Some(e@) && !e@.contains('.'),
            None => path_extension(path@) is None,
        },
        plain_file_name(path@) ==> match r {
            Some(e) => file_name_extension(path@) == Some(e@),
            None => file_name_extension(path@) is None,
        },
{
    std::path::Path::new(path).extension().and_then(|e| e.to_str()).map(|e| e.to_string())
}

/// `c` with ASCII upper-case letters mapped to lower case.
pub open spec fn ascii_lower(c: char) -> char {
    if 'A' <= c && c <= 'Z' {
        ((c as u32) + 32) as char
    } else {
        c
    }
}

/// `s` with ASCII upper-case letters mapped to lower case.
pub open spec fn ascii_lowercase(s: Seq<char>) -> Seq<char> {
    s.map_values(|c: char| ascii_lower(c))
}

fn lower_char(c: char) -> (r: char)
    ensures
        r == ascii_lower(c),
{
    if 'A' <= c && c <= 'Z' {
        ((c as u8) + 32) as char
    } else {
        c
    }
}

/// Whether `s`, ASCII-lower-cased, equals the lower-case word `word`.
fn lower_equals(s: &str, word: &str) -> (r: bool)
    ensures
        r == (ascii_lowercase(s@) == word@),
{
    let n = s.unicode_len();
    let m = word.unicode_len();
    if n != m {
        proof {
            assert(ascii_lowercase(s@).len() == n);
        }
        return false;
    }
    let mut i: usize = 0;
    while i < n
        invariant
            i <= n,
            n == s@.len(),
            m == word@.len(),
            n == m,
            forall|j: int| 0 <= j < i ==> ascii_lower(s@[j]) == word@[j],
        decreases n - i,
    {
        if lower_char(s.get_char(i)) != word.get_char(i) {
            proof {
                assert(ascii_lowercase(s@)[i as int] != word@[i as int]);
            }
            return false;
        }
        i = i + 1;
    }
    proof {
        assert(ascii_lowercase(s@) =~= word@);
    }
    true
}

/// The format named by a file extension, ignoring ASCII case.
pub open spec fn format_of_extension(ext: Seq<char>) -> Option<MeshFormat> {
    let e = ascii_lowercase(ext);
    if e == "stl"@ {
        Some(MeshFormat::Stl)
    } else if e == "3mf"@ {
        Some(MeshFormat::ThreeMf)
    } else if e == "step"@ || e == "stp"@ {
        Some(MeshFormat::Step)
    } else {
        None
    }
}

impl MeshFormat {
    /// Infer the format from a file extension (`stl`, `3mf`, `step` or `stp`,
    /// in any ASCII case).
    pub fn from_extension(ext: &str) -> (r: Option<MeshFormat>)
        ensures
            r == format_of_extension(ext@),
    {
        if lower_equals(ext, "stl") {
            Some(MeshFormat::Stl)
        } else if lower_equals(ext, "3mf") {
            Some(MeshFormat::ThreeMf)
        } else if lower_equals(ext, "step") || lower_equals(ext, "stp") {
            Some(MeshFormat::Step)
        } else {
            None
        }
    }

    /// Infer format from a file path extension.
    pub fn from_path(path: &str) -> (r: Option<MeshFormat>)
        ensures
            r == match path_extension(path@) {
                Some(ext) => format_of_extension(ext),
                None => None,
            },
            plain_file_name(path@) ==> r == name_format(path@),
    {
        match extension_of(path) {
            Some(ext) => MeshFormat::from_extension(ext.as_str()),
            None => None,
        }
    }
}

/// Format detection ignores ASCII case: two extensions that agree once
/// lower-cased name the same format.
pub proof fn lemma_format_ignores_case(a: Seq<char>, b: Seq<char>)
    requires
        ascii_lowercase(a) == ascii_lowercase(b),
    ensures
        format_of_extension(a) == format_of_extension(b),
{
}

/// The format that `path` names, as [`MeshFormat::from_path`] detects it.
pub open spec fn path_format(path: Seq<char>) -> Option<MeshFormat> {
    match path_extension(path) {
        Some(ext) => format_of_extension(ext),
        None => None,
    }
}

/// The format that a bare file name names by its extension.
pub open spec fn name_format(name: Seq<char>) -> Option<MeshFormat> {
    match file_name_extension(name) {
        Some(ext) => format_of_extension(ext),
        None => None,
    }
}

/// The format of `path`, or [`K1FixError::UnsupportedFormat`] naming the
/// path when its extension names none.
pub fn require_format(path: &str) -> (r: Result<MeshFormat, K1FixError>)
    ensures
        match r {
            Ok(f) => path_format(path@) == Some(f),
            Err(K1FixError::UnsupportedFormat { path: p }) => p@ == path@ && path_format(path@) is None,
            Err(_) => false,
        },
        plain_file_name(path@) ==> (r matches Ok(f) && name_format(path@) == Some(f)) || (r is Err
            && name_format(path@) is None),
{
    match MeshFormat::from_path(path) {
        Some(f) => Ok(f),
        None => Err(K1FixError::UnsupportedFormat { path: String::from_str(path) }),
    }
}

/// Whether meshes can be written in `format`: STL and 3MF can; STEP output
/// is refused as [`K1FixError::UnsupportedFormat`] for `out.step`.
pub fn require_writable(format: MeshFormat) -> (r: Result<(), K1FixError>)
    ensures
        match r {
            Ok(_) => format != MeshFormat::Step,
            Err(K1FixError::UnsupportedFormat { path: p }) => format == MeshFormat::Step && p@ == "out.step"@,
            Err(_) => false,
        },
{
    proof {
        reveal_strlit("out.step");
    }
    match format {
        MeshFormat::Step => Err(K1FixError::UnsupportedFormat { path: String::from_str("out.step") }),
        _ => Ok(()),
    }
}

} // verus!
