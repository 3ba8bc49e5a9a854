//! Paths handled as text: joining, normalising and extensions.
use vstd::prelude::*;
use crate::text::to_chars;

verus! {

/// One component of a path, with the text it stands for.
pub enum PathPart {
    Prefix(String),
    RootDir(String),
    CurDir,
    ParentDir,
    Normal(String),
}

/// The mathematical form of a [`PathPart`].
pub enum PathPartV {
    Prefix(Seq<char>),
    RootDir(Seq<char>),
    CurDir,
    ParentDir,
    Normal(Seq<char>),
}

impl View for PathPart {
    type V = PathPartV;

    open spec fn view(&self) -> PathPartV {
        match self {
            PathPart::Prefix(s) => PathPartV::Prefix(s@),
            PathPart::RootDir(s) => PathPartV::RootDir(s@),
            PathPart::CurDir => PathPartV::CurDir,
            PathPart::ParentDir => PathPartV::ParentDir,
            PathPart::Normal(s) => PathPartV::Normal(s@),
        }
    }
}

/// The components of the path `p`, as std's `Path::components` yields them.
pub uninterp spec fn spec_path_components(p: Seq<char>) -> Seq<PathPartV>;

/// The path made by pushing each text of `parts` in turn onto an empty
/// `PathBuf` (std `FromIterator` for `PathBuf`).
pub uninterp spec fn spec_path_collect(parts: Seq<Seq<char>>) -> Seq<char>;

/// `base` joined with `rel` (std `Path::join`).
pub uninterp spec fn spec_path_join(base: Seq<char>, rel: Seq<char>) -> Seq<char>;

/// The position of the last `.` in `name`, if there is one.
pub open spec fn last_dot(name: Seq<char>) -> Option<nat>
    decreases name.len(),
{
    if name.len() == 0 {
        None
    } else if name.last() == '.' {
        Some((name.len() - 1) as nat)
    } else {
        last_dot(name.drop_last())
    }
}

/// The extension of the path `p` (std `Path::extension`): none without a
/// file name, none when the file name has no `.` but a leading one, else
/// what follows the file name's last `.`.
pub open spec fn spec_path_extension(p: Seq<char>) -> Option<Seq<char>> {
    match spec_path_file_name(p) {
        None => None,
        Some(name) => match last_dot(name) {
            Some(i) => if i > 0 {
                Some(name.skip((i + 1) as int))
            } else {
                None
            },
            None => None,
        },
    }
}

/// The path `p` with its extension set to `ext` (std `PathBuf::set_extension`).
pub uninterp spec fn spec_path_with_extension(p: Seq<char>, ext: Seq<char>) -> Seq<char>;

/// The file name of `p` without its extension (std `Path::file_stem`):
/// none without a file name, the whole file name when it has no `.` but a
/// leading one, else what comes before its last `.`.
pub open spec fn spec_path_file_stem(p: Seq<char>) -> Option<Seq<char>> {
    match spec_path_file_name(p) {
        None => None,
        Some(name) => match last_dot(name) {
            Some(i) => if i > 0 {
                Some(name.take(i as int))
            } else {
                Some(name)
            },
            None => Some(name),
        },
    }
}

/// The final component of `p`, if it is a file name (std `Path::file_name`).
pub uninterp spec fn spec_path_file_name(p: Seq<char>) -> Option<Seq<char>>;

/// The path `p` with its file name replaced by `name` (std `Path::with_file_name`).
pub uninterp spec fn spec_path_with_file_name(p: Seq<char>, name: Seq<char>) -> Seq<char>;

/// The components that path-clean's `clean` keeps of `parts`: `.` is
/// dropped; `..` is dropped right after the root, removes a name before it,
/// and is kept anywhere else; every other component is kept.
pub open spec fn cleaned_parts(parts: Seq<PathPartV>) -> Seq<PathPartV>
    decreases parts.len(),
{
    if parts.len() == 0 {
        seq![]
    } else {
        let out = cleaned_parts(parts.drop_last());
        match parts.last() {
            PathPartV::CurDir => out,
            PathPartV::ParentDir => if out.len() > 0 && out.last() is RootDir {
                out
            } else if out.len() > 0 && out.last() is Normal {
                out.drop_last()
            } else {
                out.push(PathPartV::ParentDir)
            },
            c => out.push(c),
        }
    }
}

/// The text of a component as a path holds it.
pub open spec fn part_text(c: PathPartV) -> Seq<char> {
    match c {
        PathPartV::Prefix(s) => s,
        PathPartV::RootDir(s) => s,
        PathPartV::CurDir => seq!['.'],
        PathPartV::ParentDir => seq!['.', '.'],
        PathPartV::Normal(s) => s,
    }
}

/// The path `p` cleaned lexically by path-clean's `clean`: the components
/// it keeps (see [`cleaned_parts`]) collected into a path, or `.` when it
/// keeps none.
pub open spec fn spec_path_clean(p: Seq<char>) -> Seq<char> {
    let out = cleaned_parts(spec_path_components(p));
    if out.len() > 0 {
        spec_path_collect(out.map_values(|c: PathPartV| part_text(c)))
    } else {
        seq!['.']
    }
}

/// Calls path-clean's `clean`, which removes `.` components and each `..`
/// with the component before it, without touching the file system.
#[verifier::external_body]
pub(crate) fn path_clean(p: &str) -> (r: String)
    ensures
        r@ == spec_path_clean(p@),
{
    path_clean::clean(p).to_string_lossy().into_owned()
}

/// Calls std `Path::components` and records each component with its text.
#[verifier::external_body]
pub(crate) fn path_components(p: &str) -> (r: Vec<PathPart>)
    ensures
        r@.len() == spec_path_components(p@).len(),
        forall|i: int| 0 <= i < r@.len() ==> (#[trigger] r@[i])@ == spec_path_components(p@)[i],
{
    let mut v = Vec::new();
    for c in std::path::Path::new(p).components() {
        v.push(match c {
            std::path::Component::Prefix(x) => PathPart::Prefix(x.as_os_str().to_string_lossy().into_owned()),
            std::path::Component::RootDir => PathPart::RootDir(c.as_os_str().to_string_lossy().into_owned()),
            std::path::Component::CurDir => PathPart::CurDir,
            std::path::Component::ParentDir => PathPart::ParentDir,
            std::path::Component::Normal(x) => PathPart::Normal(x.to_string_lossy().into_owned()),
        });
    }
    v
}

/// Calls std `PathBuf::from_iter` on the texts and gives the path as text.
#[verifier::external_body]
pub(crate) fn path_collect(parts: &Vec<String>) -> (r: String)
    ensures
        r@ == spec_path_collect(Seq::new(parts@.len(), |i: int| parts@[i]@)),
{
    parts.iter().collect::<std::path::PathBuf>().to_string_lossy().into_owned()
}

/// Calls std `Path::join`.
#[verifier::external_body]
pub(crate) fn path_join(base: &str, rel: &str) -> (r: String)
    ensures
        r@ == spec_path_join(base@, rel@),
{
    std::path::Path::new(base).join(rel).to_string_lossy().into_owned()
}

/// Calls std `Path::extension`.
#[verifier::external_body]
pub(crate) fn path_extension(p: &str) -> (r: Option<String>)
    ensures
        match spec_path_extension(p@) {
            Some(e) => r matches Some(x) && x@ == e,
            None => r is None,
        },
{
    std::path::Path::new(p).extension().map(|e| e.to_string_lossy().into_owned())
}

/// Whether `s` holds no path separator: neither `/` nor the `\` that
/// Windows also takes as one.
pub open spec fn no_separator(s: Seq<char>) -> bool {
    forall|i: int| 0 <= i < s.len() ==> #[trigger] s[i] != '/' && s[i] != '\\'
}

/// Whether `s` holds a path separator (see [`no_separator`]).
pub fn has_separator(s: &str) -> (r: bool)
    ensures
        r == !no_separator(s@),
{
    let c = to_chars(s);
    let mut i: usize = 0;
    while i < c.len()
        invariant
            0 <= i <= c@.len(),
            c@ == s@,
            forall|k: int| 0 <= k < i ==> #[trigger] c@[k] != '/' && c@[k] != '\\',
        decreases c.len() - i,
    {
        if c[i] == '/' || c[i] == '\\' {
            return true;
        }
        i = i + 1;
    }
    false
}

/// Calls std `PathBuf::set_extension`, which panics on an extension holding
/// a path separator (so `ext` holds none).
#[verifier::external_body]
pub(crate) fn path_with_extension(p: &str, ext: &str) -> (r: String)
    requires
        no_separator(ext@),
    ensures
        r@ == spec_path_with_extension(p@, ext@),
{
    let mut b = std::path::PathBuf::from(p);
    b.set_extension(ext);
    b.to_string_lossy().into_owned()
}

/// Calls std `Path::file_stem`.
#[verifier::external_body]
pub(crate) fn path_file_stem(p: &str) -> (r: Option<String>)
    ensures
        match spec_path_file_stem(p@) {
            Some(e) => r matches Some(x) && x@ == e,
            None => r is None,
        },
{
    std::path::Path::new(p).file_stem().map(|e| e.to_string_lossy().into_owned())
}

/// Calls std `Path::file_name`.
#[verifier::external_body]
pub(crate) fn path_file_name(p: &str) -> (r: Option<String>)
    ensures
        match spec_path_file_name(p@) {
            Some(e) => r matches Some(x) && x@ == e,
            None => r is None,
        },
{
    std::path::Path::new(p).file_name().map(|e| e.to_string_lossy().into_owned())
}

/// Calls std `Path::with_file_name`.
#[verifier::external_body]
pub(crate) fn path_with_file_name(p: &str, name: &str) -> (r: String)
    ensures
        r@ == spec_path_with_file_name(p@, name@),
{
    std::path::Path::new(p).with_file_name(name).to_string_lossy().into_owned()
}

/// The texts kept by normalising `parts`: `..` drops the last text kept,
/// `.` is skipped, every other component is kept.
pub open spec fn normalized_texts(parts: Seq<PathPartV>) -> Seq<Seq<char>>
    decreases parts.len(),
{
    if parts.len() == 0 {
        seq![]
    } else {
        let rest = normalized_texts(parts.drop_last());
        match parts.last() {
            PathPartV::ParentDir => if rest.len() > 0 {
                rest.drop_last()
            } else {
                rest
            },
            PathPartV::CurDir => rest,
            PathPartV::Prefix(s) => rest.push(s),
            PathPartV::RootDir(s) => rest.push(s),
            PathPartV::Normal(s) => rest.push(s),
        }
    }
}

/// A simple normalisation: drops `.` components and lets `..` remove the
/// component before it.
pub fn path_normalize(path: &str) -> (r: String)
    ensures
        r@ == spec_path_collect(normalized_texts(spec_path_components(path@))),
{
    let parts = path_components(path);
    let ghost ps = spec_path_components(path@);
    let mut kept: Vec<String> = Vec::new();
    let mut i: usize = 0;
    assert(ps.take(0) =~= Seq::<PathPartV>::empty());
    while i < parts.len()
        invariant
            parts@.len() == ps.len(),
            forall|k: int| 0 <= k < parts@.len() ==> (#[trigger] parts@[k])@ == ps[k],
            0 <= i <= parts@.len(),
            Seq::new(kept@.len(), |k: int| kept@[k]@) == normalized_texts(ps.take(i as int)),
        decreases parts.len() - i,
    {
        assert(ps.take(i + 1).drop_last() =~= ps.take(i as int));
        assert(ps.take(i + 1).last() == parts@[i as int]@);
        match &parts[i] {
            PathPart::ParentDir => {
                if kept.len() > 0 {
                    kept.pop();
                }
            },
            PathPart::CurDir => {},
            PathPart::Prefix(s) => kept.push(s.clone()),
            PathPart::RootDir(s) => kept.push(s.clone()),
            PathPart::Normal(s) => kept.push(s.clone()),
        }
        assert(Seq::new(kept@.len(), |k: int| kept@[k]@) =~= normalized_texts(ps.take(i + 1)));
        i = i + 1;
    }
    assert(ps.take(ps.len() as int) =~= ps);
    path_collect(&kept)
}

} // verus!
