//! Runtime packages: their file names, the platform names inside them,
//! and the paths an archive may hold.

use vstd::prelude::*;
use vstd::string::StringExecFns;
use crate::text::{
    ascii_lower, ascii_lower_of, chars_of, find_char, lemma_find_char, lemma_lead_in_at,
    lemma_split_char_concat, lemma_split_char_single, lemma_trail_in_at, same_chars, same_range,
    slice_chars, split_char, split_chars, string_of, trim, trimmed, views, CharClass,
};

verus! {

broadcast use vstd::string::group_string_axioms;

/// `s` ends with `p`.
pub open spec fn ends_with(s: Seq<char>, p: Seq<char>) -> bool {
    p.len() <= s.len() && s.skip(s.len() - p.len()) == p
}

fn has_suffix(s: &[char], p: &[char]) -> (b: bool)
    ensures
        b == ends_with(s@, p@),
{
    if p.len() > s.len() {
        return false;
    }
    let r = same_range(s, s.len() - p.len(), s.len(), p);
    assert(s@.subrange(s@.len() - p@.len(), s@.len() as int) == s@.skip(s@.len() - p@.len()));
    r
}

/// Version and platform of a runtime package.
#[derive(Debug)]
pub struct PackageInfo {
    /// `<version>_<os>_<arch>`.
    pub id: String,
    pub version: String,
    /// `<os>_<arch>`.
    pub target: String,
}

/// Why a file name is not that of a runtime package.
#[derive(Clone, Copy, Debug, PartialEq, Eq, Structural)]
pub enum PackageError {
    /// The path has no file name that is valid Unicode.
    InvalidFileName,
    /// The name ends in neither `.tar.gz` nor `.tgz`.
    NotArchive,
    /// The name is not `CLIProxyAPI_<version>_<os>_<arch>`.
    BadName,
    /// Version, os or arch is blank.
    EmptyPart,
}

/// The package a file name describes: `(id, version, target)`.
pub open spec fn package_of(file_name: Option<Seq<char>>) -> Result<
    (Seq<char>, Seq<char>, Seq<char>),
    PackageError,
> {
    match file_name {
        None => Err(PackageError::InvalidFileName),
        Some(name) => {
            let base = if ends_with(name, ".tar.gz"@) {
                Some(name.take(name.len() - 7))
            } else if ends_with(name, ".tgz"@) {
                Some(name.take(name.len() - 4))
            } else {
                None
            };
            match base {
                None => Err(PackageError::NotArchive),
                Some(base) => if !(12 <= base.len() && base.take(12) == "CLIProxyAPI_"@) {
                    Err(PackageError::BadName)
                } else {
                    let parts = split_char(base.skip(12), '_');
                    if parts.len() != 3 {
                        Err(PackageError::BadName)
                    } else {
                        let v = trim(parts[0]);
                        let o = trim(parts[1]);
                        let a = trim(parts[2]);
                        if v.len() == 0 || o.len() == 0 || a.len() == 0 {
                            Err(PackageError::EmptyPart)
                        } else {
                            Ok((v + "_"@ + o + "_"@ + a, v, o + "_"@ + a))
                        }
                    }
                },
            }
        },
    }
}

/// Reads version and platform from a package's file name
/// `CLIProxyAPI_<version>_<os>_<arch>.tar.gz` (or `.tgz`).
pub fn parse_package_info(file_name: Option<&str>) -> (r: Result<PackageInfo, PackageError>)
    ensures
        match r {
            Ok(p) => package_of(
                match file_name {
                    Some(n) => Some(n@),
                    None => None,
                },
            ) == Ok::<(Seq<char>, Seq<char>, Seq<char>), PackageError>(
                (p.id@, p.version@, p.target@),
            ),
            Err(e) => package_of(
                match file_name {
                    Some(n) => Some(n@),
                    None => None,
                },
            ) == Err::<(Seq<char>, Seq<char>, Seq<char>), PackageError>(e),
        },
{
    let name = match file_name {
        Some(n) => chars_of(n),
        None => {
            return Err(PackageError::InvalidFileName);
        },
    };
    let tar_gz = chars_of(".tar.gz");
    let tgz = chars_of(".tgz");
    proof {
        reveal_strlit(".tar.gz");
        reveal_strlit(".tgz");
        reveal_strlit("CLIProxyAPI_");
    }
    let base = if has_suffix(name.as_slice(), tar_gz.as_slice()) {
        slice_chars(name.as_slice(), 0, name.len() - 7)
    } else if has_suffix(name.as_slice(), tgz.as_slice()) {
        slice_chars(name.as_slice(), 0, name.len() - 4)
    } else {
        return Err(PackageError::NotArchive);
    };
    let prefix = chars_of("CLIProxyAPI_");
    if base.len() < 12 || !same_range(base.as_slice(), 0, 12, prefix.as_slice()) {
        proof {
            if 12 <= base@.len() {
                assert(base@.take(12) == base@.subrange(0, 12));
            }
        }
        return Err(PackageError::BadName);
    }
    assert(base@.take(12) == base@.subrange(0, 12));
    let descriptor = slice_chars(base.as_slice(), 12, base.len());
    assert(descriptor@ == base@.skip(12));
    let parts = split_chars(descriptor.as_slice(), '_');
    if parts.len() != 3 {
        return Err(PackageError::BadName);
    }
    assert(views(parts@)[0] == parts@[0]@);
    assert(views(parts@)[1] == parts@[1]@);
    assert(views(parts@)[2] == parts@[2]@);
    let v = trimmed(parts[0].as_slice(), &CharClass::Whitespace);
    let o = trimmed(parts[1].as_slice(), &CharClass::Whitespace);
    let a = trimmed(parts[2].as_slice(), &CharClass::Whitespace);
    if v.len() == 0 || o.len() == 0 || a.len() == 0 {
        return Err(PackageError::EmptyPart);
    }
    let version = string_of(v.as_slice());
    let os = string_of(o.as_slice());
    let arch = string_of(a.as_slice());
    let mut target = String::from_str(os.as_str());
    target.append("_");
    target.append(arch.as_str());
    let mut id = String::from_str(version.as_str());
    id.append("_");
    id.append(target.as_str());
    assert(id@ =~= v@ + "_"@ + o@ + "_"@ + a@);
    Ok(PackageInfo { id, version, target })
}

/// The runtime version bundled with the desktop application.
pub const DEFAULT_RUNTIME_VERSION: &'static str = "6.9.36";

/// The package name of an operating system (`std::env::consts::OS`).
pub open spec fn package_os(os: Seq<char>) -> Seq<char> {
    if os == "macos"@ {
        "darwin"@
    } else {
        os
    }
}

/// The package name of an architecture (`std::env::consts::ARCH`).
pub open spec fn package_arch(arch: Seq<char>) -> Seq<char> {
    if arch == "aarch64"@ {
        "arm64"@
    } else if arch == "x86_64"@ {
        "amd64"@
    } else {
        arch
    }
}

/// The package platform name for Rust's `std::env::consts::{OS, ARCH}`.
pub open spec fn package_target(os: Seq<char>, arch: Seq<char>) -> Seq<char> {
    package_os(os) + "_"@ + package_arch(arch)
}

pub fn current_package_target(os: &str, arch: &str) -> (r: String)
    ensures
        r@ == package_target(os@, arch@),
{
    let o = chars_of(os);
    let a = chars_of(arch);
    let mut r = if same_chars(o.as_slice(), chars_of("macos").as_slice()) {
        String::from_str("darwin")
    } else {
        String::from_str(os)
    };
    r.append("_");
    if same_chars(a.as_slice(), chars_of("aarch64").as_slice()) {
        r.append("arm64");
    } else if same_chars(a.as_slice(), chars_of("x86_64").as_slice()) {
        r.append("amd64");
    } else {
        r.append(arch);
    }
    r
}

/// The file name of the bundled package for a platform.
pub open spec fn package_name(target: Seq<char>) -> Seq<char> {
    "CLIProxyAPI_"@ + DEFAULT_RUNTIME_VERSION@ + "_"@ + target + ".tar.gz"@
}

pub fn default_package_name(target: &str) -> (r: String)
    ensures
        r@ == package_name(target@),
{
    let mut r = String::from_str("CLIProxyAPI_");
    r.append(DEFAULT_RUNTIME_VERSION);
    r.append("_");
    r.append(target);
    r.append(".tar.gz");
    r
}

/// The runtime's executable name on an operating system.
pub open spec fn binary_file_name(target_os: Seq<char>) -> Seq<char> {
    if target_os == "windows"@ {
        "cli-proxy-api.exe"@
    } else {
        "cli-proxy-api"@
    }
}

pub fn binary_name(target_os: &str) -> (r: &'static str)
    ensures
        r@ == binary_file_name(target_os@),
{
    if same_chars(chars_of(target_os).as_slice(), chars_of("windows").as_slice()) {
        "cli-proxy-api.exe"
    } else {
        "cli-proxy-api"
    }
}

/// Index of the last occurrence of `c` in `s`.
pub open spec fn rfind_char(s: Seq<char>, c: char) -> Option<int>
    decreases s.len(),
{
    if s.len() == 0 {
        None
    } else if s.last() == c {
        Some(s.len() - 1)
    } else {
        rfind_char(s.drop_last(), c)
    }
}

/// `Path::extension` of a file name: after the last `.`, unless that dot
/// starts the name, or the name is `..`.
pub open spec fn extension(name: Seq<char>) -> Option<Seq<char>> {
    if name == ".."@ {
        None
    } else {
        match rfind_char(name, '.') {
            Some(i) => if i == 0 {
                None
            } else {
                Some(name.skip(i + 1))
            },
            None => None,
        }
    }
}

fn rfind_char_of(s: &[char], c: char) -> (r: Option<usize>)
    ensures
        match r {
            Some(i) => rfind_char(s@, c) == Some(i as int) && i < s.len(),
            None => rfind_char(s@, c) is None,
        },
{
    let mut i = s.len();
    assert(s@.take(s@.len() as int) == s@);
    while i > 0
        invariant
            i <= s@.len(),
            rfind_char(s@, c) == rfind_char(s@.take(i as int), c),
        decreases i,
    {
        let ghost t = s@.take(i as int);
        assert(t.drop_last() == s@.take(i - 1));
        assert(t.last() == s@[i - 1]);
        if s[i - 1] == c {
            return Some(i - 1);
        }
        i = i - 1;
    }
    assert(s@.take(0) == Seq::<char>::empty());
    None
}

/// A file name with extension `json`, in any ASCII case.
pub open spec fn json_name(file_name: Option<Seq<char>>) -> bool {
    match file_name {
        None => false,
        Some(n) => match extension(n) {
            Some(e) => ascii_lower(e) == "json"@,
            None => false,
        },
    }
}

/// Whether a path's file name has the extension `json` (any ASCII case).
pub fn is_json_path(file_name: Option<&str>) -> (b: bool)
    ensures
        b == json_name(
            match file_name {
                Some(n) => Some(n@),
                None => None,
            },
        ),
{
    let name = match file_name {
        Some(n) => chars_of(n),
        None => {
            return false;
        },
    };
    if same_chars(name.as_slice(), chars_of("..").as_slice()) {
        return false;
    }
    match rfind_char_of(name.as_slice(), '.') {
        None => false,
        Some(i) => {
            if i == 0 {
                return false;
            }
            let ext = slice_chars(name.as_slice(), i + 1, name.len());
            assert(ext@ == name@.skip(i + 1));
            let lower = ascii_lower_of(ext.as_slice());
            same_chars(lower.as_slice(), chars_of("json").as_slice())
        },
    }
}

/// A component of a path inside an archive.
#[derive(Debug)]
pub enum PathPart {
    /// A named component.
    Normal(String),
    /// `.`
    CurDir,
    /// `..`, a root or a prefix.
    Other,
}

/// Why an archive path is refused.
#[derive(Clone, Copy, Debug, PartialEq, Eq, Structural)]
pub enum PathError {
    /// It climbs up or starts at a root.
    Unsafe,
    /// It names nothing.
    Empty,
}

/// The named components of a path, or why it may not be used below a
/// target directory.
pub open spec fn relative_parts(parts: Seq<PathPart>) -> Result<Seq<Seq<char>>, PathError> {
    if exists|j: int| 0 <= j < parts.len() && #[trigger] parts[j] is Other {
        Err(PathError::Unsafe)
    } else {
        let names = normal_names(parts);
        if forall|j: int| 0 <= j < names.len() ==> #[trigger] names[j].len() == 0 {
            Err(PathError::Empty)
        } else {
            Ok(names)
        }
    }
}

/// The names of the `Normal` components, in order.
pub open spec fn normal_names(parts: Seq<PathPart>) -> Seq<Seq<char>>
    decreases parts.len(),
{
    if parts.len() == 0 {
        seq![]
    } else {
        let init = normal_names(parts.drop_last());
        match parts.last() {
            PathPart::Normal(n) => init.push(n@),
            _ => init,
        }
    }
}

/// The components of an archive entry's path that make a safe relative
/// path: only names and `.`; `.` is dropped.
pub fn safe_relative_path(parts: &[PathPart]) -> (r: Result<Vec<String>, PathError>)
    ensures
        match r {
            Ok(names) => relative_parts(parts@) == Ok::<Seq<Seq<char>>, PathError>(
                names@.map_values(|s: String| s@),
            ),
            Err(e) => relative_parts(parts@) == Err::<Seq<Seq<char>>, PathError>(e),
        },
{
    let mut names: Vec<String> = Vec::new();
    let mut any_named = false;
    let mut i: usize = 0;
    assert(parts@.take(0) == Seq::<PathPart>::empty());
    while i < parts.len()
        invariant
            i <= parts@.len(),
            names@.map_values(|s: String| s@) == normal_names(parts@.take(i as int)),
            forall|j: int| 0 <= j < i ==> !(#[trigger] parts@[j] is Other),
            any_named == exists|j: int|
                0 <= j < names@.len() && #[trigger] names@[j]@.len() != 0,
        decreases parts@.len() - i,
    {
        let ghost t = parts@.take(i + 1);
        assert(t.drop_last() == parts@.take(i as int));
        assert(t.last() == parts@[i as int]);
        match &parts[i] {
            PathPart::Normal(n) => {
                let ghost before = names@;
                names.push(n.clone());
                assert(names@.map_values(|s: String| s@) =~= before.map_values(|s: String| s@).push(
                    n@,
                ));
                if !n.as_str().is_empty() {
                    any_named = true;
                }
                proof {
                    assert(names@.last()@ == n@);
                    if !any_named {
                        assert forall|j: int| 0 <= j < names@.len() implies #[trigger] names@[j]@.len() == 0 by {
                            if j < before.len() {
                                assert(names@[j] == before[j]);
                            }
                        }
                    } else {
                        if n@.len() == 0 {
                            let j = choose|j: int| 0 <= j < before.len() && #[trigger] before[j]@.len() != 0;
                            assert(names@[j] == before[j]);
                        }
                    }
                }
            },
            PathPart::CurDir => {},
            PathPart::Other => {
                return Err(PathError::Unsafe);
            },
        }
        i = i + 1;
    }
    assert(parts@.take(parts@.len() as int) == parts@);
    let ghost nm = names@.map_values(|s: String| s@);
    assert(nm.len() == names@.len());
    assert forall|j: int| 0 <= j < nm.len() implies #[trigger] nm[j] == names@[j]@ by {}
    if !any_named {
        return Err(PathError::Empty);
    }
    proof {
        let j = choose|j: int| 0 <= j < names@.len() && #[trigger] names@[j]@.len() != 0;
        assert(nm[j].len() != 0);
    }
    Ok(names)
}

/// A package name part: not blank at either end, without `_`.
pub open spec fn name_part(p: Seq<char>) -> bool {
    p.len() > 0 && trim(p) == p && find_char(p, '_') is None
}

/// The bundled package's file name parses back to the platform it was
/// named for (so installing it passes the platform check).
pub proof fn lemma_default_package_parses(os: Seq<char>, arch: Seq<char>)
    requires
        name_part(package_os(os)),
        name_part(package_arch(arch)),
    ensures
        package_of(Some(package_name(package_target(os, arch)))) == Ok::<
            (Seq<char>, Seq<char>, Seq<char>),
            PackageError,
        >(
            (
                DEFAULT_RUNTIME_VERSION@ + "_"@ + package_target(os, arch),
                DEFAULT_RUNTIME_VERSION@,
                package_target(os, arch),
            ),
        ),
{
    reveal_strlit("CLIProxyAPI_");
    reveal_strlit("6.9.36");
    reveal_strlit("_");
    reveal_strlit(".tar.gz");
    let o = package_os(os);
    let a = package_arch(arch);
    let v = DEFAULT_RUNTIME_VERSION@;
    let t = package_target(os, arch);
    let name = package_name(t);
    let base = "CLIProxyAPI_"@ + v + "_"@ + t;
    assert(name =~= base + ".tar.gz"@);
    assert(name.skip(name.len() - 7) =~= ".tar.gz"@);
    assert(ends_with(name, ".tar.gz"@));
    assert(name.take(name.len() - 7) =~= base);
    assert(base.take(12) =~= "CLIProxyAPI_"@);
    let d = v + "_"@ + o + "_"@ + a;
    assert(base.skip(12) =~= d);
    // the descriptor splits into version, os and arch
    lemma_find_char(v, '_');
    assert(find_char(v, '_') is None) by {
        if let Some(i) = find_char(v, '_') {
            assert(v[i] == '_');
        }
    }
    lemma_split_char_single(v, '_');
    lemma_split_char_single(o, '_');
    lemma_split_char_single(a, '_');
    assert(d == (v.push('_') + o).push('_') + a);
    lemma_split_char_concat(v.push('_') + o, a, '_');
    lemma_split_char_concat(v, o, '_');
    assert(split_char(d, '_') == seq![v, o, a]);
    // trimming keeps the parts
    lemma_lead_in_at(v, CharClass::Whitespace, 0);
    lemma_trail_in_at(v, CharClass::Whitespace, 0);
    assert(v.skip(0) == v && v.take(v.len() as int) == v);
    assert(t == o + "_"@ + a);
    assert(v + "_"@ + o + "_"@ + a =~= v + "_"@ + t);
    assert(trim(split_char(d, '_')[0]) == v);
    assert(trim(split_char(d, '_')[1]) == o);
    assert(trim(split_char(d, '_')[2]) == a);
}

/// A package name `CLIProxyAPI_<version>_<os>_<arch>` with either archive
/// ending reads back as that version and platform, for every version, os
/// and arch that are single trimmed names without `_`.
pub proof fn lemma_package_name_reads_back(v: Seq<char>, o: Seq<char>, a: Seq<char>, tgz: bool)
    requires
        name_part(v),
        name_part(o),
        name_part(a),
    ensures
        package_of(
            Some(
                "CLIProxyAPI_"@ + v + "_"@ + o + "_"@ + a + (if tgz {
                    ".tgz"@
                } else {
                    ".tar.gz"@
                }),
            ),
        ) == Ok::<(Seq<char>, Seq<char>, Seq<char>), PackageError>(
            (v + "_"@ + o + "_"@ + a, v, o + "_"@ + a),
        ),
{
    reveal_strlit("CLIProxyAPI_");
    reveal_strlit("_");
    reveal_strlit(".tar.gz");
    reveal_strlit(".tgz");
    let ext = if tgz {
        ".tgz"@
    } else {
        ".tar.gz"@
    };
    let base = "CLIProxyAPI_"@ + v + "_"@ + o + "_"@ + a;
    let name = base + ext;
    assert(name.skip(name.len() - ext.len()) =~= ext);
    assert(name.take(name.len() - ext.len()) =~= base);
    if tgz {
        assert(!ends_with(name, ".tar.gz"@)) by {
            if ends_with(name, ".tar.gz"@) {
                assert(name.skip(name.len() - 7)[3] == name[name.len() - 4]);
            }
        }
    }
    assert(base.take(12) =~= "CLIProxyAPI_"@);
    let d = v + "_"@ + o + "_"@ + a;
    assert(base.skip(12) =~= d);
    lemma_split_char_single(v, '_');
    lemma_split_char_single(o, '_');
    lemma_split_char_single(a, '_');
    assert(d == (v.push('_') + o).push('_') + a);
    lemma_split_char_concat(v.push('_') + o, a, '_');
    lemma_split_char_concat(v, o, '_');
    assert(split_char(d, '_') == seq![v, o, a]);
}

/// The extension test: a name `<stem>.<ext>` with a non-empty stem and an
/// extension without `.` is a JSON name exactly when the extension is
/// `json` in any ASCII case; a name without `.`, or whose only `.` starts
/// it, is none.
pub proof fn lemma_json_name(stem: Seq<char>, ext: Seq<char>)
    requires
        stem.len() > 0,
        find_char(ext, '.') is None,
    ensures
        json_name(Some(stem + seq!['.'] + ext)) == (ascii_lower(ext) == "json"@),
        find_char(stem, '.') is None ==> !json_name(Some(stem)),
        !json_name(Some(seq!['.'] + ext)),
{
    reveal_strlit("..");
    let n = stem + seq!['.'] + ext;
    lemma_rfind_after(stem + seq!['.'], ext, '.');
    assert(rfind_char(stem + seq!['.'], '.') == Some(stem.len() as int));
    assert(n.skip(stem.len() + 1 as int) =~= ext);
    reveal_strlit("json");
    if n == ".."@ {
        assert(n.len() == 2);
        assert(stem.len() == 1 && ext.len() == 0);
        assert(ascii_lower(ext).len() == 0);
    } else {
        assert(extension(n) == Some(ext));
    }
    if find_char(stem, '.') is None {
        lemma_rfind_none(stem, '.');
        if stem == ".."@ {
            lemma_find_char(stem, '.');
            assert(stem[0] == '.');
        }
    }
    let m = seq!['.'] + ext;
    lemma_rfind_after(seq!['.'], ext, '.');
    assert(rfind_char(seq!['.'], '.') == Some(0int));
}

/// The last occurrence of `c` in `x + y`, when `y` holds none, is that in `x`.
proof fn lemma_rfind_after(x: Seq<char>, y: Seq<char>, c: char)
    requires
        find_char(y, c) is None,
    ensures
        rfind_char(x + y, c) == rfind_char(x, c),
    decreases y.len(),
{
    if y.len() == 0 {
        assert(x + y =~= x);
    } else {
        lemma_find_char(y, c);
        assert(y[y.len() - 1] != c);
        let z = y.drop_last();
        lemma_find_char(z, c);
        assert(find_char(z, c) is None) by {
            if let Some(i) = find_char(z, c) {
                assert(z[i] == y[i]);
            }
        }
        assert((x + y).drop_last() =~= x + z);
        lemma_rfind_after(x, z, c);
    }
}

/// A text without `c` has no last occurrence of it.
proof fn lemma_rfind_none(s: Seq<char>, c: char)
    requires
        find_char(s, c) is None,
    ensures
        rfind_char(s, c) is None,
{
    lemma_rfind_after(Seq::empty(), s, c);
    assert(Seq::<char>::empty() + s =~= s);
}

/// An archive path is usable only without a part that climbs or starts at
/// a root; `.` parts change nothing; a named part is appended to the names.
pub proof fn lemma_relative_parts_steps(parts: Seq<PathPart>, n: String, j: int)
    ensures
        0 <= j < parts.len() && parts[j] is Other ==> relative_parts(parts) == Err::<
            Seq<Seq<char>>,
            PathError,
        >(PathError::Unsafe),
        relative_parts(parts.push(PathPart::CurDir)) == relative_parts(parts),
        relative_parts(parts) is Ok && n@.len() > 0 ==> relative_parts(parts.push(PathPart::Normal(n)))
            == Ok::<Seq<Seq<char>>, PathError>(relative_parts(parts)->Ok_0.push(n@)),
        relative_parts(parts.push(PathPart::Other)) == Err::<Seq<Seq<char>>, PathError>(
            PathError::Unsafe,
        ),
        relative_parts(Seq::<PathPart>::empty()) == Err::<Seq<Seq<char>>, PathError>(PathError::Empty),
{
    let c = parts.push(PathPart::CurDir);
    assert(c.drop_last() =~= parts);
    assert(normal_names(c) == normal_names(parts));
    assert forall|k: int| 0 <= k < c.len() && #[trigger] c[k] is Other implies 0 <= k < parts.len()
        && parts[k] is Other by {
        if k < parts.len() {
            assert(c[k] == parts[k]);
        }
    }
    if exists|k: int| 0 <= k < parts.len() && #[trigger] parts[k] is Other {
        let k = choose|k: int| 0 <= k < parts.len() && #[trigger] parts[k] is Other;
        assert(c[k] == parts[k]);
    }
    let m = parts.push(PathPart::Normal(n));
    assert(m.drop_last() =~= parts);
    assert(normal_names(m) == normal_names(parts).push(n@));
    assert forall|k: int| 0 <= k < m.len() && #[trigger] m[k] is Other implies 0 <= k < parts.len()
        && parts[k] is Other by {
        if k < parts.len() {
            assert(m[k] == parts[k]);
        }
    }
    if relative_parts(parts) is Ok && n@.len() > 0 {
        let names = normal_names(parts).push(n@);
        assert(names[names.len() - 1].len() > 0);
    }
    let o = parts.push(PathPart::Other);
    assert(o[parts.len() as int] is Other);
    if exists|k: int| 0 <= k < parts.len() && #[trigger] parts[k] is Other {
        let k = choose|k: int| 0 <= k < parts.len() && #[trigger] parts[k] is Other;
        assert(parts[k] is Other);
    }
    assert(normal_names(Seq::<PathPart>::empty()).len() == 0);
}

} // verus!
