//! Where the runtime looks for the entry script: a path inside the asset
//! directory, and whether its file changed since it was loaded.

use vstd::prelude::*;
use vstd::string::*;

verus! {

/// One component of a path, as `std::path::Component` gives it.
#[derive(Debug, PartialEq, Eq)]
pub enum PathPart {
    /// A Windows prefix such as `C:`: first as std parses it (the `Debug`
    /// form of `std::path::Prefix`, in which a drive letter is upper case),
    /// then as written. Two prefixes are the same component when their
    /// parses are equal, as std compares them: `c:` and `C:` are one drive.
    Prefix(String, String),
    /// The root directory.
    RootDir,
    /// `.` at the start of a relative path.
    CurDir,
    /// `..`.
    ParentDir,
    /// A file or directory name.
    Normal(String),
}

/// The content of a path component, as std compares components: a prefix
/// by its parse alone.
pub enum PartView {
    Prefix(Seq<char>),
    RootDir,
    CurDir,
    ParentDir,
    Normal(Seq<char>),
}

/// The content of a path component.
pub open spec fn part_view(p: PathPart) -> PartView {
    match p {
        PathPart::Prefix(parsed, _) => PartView::Prefix(parsed@),
        PathPart::RootDir => PartView::RootDir,
        PathPart::CurDir => PartView::CurDir,
        PathPart::ParentDir => PartView::ParentDir,
        PathPart::Normal(s) => PartView::Normal(s@),
    }
}

/// The contents of a sequence of components.
pub open spec fn parts_view(s: Seq<PathPart>) -> Seq<PartView> {
    s.map_values(|p: PathPart| part_view(p))
}

/// The components that `std::path::Path::components` yields for `path`.
pub uninterp spec fn path_components(path: Seq<char>) -> Seq<PathPart>;

/// What `std::path::Path::is_absolute` answers for `path`.
pub uninterp spec fn path_is_absolute(path: Seq<char>) -> bool;

/// Calls `std::path::Path::components` and converts each component one for
/// one (a prefix by the `Debug` form of its parse and by its text). The
/// result is named by `path_components`.
#[verifier::external_body]
fn components_of(path: &str) -> (r: Vec<PathPart>)
    ensures
        r@ == path_components(path@),
{
    std::path::Path::new(path).components().map(|c| match c {
        std::path::Component::Prefix(p) => {
            PathPart::Prefix(format!("{:?}", p.kind()), p.as_os_str().to_string_lossy().into_owned())
        },
        std::path::Component::RootDir => PathPart::RootDir,
        std::path::Component::CurDir => PathPart::CurDir,
        std::path::Component::ParentDir => PathPart::ParentDir,
        std::path::Component::Normal(n) => PathPart::Normal(n.to_string_lossy().into_owned()),
    }).collect()
}

/// Calls `std::path::Path::is_absolute`. The result is named by
/// `path_is_absolute`.
#[verifier::external_body]
pub(crate) fn is_absolute(path: &str) -> (r: bool)
    ensures
        r == path_is_absolute(path@),
{
    std::path::Path::new(path).is_absolute()
}

/// Whether the components `base` begin `path` (whole components only).
pub open spec fn starts_with(path: Seq<PartView>, base: Seq<PartView>) -> bool {
    base.len() <= path.len() && path.take(base.len() as int) == base
}

/// The error for an absolute script path outside the asset root.
pub open spec fn outside_root_message(root: Seq<char>) -> Seq<char> {
    "script must be inside "@ + root
}

/// The error for a script path that names no file inside the asset root.
pub open spec fn not_a_file_message() -> Seq<char> {
    "script path must point to a file inside the asset directory"@
}

/// The script path relative to the asset root, as components, or the error,
/// from the components of the script path (`parts`), whether it is absolute,
/// the components of the asset root and those of `assets`.
///
/// An absolute path must lie under the root and loses it; a relative path
/// loses a leading `assets` component. What is left must name something (have
/// a component) and must not climb with `..`.
pub open spec fn normalized_parts(
    parts: Seq<PartView>,
    absolute: bool,
    root_parts: Seq<PartView>,
    assets_parts: Seq<PartView>,
    root: Seq<char>,
) -> Result<Seq<PartView>, Seq<char>> {
    if absolute && !starts_with(parts, root_parts) {
        Err(outside_root_message(root))
    } else {
        let relative = if absolute {
            parts.skip(root_parts.len() as int)
        } else if starts_with(parts, assets_parts) {
            parts.skip(assets_parts.len() as int)
        } else {
            parts
        };
        if relative.len() == 0 || relative.contains(PartView::ParentDir) {
            Err(not_a_file_message())
        } else {
            Ok(relative)
        }
    }
}

/// The script path relative to the asset root, as components, or the error.
pub open spec fn normalized_script_path(root: Seq<char>, path: Seq<char>) -> Result<Seq<PartView>, Seq<char>> {
    normalized_parts(
        parts_view(path_components(path)),
        path_is_absolute(path),
        parts_view(path_components(root)),
        parts_view(path_components("assets"@)),
        root,
    )
}

fn same_part(a: &PathPart, b: &PathPart) -> (r: bool)
    ensures
        r == (part_view(*a) == part_view(*b)),
{
    match (a, b) {
        (PathPart::Prefix(x, _), PathPart::Prefix(y, _)) => x.eq(y),
        (PathPart::RootDir, PathPart::RootDir) => true,
        (PathPart::CurDir, PathPart::CurDir) => true,
        (PathPart::ParentDir, PathPart::ParentDir) => true,
        (PathPart::Normal(x), PathPart::Normal(y)) => x.eq(y),
        _ => false,
    }
}

/// Whether `base` begins `path`.
fn parts_start_with(path: &Vec<PathPart>, base: &Vec<PathPart>) -> (r: bool)
    ensures
        r == starts_with(parts_view(path@), parts_view(base@)),
{
    if base.len() > path.len() {
        return false;
    }
    let n = base.len();
    for i in 0..n
        invariant
            n == base@.len(),
            n <= path@.len(),
            forall|j: int| 0 <= j < i ==> part_view(path@[j]) == part_view(base@[j]),
    {
        if !same_part(&path[i], &base[i]) {
            proof {
                assert(parts_view(path@).take(n as int)[i as int] != parts_view(base@)[i as int]);
            }
            return false;
        }
    }
    proof {
        assert(parts_view(path@).take(n as int) =~= parts_view(base@));
    }
    true
}

/// Moves out the components from position `start` on.
fn split_off_parts(parts: Vec<PathPart>, start: usize) -> (r: Vec<PathPart>)
    requires
        start <= parts@.len(),
    ensures
        parts_view(r@) == parts_view(parts@).skip(start as int),
{
    let mut parts = parts;
    let r = parts.split_off(start);
    proof {
        assert(parts_view(r@) =~= parts_view(parts@.add(r@)).skip(start as int));
    }
    r
}

/// Whether some component is `..`.
fn has_parent_dir(parts: &Vec<PathPart>) -> (r: bool)
    ensures
        r == parts_view(parts@).contains(PartView::ParentDir),
{
    let n = parts.len();
    for i in 0..n
        invariant
            n == parts@.len(),
            forall|j: int| 0 <= j < i ==> part_view(parts@[j]) != PartView::ParentDir,
    {
        if let PathPart::ParentDir = parts[i] {
            proof {
                assert(parts_view(parts@)[i as int] == PartView::ParentDir);
            }
            return true;
        }
    }
    proof {
        assert forall|j: int| 0 <= j < n implies parts_view(parts@)[j] != PartView::ParentDir by {}
    }
    false
}

/// Whether some component of `path` is `..`.
pub fn climbs(path: &str) -> (r: bool)
    ensures
        r == parts_view(path_components(path@)).contains(PartView::ParentDir),
{
    let parts = components_of(path);
    has_parent_dir(&parts)
}

/// Resolves the components of an entry script path (`parts`, absolute or
/// not) against those of the asset root (`root_parts`, written `asset_root`)
/// and those of `assets`.
pub fn normalize_parts(
    parts: Vec<PathPart>,
    absolute: bool,
    root_parts: &Vec<PathPart>,
    assets_parts: &Vec<PathPart>,
    asset_root: &str,
) -> (r: Result<Vec<PathPart>, String>)
    ensures
        match r {
            Ok(rel) => normalized_parts(parts_view(parts@), absolute, parts_view(root_parts@), parts_view(assets_parts@), asset_root@)
                == Ok::<Seq<PartView>, Seq<char>>(parts_view(rel@)),
            Err(message) => normalized_parts(parts_view(parts@), absolute, parts_view(root_parts@), parts_view(assets_parts@), asset_root@)
                == Err::<Seq<PartView>, Seq<char>>(message@),
        },
{
    proof {
        reveal_strlit("script must be inside ");
        reveal_strlit("script path must point to a file inside the asset directory");
    }
    let relative = if absolute {
        if !parts_start_with(&parts, root_parts) {
            let mut message = "script must be inside ".to_owned();
            message.append(asset_root);
            return Err(message);
        }
        split_off_parts(parts, root_parts.len())
    } else {
        if parts_start_with(&parts, assets_parts) {
            split_off_parts(parts, assets_parts.len())
        } else {
            parts
        }
    };
    let climbs = has_parent_dir(&relative);
    if relative.len() == 0 || climbs {
        return Err("script path must point to a file inside the asset directory".to_owned());
    }
    Ok(relative)
}

/// Resolves the entry script path against the asset root.
pub fn normalize_script_path(asset_root: &str, path: &str) -> (r: Result<Vec<PathPart>, String>)
    ensures
        match r {
            Ok(parts) => normalized_script_path(asset_root@, path@) == Ok::<Seq<PartView>, Seq<char>>(parts_view(parts@)),
            Err(message) => normalized_script_path(asset_root@, path@) == Err::<Seq<PartView>, Seq<char>>(message@),
        },
{
    let parts = components_of(path);
    let root_parts = components_of(asset_root);
    let assets_parts = components_of("assets");
    normalize_parts(parts, is_absolute(path), &root_parts, &assets_parts, asset_root)
}

/// The error for an asset directory that does not exist.
pub open spec fn missing_asset_dir_message(root: Seq<char>) -> Seq<char> {
    "asset directory does not exist: "@ + root
}

/// What starting the app with an asset root and an entry script decides
/// before anything is built: a bad script path is reported first, then a
/// missing asset directory; otherwise the script's path inside the assets.
pub open spec fn app_paths(root: Seq<char>, path: Seq<char>, root_is_dir: bool) -> Result<Seq<PartView>, Seq<char>> {
    match normalized_script_path(root, path) {
        Err(message) => Err(message),
        Ok(relative) => if root_is_dir {
            Ok(relative)
        } else {
            Err(missing_asset_dir_message(root))
        },
    }
}

/// Checks the paths the app starts from: the entry script must lie inside
/// the asset root (see [`normalize_script_path`]), and then the asset root
/// must be a directory (`root_is_dir`, found by the caller).
pub fn resolve_app_paths(asset_root: &str, path: &str, root_is_dir: bool) -> (r: Result<Vec<PathPart>, String>)
    ensures
        match r {
            Ok(parts) => app_paths(asset_root@, path@, root_is_dir) == Ok::<Seq<PartView>, Seq<char>>(parts_view(parts@)),
            Err(message) => app_paths(asset_root@, path@, root_is_dir) == Err::<Seq<PartView>, Seq<char>>(message@),
        },
{
    let relative = normalize_script_path(asset_root, path)?;
    if !root_is_dir {
        let mut message = "asset directory does not exist: ".to_owned();
        message.append(asset_root);
        return Err(message);
    }
    Ok(relative)
}

/// Whether the script's source changed: it has a modification time now, and
/// that time differs from the one recorded. Times are nanoseconds from the
/// Unix epoch (negative before it).
pub fn source_has_changed(previous: Option<i128>, current: Option<i128>) -> (r: bool)
    ensures
        r == (current is Some && current != previous),
{
    match current {
        Some(now) => match previous {
            Some(before) => now != before,
            None => true,
        },
        None => false,
    }
}

/// What one frame of the reload watcher does.
#[derive(Debug, PartialEq, Eq)]
pub struct ReloadStep {
    /// The modification time to record from now on (`None`: keep the old one).
    pub record: Option<Option<i128>>,
    /// Whether the script asset is reloaded this frame.
    pub reload: bool,
}

/// Decides one frame of the reload watcher: a changed source (see
/// [`source_has_changed`]) records its new time and reloads; a reload asked for
/// from outside reloads without recording anything.
pub fn plan_reload(recorded: Option<i128>, current: Option<i128>, requested: bool) -> (r: ReloadStep)
    ensures
        r.record == (if current is Some && current != recorded { Some(current) } else { None::<Option<i128>> }),
        r.reload == ((current is Some && current != recorded) || requested),
{
    let changed = source_has_changed(recorded, current);
    ReloadStep {
        record: if changed { Some(current) } else { None },
        reload: changed || requested,
    }
}

} // verus!
