//! What a version bump does to the version fields of one manifest, held as
//! plain values: the package versions are replaced where they are the current
//! version, and the requirements of workspace dependencies on the workspace's
//! own crates have each occurrence of the current version replaced.

use vstd::prelude::*;
use crate::bump_version::{same_text, version_text, version_text_of, SemanticVersion};

verus! {

/// The `version` text of one entry of `[workspace.dependencies]`.
#[derive(Clone, Debug, PartialEq, Eq)]
pub struct DependencyVersion {
    pub name: String,
    pub version: Option<String>,
}

/// The version fields of a manifest.
#[derive(Clone, Debug, PartialEq, Eq)]
pub struct ManifestVersions {
    /// `workspace.package.version`
    pub workspace_package_version: Option<String>,
    /// `package.version`
    pub package_version: Option<String>,
    /// The entries of `[workspace.dependencies]`, in their order.
    pub workspace_dependencies: Vec<DependencyVersion>,
}

pub open spec fn text_of(o: Option<String>) -> Option<Seq<char>> {
    match o {
        Some(t) => Some(t@),
        None => None,
    }
}

pub open spec fn names_of(crates: Seq<String>) -> Seq<Seq<char>> {
    crates.map_values(|c: String| c@)
}

/// `p` occurs in `t` at position `i`.
pub open spec fn occurs_at(t: Seq<char>, p: Seq<char>, i: int) -> bool {
    0 <= i && i + p.len() <= t.len() && t.subrange(i, i + p.len()) == p
}

pub open spec fn contains_text(t: Seq<char>, p: Seq<char>) -> bool {
    exists|i: int| occurs_at(t, p, i)
}

/// `t` with each occurrence of the non-empty `p`, taken from left to right
/// without overlap, replaced by `n`.
pub open spec fn replace_all(t: Seq<char>, p: Seq<char>, n: Seq<char>) -> Seq<char>
    decreases t.len(),
{
    if p.len() == 0 || t.len() < p.len() {
        t
    } else if t.subrange(0, p.len() as int) == p {
        n + replace_all(t.subrange(p.len() as int, t.len() as int), p, n)
    } else {
        seq![t[0]] + replace_all(t.subrange(1, t.len() as int), p, n)
    }
}

/// A version field after the bump.
pub open spec fn rewritten_field(f: Option<Seq<char>>, current: Seq<char>, new: Seq<char>) -> Option<
    Seq<char>,
> {
    match f {
        Some(t) => if t == current {
            Some(new)
        } else {
            Some(t)
        },
        None => None,
    }
}

/// The `version` text of dependency `name` after the bump.
pub open spec fn rewritten_dependency(
    name: Seq<char>,
    version: Option<Seq<char>>,
    current: Seq<char>,
    new: Seq<char>,
    crates: Seq<Seq<char>>,
) -> Option<Seq<char>> {
    match version {
        Some(t) => if crates.contains(name) && contains_text(t, current) {
            Some(replace_all(t, current, new))
        } else {
            Some(t)
        },
        None => None,
    }
}

fn text_contains(t: &str, p: &str) -> (r: bool)
    ensures
        r == contains_text(t@, p@),
{
    let tl = t.unicode_len();
    let pl = p.unicode_len();
    if pl > tl {
        return false;
    }
    let mut i: usize = 0;
    while i <= tl - pl
        invariant
            pl <= tl,
            tl == t@.len(),
            pl == p@.len(),
            forall|j: int| 0 <= j < i ==> !occurs_at(t@, p@, j),
        decreases tl - pl + 1 - i,
    {
        let window = t.substring_char(i, i + pl);
        if same_text(window, p) {
            assert(occurs_at(t@, p@, i as int));
            return true;
        }
        if i == tl - pl {
            assert forall|j: int| !occurs_at(t@, p@, j) by {
                if 0 <= j < i {
                } else if j == i {
                    assert(t@.subrange(j, j + pl) == window@);
                }
            }
            return false;
        }
        i = i + 1;
    }
    false
}

fn replace_text(t: &str, p: &str, n: &str) -> (r: String)
    requires
        p@.len() > 0,
    ensures
        r@ == replace_all(t@, p@, n@),
{
    let tl = t.unicode_len();
    let pl = p.unicode_len();
    let mut out = String::new();
    let mut i: usize = 0;
    assert(t@.subrange(0, tl as int) =~= t@);
    while i < tl
        invariant
            i <= tl,
            tl == t@.len(),
            pl == p@.len(),
            pl > 0,
            out@ + replace_all(t@.subrange(i as int, tl as int), p@, n@) == replace_all(t@, p@, n@),
        decreases tl - i,
    {
        let ghost rest = t@.subrange(i as int, tl as int);
        if tl - i >= pl && same_text(t.substring_char(i, i + pl), p) {
            assert(rest.subrange(0, pl as int) =~= t@.subrange(i as int, i + pl));
            assert(rest.subrange(pl as int, rest.len() as int) =~= t@.subrange(i + pl, tl as int));
            let ghost before = out@;
            out.append(n);
            assert(out@ + replace_all(t@.subrange(i + pl, tl as int), p@, n@) =~= before
                + replace_all(rest, p@, n@));
            i = i + pl;
        } else {
            let c = t.substring_char(i, i + 1);
            assert(c@ =~= seq![rest[0]]);
            assert(rest.subrange(1, rest.len() as int) =~= t@.subrange(i + 1, tl as int));
            if tl - i >= pl {
                assert(rest.subrange(0, pl as int) =~= t@.subrange(i as int, i + pl));
            } else {
                let ghost tail = rest.subrange(1, rest.len() as int);
                assert(replace_all(tail, p@, n@) == tail);
                assert(rest =~= seq![rest[0]] + tail);
            }
            let ghost before = out@;
            out.append(c);
            assert(out@ + replace_all(t@.subrange(i + 1, tl as int), p@, n@) =~= before
                + replace_all(rest, p@, n@));
            i = i + 1;
        }
    }
    assert(t@.subrange(tl as int, tl as int) =~= Seq::<char>::empty());
    assert(out@ + Seq::<char>::empty() =~= out@);
    out
}

fn is_listed(crates: &Vec<String>, name: &str) -> (r: bool)
    ensures
        r == names_of(crates@).contains(name@),
{
    let mut j: usize = 0;
    while j < crates.len()
        invariant
            j <= crates@.len(),
            forall|k: int| 0 <= k < j ==> crates@[k]@ != name@,
        decreases crates@.len() - j,
    {
        if same_text(crates[j].as_str(), name) {
            assert(names_of(crates@)[j as int] == name@);
            return true;
        }
        j = j + 1;
    }
    assert forall|k: int| 0 <= k < names_of(crates@).len() implies names_of(crates@)[k] != name@ by {
        assert(names_of(crates@)[k] == crates@[k]@);
    }
    false
}

fn rewrite_field(f: &Option<String>, current: &String, new: &String) -> (r: Option<String>)
    ensures
        text_of(r) == rewritten_field(text_of(*f), current@, new@),
{
    match f {
        Some(t) => if same_text(t.as_str(), current.as_str()) {
            Some(new.clone())
        } else {
            Some(t.clone())
        },
        None => None,
    }
}

/// The version fields of a manifest after bumping the workspace from
/// `current` to `new`. `crates` names the crates of the workspace.
pub fn rewrite_manifest_versions(
    m: &ManifestVersions,
    current: &SemanticVersion,
    new: &SemanticVersion,
    crates: &Vec<String>,
) -> (r: ManifestVersions)
    ensures
        text_of(r.workspace_package_version) == rewritten_field(
            text_of(m.workspace_package_version),
            version_text_of(current@),
            version_text_of(new@),
        ),
        text_of(r.package_version) == rewritten_field(
            text_of(m.package_version),
            version_text_of(current@),
            version_text_of(new@),
        ),
        r.workspace_dependencies@.len() == m.workspace_dependencies@.len(),
        forall|i: int|
            0 <= i < m.workspace_dependencies@.len() ==> {
                &&& #[trigger] r.workspace_dependencies@[i].name@ == m.workspace_dependencies@[i].name@
                &&& text_of(r.workspace_dependencies@[i].version) == rewritten_dependency(
                    m.workspace_dependencies@[i].name@,
                    text_of(m.workspace_dependencies@[i].version),
                    version_text_of(current@),
                    version_text_of(new@),
                    names_of(crates@),
                )
            },
{
    let current_text = version_text(current);
    let new_text = version_text(new);
    assert(current_text@.len() > 0) by {
        assert(crate::bump_version::decimal_text(current.major as nat).len() > 0);
    }
    let workspace_package_version = rewrite_field(&m.workspace_package_version, &current_text, &new_text);
    let package_version = rewrite_field(&m.package_version, &current_text, &new_text);
    let deps = &m.workspace_dependencies;
    let mut workspace_dependencies: Vec<DependencyVersion> = Vec::new();
    let mut i: usize = 0;
    while i < deps.len()
        invariant
            i <= deps@.len(),
            workspace_dependencies@.len() == i,
            current_text@ == version_text_of(current@),
            new_text@ == version_text_of(new@),
            current_text@.len() > 0,
            forall|k: int|
                0 <= k < i ==> {
                    &&& #[trigger] workspace_dependencies@[k].name@ == deps@[k].name@
                    &&& text_of(workspace_dependencies@[k].version) == rewritten_dependency(
                        deps@[k].name@,
                        text_of(deps@[k].version),
                        current_text@,
                        new_text@,
                        names_of(crates@),
                    )
                },
        decreases deps@.len() - i,
    {
        let dep = &deps[i];
        let version = match &dep.version {
            Some(t) => if is_listed(crates, dep.name.as_str()) && text_contains(
                t.as_str(),
                current_text.as_str(),
            ) {
                Some(replace_text(t.as_str(), current_text.as_str(), new_text.as_str()))
            } else {
                Some(t.clone())
            },
            None => None,
        };
        workspace_dependencies.push(DependencyVersion { name: dep.name.clone(), version });
        i = i + 1;
    }
    ManifestVersions { workspace_package_version, package_version, workspace_dependencies }
}

} // verus!
