//! Picking the manifest and lock files out of the entries of a workspace
//! tree. Each entry is a path relative to the workspace root, given as its
//! components; build output (`target`) and version-control data (`.git`) are
//! never searched.

use vstd::prelude::*;
use crate::bump_version::same_text;

verus! {

pub open spec fn is_pruned_component(c: Seq<char>) -> bool {
    c == "target"@ || c == ".git"@
}

/// `entry` is a file named `name` outside every pruned directory.
pub open spec fn is_wanted_file(entry: Seq<String>, name: Seq<char>) -> bool {
    &&& entry.len() > 0
    &&& entry.last()@ == name
    &&& forall|j: int| 0 <= j < entry.len() ==> !is_pruned_component(#[trigger] entry[j]@)
}

fn is_wanted(entry: &Vec<String>, name: &str) -> (r: bool)
    ensures
        r == is_wanted_file(entry@, name@),
{
    let n = entry.len();
    if n == 0 {
        return false;
    }
    proof {
        reveal_strlit("target");
        reveal_strlit(".git");
    }
    let mut j: usize = 0;
    while j < n
        invariant
            j <= n,
            n == entry@.len(),
            forall|k: int| 0 <= k < j ==> !is_pruned_component(#[trigger] entry@[k]@),
        decreases n - j,
    {
        let c = entry[j].as_str();
        if same_text(c, "target") || same_text(c, ".git") {
            return false;
        }
        j = j + 1;
    }
    same_text(entry[n - 1].as_str(), name)
}

/// The indices of the entries that are files named `name` outside `target`
/// and `.git`, in increasing order.
pub fn find_files_by_name(entries: &Vec<Vec<String>>, name: &str) -> (r: Vec<usize>)
    ensures
        forall|k: int|
            0 <= k < r@.len() ==> #[trigger] r@[k] < entries@.len() && is_wanted_file(entries@[r@[k] as int]@, name@),
        forall|i: int|
            0 <= i < entries@.len() && is_wanted_file(entries@[i]@, name@) ==> #[trigger] r@.contains(i as usize),
        forall|k: int, l: int| 0 <= k < l < r@.len() ==> #[trigger] r@[k] < #[trigger] r@[l],
{
    let n = entries.len();
    let mut found: Vec<usize> = Vec::new();
    let mut i: usize = 0;
    while i < n
        invariant
            i <= n,
            n == entries@.len(),
            forall|k: int|
                0 <= k < found@.len() ==> #[trigger] found@[k] < i && is_wanted_file(entries@[found@[k] as int]@, name@),
            forall|q: int| 0 <= q < i && is_wanted_file(entries@[q]@, name@) ==> #[trigger] found@.contains(q as usize),
            forall|k: int, l: int| 0 <= k < l < found@.len() ==> #[trigger] found@[k] < #[trigger] found@[l],
        decreases n - i,
    {
        if is_wanted(&entries[i], name) {
            let ghost before = found@;
            found.push(i);
            assert forall|q: int| 0 <= q < i + 1 && is_wanted_file(entries@[q]@, name@) implies #[trigger] found@.contains(
                q as usize,
            ) by {
                if q < i {
                    assert(before.contains(q as usize));
                    let k = choose|k: int| 0 <= k < before.len() && before[k] == q as usize;
                    assert(found@[k] == q as usize);
                } else {
                    assert(found@[before.len() as int] == q as usize);
                }
            }
        }
        i = i + 1;
    }
    found
}

/// The indices of the `Cargo.toml` files among `entries`.
pub fn find_all_cargo_tomls(entries: &Vec<Vec<String>>) -> (r: Vec<usize>)
    ensures
        forall|k: int|
            0 <= k < r@.len() ==> #[trigger] r@[k] < entries@.len() && is_wanted_file(
                entries@[r@[k] as int]@,
                "Cargo.toml"@,
            ),
        forall|i: int|
            0 <= i < entries@.len() && is_wanted_file(entries@[i]@, "Cargo.toml"@) ==> #[trigger] r@.contains(
                i as usize,
            ),
        forall|k: int, l: int| 0 <= k < l < r@.len() ==> #[trigger] r@[k] < #[trigger] r@[l],
{
    find_files_by_name(entries, "Cargo.toml")
}

/// The indices of the `Cargo.lock` files among `entries`.
pub fn find_all_cargo_locks(entries: &Vec<Vec<String>>) -> (r: Vec<usize>)
    ensures
        forall|k: int|
            0 <= k < r@.len() ==> #[trigger] r@[k] < entries@.len() && is_wanted_file(
                entries@[r@[k] as int]@,
                "Cargo.lock"@,
            ),
        forall|i: int|
            0 <= i < entries@.len() && is_wanted_file(entries@[i]@, "Cargo.lock"@) ==> #[trigger] r@.contains(
                i as usize,
            ),
        forall|k: int, l: int| 0 <= k < l < r@.len() ==> #[trigger] r@[k] < #[trigger] r@[l],
{
    find_files_by_name(entries, "Cargo.lock")
}

} // verus!
