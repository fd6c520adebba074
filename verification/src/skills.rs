//! The agent skill that comes with the editor.

use vstd::prelude::*;
use crate::prefs::{pref, pref_value, prefs_set, set_text};
use crate::text::{joined, same};
use crate::views::views;
use crate::words::lines_of;

verus! {

broadcast use crate::views::group_views;

/// Directories that may hold the skill, in the order they are looked at.
pub open spec fn candidates() -> Seq<Seq<char>> {
    seq![
        "/app/share/dualcut/skills/dualcut"@,
        "../skills/dualcut"@,
        "skills/dualcut"@,
    ]
}

/// The directories that may hold the skill, in the order they are looked at.
pub fn skill_candidates() -> (r: Vec<String>)
    ensures
        views(r@) == candidates(),
{
    let mut out: Vec<String> = Vec::new();
    out.push("/app/share/dualcut/skills/dualcut".to_owned());
    out.push("../skills/dualcut".to_owned());
    out.push("skills/dualcut".to_owned());
    assert(views(out@) =~= candidates());
    out
}

/// The directory that holds the skill: the first candidate that has it.
/// `has` tells of each candidate whether it does.
pub fn skill_source_dir(has: &Vec<bool>) -> (r: Option<String>)
    requires
        has@.len() == 3,
    ensures
        match r {
            Some(dir) => exists|i: int|
                0 <= i < 3 && #[trigger] has@[i] && dir@ == candidates()[i] && (forall|j: int|
                    0 <= j < i ==> !#[trigger] has@[j]),
            None => forall|i: int| 0 <= i < 3 ==> !#[trigger] has@[i],
        },
{
    let dirs: Vec<String> = skill_candidates();
    assert(dirs@.len() == candidates().len());
    let mut i: usize = 0;
    while i < 3
        invariant
            i <= 3,
            has@.len() == 3,
            dirs@.len() == 3,
            views(dirs@) == candidates(),
            forall|j: int| 0 <= j < i ==> !#[trigger] has@[j],
        decreases 3 - i,
    {
        if has[i] {
            assert(views(dirs@)[i as int] == dirs@[i as int]@);
            return Some(dirs[i].clone());
        }
        i += 1;
    }
    None
}

/// The file of the skill in a directory of skills.
pub fn skill_file(root: &str) -> (r: String)
    ensures
        r@ == root@ + "/dualcut/SKILL.md"@,
{
    joined(root, "/dualcut/SKILL.md")
}

/// The preferences after the skill was installed in a directory.
pub fn skill_installed(prefs: &str, root: &str) -> (r: String)
    ensures
        r@ == set_text(prefs@, "skill_install_dir"@, root@),
{
    prefs_set(prefs, "skill_install_dir", root)
}

/// The directory where the skill should be installed again: the one that the
/// preferences record, where the file there is not the one that comes with
/// the editor. `bundled` and `installed` are the texts of the two files, as
/// far as they can be read.
pub fn skill_update_available(
    prefs: &str,
    bundled: Option<&str>,
    installed: Option<&str>,
) -> (r: Option<String>)
    ensures
        ({
            let root = pref(lines_of(prefs@), "skill_install_dir"@);
            match r {
                Some(dir) => root == Some(dir@) && bundled is Some && installed is Some
                    && bundled->0@ != installed->0@,
                None => root is None || bundled is None || installed is None || bundled->0@
                    == installed->0@,
            }
        }),
{
    let root: String = match pref_value(prefs, "skill_install_dir") {
        Some(dir) => dir,
        None => {
            return None;
        },
    };
    match (bundled, installed) {
        (Some(b), Some(i)) => if same(b, i) {
            None
        } else {
            Some(root)
        },
        _ => None,
    }
}

} // verus!
