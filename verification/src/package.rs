//! Decisions about the game package being edited.
use vstd::prelude::*;
use crate::text::{chars_of, occurs_at_exec, string_from_chars};

verus! {

/// The kind of game package, told by its file extension.
#[derive(Clone, Copy, Debug, PartialEq, Eq, Structural)]
pub enum PackageKind {
    /// An `.ipa` archive.
    Ios,
    /// An `.apk` archive.
    Android,
}

/// The characters `a`, `p`, `k`.
pub open spec fn apk_extension() -> Seq<char> {
    seq!['a', 'p', 'k']
}

/// The characters `i`, `p`, `a`.
pub open spec fn ipa_extension() -> Seq<char> {
    seq!['i', 'p', 'a']
}

/// The package kind for a file extension, or `None` when it is not supported.
pub fn package_kind(extension: &str) -> (k: Option<PackageKind>)
    ensures
        k == if extension@ == ipa_extension() {
            Some(PackageKind::Ios)
        } else if extension@ == apk_extension() {
            Some(PackageKind::Android)
        } else {
            None::<PackageKind>
        },
{
    let c = chars_of(extension);
    if c.len() != 3 {
        return None;
    }
    if c[0] == 'i' && c[1] == 'p' && c[2] == 'a' {
        assert(c@ =~= ipa_extension());
        Some(PackageKind::Ios)
    } else if c[0] == 'a' && c[1] == 'p' && c[2] == 'k' {
        assert(c@ =~= apk_extension());
        Some(PackageKind::Android)
    } else {
        assert(c@ != ipa_extension() && c@ != apk_extension()) by {
            if c@ == ipa_extension() {
                assert(c@[0] == 'i' && c@[1] == 'p' && c@[2] == 'a');
            }
            if c@ == apk_extension() {
                assert(c@[0] == 'a' && c@[1] == 'p' && c@[2] == 'k');
            }
        }
        None
    }
}

/// The name under which a file is stored in an archive: its path with the
/// archive's base directory taken off the front, or `None` when the path
/// does not start with that directory.
pub fn zip_entry_name(path: &str, base: &str) -> (name: Option<String>)
    ensures
        match name {
            Some(n) => base@.is_prefix_of(path@) && n@ == path@.subrange(
                base@.len() as int,
                path@.len() as int,
            ),
            None => !base@.is_prefix_of(path@),
        },
{
    let p = chars_of(path);
    let b = chars_of(base);
    if !occurs_at_exec(&p, &b, 0) {
        return None;
    }
    let mut rest: Vec<char> = Vec::new();
    let mut k: usize = b.len();
    while k < p.len()
        invariant
            b@.len() <= k <= p@.len(),
            rest@ == p@.subrange(b@.len() as int, k as int),
        decreases p.len() - k,
    {
        rest.push(p[k]);
        k = k + 1;
        assert(rest@ =~= p@.subrange(b@.len() as int, k as int));
    }
    Some(string_from_chars(&rest))
}

/// The exit code when the metadata check reports a missing string.
pub const CHECK_FAILED_EXIT_CODE: i32 = 114514;

/// What the waiting loop does after one look at the check's marker files.
#[derive(Clone, Copy, Debug, PartialEq, Eq, Structural)]
pub enum CheckAction {
    /// The check failed: the program exits with this code.
    Exit(i32),
    /// The check passed: the marker is removed and editing begins.
    Proceed,
    /// Neither marker is there yet: look again later.
    Wait,
}

/// Decides from the presence of the failure marker and of the success
/// marker; the failure marker wins.
pub fn check_action(failed_marker: bool, ok_marker: bool) -> (a: CheckAction)
    ensures
        a == if failed_marker {
            CheckAction::Exit(CHECK_FAILED_EXIT_CODE)
        } else if ok_marker {
            CheckAction::Proceed
        } else {
            CheckAction::Wait
        },
{
    if failed_marker {
        CheckAction::Exit(CHECK_FAILED_EXIT_CODE)
    } else if ok_marker {
        CheckAction::Proceed
    } else {
        CheckAction::Wait
    }
}

} // verus!
