//! The strings that a game package must contain before it is edited.
use vstd::prelude::*;
use crate::text::{contains_seq, contains_string};
use crate::string_table::strings_view;

verus! {

/// The eight strings that the editor looks for in a package's metadata.
#[derive(Clone, Debug, PartialEq, Eq)]
pub struct TargetStrings {
    pub area_test_target: String,
    pub area_verify_target: String,
    pub aes256_key_target: String,
    pub aes256_iv_target: String,
    pub server_host_target: String,
    pub game_config_address_target: String,
    pub xsolla_purchase_address_target: String,
    pub rsa_public_key_target: String,
}

impl TargetStrings {
    /// The targets in the order in which they are checked.
    pub open spec fn target_seq(&self) -> Seq<Seq<char>> {
        seq![
            self.area_test_target@,
            self.area_verify_target@,
            self.aes256_key_target@,
            self.aes256_iv_target@,
            self.server_host_target@,
            self.game_config_address_target@,
            self.xsolla_purchase_address_target@,
            self.rsa_public_key_target@,
        ]
    }

    /// The targets, in the order in which they are checked.
    pub fn targets(&self) -> (v: Vec<String>)
        ensures
            strings_view(v@) == self.target_seq(),
    {
        let mut v: Vec<String> = Vec::new();
        v.push(self.area_test_target.clone());
        v.push(self.area_verify_target.clone());
        v.push(self.aes256_key_target.clone());
        v.push(self.aes256_iv_target.clone());
        v.push(self.server_host_target.clone());
        v.push(self.game_config_address_target.clone());
        v.push(self.xsolla_purchase_address_target.clone());
        v.push(self.rsa_public_key_target.clone());
        assert(strings_view(v@) =~= self.target_seq());
        v
    }
}

/// Some string of `strings` contains `s`.
pub open spec fn contained_in(strings: Seq<String>, s: Seq<char>) -> bool {
    exists|i: int| 0 <= i < strings.len() && #[trigger] contains_seq(strings[i]@, s)
}

/// The index of the first target that no string of `strings` contains, or
/// `None` when every target is contained in some string.
pub fn first_missing_target(strings: &Vec<String>, targets: &Vec<String>) -> (res: Option<usize>)
    ensures
        match res {
            Some(i) => i < targets@.len() && !contained_in(strings@, targets@[i as int]@)
                && forall|j: int| 0 <= j < i ==> contained_in(strings@, #[trigger] targets@[j]@),
            None => forall|j: int|
                0 <= j < targets@.len() ==> contained_in(strings@, #[trigger] targets@[j]@),
        },
{
    let mut i: usize = 0;
    while i < targets.len()
        invariant
            i <= targets@.len(),
            forall|j: int| 0 <= j < i ==> contained_in(strings@, #[trigger] targets@[j]@),
        decreases targets.len() - i,
    {
        let target = targets[i].clone();
        if !contains_string(strings, target) {
            return Some(i);
        }
        i = i + 1;
    }
    None
}

} // verus!
