use riz_package_tools::package::{
    check_action, package_kind, zip_entry_name, CheckAction, PackageKind, CHECK_FAILED_EXIT_CODE,
};
use riz_package_tools::targets::{first_missing_target, TargetStrings};
use riz_package_tools::text::{chars_of, contains_string, replace_strings};

fn strings(v: &[&str]) -> Vec<String> {
    v.iter().map(|s| s.to_string()).collect()
}

#[test]
fn contains_string_finds_substrings() {
    let v = strings(&["hello world", "foo"]);
    assert!(contains_string(&v, "lo wo".to_string()));
    assert!(contains_string(&v, "foo".to_string()));
    assert!(!contains_string(&v, "bar".to_string()));
    assert!(contains_string(&v, String::new()));
    assert!(!contains_string(&Vec::new(), String::new()));
}

#[test]
fn replace_strings_replaces_every_occurrence() {
    let mut v = strings(&["aaa", "abcabc", "none", "你好你"]);
    replace_strings(&mut v, "a", "xy");
    assert_eq!(v, strings(&["xyxyxy", "xybcxybc", "none", "你好你"]));
    let mut w = strings(&["aaaa", "你好你"]);
    replace_strings(&mut w, "aa", "b");
    replace_strings(&mut w, "你", "!");
    assert_eq!(w, strings(&["bb", "!好!"]));
}

#[test]
fn replace_strings_agrees_with_str_replace() {
    let cases = ["", "abc", "aaaa", "abab", "héllo", "xyzxyz"];
    let patterns = [("", "-"), ("a", ""), ("ab", "ba"), ("aa", "a"), ("l", "LL"), ("zx", "")];
    for (p, r) in patterns {
        let mut v = strings(&cases);
        replace_strings(&mut v, p, r);
        let expected: Vec<String> = cases.iter().map(|s| s.replace(p, r)).collect();
        assert_eq!(v, expected);
    }
}

#[test]
fn replace_with_empty_pattern_surrounds_each_char() {
    let mut v = strings(&["abc", ""]);
    replace_strings(&mut v, "", "x");
    assert_eq!(v, strings(&["xaxbxcx", "x"]));
}

#[test]
fn chars_of_lists_characters() {
    assert_eq!(chars_of("aé你"), vec!['a', 'é', '你']);
}

fn sample_targets() -> TargetStrings {
    TargetStrings {
        area_test_target: "t1".to_string(),
        area_verify_target: "t2".to_string(),
        aes256_key_target: "t3".to_string(),
        aes256_iv_target: "t4".to_string(),
        server_host_target: "t5".to_string(),
        game_config_address_target: "t6".to_string(),
        xsolla_purchase_address_target: "t7".to_string(),
        rsa_public_key_target: "t8".to_string(),
    }
}

#[test]
fn targets_come_in_check_order() {
    assert_eq!(sample_targets().targets(), strings(&["t1", "t2", "t3", "t4", "t5", "t6", "t7", "t8"]));
}

#[test]
fn first_missing_target_reports_the_first_absent_one() {
    let targets = sample_targets().targets();
    let all = strings(&["xx t1 t2 t3 t4", "t5t6t7t8"]);
    assert_eq!(first_missing_target(&all, &targets), None);
    let some = strings(&["t1 t2 t4", "t6"]);
    assert_eq!(first_missing_target(&some, &targets), Some(2));
}

#[test]
fn package_kind_by_extension() {
    assert_eq!(package_kind("ipa"), Some(PackageKind::Ios));
    assert_eq!(package_kind("apk"), Some(PackageKind::Android));
    assert_eq!(package_kind("zip"), None);
    assert_eq!(package_kind("IPA"), None);
    assert_eq!(package_kind("apks"), None);
}

#[test]
fn check_action_prefers_failure() {
    assert_eq!(check_action(true, true), CheckAction::Exit(CHECK_FAILED_EXIT_CODE));
    assert_eq!(check_action(true, false), CheckAction::Exit(114514));
    assert_eq!(check_action(false, true), CheckAction::Proceed);
    assert_eq!(check_action(false, false), CheckAction::Wait);
}

#[test]
fn zip_entry_name_strips_the_base() {
    assert_eq!(
        zip_entry_name("cache/ipaUnZip/Payload/a.bin", "cache/ipaUnZip/"),
        Some("Payload/a.bin".to_string())
    );
    assert_eq!(zip_entry_name("other/a.bin", "cache/"), None);
    assert_eq!(zip_entry_name("cache/", "cache/"), Some(String::new()));
}
