//! What searching strings means, stated over character positions.
use vstd::prelude::*;
use crate::text::{contains_seq, occurs_at, replace_all};
use crate::targets::{contained_in, TargetStrings};

verus! {

/// A needle is contained in a string exactly when all of its characters
/// occur, in order and contiguously, at some position wholly inside the
/// string.
pub proof fn law_contains_means_occurrence(hay: Seq<char>, needle: Seq<char>)
    ensures
        contains_seq(hay, needle) <==> exists|k: int|
            0 <= k && k + needle.len() <= hay.len() && #[trigger] hay.subrange(
                k,
                k + needle.len(),
            ) == needle,
{
    if contains_seq(hay, needle) {
        let k = choose|k: int| #[trigger] occurs_at(hay, needle, k);
        assert(hay.subrange(k, k + needle.len()) == needle);
    }
    if exists|k: int|
        0 <= k && k + needle.len() <= hay.len() && #[trigger] hay.subrange(k, k + needle.len())
            == needle {
        let k = choose|k: int|
            0 <= k && k + needle.len() <= hay.len() && #[trigger] hay.subrange(k, k + needle.len())
                == needle;
        assert(occurs_at(hay, needle, k));
    }
}

/// A target counts as present in a list of strings exactly when one single
/// string of the list holds it at some position; a match that would run
/// from one string into the next does not count.
pub proof fn law_present_means_within_one_string(strings: Seq<String>, s: Seq<char>)
    ensures
        contained_in(strings, s) <==> exists|i: int, k: int|
            0 <= i < strings.len() && 0 <= k && k + s.len() <= strings[i]@.len()
                && #[trigger] strings[i]@.subrange(k, k + s.len()) == s,
{
    if contained_in(strings, s) {
        let i = choose|i: int| 0 <= i < strings.len() && #[trigger] contains_seq(strings[i]@, s);
        law_contains_means_occurrence(strings[i]@, s);
        let k = choose|k: int|
            0 <= k && k + s.len() <= strings[i]@.len() && #[trigger] strings[i]@.subrange(
                k,
                k + s.len(),
            ) == s;
        assert(strings[i]@.subrange(k, k + s.len()) == s);
    }
    if exists|i: int, k: int|
        0 <= i < strings.len() && 0 <= k && k + s.len() <= strings[i]@.len()
            && #[trigger] strings[i]@.subrange(k, k + s.len()) == s {
        let (i, k) = choose|i: int, k: int|
            0 <= i < strings.len() && 0 <= k && k + s.len() <= strings[i]@.len()
                && #[trigger] strings[i]@.subrange(k, k + s.len()) == s;
        law_contains_means_occurrence(strings[i]@, s);
        assert(contains_seq(strings[i]@, s));
    }
}

/// A string that starts with a non-empty pattern has that occurrence
/// replaced, and the replacing carries on right after it.
pub proof fn law_replace_leading_occurrence(from: Seq<char>, to: Seq<char>, s: Seq<char>)
    requires
        from.len() > 0,
    ensures
        replace_all(from + s, from, to) == to + replace_all(s, from, to),
{
    let whole = from + s;
    assert(whole.subrange(0, from.len() as int) =~= from);
    assert(whole.subrange(from.len() as int, whole.len() as int) =~= s);
}

/// A character at which no occurrence of a non-empty pattern starts is kept,
/// and the replacing carries on from the next character.
pub proof fn law_replace_keeps_other_characters(from: Seq<char>, to: Seq<char>, c: char, s: Seq<char>)
    requires
        from.len() > 0,
        from.len() > s.len() + 1 || (seq![c] + s).subrange(0, from.len() as int) != from,
    ensures
        replace_all(seq![c] + s, from, to) == seq![c] + replace_all(s, from, to),
{
    let whole = seq![c] + s;
    assert(whole.drop_first() =~= s);
    if whole.len() >= from.len() {
        assert(whole.subrange(0, from.len() as int) != from);
    } else {
        law_short_string_unchanged(whole, from, to);
        law_short_string_unchanged(s, from, to);
    }
}

/// A string shorter than a non-empty pattern is left as it is.
pub proof fn law_short_string_unchanged(s: Seq<char>, from: Seq<char>, to: Seq<char>)
    requires
        s.len() < from.len(),
    ensures
        replace_all(s, from, to) == s,
{
}

/// An empty pattern occurs before every character and at the end: the
/// replacement is put there, and the characters are kept.
pub proof fn law_replace_empty_pattern(to: Seq<char>, c: char, s: Seq<char>)
    ensures
        replace_all(Seq::<char>::empty(), Seq::<char>::empty(), to) == to,
        replace_all(seq![c] + s, Seq::<char>::empty(), to) == to + seq![c] + replace_all(
            s,
            Seq::<char>::empty(),
            to,
        ),
{
    let whole = seq![c] + s;
    assert(whole.drop_first() =~= s);
}

/// Replacing a non-empty pattern by itself leaves every string as it was.
pub proof fn law_replace_by_itself(s: Seq<char>, from: Seq<char>)
    requires
        from.len() > 0,
    ensures
        replace_all(s, from, from) == s,
    decreases s.len(),
{
    if s.len() < from.len() {
    } else if s.subrange(0, from.len() as int) == from {
        let rest = s.subrange(from.len() as int, s.len() as int);
        law_replace_by_itself(rest, from);
        assert(from + rest =~= s);
    } else {
        law_replace_by_itself(s.drop_first(), from);
        assert(seq![s[0]] + s.drop_first() =~= s);
    }
}

/// The targets are checked in this order: the area test, the area
/// verification, the AES-256 key, the AES-256 IV, the server host, the game
/// configuration address, the Xsolla purchase address, the RSA public key.
pub proof fn law_target_check_order(t: TargetStrings)
    ensures
        t.target_seq().len() == 8,
        t.target_seq()[0] == t.area_test_target@,
        t.target_seq()[1] == t.area_verify_target@,
        t.target_seq()[2] == t.aes256_key_target@,
        t.target_seq()[3] == t.aes256_iv_target@,
        t.target_seq()[4] == t.server_host_target@,
        t.target_seq()[5] == t.game_config_address_target@,
        t.target_seq()[6] == t.xsolla_purchase_address_target@,
        t.target_seq()[7] == t.rsa_public_key_target@,
{
}

} // verus!
