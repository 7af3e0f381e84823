//! Characters, UTF-8 bytes and substring operations on strings.
use vstd::prelude::*;
use vstd::utf8::{valid_utf8, decode_utf8, encode_utf8};

verus! {

/// `needle` occurs in `hay` starting at index `k`.
pub open spec fn occurs_at(hay: Seq<char>, needle: Seq<char>, k: int) -> bool {
    0 <= k && k + needle.len() <= hay.len() && hay.subrange(k, k + needle.len()) == needle
}

/// `needle` occurs somewhere in `hay`; the empty sequence occurs in every one.
pub open spec fn contains_seq(hay: Seq<char>, needle: Seq<char>) -> bool {
    exists|k: int| #[trigger] occurs_at(hay, needle, k)
}

/// `s` with every occurrence of `from` replaced by `to`, scanning from the
/// left and resuming after each replaced occurrence. An empty `from` occurs
/// before every character and at the end.
pub open spec fn replace_all(s: Seq<char>, from: Seq<char>, to: Seq<char>) -> Seq<char>
    decreases s.len(),
{
    if from.len() == 0 {
        if s.len() == 0 {
            to
        } else {
            to + seq![s[0]] + replace_all(s.drop_first(), from, to)
        }
    } else if s.len() < from.len() {
        s
    } else if s.subrange(0, from.len() as int) == from {
        to + replace_all(s.subrange(from.len() as int, s.len() as int), from, to)
    } else {
        seq![s[0]] + replace_all(s.drop_first(), from, to)
    }
}

/// The characters of `s`, in order.
pub fn chars_of(s: &str) -> (out: Vec<char>)
    ensures
        out@ == s@,
{
    let mut out: Vec<char> = Vec::new();
    for c in it: s.chars()
        invariant
            out@ == it.seq().take(it.index()),
    {
        out.push(c);
    }
    out
}

/// Collects characters into a `String` (`FromIterator<&char>` for `String`):
/// the string holds exactly those characters, in order.
#[verifier::external_body]
pub(crate) fn string_from_chars(chars: &Vec<char>) -> (s: String)
    ensures
        s@ == chars@,
{
    chars.iter().collect()
}

/// `String::from_utf8`: it succeeds exactly when the bytes are valid UTF-8,
/// and the string then holds the characters that they encode.
#[verifier::external_body]
fn string_from_utf8(bytes: Vec<u8>) -> (res: Option<String>)
    ensures
        res is Some <==> valid_utf8(bytes@),
        res matches Some(s) ==> s@ == decode_utf8(bytes@),
{
    String::from_utf8(bytes).ok()
}

/// Decodes UTF-8 bytes into a string, or gives `None` when they are not UTF-8.
pub fn decode_utf8_string(bytes: Vec<u8>) -> (res: Option<String>)
    ensures
        res is Some <==> valid_utf8(bytes@),
        res matches Some(s) ==> s@ == decode_utf8(bytes@) && encode_utf8(s@) == bytes@,
{
    let ghost b = bytes@;
    let res = string_from_utf8(bytes);
    proof {
        if valid_utf8(b) {
            vstd::utf8::decode_utf8_encode_utf8(b);
        }
    }
    res
}

/// The UTF-8 bytes of `s`.
pub fn utf8_bytes(s: &String) -> (out: Vec<u8>)
    ensures
        out@ == encode_utf8(s@),
        valid_utf8(out@),
        decode_utf8(out@) == s@,
{
    let out = vstd::slice::slice_to_vec(s.as_str().as_bytes());
    proof {
        vstd::utf8::encode_utf8_valid_utf8(s@);
        vstd::utf8::encode_utf8_decode_utf8(s@);
    }
    out
}

/// Whether `needle` occurs in `hay` at index `k`.
pub(crate) fn occurs_at_exec(hay: &Vec<char>, needle: &Vec<char>, k: usize) -> (b: bool)
    ensures
        b == occurs_at(hay@, needle@, k as int),
{
    if k > hay.len() || needle.len() > hay.len() - k {
        return false;
    }
    let mut j: usize = 0;
    while j < needle.len()
        invariant
            k + needle.len() <= hay.len(),
            j <= needle.len(),
            forall|t: int| 0 <= t < j ==> hay@[k + t] == needle@[t],
        decreases needle.len() - j,
    {
        if hay[k + j] != needle[j] {
            assert(hay@.subrange(k as int, k + needle.len())[j as int] != needle@[j as int]);
            return false;
        }
        j = j + 1;
    }
    assert(hay@.subrange(k as int, k + needle@.len()) =~= needle@);
    true
}

/// Whether `needle` occurs anywhere in `hay`.
pub fn contains_chars(hay: &Vec<char>, needle: &Vec<char>) -> (b: bool)
    ensures
        b == contains_seq(hay@, needle@),
{
    if needle.len() > hay.len() {
        assert forall|k: int| !#[trigger] occurs_at(hay@, needle@, k) by {}
        return false;
    }
    let last: usize = hay.len() - needle.len();
    let mut k: usize = 0;
    while k <= last
        invariant
            last == hay.len() - needle.len(),
            forall|t: int| 0 <= t < k ==> !#[trigger] occurs_at(hay@, needle@, t),
        decreases last + 1 - k,
    {
        if occurs_at_exec(hay, needle, k) {
            return true;
        }
        if k == last {
            assert forall|t: int| !#[trigger] occurs_at(hay@, needle@, t) by {}
            return false;
        }
        k = k + 1;
    }
    false
}

/// Whether any string of `v` contains `s`.
pub fn contains_string(v: &Vec<String>, s: String) -> (found: bool)
    ensures
        found == exists|i: int| 0 <= i < v@.len() && #[trigger] contains_seq(v@[i]@, s@),
{
    let needle = chars_of(s.as_str());
    let mut i: usize = 0;
    while i < v.len()
        invariant
            needle@ == s@,
            i <= v@.len(),
            forall|j: int| 0 <= j < i ==> !#[trigger] contains_seq(v@[j]@, s@),
        decreases v.len() - i,
    {
        let hay = chars_of(v[i].as_str());
        if contains_chars(&hay, &needle) {
            return true;
        }
        i = i + 1;
    }
    false
}

/// `s` with every occurrence of `from` replaced by `to`.
pub fn replace_chars(s: &Vec<char>, from: &Vec<char>, to: &Vec<char>) -> (out: Vec<char>)
    ensures
        out@ == replace_all(s@, from@, to@),
{
    let mut out: Vec<char> = Vec::new();
    let mut i: usize = 0;
    let m = from.len();
    assert(s@.subrange(0, s@.len() as int) =~= s@);
    assert(out@ + replace_all(s@, from@, to@) =~= replace_all(s@, from@, to@));
    while i < s.len()
        invariant
            m == from@.len(),
            i <= s@.len(),
            replace_all(s@, from@, to@) == out@ + replace_all(
                s@.subrange(i as int, s@.len() as int),
                from@,
                to@,
            ),
        decreases s.len() - i,
    {
        let ghost rest = s@.subrange(i as int, s@.len() as int);
        let ghost before = out@;
        if m == 0 {
            append_copy(&mut out, to);
            out.push(s[i]);
            i = i + 1;
            assert(rest.drop_first() =~= s@.subrange(i as int, s@.len() as int));
            assert(out@ =~= before + to@ + seq![rest[0]]);
        } else if occurs_at_exec(s, from, i) {
            append_copy(&mut out, to);
            i = i + m;
            assert(rest.subrange(0, m as int) =~= s@.subrange(i - m, i as int));
            assert(rest.subrange(m as int, rest.len() as int) =~= s@.subrange(
                i as int,
                s@.len() as int,
            ));
        } else {
            out.push(s[i]);
            i = i + 1;
            proof {
                if rest.len() >= m {
                    assert(rest.subrange(0, m as int) =~= s@.subrange(i - 1, i - 1 + m));
                } else {
                    assert(rest.drop_first().len() < m);
                }
            }
            assert(rest.drop_first() =~= s@.subrange(i as int, s@.len() as int));
            assert(out@ =~= before + seq![rest[0]]);
        }
    }
    let ghost rest = s@.subrange(i as int, s@.len() as int);
    assert(rest.len() == 0);
    if m == 0 {
        append_copy(&mut out, to);
    } else {
        assert(out@ + rest =~= out@);
    }
    out
}

/// Appends a copy of `extra` to `out`.
fn append_copy(out: &mut Vec<char>, extra: &Vec<char>)
    ensures
        final(out)@ == old(out)@ + extra@,
{
    let mut j: usize = 0;
    while j < extra.len()
        invariant
            j <= extra@.len(),
            out@ == old(out)@ + extra@.subrange(0, j as int),
        decreases extra.len() - j,
    {
        out.push(extra[j]);
        j = j + 1;
        assert(out@ =~= old(out)@ + extra@.subrange(0, j as int));
    }
    assert(extra@.subrange(0, extra@.len() as int) =~= extra@);
}

/// Replaces, in every string of `vec`, each occurrence of `pattern` by `replacement`.
pub fn replace_strings(vec: &mut Vec<String>, pattern: &str, replacement: &str)
    ensures
        final(vec)@.len() == old(vec)@.len(),
        forall|i: int|
            0 <= i < final(vec)@.len() ==> #[trigger] final(vec)@[i]@ == replace_all(
                old(vec)@[i]@,
                pattern@,
                replacement@,
            ),
{
    let from = chars_of(pattern);
    let to = chars_of(replacement);
    let mut i: usize = 0;
    while i < vec.len()
        invariant
            from@ == pattern@,
            to@ == replacement@,
            i <= vec@.len(),
            vec@.len() == old(vec)@.len(),
            forall|j: int| 0 <= j < i ==> #[trigger] vec@[j]@ == replace_all(old(vec)@[j]@, pattern@, replacement@),
            forall|j: int| i <= j < vec@.len() ==> #[trigger] vec@[j] == old(vec)@[j],
        decreases vec.len() - i,
    {
        let current = chars_of(vec[i].as_str());
        let replaced = replace_chars(&current, &from, &to);
        let s = string_from_chars(&replaced);
        vec.set(i, s);
        i = i + 1;
    }
}

} // verus!
