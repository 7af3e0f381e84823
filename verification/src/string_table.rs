//! The string literals of a metadata file as text.
use vstd::prelude::*;
use vstd::utf8::{valid_utf8, decode_utf8, encode_utf8};
use crate::metadata::{
    MetadataFile, MetadataError, parse_error, parsed_view, rebuild, rebuild_error, with_strings,
    bytes_view, check_metadata, literal_table_fits, literal_entries,
};
use crate::text::{decode_utf8_string, utf8_bytes};

verus! {

/// The characters of each string of `v`.
pub open spec fn strings_view(v: Seq<String>) -> Seq<Seq<char>> {
    Seq::new(v.len(), |i: int| v[i]@)
}

/// The UTF-8 encoding of each string of `ss`.
pub open spec fn encode_all(ss: Seq<Seq<char>>) -> Seq<Seq<u8>> {
    Seq::new(ss.len(), |i: int| encode_utf8(ss[i]))
}

/// The index of the first byte string, from index `i` on, that is not UTF-8.
pub open spec fn first_invalid_utf8(strs: Seq<Seq<u8>>, i: int) -> Option<usize>
    decreases strs.len() - i,
{
    if i < 0 || i >= strs.len() {
        None
    } else if !valid_utf8(strs[i]) {
        Some(i as usize)
    } else {
        first_invalid_utf8(strs, i + 1)
    }
}

/// The strings that the metadata file `b` holds, or why they cannot be read.
pub open spec fn read_strings_result(b: Seq<u8>) -> Result<Seq<Seq<char>>, MetadataError> {
    if parse_error(b) is Some {
        Err(parse_error(b)->Some_0)
    } else {
        let strs = parsed_view(b).strings;
        match first_invalid_utf8(strs, 0) {
            Some(i) => Err(MetadataError::InvalidUtf8(i)),
            None => Ok(Seq::new(strs.len(), |i: int| decode_utf8(strs[i]))),
        }
    }
}

/// The metadata file that results from storing the strings `ss` into `b`,
/// or why it cannot be produced.
pub open spec fn write_strings_result(b: Seq<u8>, ss: Seq<Seq<char>>) -> Result<Seq<u8>, MetadataError> {
    if parse_error(b) is Some {
        Err(parse_error(b)->Some_0)
    } else {
        match rebuild(b, with_strings(parsed_view(b), encode_all(ss))) {
            Ok((out, _, _)) => Ok(out),
            Err(e) => Err(e),
        }
    }
}

/// Why the strings of the metadata file `b` cannot be read, if they cannot.
pub open spec fn read_strings_error(b: Seq<u8>) -> Option<MetadataError> {
    match read_strings_result(b) {
        Err(e) => Some(e),
        Ok(_) => None,
    }
}

/// Why the strings `ss` cannot be stored into the metadata file `b`, if they cannot.
pub open spec fn write_strings_error(b: Seq<u8>, ss: Seq<Seq<char>>) -> Option<MetadataError> {
    match write_strings_result(b, ss) {
        Err(e) => Some(e),
        Ok(_) => None,
    }
}

/// Why the string literals of the metadata file whose contents are
/// `file_bytes` cannot be read as text, or `None` when
/// `read_strings_from_file` can read them.
pub fn check_strings(file_bytes: &Vec<u8>) -> (r: Option<MetadataError>)
    ensures
        r == read_strings_error(file_bytes@),
{
    if let Some(e) = check_metadata(file_bytes) {
        return Some(e);
    }
    let file = MetadataFile::new(file_bytes);
    let ghost strs = bytes_view(file.str_bytes@);
    let mut i: usize = 0;
    while i < file.str_bytes.len()
        invariant
            strs == bytes_view(file.str_bytes@),
            strs == parsed_view(file_bytes@).strings,
            parse_error(file_bytes@) is None,
            i <= strs.len(),
            first_invalid_utf8(strs, 0) == first_invalid_utf8(strs, i as int),
        decreases strs.len() - i,
    {
        let bytes = copy_bytes(&file.str_bytes[i]);
        if decode_utf8_string(bytes).is_none() {
            return Some(MetadataError::InvalidUtf8(i));
        }
        i = i + 1;
    }
    None
}

/// Reads the string literals of the metadata file whose contents are
/// `file_bytes`, decoding each as UTF-8; `check_strings` tells whether it can.
pub fn read_strings_from_file(file_bytes: &Vec<u8>) -> (v: Vec<String>)
    requires
        read_strings_result(file_bytes@) is Ok,
    ensures
        read_strings_result(file_bytes@) == Ok::<Seq<Seq<char>>, MetadataError>(strings_view(v@)),
{
    let file = MetadataFile::new(file_bytes);
    let ghost strs = bytes_view(file.str_bytes@);
    let mut out: Vec<String> = Vec::new();
    let mut i: usize = 0;
    while i < file.str_bytes.len()
        invariant
            strs == bytes_view(file.str_bytes@),
            strs == parsed_view(file_bytes@).strings,
            parse_error(file_bytes@) is None,
            i <= strs.len(),
            first_invalid_utf8(strs, i as int) is None,
            strings_view(out@) == Seq::new(i as nat, |j: int| decode_utf8(strs[j])),
        decreases strs.len() - i,
    {
        let bytes = copy_bytes(&file.str_bytes[i]);
        assert(valid_utf8(strs[i as int]));
        match decode_utf8_string(bytes) {
            Some(s) => {
                let ghost prev = strings_view(out@);
                let ghost sv = s@;
                out.push(s);
                assert(strings_view(out@) =~= prev.push(sv));
            },
            None => {},
        }
        i = i + 1;
        assert(strings_view(out@) =~= Seq::new(i as nat, |j: int| decode_utf8(strs[j])));
    }
    assert(strings_view(out@) =~= Seq::new(strs.len(), |j: int| decode_utf8(strs[j])));
    out
}

/// Copies a byte vector.
fn copy_bytes(v: &Vec<u8>) -> (out: Vec<u8>)
    ensures
        out@ == v@,
{
    let mut out: Vec<u8> = Vec::new();
    let mut k: usize = 0;
    while k < v.len()
        invariant
            k <= v@.len(),
            out@ == v@.subrange(0, k as int),
        decreases v.len() - k,
    {
        out.push(v[k]);
        k = k + 1;
        assert(out@ =~= v@.subrange(0, k as int));
    }
    assert(v@.subrange(0, v@.len() as int) =~= v@);
    out
}

/// The UTF-8 bytes of each string.
fn encode_strings(v: &Vec<String>) -> (out: Vec<Vec<u8>>)
    ensures
        bytes_view(out@) == encode_all(strings_view(v@)),
{
    let mut out: Vec<Vec<u8>> = Vec::new();
    let mut i: usize = 0;
    while i < v.len()
        invariant
            i <= v@.len(),
            bytes_view(out@) == encode_all(strings_view(v@)).take(i as int),
        decreases v.len() - i,
    {
        let b = utf8_bytes(&v[i]);
        let ghost prev = bytes_view(out@);
        let ghost bv = b@;
        out.push(b);
        assert(bytes_view(out@) =~= prev.push(bv));
        i = i + 1;
        assert(bytes_view(out@) =~= encode_all(strings_view(v@)).take(i as int));
    }
    assert(encode_all(strings_view(v@)).take(i as int) =~= encode_all(strings_view(v@)));
    out
}

/// The UTF-8 bytes of each string.
pub fn convert_vecstring_to_vecglobalvecu8global(v: Vec<String>) -> (out: Vec<Vec<u8>>)
    ensures
        bytes_view(out@) == encode_all(strings_view(v@)),
{
    encode_strings(&v)
}

/// The file read from `file_bytes`, with `strings` in place of its literals.
fn with_new_strings(file_bytes: &Vec<u8>, strings: &Vec<String>) -> (file: MetadataFile)
    requires
        parse_error(file_bytes@) is None,
    ensures
        file@ == with_strings(parsed_view(file_bytes@), encode_all(strings_view(strings@))),
        file.string_literal_offset + 8 * file.string_literals@.len() <= usize::MAX,
        file.data_info_position + 8 <= usize::MAX,
{
    let mut file = MetadataFile::new(file_bytes);
    assert(literal_table_fits(file_bytes@, file.string_literal_offset, file.string_literal_count));
    assert(file.string_literals@.len() == literal_entries(file.string_literal_count));
    assert(file_bytes@.len() == file_bytes.len());
    file.str_bytes = encode_strings(strings);
    file
}

/// Why `strings` cannot be stored into the metadata file whose contents are
/// `file_bytes`, or `None` when `write_strings_to_file` can store them.
pub fn check_write_strings(file_bytes: &Vec<u8>, strings: &Vec<String>) -> (r: Option<MetadataError>)
    ensures
        r == write_strings_error(file_bytes@, strings_view(strings@)),
{
    if let Some(e) = check_metadata(file_bytes) {
        return Some(e);
    }
    let file = with_new_strings(file_bytes, strings);
    let r = file.rewrite_error(file_bytes);
    proof {
        reveal(rebuild);
    }
    r
}

/// Produces the metadata file that results from storing `strings` into the
/// one whose contents are `file_bytes`; `check_write_strings` tells whether
/// it can.
pub fn write_strings_to_file(file_bytes: &Vec<u8>, strings: Vec<String>) -> (out: Vec<u8>)
    requires
        write_strings_result(file_bytes@, strings_view(strings@)) is Ok,
    ensures
        write_strings_result(file_bytes@, strings_view(strings@)) == Ok::<Seq<u8>, MetadataError>(
            out@,
        ),
{
    proof {
        reveal(rebuild);
    }
    let mut file = with_new_strings(file_bytes, &strings);
    file.write_to_new_file(file_bytes)
}

} // verus!
