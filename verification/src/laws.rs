//! Properties that relate reading and rewriting a metadata file.
use vstd::prelude::*;
use vstd::utf8::{valid_utf8, decode_utf8, encode_utf8};
use crate::string_table::{
    encode_all, first_invalid_utf8, read_strings_result, write_strings_result,
};
use crate::metadata::MetadataError;
use crate::text::{contains_seq, occurs_at, replace_all};
use crate::le_bytes::{u32_le_at, u32_le_bytes, write_at, lemma_u32_le_roundtrip};
use crate::metadata::{
    MetadataView, parse_error, parsed_view, rebuild, with_strings, lengths_total, table_bytes,
    string_error, first_string_error, literal_table, literal_at, string_at,
    header_error, StringLiteral, DATA_INFO_POSITION,
};

verus! {

/// Four bytes that hold the encoding of `v` read back as `v`.
pub proof fn lemma_u32_le_at_encoded(b: Seq<u8>, pos: int, v: u32)
    requires
        0 <= pos,
        pos + 4 <= b.len(),
        forall|k: int| 0 <= k < 4 ==> #[trigger] b[pos + k] == u32_le_bytes(v)[k],
    ensures
        u32_le_at(b, pos) == v,
{
    lemma_u32_le_roundtrip(v);
    assert(b[pos + 0] == u32_le_bytes(v)[0]);
    assert(b[pos + 1] == u32_le_bytes(v)[1]);
    assert(b[pos + 2] == u32_le_bytes(v)[2]);
    assert(b[pos + 3] == u32_le_bytes(v)[3]);
}

/// Entry `i` of a literal table built by `table_bytes` holds the length of
/// string `i` and the sum of the lengths before it.
pub proof fn lemma_table_entry(strs: Seq<Seq<u8>>, n: int, i: int)
    requires
        0 <= i < n,
    ensures
        table_bytes(strs, n).len() == 8 * n,
        forall|k: int|
            0 <= k < 4 ==> #[trigger] table_bytes(strs, n)[8 * i + k] == u32_le_bytes(
                strs[i].len() as u32,
            )[k],
        forall|k: int|
            0 <= k < 4 ==> #[trigger] table_bytes(strs, n)[8 * i + 4 + k] == u32_le_bytes(
                lengths_total(strs, i) as u32,
            )[k],
    decreases n,
{
    crate::metadata::lemma_table_bytes_len(strs, n);
    crate::metadata::lemma_table_bytes_len(strs, n - 1);
    if i < n - 1 {
        lemma_table_entry(strs, n - 1, i);
    }
}

/// The concatenation of the strings places string `i` at the sum of the
/// lengths before it.
pub proof fn lemma_flatten_layout(strs: Seq<Seq<u8>>, n: int)
    requires
        0 <= n <= strs.len(),
        forall|j: int| 0 <= j < strs.len() ==> #[trigger] strs[j].len() <= u32::MAX,
    ensures
        strs.take(n).flatten().len() == lengths_total(strs, n),
        forall|i: int, k: int|
            0 <= i < n && 0 <= k < strs[i].len() ==> #[trigger] strs.take(n).flatten()[lengths_total(
                strs,
                i,
            ) + k] == #[trigger] strs[i][k],
    decreases n,
{
    if n == 0 {
        assert(strs.take(0) =~= Seq::<Seq<u8>>::empty());
    } else {
        lemma_flatten_layout(strs, n - 1);
        assert(strs.take(n) =~= strs.take(n - 1).push(strs[n - 1]));
        strs.take(n - 1).lemma_flatten_push(strs[n - 1]);
        assert forall|i: int, k: int|
            0 <= i < n && 0 <= k < strs[i].len() implies #[trigger] strs.take(n).flatten()[lengths_total(
            strs,
            i,
        ) + k] == #[trigger] strs[i][k] by {
            let f = strs.take(n - 1).flatten();
            assert(strs.take(n).flatten() == f + strs[n - 1]);
            assert(strs[i].len() <= u32::MAX);
            crate::metadata::lemma_lengths_total_monotone(strs, 0, i);
            assert(f.len() == lengths_total(strs, n - 1));
            if i < n - 1 {
                crate::metadata::lemma_lengths_total_monotone(strs, i + 1, n - 1);
                assert(lengths_total(strs, i + 1) == lengths_total(strs, i) + strs[i].len());
                assert(lengths_total(strs, i) + k < f.len());
                assert(f[lengths_total(strs, i) + k] == strs[i][k]);
                assert((f + strs[n - 1])[lengths_total(strs, i) + k] == f[lengths_total(strs, i) + k]);
            } else {
                assert(lengths_total(strs, i) == f.len());
                assert((f + strs[n - 1])[lengths_total(strs, i) + k] == strs[n - 1][k]);
            }
        }
    }
}

/// When no literal from index `i` on is reported, none of them fails.
pub proof fn lemma_first_none_all(b: Seq<u8>, d: u32, lits: Seq<StringLiteral>, i: int)
    requires
        0 <= i,
        first_string_error(b, d, lits, i) is None,
    ensures
        forall|j: int| i <= j < lits.len() ==> #[trigger] string_error(b, d, lits[j], j) is None,
    decreases lits.len() - i,
{
    if i < lits.len() {
        lemma_first_none_all(b, d, lits, i + 1);
    }
}

/// No literal from index `i` on fails, so none is reported.
pub proof fn lemma_no_string_error(b: Seq<u8>, d: u32, lits: Seq<StringLiteral>, i: int)
    requires
        0 <= i,
        forall|j: int| i <= j < lits.len() ==> #[trigger] string_error(b, d, lits[j], j) is None,
    ensures
        first_string_error(b, d, lits, i) is None,
    decreases lits.len() - i,
{
    if i < lits.len() {
        lemma_no_string_error(b, d, lits, i + 1);
    }
}

/// The table entry that a rewrite stores for string `i`.
pub open spec fn stored_literal(strs: Seq<Seq<u8>>, i: int) -> StringLiteral {
    StringLiteral { length: strs[i].len() as u32, offset: lengths_total(strs, i) as u32 }
}

/// A byte outside the written range keeps its value, and the buffer never shrinks.
pub proof fn lemma_write_at_keeps(buf: Seq<u8>, pos: int, data: Seq<u8>, k: int)
    requires
        0 <= pos,
        0 <= k < buf.len(),
        !(pos <= k < pos + data.len()),
    ensures
        write_at(buf, pos, data).len() >= buf.len(),
        write_at(buf, pos, data)[k] == buf[k],
{
}

/// A written byte reads back.
pub proof fn lemma_write_at_new(buf: Seq<u8>, pos: int, data: Seq<u8>, k: int)
    requires
        0 <= pos,
        0 <= k < data.len(),
    ensures
        write_at(buf, pos, data).len() >= pos + data.len(),
        write_at(buf, pos, data).len() >= buf.len(),
        write_at(buf, pos, data)[pos + k] == data[k],
{
}

/// The stages of a successful rewrite: the file with the new table, the file
/// grown by the moved bytes (if any), the file with the new data, and the
/// new data offset.
pub proof fn lemma_rebuild_stages(orig: Seq<u8>, v: MetadataView) -> (st: (Seq<u8>, Seq<u8>, Seq<u8>, u32))
    requires
        rebuild(orig, v) is Ok,
    ensures
        st.0 == write_at(orig, v.lit_offset as int, table_bytes(v.strings, v.literals.len() as int)),
        st.1.len() >= st.0.len(),
        forall|k: int| 0 <= k < st.0.len() ==> #[trigger] st.1[k] == st.0[k],
        st.2 == write_at(st.1, st.3 as int, v.strings.flatten()),
        st.3 == v.data_offset || st.3 <= st.1.len(),
        st.1 == crate::metadata::rebuild_grown(orig, v),
        st.3 == crate::metadata::rebuild_offset(orig, v),
        crate::metadata::rebuild_error(orig, v) is None,
        v.strings.len() >= v.literals.len(),
        lengths_total(v.strings, v.literals.len() as int) <= u32::MAX,
        crate::metadata::aligned_count(
            v.data_offset,
            lengths_total(v.strings, v.literals.len() as int),
        ) <= u32::MAX,
        rebuild(orig, v) == Ok::<(Seq<u8>, u32, u32), crate::metadata::MetadataError>(
            (
                write_at(
                    st.2,
                    v.data_info_position as int,
                    u32_le_bytes(st.3) + u32_le_bytes(
                        crate::metadata::aligned_count(
                            v.data_offset,
                            lengths_total(v.strings, v.literals.len() as int),
                        ) as u32,
                    ),
                ),
                st.3,
                crate::metadata::aligned_count(
                    v.data_offset,
                    lengths_total(v.strings, v.literals.len() as int),
                ) as u32,
            ),
        ),
{
    reveal(rebuild);
    let grown = crate::metadata::rebuild_grown(orig, v);
    let off = crate::metadata::rebuild_offset(orig, v);
    if crate::metadata::rebuild_moves(orig, v) {
        let tail = crate::metadata::rebuild_tail(orig, v);
        crate::metadata::lemma_flushed_len_bound(tail.len());
        let x = crate::metadata::rebuild_table(orig, v).len() + crate::metadata::flushed_len(
            tail.len(),
        );
        assert(x <= grown.len());
        if x > u32::MAX {
            assert((x as u32) <= u32::MAX);
        }
        assert((x as u32) <= x);
    }
    let with_data = write_at(grown, off as int, v.strings.flatten());
    (crate::metadata::rebuild_table(orig, v), grown, with_data, off)
}

/// The parts of a rewritten file lie apart: the literal table of `n` entries
/// after the header, the `data_len` bytes of string data after the header and
/// clear of the table, and the data ends within `u32` range.
pub open spec fn layout_apart(lit_offset: u32, n: int, data_offset: u32, data_len: int) -> bool {
    &&& n > 0 ==> lit_offset >= 24
    &&& data_len > 0 ==> data_offset >= 24 && (data_offset >= lit_offset + 8 * n || data_offset
        + data_len <= lit_offset)
    &&& data_offset + data_len <= u32::MAX
}

/// Reading back a metadata file into which strings were stored gives
/// exactly those strings, and the data offset and size that were recorded,
/// whenever the rewrite succeeds, each string fits a `u32` length, and the
/// header, the literal table and the string data of the result lie apart.
#[verifier::rlimit(40)]
pub proof fn law_stored_strings_read_back(orig: Seq<u8>, strs: Seq<Seq<u8>>)
    requires
        parse_error(orig) is None,
        strs.len() == parsed_view(orig).literals.len(),
        forall|i: int| 0 <= i < strs.len() ==> #[trigger] strs[i].len() <= u32::MAX,
        rebuild(orig, with_strings(parsed_view(orig), strs)) matches Ok((out, off, cnt))
            && layout_apart(
            parsed_view(orig).lit_offset,
            strs.len() as int,
            off,
            lengths_total(strs, strs.len() as int),
        ),
    ensures
        rebuild(orig, with_strings(parsed_view(orig), strs)) matches Ok((out, off, cnt))
            && parse_error(out) is None && parsed_view(out).strings == strs
            && parsed_view(out).data_offset == off && parsed_view(out).data_count == cnt,
{
    let v = with_strings(parsed_view(orig), strs);
    let st = lemma_rebuild_stages(orig, v);
    let n = strs.len() as int;
    let total = lengths_total(strs, n);
    let count = crate::metadata::aligned_count(v.data_offset, total) as u32;
    let off = st.3;
    let info = u32_le_bytes(off) + u32_le_bytes(count);
    let out = write_at(st.2, 16, info);
    let table = table_bytes(strs, n);
    let data = strs.flatten();
    let l = v.lit_offset;
    assert(strs.take(n) =~= strs);
    lemma_flatten_layout(strs, n);
    crate::metadata::lemma_table_bytes_len(strs, n);
    lemma_u32_le_roundtrip(off);
    lemma_u32_le_roundtrip(count);
    assert forall|k: int| 0 <= k < 8 * n implies #[trigger] st.0[l + k] == table[k] by {
        lemma_write_at_new(orig, l as int, table, k);
    }
    lemma_read_back_header(orig, st.0, st.1, st.2, out, l, n, table, off, data, count);
    lemma_read_back_table(st.0, st.1, st.2, out, l, n, strs, off, data, info);
    if n > 0 {
        if off == v.data_offset {
            let lits0 = parsed_view(orig).literals;
            assert(string_error(orig, v.data_offset, lits0[0], 0) is None) by {
                lemma_first_none_all(orig, v.data_offset, lits0, 0);
            }
        }
        assert(off <= out.len());
    }
    lemma_read_back_strings(st.1, st.2, out, n, strs, off, info);
    let lits = literal_table(out, u32_le_at(out, 8), u32_le_at(out, 12));
    assert(lits.len() == n);
    assert forall|i: int| 0 <= i < n implies #[trigger] string_error(out, off, lits[i], i) is None
        && string_at(out, off, lits[i]) == strs[i] by {
        assert(lits[i] == literal_at(out, l, i));
    }
    lemma_no_string_error(out, off, lits, 0);
    let got = parsed_view(out).strings;
    assert(got.len() == n);
    assert forall|i: int| 0 <= i < n implies #[trigger] got[i] == strs[i] by {
        assert(lits[i] == literal_at(out, l, i));
        assert(string_error(out, off, lits[i], i) is None);
    }
    assert(got =~= strs);
}

/// Entry `i` of `lits` holds the length of string `i` and, as its offset,
/// the total length of the strings before it.
pub open spec fn entries_hold_lengths_and_starts(lits: Seq<StringLiteral>, strs: Seq<Seq<u8>>) -> bool {
    lits.len() >= strs.len() && forall|i: int|
        0 <= i < strs.len() ==> #[trigger] lits[i].length == strs[i].len() && lits[i].offset
            == strs.take(i).flatten().len()
}

/// In a rewritten file whose parts lie apart, the data region holds the
/// stored strings back to back, in order, from the recorded data offset,
/// and the table entry of each string holds its length and the length of
/// all the strings before it.
#[verifier::rlimit(40)]
pub proof fn law_rewritten_layout(orig: Seq<u8>, strs: Seq<Seq<u8>>)
    requires
        parse_error(orig) is None,
        strs.len() == parsed_view(orig).literals.len(),
        forall|i: int| 0 <= i < strs.len() ==> #[trigger] strs[i].len() <= u32::MAX,
        rebuild(orig, with_strings(parsed_view(orig), strs)) matches Ok((out, off, cnt))
            && layout_apart(
            parsed_view(orig).lit_offset,
            strs.len() as int,
            off,
            lengths_total(strs, strs.len() as int),
        ),
    ensures
        rebuild(orig, with_strings(parsed_view(orig), strs)) matches Ok((out, off, cnt))
            && entries_hold_lengths_and_starts(parsed_view(out).literals, strs) && (
        strs.flatten().len() > 0 ==> out.subrange(off as int, off + strs.flatten().len())
            == strs.flatten()),
{
    let v = with_strings(parsed_view(orig), strs);
    let st = lemma_rebuild_stages(orig, v);
    let n = strs.len() as int;
    let total = lengths_total(strs, n);
    let count = crate::metadata::aligned_count(v.data_offset, total) as u32;
    let off = st.3;
    let info = u32_le_bytes(off) + u32_le_bytes(count);
    let out = write_at(st.2, 16, info);
    let table = table_bytes(strs, n);
    let data = strs.flatten();
    let l = v.lit_offset;
    assert(strs.take(n) =~= strs);
    lemma_flatten_layout(strs, n);
    crate::metadata::lemma_table_bytes_len(strs, n);
    lemma_u32_le_roundtrip(off);
    lemma_u32_le_roundtrip(count);
    assert forall|k: int| 0 <= k < 8 * n implies #[trigger] st.0[l + k] == table[k] by {
        lemma_write_at_new(orig, l as int, table, k);
    }
    lemma_read_back_table(st.0, st.1, st.2, out, l, n, strs, off, data, info);
    lemma_read_back_header(orig, st.0, st.1, st.2, out, l, n, table, off, data, count);
    lemma_layout_literals(out, l, strs);
    lemma_layout_data(st.1, st.2, out, off, data, info);
}

/// The table entries read back from a rewritten file.
proof fn lemma_layout_literals(out: Seq<u8>, l: u32, strs: Seq<Seq<u8>>)
    requires
        u32_le_at(out, 8) == l,
        u32_le_at(out, 12) / 8 == strs.len(),
        lengths_total(strs, strs.len() as int) <= u32::MAX,
        forall|i: int| 0 <= i < strs.len() ==> #[trigger] strs[i].len() <= u32::MAX,
        forall|i: int|
            0 <= i < strs.len() ==> #[trigger] literal_at(out, l, i) == stored_literal(strs, i),
    ensures
        entries_hold_lengths_and_starts(parsed_view(out).literals, strs),
{
    let lits = parsed_view(out).literals;
    assert forall|i: int| 0 <= i < strs.len() implies #[trigger] lits[i].length == strs[i].len()
        && lits[i].offset == strs.take(i).flatten().len() by {
        assert(lits[i] == literal_at(out, l, i));
        crate::metadata::lemma_lengths_total_monotone(strs, i, strs.len() as int);
        crate::metadata::lemma_lengths_total_monotone(strs, 0, i);
        lemma_flatten_layout(strs, i);
        assert(lits[i] == stored_literal(strs, i));
    }
}

/// The data region of a rewritten file holds the written data.
proof fn lemma_layout_data(
    grown: Seq<u8>,
    with_data: Seq<u8>,
    out: Seq<u8>,
    off: u32,
    data: Seq<u8>,
    info: Seq<u8>,
)
    requires
        with_data == write_at(grown, off as int, data),
        out == write_at(with_data, 16, info),
        info.len() == 8,
        data.len() > 0 ==> off >= 24,
    ensures
        off + data.len() <= out.len() || data.len() == 0,
        data.len() > 0 ==> out.subrange(off as int, off + data.len()) == data,
{
    if data.len() > 0 {
        let got = out.subrange(off as int, off + data.len());
        lemma_write_at_new(grown, off as int, data, data.len() - 1);
        assert forall|p: int| 0 <= p < data.len() implies #[trigger] got[p] == data[p] by {
            lemma_write_at_new(grown, off as int, data, p);
            lemma_write_at_keeps(with_data, 16, info, off + p);
        }
        assert(got =~= data);
    }
}

/// The header of the rewritten file: the magic number and the table fields
/// are those of `orig`, the data fields are the new ones.
proof fn lemma_read_back_header(
    orig: Seq<u8>,
    with_table: Seq<u8>,
    grown: Seq<u8>,
    with_data: Seq<u8>,
    out: Seq<u8>,
    l: u32,
    n: int,
    table: Seq<u8>,
    off: u32,
    data: Seq<u8>,
    count: u32,
)
    requires
        header_error(orig) is None,
        table.len() == 8 * n,
        n > 0 ==> l >= 24,
        data.len() > 0 ==> off >= 24,
        with_table == write_at(orig, l as int, table),
        grown.len() >= with_table.len(),
        forall|k: int| 0 <= k < with_table.len() ==> #[trigger] grown[k] == with_table[k],
        with_data == write_at(grown, off as int, data),
        out == write_at(with_data, 16, u32_le_bytes(off) + u32_le_bytes(count)),
        u32_le_bytes(off).len() == 4,
        u32_le_bytes(count).len() == 4,
    ensures
        header_error(out) is None,
        out.len() >= with_data.len(),
        u32_le_at(out, 8) == u32_le_at(orig, 8),
        u32_le_at(out, 12) == u32_le_at(orig, 12),
        u32_le_at(out, 16) == off,
        u32_le_at(out, 20) == count,
{
    let info = u32_le_bytes(off) + u32_le_bytes(count);
    assert forall|k: int| 0 <= k < 16 implies #[trigger] out[k] == orig[k] by {
        lemma_write_at_keeps(orig, l as int, table, k);
        lemma_write_at_keeps(grown, off as int, data, k);
        lemma_write_at_keeps(with_data, 16, info, k);
    }
    assert(u32_le_at(out, 0) == u32_le_at(orig, 0));
    assert(u32_le_at(out, 8) == u32_le_at(orig, 8));
    assert(u32_le_at(out, 12) == u32_le_at(orig, 12));
    assert forall|k: int| 0 <= k < 4 implies #[trigger] out[16 + k] == u32_le_bytes(off)[k] by {
        lemma_write_at_new(with_data, 16, info, k);
    }
    assert forall|k: int| 0 <= k < 4 implies #[trigger] out[20 + k] == u32_le_bytes(count)[k] by {
        lemma_write_at_new(with_data, 16, info, 4 + k);
    }
    lemma_u32_le_at_encoded(out, 16, off);
    lemma_u32_le_at_encoded(out, 20, count);
}

/// The literal table of the rewritten file holds, for each string, its
/// length and the sum of the lengths before it.
proof fn lemma_read_back_table(
    with_table: Seq<u8>,
    grown: Seq<u8>,
    with_data: Seq<u8>,
    out: Seq<u8>,
    l: u32,
    n: int,
    strs: Seq<Seq<u8>>,
    off: u32,
    data: Seq<u8>,
    info: Seq<u8>,
)
    requires
        n == strs.len(),
        with_table.len() >= l + 8 * n,
        n > 0 ==> l >= 24,
        data.len() > 0 ==> off >= l + 8 * n || off + data.len() <= l,
        forall|k: int|
            0 <= k < 8 * n ==> #[trigger] with_table[l + k] == table_bytes(strs, n)[k],
        grown.len() >= with_table.len(),
        forall|k: int| 0 <= k < with_table.len() ==> #[trigger] grown[k] == with_table[k],
        with_data == write_at(grown, off as int, data),
        out == write_at(with_data, 16, info),
        info.len() == 8,
    ensures
        l + 8 * n <= out.len(),
        forall|i: int|
            0 <= i < n ==> #[trigger] literal_at(out, l, i) == stored_literal(strs, i),
{
    assert forall|i: int| 0 <= i < n implies #[trigger] literal_at(out, l, i) == stored_literal(strs, i) by {
        lemma_table_entry(strs, n, i);
        assert forall|k: int| 0 <= k < 8 implies #[trigger] out[l + 8 * i + k] == table_bytes(
            strs,
            n,
        )[8 * i + k] by {
            let p = l + 8 * i + k;
            assert(with_table[l + (8 * i + k)] == table_bytes(strs, n)[8 * i + k]);
            lemma_write_at_keeps(grown, off as int, data, p);
            lemma_write_at_keeps(with_data, 16, info, p);
        }
        assert forall|k: int| 0 <= k < 4 implies #[trigger] out[(l + 8 * i) + k] == u32_le_bytes(
            strs[i].len() as u32,
        )[k] by {
            assert(out[l + 8 * i + k] == table_bytes(strs, n)[8 * i + k]);
        }
        assert forall|k: int| 0 <= k < 4 implies #[trigger] out[(l + 8 * i + 4) + k]
            == u32_le_bytes(lengths_total(strs, i) as u32)[k] by {
            assert(out[l + 8 * i + (4 + k)] == table_bytes(strs, n)[8 * i + (4 + k)]);
            assert(l + 8 * i + (4 + k) == (l + 8 * i + 4) + k);
            assert(8 * i + (4 + k) == 8 * i + 4 + k);
        }
        lemma_u32_le_at_encoded(out, l + 8 * i, strs[i].len() as u32);
        lemma_u32_le_at_encoded(out, l + 8 * i + 4, lengths_total(strs, i) as u32);
    }
}

/// Each string of the rewritten file reads back from the data region.
proof fn lemma_read_back_strings(
    grown: Seq<u8>,
    with_data: Seq<u8>,
    out: Seq<u8>,
    n: int,
    strs: Seq<Seq<u8>>,
    off: u32,
    info: Seq<u8>,
)
    requires
        n == strs.len(),
        forall|i: int| 0 <= i < strs.len() ==> #[trigger] strs[i].len() <= u32::MAX,
        strs.flatten().len() > 0 ==> off >= 24,
        off + lengths_total(strs, n) <= u32::MAX,
        n > 0 ==> off <= out.len(),
        with_data == write_at(grown, off as int, strs.flatten()),
        out == write_at(with_data, 16, info),
        info.len() == 8,
    ensures
        forall|i: int|
            0 <= i < n ==> {
                &&& #[trigger] string_error(out, off, stored_literal(strs, i), i) is None
                &&& string_at(out, off, stored_literal(strs, i)) == strs[i]
            },
{
    let data = strs.flatten();
    assert(strs.take(n) =~= strs);
    lemma_flatten_layout(strs, n);
    assert forall|i: int| 0 <= i < n implies {
        &&& #[trigger] string_error(out, off, stored_literal(strs, i), i) is None
        &&& string_at(out, off, stored_literal(strs, i)) == strs[i]
    } by {
        crate::metadata::lemma_lengths_total_monotone(strs, 0, i);
        crate::metadata::lemma_lengths_total_monotone(strs, i + 1, n);
        let start = lengths_total(strs, i);
        assert(lengths_total(strs, i + 1) == start + strs[i].len());
        let lit = stored_literal(strs, i);
        if strs[i].len() > 0 {
            lemma_write_at_new(grown, off as int, data, start + strs[i].len() - 1);
            lemma_write_at_keeps(with_data, 16, info, off + start + strs[i].len() - 1);
        }
        assert forall|k: int| 0 <= k < strs[i].len() implies #[trigger] out[off + start + k]
            == strs[i][k] by {
            assert(data[start + k] == strs[i][k]);
            lemma_write_at_new(grown, off as int, data, start + k);
            lemma_write_at_keeps(with_data, 16, info, off + start + k);
        }
        assert(lit.offset == start);
        assert(lit.length == strs[i].len());
        let got = string_at(out, off, lit);
        assert(got.len() == strs[i].len());
        assert forall|k: int| 0 <= k < strs[i].len() implies #[trigger] got[k] == strs[i][k] by {
            assert(got[k] == out[off + start + k]);
        }
        assert(got =~= strs[i]);
    }
}

/// No byte string from index `i` on is invalid, so none is reported.
pub proof fn lemma_no_invalid_utf8(strs: Seq<Seq<u8>>, i: int)
    requires
        0 <= i,
        forall|j: int| i <= j < strs.len() ==> valid_utf8(#[trigger] strs[j]),
    ensures
        first_invalid_utf8(strs, i) is None,
    decreases strs.len() - i,
{
    if i < strs.len() {
        lemma_no_invalid_utf8(strs, i + 1);
    }
}

/// Storing strings into a metadata file and then reading the strings of the
/// result gives back exactly the strings stored, whenever the store
/// succeeds, each string's UTF-8 encoding fits a `u32` length, and the
/// header, the literal table and the string data of the result lie apart.
pub proof fn law_written_strings_read_back(file: Seq<u8>, ss: Seq<Seq<char>>)
    requires
        parse_error(file) is None,
        ss.len() == parsed_view(file).literals.len(),
        forall|i: int| 0 <= i < ss.len() ==> #[trigger] encode_utf8(ss[i]).len() <= u32::MAX,
        rebuild(file, with_strings(parsed_view(file), encode_all(ss))) matches Ok((out, off, cnt))
            && layout_apart(
            parsed_view(file).lit_offset,
            ss.len() as int,
            off,
            lengths_total(encode_all(ss), ss.len() as int),
        ),
    ensures
        write_strings_result(file, ss) matches Ok(out) && read_strings_result(out) == Ok::<
            Seq<Seq<char>>,
            MetadataError,
        >(ss),
{
    let strs = encode_all(ss);
    assert forall|i: int| 0 <= i < strs.len() implies #[trigger] strs[i].len() <= u32::MAX by {
        assert(strs[i] == encode_utf8(ss[i]));
    }
    law_stored_strings_read_back(file, strs);
    let out = rebuild(file, with_strings(parsed_view(file), strs))->Ok_0.0;
    assert(write_strings_result(file, ss) == Ok::<Seq<u8>, MetadataError>(out));
    let got = parsed_view(out).strings;
    assert(got == strs);
    assert forall|j: int| 0 <= j < got.len() implies valid_utf8(#[trigger] got[j]) by {
        vstd::utf8::encode_utf8_valid_utf8(ss[j]);
    }
    lemma_no_invalid_utf8(got, 0);
    let decoded = Seq::new(got.len(), |j: int| decode_utf8(got[j]));
    assert forall|j: int| 0 <= j < ss.len() implies #[trigger] decoded[j] == ss[j] by {
        vstd::utf8::encode_utf8_decode_utf8(ss[j]);
    }
    assert(decoded =~= ss);
}

/// Replacing a pattern that does not occur in a string leaves the string as
/// it was.
pub proof fn law_replace_without_occurrence(s: Seq<char>, from: Seq<char>, to: Seq<char>)
    requires
        !contains_seq(s, from),
    ensures
        replace_all(s, from, to) == s,
    decreases s.len(),
{
    if from.len() == 0 {
        assert(s.subrange(0, 0) =~= from);
        assert(occurs_at(s, from, 0));
    } else if s.len() < from.len() {
    } else {
        assert(s.subrange(0, from.len() as int) != from) by {
            if s.subrange(0, from.len() as int) == from {
                assert(occurs_at(s, from, 0));
            }
        }
        let rest = s.drop_first();
        assert(!contains_seq(rest, from)) by {
            if contains_seq(rest, from) {
                let k = choose|k: int| #[trigger] occurs_at(rest, from, k);
                assert(s.subrange(k + 1, k + 1 + from.len()) =~= rest.subrange(k, k + from.len()));
                assert(occurs_at(s, from, k + 1));
            }
        }
        law_replace_without_occurrence(rest, from, to);
        assert(seq![s[0]] + rest =~= s);
    }
}

/// A successful rewrite records as data size the least number that holds
/// all the stored strings (their table lengths added up, which is the
/// length of their concatenation when each length fits a `u32`) and that
/// ends the data, counted from the old data offset, on a multiple of four.
pub proof fn law_rebuild_count_aligned(orig: Seq<u8>, v: MetadataView)
    requires
        rebuild(orig, v) is Ok,
    ensures
        rebuild(orig, v) matches Ok((out, off, cnt)) && cnt >= lengths_total(
            v.strings,
            v.literals.len() as int,
        ) && cnt < lengths_total(v.strings, v.literals.len() as int) + 4 && (v.data_offset + cnt)
            % 4 == 0,
        (forall|i: int| 0 <= i < v.strings.len() ==> #[trigger] v.strings[i].len() <= u32::MAX)
            ==> lengths_total(v.strings, v.literals.len() as int) == v.strings.take(
            v.literals.len() as int,
        ).flatten().len(),
{
    let _st = lemma_rebuild_stages(orig, v);
    if forall|i: int| 0 <= i < v.strings.len() ==> #[trigger] v.strings[i].len() <= u32::MAX {
        lemma_flatten_layout(v.strings, v.literals.len() as int);
    }
    let total = lengths_total(v.strings, v.literals.len() as int);
    crate::metadata::lemma_lengths_total_monotone(v.strings, 0, v.literals.len() as int);
    let t = v.data_offset + total;
    assert(t % 4 != 0 ==> (t + (4 - t % 4)) % 4 == 0) by (nonlinear_arith);
    let c = crate::metadata::aligned_count(v.data_offset, total);
    assert(c >= total);
    assert((v.data_offset + c) % 4 == 0);
}

/// A successful rewrite keeps every byte of the original file that lies
/// outside the literal table, the new string data and the header's data
/// offset and data size.
pub proof fn law_rebuild_keeps_other_bytes(orig: Seq<u8>, v: MetadataView, k: int)
    requires
        v.data_info_position == DATA_INFO_POSITION,
        rebuild(orig, v) matches Ok((out, off, cnt)) && !(v.lit_offset <= k < v.lit_offset + 8
            * v.literals.len()) && !(off <= k < off + v.strings.flatten().len()),
        0 <= k < orig.len(),
        !(16 <= k < 24),
    ensures
        rebuild(orig, v) matches Ok((out, off, cnt)) && out.len() >= orig.len() && out[k]
            == orig[k],
{
    let st = lemma_rebuild_stages(orig, v);
    let n = v.literals.len() as int;
    crate::metadata::lemma_table_bytes_len(v.strings, n);
    let count = crate::metadata::aligned_count(
        v.data_offset,
        lengths_total(v.strings, n),
    ) as u32;
    let info = u32_le_bytes(st.3) + u32_le_bytes(count);
    lemma_u32_le_roundtrip(st.3);
    lemma_u32_le_roundtrip(count);
    lemma_write_at_keeps(orig, v.lit_offset as int, table_bytes(v.strings, n), k);
    lemma_write_at_keeps(st.1, st.3 as int, v.strings.flatten(), k);
    lemma_write_at_keeps(st.2, 16, info, k);
}

} // verus!
