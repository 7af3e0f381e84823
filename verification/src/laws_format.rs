//! What reading and rewriting a metadata file mean, stated over the bytes.
use vstd::prelude::*;
use crate::le_bytes::u32_le_at;
use crate::metadata::{
    header_error, parse_error, parsed_view, first_string_error, string_error, literal_table,
    MetadataError, MetadataView, StringLiteral, rebuild,
};
use crate::laws::{lemma_first_none_all, lemma_rebuild_stages};

verus! {

/// The file starts with the bytes AF 1B B1 FA.
pub open spec fn starts_with_magic(b: Seq<u8>) -> bool {
    b.len() >= 4 && b[0] == 0xAF && b[1] == 0x1B && b[2] == 0xB1 && b[3] == 0xFA
}

/// The header check accepts exactly the files of at least 24 bytes that
/// start with the magic bytes; the version and the other header fields are
/// not checked. A file shorter than four bytes, or one that starts with the
/// magic bytes but is shorter than 24, is truncated; any other file has a
/// bad magic number.
pub proof fn law_header_accepts_magic_and_length(b: Seq<u8>)
    ensures
        header_error(b) is None <==> b.len() >= 24 && starts_with_magic(b),
        b.len() < 4 ==> header_error(b) == Some(MetadataError::HeaderTruncated),
        b.len() >= 4 && !starts_with_magic(b) ==> header_error(b) == Some(MetadataError::BadMagic),
        starts_with_magic(b) && b.len() < 24 ==> header_error(b) == Some(
            MetadataError::HeaderTruncated,
        ),
{
    if b.len() >= 4 {
        let x = b[0] as int + b[1] as int * 0x100 + b[2] as int * 0x1_0000 + b[3] as int
            * 0x100_0000;
        assert(0 <= x < 0x1_0000_0000);
        assert(u32_le_at(b, 0) == x);
        assert(x == 0xFAB1_1BAF <==> starts_with_magic(b));
    }
}

/// The first failing literal is reported with one of the two literal errors.
proof fn lemma_string_error_kind(b: Seq<u8>, d: u32, lits: Seq<StringLiteral>, i: int)
    ensures
        first_string_error(b, d, lits, i) matches Some(e) ==> (e is StringOffsetOverflow
            || e is StringDataTruncated),
    decreases lits.len() - i,
{
    if 0 <= i < lits.len() {
        lemma_string_error_kind(b, d, lits, i + 1);
    }
}

/// Reading a file with a good header fails on its literal table exactly
/// when the table, placed at the offset stored at byte 8 with one
/// eight-byte entry per eight bytes of the size stored at byte 12, runs past
/// the end of the file.
pub proof fn law_table_read_at_header_offset(b: Seq<u8>)
    requires
        header_error(b) is None,
    ensures
        parse_error(b) == Some(MetadataError::LiteralTableTruncated) <==> u32_le_at(b, 8) + 8 * (
        u32_le_at(b, 12) / 8) > b.len(),
{
    lemma_string_error_kind(
        b,
        u32_le_at(b, 16),
        literal_table(b, u32_le_at(b, 8), u32_le_at(b, 12)),
        0,
    );
}

/// Where the bytes of literal `i` of `b` start: the data offset stored at
/// byte 16 plus the literal's offset.
pub open spec fn string_start(b: Seq<u8>, i: int) -> int {
    u32_le_at(b, 16) + parsed_view(b).literals[i].offset
}

/// Where the bytes of literal `i` of `b` end: their start plus the
/// literal's length.
pub open spec fn string_end(b: Seq<u8>, i: int) -> int {
    string_start(b, i) + parsed_view(b).literals[i].length
}

/// Reading a file takes every position from its header: the literal table
/// lies at the offset stored at byte 8 and has one entry per eight bytes of
/// the size stored at byte 12; entry `i` holds a length and then an offset;
/// the bytes of literal `i` lie at the data offset stored at byte 16 plus
/// its offset, for its length, inside the file. The data size is the one
/// stored at byte 20.
pub proof fn law_reading_follows_the_header(b: Seq<u8>)
    requires
        parse_error(b) is None,
    ensures
        parsed_view(b).lit_offset == u32_le_at(b, 8),
        parsed_view(b).lit_count == u32_le_at(b, 12),
        parsed_view(b).data_offset == u32_le_at(b, 16),
        parsed_view(b).data_count == u32_le_at(b, 20),
        u32_le_at(b, 8) + 8 * (u32_le_at(b, 12) / 8) <= b.len(),
        parsed_view(b).literals.len() == u32_le_at(b, 12) / 8,
        parsed_view(b).strings.len() == u32_le_at(b, 12) / 8,
        forall|i: int|
            0 <= i < u32_le_at(b, 12) / 8 ==> #[trigger] parsed_view(b).literals[i].length
                == u32_le_at(b, u32_le_at(b, 8) + 8 * i) && parsed_view(b).literals[i].offset
                == u32_le_at(b, u32_le_at(b, 8) + 8 * i + 4),
        forall|i: int|
            0 <= i < u32_le_at(b, 12) / 8 ==> #[trigger] string_end(b, i) <= b.len()
                && parsed_view(b).strings[i] == b.subrange(string_start(b, i), string_end(b, i)),
{
    let lits = literal_table(b, u32_le_at(b, 8), u32_le_at(b, 12));
    lemma_first_none_all(b, u32_le_at(b, 16), lits, 0);
    assert forall|i: int| 0 <= i < u32_le_at(b, 12) / 8 implies #[trigger] string_end(b, i)
        <= b.len() && parsed_view(b).strings[i] == b.subrange(string_start(b, i), string_end(b, i))
 by {
        assert(string_error(b, u32_le_at(b, 16), lits[i], i) is None);
        assert(parsed_view(b).literals[i] == lits[i]);
        assert(parsed_view(b).strings[i] == crate::metadata::string_at(b, u32_le_at(b, 16), lits[i]));
    }
}

/// The larger of two integers.
pub open spec fn max_int(a: int, b: int) -> int {
    if a >= b {
        a
    } else {
        b
    }
}

/// A successful rewrite keeps the data at the old data offset when its
/// padded size is not larger than the old data size; there the file grows
/// only as far as the literal table, the data and the header's data fields
/// reach. It also keeps it there when the old data region runs to the end of
/// the file (or past it), the literal table lying inside the file.
pub proof fn law_data_stays_when_it_fits(orig: Seq<u8>, v: MetadataView)
    requires
        rebuild(orig, v) is Ok,
        v.data_info_position == 16,
    ensures
        rebuild(orig, v) matches Ok((out, off, cnt)) && (cnt <= v.data_count ==> off
            == v.data_offset && out.len() == max_int(
            max_int(orig.len() as int, 24),
            max_int(
                if v.literals.len() > 0 {
                    v.lit_offset + 8 * v.literals.len()
                } else {
                    0
                },
                if v.strings.flatten().len() > 0 {
                    off + v.strings.flatten().len()
                } else {
                    0
                },
            ),
        )) && ((v.literals.len() == 0 || v.lit_offset + 8 * v.literals.len() <= orig.len())
            && orig.len() <= u32::MAX && v.data_offset + v.data_count >= orig.len() ==> off
            == v.data_offset),
{
    let st = lemma_rebuild_stages(orig, v);
    reveal(rebuild);
    crate::metadata::lemma_table_bytes_len(v.strings, v.literals.len() as int);
    crate::le_bytes::lemma_u32_le_roundtrip(st.3);
}

/// When the padded data outgrows its region and other bytes follow that
/// region, those bytes are appended to the file and the data is placed past
/// the old end of the file, after the appended bytes that precede their
/// last block of 8 KiB: the data offset lies a whole number of 8 KiB blocks
/// past the old end, fewer bytes than were appended but no more than 8 KiB
/// short of them, and the appended bytes before it are those that followed
/// the old data region, in order. This holds for a file whose literal table
/// lies inside it and whose grown length fits a `u32`.
pub proof fn law_data_moves_past_the_end(orig: Seq<u8>, v: MetadataView)
    requires
        rebuild(orig, v) is Ok,
        v.data_info_position == 16,
    ensures
        rebuild(orig, v) matches Ok((out, off, cnt)) && (cnt > v.data_count && v.data_offset
            + v.data_count < orig.len() && (v.literals.len() == 0 || v.lit_offset + 8
            * v.literals.len() <= orig.len()) && 2 * orig.len() <= u32::MAX ==> {
            let appended = orig.len() - (v.data_offset + v.data_count);
            &&& orig.len() <= off
            &&& (off - orig.len()) % 8192 == 0
            &&& off - orig.len() < appended
            &&& off - orig.len() + 8192 >= appended
            &&& forall|k: int|
                orig.len() <= k < off ==> #[trigger] out[k] == orig[v.data_offset + v.data_count
                    + (k - orig.len())]
        }),
{
    let st = lemma_rebuild_stages(orig, v);
    reveal(rebuild);
    let n = v.literals.len() as int;
    crate::metadata::lemma_table_bytes_len(v.strings, n);
    let start = v.data_offset + v.data_count;
    let r = rebuild(orig, v)->Ok_0;
    let out = r.0;
    let off = r.1;
    let cnt = r.2;
    {
        if cnt > v.data_count && start < orig.len() && (n == 0 || v.lit_offset + 8 * n
            <= orig.len()) && 2 * orig.len() <= u32::MAX {
            let with_table = crate::metadata::rebuild_table(orig, v);
            assert(with_table.len() == orig.len());
            crate::metadata::lemma_lengths_total_monotone(v.strings, 0, n);
            assert(crate::metadata::rebuild_count(v) >= 0);
            assert(cnt == crate::metadata::rebuild_count(v));
            assert((orig.len() as u32) == orig.len());
            assert(crate::metadata::rebuild_moves(orig, v));
            let tail = crate::metadata::rebuild_tail(orig, v);
            let appended = orig.len() - start;
            assert(tail.len() == appended);
            crate::metadata::lemma_flushed_len_bound(tail.len());
            let f = crate::metadata::flushed_len(tail.len());
            let t = appended - 1;
            assert(f == 8192 * (t / 8192));
            assert((8192 * (t / 8192)) % 8192 == 0 && 8192 * (t / 8192) + 8192 > t) by (
            nonlinear_arith)
                requires
                    t >= 0,
            ;
            assert(off == orig.len() + f);
            let info = crate::le_bytes::u32_le_bytes(off) + crate::le_bytes::u32_le_bytes(cnt);
            crate::le_bytes::lemma_u32_le_roundtrip(off);
            crate::le_bytes::lemma_u32_le_roundtrip(cnt);
            assert forall|k: int| orig.len() <= k < off implies #[trigger] out[k] == orig[start + (k
                - orig.len())] by {
                assert(st.1[k] == tail[k - orig.len()]);
                crate::laws::lemma_write_at_keeps(st.1, off as int, v.strings.flatten(), k);
                crate::laws::lemma_write_at_keeps(st.2, 16, info, k);
            }
        }
    }
}

/// The offset at which the bytes of literal `j` of `b` start, its table
/// entry read at the offset stored at byte 8; as an integer, unbounded.
pub open spec fn raw_string_start(b: Seq<u8>, j: int) -> int {
    u32_le_at(b, 16) + u32_le_at(b, u32_le_at(b, 8) + 8 * j + 4)
}

/// Where the bytes of literal `j` of `b` end, as an integer.
pub open spec fn raw_string_end(b: Seq<u8>, j: int) -> int {
    raw_string_start(b, j) + u32_le_at(b, u32_le_at(b, 8) + 8 * j)
}

/// The bytes of literal `j` of `b` can be read: their start fits a `u32`
/// and they end inside the file.
pub open spec fn raw_string_readable(b: Seq<u8>, j: int) -> bool {
    raw_string_start(b, j) <= u32::MAX && raw_string_end(b, j) <= b.len()
}

/// The reported literal error, from index `i` on, names a literal that fails
/// after a run of literals that do not.
proof fn lemma_first_error_index(b: Seq<u8>, d: u32, lits: Seq<StringLiteral>, i: int)
    requires
        0 <= i,
        lits.len() <= u32::MAX,
    ensures
        first_string_error(b, d, lits, i) matches Some(e) ==> {
            let k = if e is StringOffsetOverflow {
                e->StringOffsetOverflow_0 as int
            } else {
                e->StringDataTruncated_0 as int
            };
            &&& i <= k < lits.len()
            &&& string_error(b, d, lits[k], k) == Some(e)
            &&& forall|j: int| i <= j < k ==> #[trigger] string_error(b, d, lits[j], j) is None
        },
    decreases lits.len() - i,
{
    if i < lits.len() {
        assert((i as usize) as int == i);
        lemma_first_error_index(b, d, lits, i + 1);
    }
}

/// Reading a file whose header and literal table are good fails exactly on
/// the first literal whose bytes cannot be read: with an offset overflow
/// when its start does not fit a `u32`, otherwise with truncated data. It
/// succeeds when every literal can be read.
pub proof fn law_reports_first_unreadable_literal(b: Seq<u8>)
    requires
        header_error(b) is None,
        u32_le_at(b, 8) + 8 * (u32_le_at(b, 12) / 8) <= b.len(),
    ensures
        (forall|j: int| 0 <= j < u32_le_at(b, 12) / 8 ==> #[trigger] raw_string_readable(b, j))
            ==> parse_error(b) is None,
        forall|i: int|
            0 <= i < u32_le_at(b, 12) / 8 && !#[trigger] raw_string_readable(b, i) && (forall|j: int|
                0 <= j < i ==> raw_string_readable(b, j)) ==> parse_error(b) == Some(
                if raw_string_start(b, i) > u32::MAX {
                    MetadataError::StringOffsetOverflow(i as usize)
                } else {
                    MetadataError::StringDataTruncated(i as usize)
                },
            ),
{
    let d = u32_le_at(b, 16);
    let lits = literal_table(b, u32_le_at(b, 8), u32_le_at(b, 12));
    let n = u32_le_at(b, 12) / 8;
    assert forall|j: int| 0 <= j < n implies (#[trigger] string_error(b, d, lits[j], j) is None
        <==> raw_string_readable(b, j)) by {
        assert(lits[j] == crate::metadata::literal_at(b, u32_le_at(b, 8), j));
    }
    if forall|j: int| 0 <= j < n ==> #[trigger] raw_string_readable(b, j) {
        crate::laws::lemma_no_string_error(b, d, lits, 0);
    }
    lemma_first_error_index(b, d, lits, 0);
    assert forall|i: int|
        0 <= i < n && !#[trigger] raw_string_readable(b, i) && (forall|j: int|
            0 <= j < i ==> raw_string_readable(b, j)) implies parse_error(b) == Some(
        if raw_string_start(b, i) > u32::MAX {
            MetadataError::StringOffsetOverflow(i as usize)
        } else {
            MetadataError::StringDataTruncated(i as usize)
        },
    ) by {
        assert(lits[i] == crate::metadata::literal_at(b, u32_le_at(b, 8), i));
        assert(string_error(b, d, lits[i], i) is Some);
        let e = first_string_error(b, d, lits, 0);
        if e is None {
            lemma_first_none_all(b, d, lits, 0);
        }
        let k = if e->Some_0 is StringOffsetOverflow {
            e->Some_0->StringOffsetOverflow_0 as int
        } else {
            e->Some_0->StringDataTruncated_0 as int
        };
        if k < i {
            assert(raw_string_readable(b, k));
            assert(string_error(b, d, lits[k], k) is None);
        }
        if k > i {
            assert(string_error(b, d, lits[i], i) is None);
        }
    }
}

} // verus!
