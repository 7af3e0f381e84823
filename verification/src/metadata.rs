//! The string-literal part of an IL2CPP `global-metadata.dat` file.
//!
//! The header starts with a magic number and a version, followed by four
//! little-endian `u32` fields: the offset and the byte size of the literal
//! table, then the offset and the byte size of the literal data.  Each entry
//! of the table is eight bytes, a length and an offset that is relative to
//! the start of the data region.
use vstd::prelude::*;
use crate::le_bytes::{
    u32_le_at, u32_le_bytes, read_u32_le, u32_to_le_vec, write_at, write_bytes_at,
};

verus! {

/// The first four bytes of every metadata file, read as a little-endian `u32`.
pub const METADATA_MAGIC: u32 = 0xFAB1_1BAF;

/// Where the data offset and the data size stand in the header.
pub const DATA_INFO_POSITION: u64 = 16;

/// One entry of the literal table.
#[derive(Clone, Copy, Debug, PartialEq, Eq, Structural)]
pub struct StringLiteral {
    pub length: u32,
    pub offset: u32,
}

/// Why a metadata file could not be read or rewritten.
#[derive(Clone, Copy, Debug, PartialEq, Eq, Structural)]
pub enum MetadataError {
    /// The file ends inside the header.
    HeaderTruncated,
    /// The file does not start with `METADATA_MAGIC`.
    BadMagic,
    /// The literal table runs past the end of the file.
    LiteralTableTruncated,
    /// Data offset plus the literal's offset does not fit in a `u32`; the
    /// literal's index is given.
    StringOffsetOverflow(usize),
    /// The bytes of the literal with this index run past the end of the file.
    StringDataTruncated(usize),
    /// The bytes of the literal with this index are not UTF-8.
    InvalidUtf8(usize),
    /// There are fewer strings than entries in the literal table.
    MissingStrings,
    /// A size or an offset of the rewritten file does not fit its field.
    SizeOverflow,
}

/// The string literals of a metadata file, as read from its bytes.
pub struct MetadataFile {
    pub string_literal_offset: u32,
    pub string_literal_count: u32,
    pub data_info_position: u64,
    pub string_literal_data_offset: u32,
    pub string_literal_data_count: u32,
    pub string_literals: Vec<StringLiteral>,
    pub str_bytes: Vec<Vec<u8>>,
}

/// The contents of each byte vector of `v`.
pub open spec fn bytes_view(v: Seq<Vec<u8>>) -> Seq<Seq<u8>> {
    Seq::new(v.len(), |i: int| v[i]@)
}

/// The mathematical content of a `MetadataFile`.
pub struct MetadataView {
    pub lit_offset: u32,
    pub lit_count: u32,
    pub data_info_position: u64,
    pub data_offset: u32,
    pub data_count: u32,
    pub literals: Seq<StringLiteral>,
    pub strings: Seq<Seq<u8>>,
}

impl View for MetadataFile {
    type V = MetadataView;

    open spec fn view(&self) -> MetadataView {
        MetadataView {
            lit_offset: self.string_literal_offset,
            lit_count: self.string_literal_count,
            data_info_position: self.data_info_position,
            data_offset: self.string_literal_data_offset,
            data_count: self.string_literal_data_count,
            literals: self.string_literals@,
            strings: bytes_view(self.str_bytes@),
        }
    }
}

/// What is wrong with the header of `b`, read field by field from the start.
pub open spec fn header_error(b: Seq<u8>) -> Option<MetadataError> {
    if b.len() < 4 {
        Some(MetadataError::HeaderTruncated)
    } else if u32_le_at(b, 0) != METADATA_MAGIC {
        Some(MetadataError::BadMagic)
    } else if b.len() < 24 {
        Some(MetadataError::HeaderTruncated)
    } else {
        None
    }
}

/// `v` with the four header fields and the data-info position read from `b`.
pub open spec fn with_header(v: MetadataView, b: Seq<u8>) -> MetadataView {
    MetadataView {
        lit_offset: u32_le_at(b, 8),
        lit_count: u32_le_at(b, 12),
        data_info_position: DATA_INFO_POSITION,
        data_offset: u32_le_at(b, 16),
        data_count: u32_le_at(b, 20),
        literals: v.literals,
        strings: v.strings,
    }
}

/// `v` with its literal table replaced by `lits`.
pub open spec fn with_literals(v: MetadataView, lits: Seq<StringLiteral>) -> MetadataView {
    MetadataView { literals: lits, ..v }
}

/// `v` with its literal bytes replaced by `strings`.
pub open spec fn with_strings(v: MetadataView, strings: Seq<Seq<u8>>) -> MetadataView {
    MetadataView { strings: strings, ..v }
}

/// The number of table entries that a table of `lit_count` bytes holds.
pub open spec fn literal_entries(lit_count: u32) -> nat {
    (lit_count / 8) as nat
}

/// The literal table lies inside `b`.
pub open spec fn literal_table_fits(b: Seq<u8>, lit_offset: u32, lit_count: u32) -> bool {
    lit_offset + 8 * literal_entries(lit_count) <= b.len()
}

/// Entry `i` of the literal table at `lit_offset`.
pub open spec fn literal_at(b: Seq<u8>, lit_offset: u32, i: int) -> StringLiteral {
    StringLiteral {
        length: u32_le_at(b, lit_offset + 8 * i),
        offset: u32_le_at(b, lit_offset + 8 * i + 4),
    }
}

/// The whole literal table.
pub open spec fn literal_table(b: Seq<u8>, lit_offset: u32, lit_count: u32) -> Seq<StringLiteral> {
    Seq::new(literal_entries(lit_count), |i: int| literal_at(b, lit_offset, i))
}

/// What goes wrong when reading the bytes of literal `i`.
pub open spec fn string_error(b: Seq<u8>, data_offset: u32, lit: StringLiteral, i: int) -> Option<
    MetadataError,
> {
    if data_offset + lit.offset > u32::MAX {
        Some(MetadataError::StringOffsetOverflow(i as usize))
    } else if data_offset + lit.offset + lit.length > b.len() {
        Some(MetadataError::StringDataTruncated(i as usize))
    } else {
        None
    }
}

/// The bytes of a literal.
pub open spec fn string_at(b: Seq<u8>, data_offset: u32, lit: StringLiteral) -> Seq<u8> {
    b.subrange(data_offset + lit.offset, data_offset + lit.offset + lit.length)
}

/// The error of the first literal, from index `i` on, whose bytes cannot be read.
pub open spec fn first_string_error(
    b: Seq<u8>,
    data_offset: u32,
    lits: Seq<StringLiteral>,
    i: int,
) -> Option<MetadataError>
    decreases lits.len() - i,
{
    if i < 0 || i >= lits.len() {
        None
    } else if string_error(b, data_offset, lits[i], i) is Some {
        string_error(b, data_offset, lits[i], i)
    } else {
        first_string_error(b, data_offset, lits, i + 1)
    }
}

/// The bytes of every literal of `lits`.
pub open spec fn strings_of(b: Seq<u8>, data_offset: u32, lits: Seq<StringLiteral>) -> Seq<Seq<u8>> {
    Seq::new(lits.len(), |i: int| string_at(b, data_offset, lits[i]))
}

/// Why reading the metadata file `b` fails, if it does.
pub open spec fn parse_error(b: Seq<u8>) -> Option<MetadataError> {
    if header_error(b) is Some {
        header_error(b)
    } else if !literal_table_fits(b, u32_le_at(b, 8), u32_le_at(b, 12)) {
        Some(MetadataError::LiteralTableTruncated)
    } else {
        first_string_error(
            b,
            u32_le_at(b, 16),
            literal_table(b, u32_le_at(b, 8), u32_le_at(b, 12)),
            0,
        )
    }
}

/// What reading the metadata file `b` gives when it succeeds.
pub open spec fn parsed_view(b: Seq<u8>) -> MetadataView {
    let lits = literal_table(b, u32_le_at(b, 8), u32_le_at(b, 12));
    MetadataView {
        lit_offset: u32_le_at(b, 8),
        lit_count: u32_le_at(b, 12),
        data_info_position: DATA_INFO_POSITION,
        data_offset: u32_le_at(b, 16),
        data_count: u32_le_at(b, 20),
        literals: lits,
        strings: strings_of(b, u32_le_at(b, 16), lits),
    }
}

/// The sum of the lengths of the first `i` strings, each taken as the `u32`
/// that a table entry stores.
pub open spec fn lengths_total(strs: Seq<Seq<u8>>, i: int) -> int
    decreases i,
{
    if i <= 0 {
        0
    } else {
        lengths_total(strs, i - 1) + (strs[i - 1].len() as u32)
    }
}

/// The literal table for the first `i` strings stored back to back: each
/// entry holds the string's length and the sum of the lengths before it.
pub open spec fn table_bytes(strs: Seq<Seq<u8>>, i: int) -> Seq<u8>
    decreases i,
{
    if i <= 0 {
        Seq::empty()
    } else {
        table_bytes(strs, i - 1) + u32_le_bytes(strs[i - 1].len() as u32) + u32_le_bytes(
            lengths_total(strs, i - 1) as u32,
        )
    }
}

/// The data size after padding: the data region's end, counted from the
/// old data offset, is rounded up to a multiple of four.
pub open spec fn aligned_count(data_offset: u32, total: int) -> int {
    let rem = (data_offset + total) % 4;
    if rem != 0 {
        total + 4 - rem
    } else {
        total
    }
}

/// The bytes of `orig` from `start` on (none where `start` lies past its end).
pub open spec fn tail_from(orig: Seq<u8>, start: int) -> Seq<u8> {
    if start <= orig.len() {
        orig.subrange(start, orig.len() as int)
    } else {
        Seq::empty()
    }
}

/// Whether the new data no longer fits its region and the region is followed
/// by other bytes, so that the data goes to the end of the file.
pub open spec fn data_moves(v: MetadataView, count: int, file_len: nat) -> bool {
    count > v.data_count && v.data_offset + v.data_count < (file_len as u32)
}

/// The size of the buffer through which the bytes that follow the data
/// region are appended when the data moves.
pub const APPEND_BUFFER_LEN: usize = 8192;

/// How many of `appended` bytes, written one at a time through a buffer of
/// `APPEND_BUFFER_LEN` bytes, have reached the file: every full buffer but
/// the last one, which is still held when the file's length is taken.
pub open spec fn flushed_len(appended: nat) -> nat {
    if appended == 0 {
        0
    } else {
        (APPEND_BUFFER_LEN * ((appended - 1) / (APPEND_BUFFER_LEN as int))) as nat
    }
}

/// No more bytes reach the file than were appended.
pub proof fn lemma_flushed_len_bound(appended: nat)
    ensures
        flushed_len(appended) <= appended,
{
    if appended > 0 {
        let t = appended - 1;
        assert(8192 * (t / 8192) <= t) by (nonlinear_arith)
            requires
                t >= 0,
        ;
    }
}

/// The sum of the table lengths of the strings that have table entries.
pub open spec fn rebuild_total(v: MetadataView) -> int {
    lengths_total(v.strings, v.literals.len() as int)
}

/// The new data size.
pub open spec fn rebuild_count(v: MetadataView) -> int {
    aligned_count(v.data_offset, rebuild_total(v))
}

/// `orig` with the literal table rewritten in place.
pub open spec fn rebuild_table(orig: Seq<u8>, v: MetadataView) -> Seq<u8> {
    write_at(orig, v.lit_offset as int, table_bytes(v.strings, v.literals.len() as int))
}

/// The bytes that follow the old data region.
pub open spec fn rebuild_tail(orig: Seq<u8>, v: MetadataView) -> Seq<u8> {
    tail_from(orig, v.data_offset + v.data_count)
}

/// Whether the data moves towards the end of the file.
pub open spec fn rebuild_moves(orig: Seq<u8>, v: MetadataView) -> bool {
    data_moves(v, rebuild_count(v), rebuild_table(orig, v).len())
}

/// The file before the data is written: with the new table and, when the
/// data moves, with the bytes that followed the old data region appended.
pub open spec fn rebuild_grown(orig: Seq<u8>, v: MetadataView) -> Seq<u8> {
    if rebuild_moves(orig, v) {
        rebuild_table(orig, v) + rebuild_tail(orig, v)
    } else {
        rebuild_table(orig, v)
    }
}

/// The new data offset. When the data moves, it is the file's length as
/// last flushed: the length with the new table plus the appended bytes that
/// have reached the file (`flushed_len`), taken as a `u32`.
pub open spec fn rebuild_offset(orig: Seq<u8>, v: MetadataView) -> u32 {
    if rebuild_moves(orig, v) {
        (rebuild_table(orig, v).len() + flushed_len(rebuild_tail(orig, v).len())) as u32
    } else {
        v.data_offset
    }
}

/// Why storing the strings of `v` into `orig` fails, if it does: fewer
/// strings than table entries, a size or offset that overflows its `u32`
/// field, or a file that would not fit in memory.
pub open spec fn rebuild_error(orig: Seq<u8>, v: MetadataView) -> Option<MetadataError> {
    let total = rebuild_total(v);
    let count = rebuild_count(v);
    if v.strings.len() < v.literals.len() {
        Some(MetadataError::MissingStrings)
    } else if total > u32::MAX || v.data_offset + total > u32::MAX || count > u32::MAX {
        Some(MetadataError::SizeOverflow)
    } else if count > v.data_count && v.data_offset + v.data_count > u32::MAX {
        Some(MetadataError::SizeOverflow)
    } else if rebuild_grown(orig, v).len() > usize::MAX {
        Some(MetadataError::SizeOverflow)
    } else if rebuild_offset(orig, v) + v.strings.flatten().len() > usize::MAX {
        Some(MetadataError::SizeOverflow)
    } else {
        None
    }
}

/// The file that results from storing the strings of `v` into the metadata
/// file `orig`, with the new data offset and data size; or the error.
///
/// The literal table is rewritten in place, one entry per literal, each with
/// the string's length and its offset in the new data. The data size is the
/// total length padded as `aligned_count` says. When the data outgrows its
/// region and other bytes follow that region, those bytes are appended to
/// the file and the data is placed at `rebuild_offset`. The data is written
/// at its offset, then the header's data offset and data size.
#[verifier::opaque]
pub open spec fn rebuild(orig: Seq<u8>, v: MetadataView) -> Result<(Seq<u8>, u32, u32), MetadataError> {
    match rebuild_error(orig, v) {
        Some(e) => Err(e),
        None => {
            let off = rebuild_offset(orig, v);
            let with_data = write_at(rebuild_grown(orig, v), off as int, v.strings.flatten());
            let out = write_at(
                with_data,
                v.data_info_position as int,
                u32_le_bytes(off) + u32_le_bytes(rebuild_count(v) as u32),
            );
            Ok((out, off, rebuild_count(v) as u32))
        },
    }
}

/// `v` with a new data offset and data size.
pub open spec fn with_data_info(v: MetadataView, data_offset: u32, data_count: u32) -> MetadataView {
    MetadataView { data_offset: data_offset, data_count: data_count, ..v }
}

/// Partial sums of lengths never decrease.
pub proof fn lemma_lengths_total_monotone(strs: Seq<Seq<u8>>, i: int, j: int)
    requires
        0 <= i <= j,
    ensures
        lengths_total(strs, i) <= lengths_total(strs, j),
    decreases j,
{
    if i < j {
        lemma_lengths_total_monotone(strs, i, j - 1);
    }
}

/// The literal table of `i` entries is `8 * i` bytes.
pub proof fn lemma_table_bytes_len(strs: Seq<Seq<u8>>, i: int)
    requires
        0 <= i,
    ensures
        table_bytes(strs, i).len() == 8 * i,
    decreases i,
{
    if i > 0 {
        lemma_table_bytes_len(strs, i - 1);
    }
}

/// Copies `v` byte for byte.
fn copy_vec(v: &Vec<u8>) -> (out: Vec<u8>)
    ensures
        out@ == v@,
{
    let out = copy_range(v, 0, v.len());
    assert(v@.subrange(0, v@.len() as int) =~= v@);
    out
}

/// Copies `b[start..end]`.
fn copy_range(b: &Vec<u8>, start: usize, end: usize) -> (out: Vec<u8>)
    requires
        start <= end <= b.len(),
    ensures
        out@ == b@.subrange(start as int, end as int),
{
    let mut out: Vec<u8> = Vec::new();
    let mut k: usize = start;
    while k < end
        invariant
            start <= k <= end <= b.len(),
            out@ == b@.subrange(start as int, k as int),
        decreases end - k,
    {
        out.push(b[k]);
        k = k + 1;
        assert(out@ =~= b@.subrange(start as int, k as int));
    }
    out
}

/// Why the metadata file whose contents are `bytes` cannot be read, or
/// `None` when it can: the checks that `MetadataFile::new` asks its callers
/// to have made.
pub fn check_metadata(bytes: &Vec<u8>) -> (r: Option<MetadataError>)
    ensures
        r == parse_error(bytes@),
{
    if bytes.len() < 4 {
        return Some(MetadataError::HeaderTruncated);
    }
    if read_u32_le(bytes, 0) != METADATA_MAGIC {
        return Some(MetadataError::BadMagic);
    }
    if bytes.len() < 24 {
        return Some(MetadataError::HeaderTruncated);
    }
    let off = read_u32_le(bytes, 8);
    let cnt = read_u32_le(bytes, 12);
    let data_offset = read_u32_le(bytes, 16);
    let entries: u32 = cnt / 8;
    if off as u64 + 8 * entries as u64 > bytes.len() as u64 {
        return Some(MetadataError::LiteralTableTruncated);
    }
    let ghost lits = literal_table(bytes@, off, cnt);
    let mut i: u32 = 0;
    while i < entries
        invariant
            off == u32_le_at(bytes@, 8),
            cnt == u32_le_at(bytes@, 12),
            data_offset == u32_le_at(bytes@, 16),
            entries == cnt / 8,
            off + 8 * entries <= bytes.len(),
            lits == literal_table(bytes@, off, cnt),
            header_error(bytes@) is None,
            literal_table_fits(bytes@, off, cnt),
            i <= entries,
            first_string_error(bytes@, data_offset, lits, 0) == first_string_error(
                bytes@,
                data_offset,
                lits,
                i as int,
            ),
        decreases entries - i,
    {
        let pos: usize = off as usize + 8 * (i as usize);
        let lit = StringLiteral { length: read_u32_le(bytes, pos), offset: read_u32_le(bytes, pos + 4) };
        assert(lit == lits[i as int]);
        if lit.offset > u32::MAX - data_offset {
            return Some(MetadataError::StringOffsetOverflow(i as usize));
        }
        let start: u32 = data_offset + lit.offset;
        if start as u64 > bytes.len() as u64 || lit.length as u64 > bytes.len() as u64 - start as u64 {
            return Some(MetadataError::StringDataTruncated(i as usize));
        }
        i = i + 1;
    }
    None
}

/// The concatenation of the first `j` strings is no longer than that of all.
pub proof fn lemma_flatten_take_len(strs: Seq<Seq<u8>>, j: int)
    requires
        0 <= j <= strs.len(),
    ensures
        strs.take(j).flatten().len() <= strs.flatten().len(),
    decreases strs.len() - j,
{
    if j == strs.len() {
        assert(strs.take(j) =~= strs);
    } else {
        assert(strs.take(j + 1) =~= strs.take(j).push(strs[j]));
        strs.take(j).lemma_flatten_push(strs[j]);
        lemma_flatten_take_len(strs, j + 1);
    }
}

impl MetadataFile {
    /// Reads the literal table and the literal bytes of the metadata file
    /// whose contents are `bytes`; `check_metadata` tells whether it can.
    pub fn new(bytes: &Vec<u8>) -> (m: MetadataFile)
        requires
            parse_error(bytes@) is None,
        ensures
            m@ == parsed_view(bytes@),
    {
        let mut file = MetadataFile {
            string_literal_offset: 0,
            string_literal_count: 0,
            data_info_position: 0,
            string_literal_data_offset: 0,
            string_literal_data_count: 0,
            string_literals: Vec::new(),
            str_bytes: Vec::new(),
        };
        file.read_header(bytes);
        file.read_literal(bytes);
        proof {
            assert(file.string_literals@ =~= literal_table(
                bytes@,
                u32_le_at(bytes@, 8),
                u32_le_at(bytes@, 12),
            ));
        }
        file.read_str_byte(bytes);
        proof {
            let lits = literal_table(bytes@, u32_le_at(bytes@, 8), u32_le_at(bytes@, 12));
            assert(file@.literals =~= lits);
            assert(file@.strings =~= strings_of(bytes@, u32_le_at(bytes@, 16), lits));
        }
        file
    }

    /// Reads the header fields: the literal table's offset and size, and the
    /// data region's offset and size.
    pub fn read_header(&mut self, bytes: &Vec<u8>)
        requires
            header_error(bytes@) is None,
        ensures
            final(self)@ == with_header(old(self)@, bytes@),
    {
        let _magic = read_u32_le(bytes, 0);
        let _version = read_u32_le(bytes, 4);
        self.string_literal_offset = read_u32_le(bytes, 8);
        self.string_literal_count = read_u32_le(bytes, 12);
        self.data_info_position = DATA_INFO_POSITION;
        self.string_literal_data_offset = read_u32_le(bytes, 16);
        self.string_literal_data_count = read_u32_le(bytes, 20);
    }

    /// Reads the literal table that the header points to and appends its
    /// entries to `string_literals`.
    pub fn read_literal(&mut self, bytes: &Vec<u8>)
        requires
            literal_table_fits(bytes@, old(self).string_literal_offset, old(self).string_literal_count),
        ensures
            final(self)@ == with_literals(
                old(self)@,
                old(self)@.literals + literal_table(
                    bytes@,
                    old(self).string_literal_offset,
                    old(self).string_literal_count,
                ),
            ),
    {
        let off = self.string_literal_offset;
        let entries: u32 = self.string_literal_count / 8;
        let ghost table = literal_table(bytes@, off, self.string_literal_count);
        let ghost before = self.string_literals@;
        let mut i: u32 = 0;
        while i < entries
            invariant
                off == self.string_literal_offset,
                entries == self.string_literal_count / 8,
                off + 8 * entries <= bytes.len(),
                table == literal_table(bytes@, off, self.string_literal_count),
                i <= entries,
                self.string_literals@ == before + table.take(i as int),
                self@ == with_literals(old(self)@, self.string_literals@),
            decreases entries - i,
        {
            let pos: usize = off as usize + 8 * (i as usize);
            let length = read_u32_le(bytes, pos);
            let offset = read_u32_le(bytes, pos + 4);
            self.string_literals.push(StringLiteral { length, offset });
            i = i + 1;
            assert(self.string_literals@ =~= before + table.take(i as int));
        }
        assert(table.take(entries as int) =~= table);
    }

    /// Reads the bytes of every literal in `string_literals` and appends them
    /// to `str_bytes`.
    pub fn read_str_byte(&mut self, bytes: &Vec<u8>)
        requires
            first_string_error(bytes@, old(self).string_literal_data_offset, old(self)@.literals, 0)
                is None,
        ensures
            final(self)@ == with_strings(
                old(self)@,
                old(self)@.strings + strings_of(
                    bytes@,
                    old(self).string_literal_data_offset,
                    old(self)@.literals,
                ),
            ),
    {
        let data_offset = self.string_literal_data_offset;
        let ghost lits = self.string_literals@;
        let ghost wanted = strings_of(bytes@, data_offset, lits);
        let mut read: Vec<Vec<u8>> = Vec::new();
        let mut i: usize = 0;
        while i < self.string_literals.len()
            invariant
                lits == self.string_literals@,
                self@ == old(self)@,
                data_offset == self.string_literal_data_offset,
                wanted == strings_of(bytes@, data_offset, lits),
                i <= lits.len(),
                first_string_error(bytes@, data_offset, lits, i as int) is None,
                bytes_view(read@) == wanted.take(i as int),
            decreases lits.len() - i,
        {
            let lit = self.string_literals[i];
            assert(string_error(bytes@, data_offset, lits[i as int], i as int) is None);
            let pos: u32 = data_offset + lit.offset;
            assert(pos + lit.length <= bytes.len());
            let s = copy_range(bytes, pos as usize, pos as usize + lit.length as usize);
            let ghost prev = bytes_view(read@);
            let ghost sv = s@;
            read.push(s);
            assert(bytes_view(read@) =~= prev.push(sv));
            i = i + 1;
            assert(bytes_view(read@) =~= wanted.take(i as int));
        }
        assert(wanted.take(i as int) =~= wanted);
        let ghost old_strings = bytes_view(self.str_bytes@);
        self.str_bytes.append(&mut read);
        assert(bytes_view(self.str_bytes@) =~= old_strings + wanted);
    }

    /// The new data size and data offset of storing `str_bytes` into `orig`,
    /// or why that fails.
    fn rewrite_sizes(&self, orig: &Vec<u8>) -> (res: Result<(u32, u32), MetadataError>)
        requires
            self.string_literal_offset + 8 * self.string_literals@.len() <= usize::MAX,
        ensures
            match rebuild_error(orig@, self@) {
                Some(e) => res == Err::<(u32, u32), MetadataError>(e),
                None => res == Ok::<(u32, u32), MetadataError>(
                    (rebuild_count(self@) as u32, rebuild_offset(orig@, self@)),
                ),
            },
    {
        let ghost v = self@;
        let ghost strs = v.strings;
        let n: usize = self.string_literals.len();
        if self.str_bytes.len() < n {
            return Err(MetadataError::MissingStrings);
        }
        let mut count: u32 = 0;
        let mut i: usize = 0;
        while i < n
            invariant
                self@ == v,
                strs == v.strings,
                n == v.literals.len(),
                n <= strs.len(),
                i <= n,
                count == lengths_total(strs, i as int),
            decreases n - i,
        {
            let len: u32 = self.str_bytes[i].len() as u32;
            assert(len == (strs[i as int].len() as u32));
            if len > u32::MAX - count {
                proof {
                    lemma_lengths_total_monotone(strs, i + 1, n as int);
                }
                return Err(MetadataError::SizeOverflow);
            }
            count = count + len;
            i = i + 1;
        }
        let data_offset = self.string_literal_data_offset;
        let data_count = self.string_literal_data_count;
        if count > u32::MAX - data_offset {
            return Err(MetadataError::SizeOverflow);
        }
        let rem: u32 = (data_offset + count) % 4;
        if rem != 0 {
            if 4 - rem > u32::MAX - count {
                return Err(MetadataError::SizeOverflow);
            }
            count = count + (4 - rem);
        }
        if count > data_count && data_count > u32::MAX - data_offset {
            return Err(MetadataError::SizeOverflow);
        }
        proof {
            lemma_table_bytes_len(strs, n as int);
        }
        let table_end: usize = self.string_literal_offset as usize + 8 * n;
        let with_table_len: usize = if n > 0 && table_end > orig.len() {
            table_end
        } else {
            orig.len()
        };
        assert(with_table_len == rebuild_table(orig@, v).len());
        let mut new_offset: u32 = data_offset;
        if count > data_count && data_offset + data_count < with_table_len as u32 {
            let start: usize = (data_offset + data_count) as usize;
            let tail_len: usize = if start <= orig.len() {
                orig.len() - start
            } else {
                0
            };
            assert(tail_len == rebuild_tail(orig@, v).len());
            if tail_len > usize::MAX - with_table_len {
                return Err(MetadataError::SizeOverflow);
            }
            let flushed: usize = if tail_len == 0 {
                0
            } else {
                proof {
                    let t = tail_len - 1;
                    assert(8192 * (t / 8192) <= t) by (nonlinear_arith)
                        requires
                            t >= 0,
                    ;
                }
                APPEND_BUFFER_LEN * ((tail_len - 1) / APPEND_BUFFER_LEN)
            };
            new_offset = (with_table_len + flushed) as u32;
        }
        assert(rebuild_grown(orig@, v).len() <= usize::MAX);
        let mut data_len: usize = 0;
        let mut j: usize = 0;
        while j < self.str_bytes.len()
            invariant
                self@ == v,
                strs == v.strings,
                j <= strs.len(),
                data_len == strs.take(j as int).flatten().len(),
                new_offset == rebuild_offset(orig@, v),
                count as int == rebuild_count(v),
                rebuild_grown(orig@, v).len() <= usize::MAX,
                v.strings.len() >= v.literals.len(),
                rebuild_total(v) <= u32::MAX,
                v.data_offset + rebuild_total(v) <= u32::MAX,
                rebuild_count(v) <= u32::MAX,
                !(rebuild_count(v) > v.data_count && v.data_offset + v.data_count > u32::MAX),
            decreases strs.len() - j,
        {
            assert(self.str_bytes@[j as int]@ == strs[j as int]);
            proof {
                assert(strs.take(j + 1) =~= strs.take(j as int).push(strs[j as int]));
                strs.take(j as int).lemma_flatten_push(strs[j as int]);
            }
            if self.str_bytes[j].len() > usize::MAX - data_len {
                proof {
                    lemma_flatten_take_len(strs, j + 1);
                }
                return Err(MetadataError::SizeOverflow);
            }
            data_len = data_len + self.str_bytes[j].len();
            j = j + 1;
        }
        assert(strs.take(strs.len() as int) =~= strs);
        if data_len > usize::MAX - new_offset as usize {
            return Err(MetadataError::SizeOverflow);
        }
        Ok((count, new_offset))
    }

    /// Why storing `str_bytes` into the metadata file whose contents are
    /// `orig` fails, or `None` when `write_to_new_file` can do it.
    pub fn rewrite_error(&self, orig: &Vec<u8>) -> (r: Option<MetadataError>)
        requires
            self.string_literal_offset + 8 * self.string_literals@.len() <= usize::MAX,
        ensures
            r == rebuild_error(orig@, self@),
    {
        match self.rewrite_sizes(orig) {
            Ok(_) => None,
            Err(e) => Some(e),
        }
    }

    /// Produces the file that results from storing `str_bytes` into the
    /// metadata file whose contents are `orig`, and records the new data
    /// offset and data size.
    pub fn write_to_new_file(&mut self, orig: &Vec<u8>) -> (out: Vec<u8>)
        requires
            old(self).string_literal_offset + 8 * old(self).string_literals@.len() <= usize::MAX,
            old(self).data_info_position + 8 <= usize::MAX,
            rebuild_error(orig@, old(self)@) is None,
        ensures
            rebuild(orig@, old(self)@) matches Ok((bytes, off, cnt)) && out@ == bytes && final(self)@
                == with_data_info(old(self)@, off, cnt),
    {
        reveal(rebuild);
        let ghost v = self@;
        let ghost strs = v.strings;
        let (count, new_offset) = match self.rewrite_sizes(orig) {
            Ok(sizes) => sizes,
            Err(_) => {
                // `rebuild_error` is `None` here, so this arm is never taken.
                return Vec::new();
            },
        };
        let n: usize = self.string_literals.len();
        let mut table: Vec<u8> = Vec::new();
        let mut running: u32 = 0;
        let mut i: usize = 0;
        while i < n
            invariant
                self@ == v,
                strs == v.strings,
                n == v.literals.len(),
                n <= strs.len(),
                i <= n,
                lengths_total(strs, n as int) <= u32::MAX,
                table@ == table_bytes(strs, i as int),
                running == lengths_total(strs, i as int),
            decreases n - i,
        {
            let len: u32 = self.str_bytes[i].len() as u32;
            assert(len == (strs[i as int].len() as u32));
            let mut entry_len = u32_to_le_vec(len);
            let mut entry_off = u32_to_le_vec(running);
            table.append(&mut entry_len);
            table.append(&mut entry_off);
            proof {
                lemma_lengths_total_monotone(strs, i + 1, n as int);
            }
            running = running + len;
            i = i + 1;
        }
        proof {
            lemma_table_bytes_len(strs, n as int);
        }
        let data_offset = self.string_literal_data_offset;
        let data_count = self.string_literal_data_count;
        let mut out = copy_vec(orig);
        write_bytes_at(&mut out, self.string_literal_offset as usize, &table);
        assert(out@ == rebuild_table(orig@, v));
        if count > data_count && data_offset + data_count < out.len() as u32 {
            let start: usize = (data_offset + data_count) as usize;
            let mut tail: Vec<u8> = if start <= orig.len() {
                copy_range(orig, start, orig.len())
            } else {
                Vec::new()
            };
            out.append(&mut tail);
        }
        assert(out@ == rebuild_grown(orig@, v));
        let mut data: Vec<u8> = Vec::new();
        let mut j: usize = 0;
        while j < self.str_bytes.len()
            invariant
                self@ == v,
                strs == v.strings,
                j <= strs.len(),
                data@ == strs.take(j as int).flatten(),
            decreases strs.len() - j,
        {
            let mut piece = copy_vec(&self.str_bytes[j]);
            assert(piece@ == strs[j as int]);
            data.append(&mut piece);
            proof {
                assert(strs.take(j + 1) =~= strs.take(j as int).push(strs[j as int]));
                strs.take(j as int).lemma_flatten_push(strs[j as int]);
            }
            j = j + 1;
        }
        assert(strs.take(strs.len() as int) =~= strs);
        write_bytes_at(&mut out, new_offset as usize, &data);
        let mut info = u32_to_le_vec(new_offset);
        let mut count_bytes = u32_to_le_vec(count);
        info.append(&mut count_bytes);
        write_bytes_at(&mut out, self.data_info_position as usize, &info);
        self.string_literal_data_offset = new_offset;
        self.string_literal_data_count = count;
        out
    }
}

} // verus!
