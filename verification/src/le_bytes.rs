//! Little-endian `u32` fields and positioned writes into a byte buffer.
use vstd::prelude::*;

verus! {

/// The `u32` stored little-endian in the four bytes `b[pos..pos + 4]`.
pub open spec fn u32_le_at(b: Seq<u8>, pos: int) -> u32 {
    (b[pos] as int + b[pos + 1] as int * 0x100 + b[pos + 2] as int * 0x1_0000 + b[pos + 3] as int
        * 0x100_0000) as u32
}

/// The four little-endian bytes of `v`.
pub open spec fn u32_le_bytes(v: u32) -> Seq<u8> {
    seq![
        (v % 0x100) as u8,
        ((v / 0x100) % 0x100) as u8,
        ((v / 0x1_0000) % 0x100) as u8,
        (v / 0x100_0000) as u8,
    ]
}

/// Decoding the encoding of `v` gives `v` back.
pub proof fn lemma_u32_le_roundtrip(v: u32)
    ensures
        u32_le_bytes(v).len() == 4,
        u32_le_at(u32_le_bytes(v), 0) == v,
{
    let b = u32_le_bytes(v);
    assert(b[0] as int + b[1] as int * 0x100 + b[2] as int * 0x1_0000 + b[3] as int * 0x100_0000
        == v) by (nonlinear_arith)
        requires
            b[0] == v % 0x100,
            b[1] == (v / 0x100) % 0x100,
            b[2] == (v / 0x1_0000) % 0x100,
            b[3] == v / 0x100_0000,
    ;
}

/// Reads the little-endian `u32` at `pos`.
pub fn read_u32_le(b: &Vec<u8>, pos: usize) -> (v: u32)
    requires
        pos + 4 <= b.len(),
    ensures
        v == u32_le_at(b@, pos as int),
{
    let b0: u32 = b[pos] as u32;
    let b1: u32 = b[pos + 1] as u32;
    let b2: u32 = b[pos + 2] as u32;
    let b3: u32 = b[pos + 3] as u32;
    assert(b1 < 0x100 && b2 < 0x100 && b3 < 0x100);
    let v: u32 = b0 + b1 * 0x100 + b2 * 0x1_0000 + b3 * 0x100_0000;
    v
}

/// The little-endian bytes of `v`, as a vector.
pub fn u32_to_le_vec(v: u32) -> (out: Vec<u8>)
    ensures
        out@ == u32_le_bytes(v),
{
    let mut out: Vec<u8> = Vec::new();
    out.push((v % 0x100) as u8);
    out.push(((v / 0x100) % 0x100) as u8);
    out.push(((v / 0x1_0000) % 0x100) as u8);
    out.push((v / 0x100_0000) as u8);
    assert(out@ =~= u32_le_bytes(v));
    out
}

/// The buffer after `data` is written at offset `pos`, as a seekable file
/// behaves: bytes in `[pos, pos + data.len())` take the new values, the rest
/// keep theirs, and a gap between the old end and `pos` reads as zeros.
/// Writing no bytes leaves the buffer as it is, wherever `pos` lies.
pub open spec fn write_at(buf: Seq<u8>, pos: int, data: Seq<u8>) -> Seq<u8> {
    let len = if data.len() > 0 && pos + data.len() > buf.len() {
        pos + data.len()
    } else {
        buf.len() as int
    };
    Seq::new(
        len as nat,
        |k: int|
            if pos <= k < pos + data.len() {
                data[k - pos]
            } else if k < buf.len() {
                buf[k]
            } else {
                0u8
            },
    )
}

/// Writes `data` into `buf` at offset `pos`, growing `buf` as needed.
pub fn write_bytes_at(buf: &mut Vec<u8>, pos: usize, data: &Vec<u8>)
    requires
        pos + data.len() <= usize::MAX,
    ensures
        final(buf)@ == write_at(old(buf)@, pos as int, data@),
{
    let ghost orig = buf@;
    let end: usize = pos + data.len();
    if data.len() == 0 {
        assert(buf@ =~= write_at(orig, pos as int, data@));
        return;
    }
    while buf.len() < pos
        invariant
            orig.len() <= buf@.len() <= pos || (buf@.len() == orig.len() && orig.len() >= pos),
            forall|k: int| 0 <= k < buf@.len() ==> #[trigger] buf@[k] == if k < orig.len() {
                orig[k]
            } else {
                0u8
            },
        decreases pos - buf.len(),
    {
        buf.push(0);
    }
    let mut i: usize = 0;
    while i < data.len()
        invariant
            end == pos + data.len(),
            data@.len() > 0,
            i <= data.len(),
            buf@.len() == if pos + i > orig.len() {
                pos + i
            } else {
                orig.len() as int
            },
            forall|k: int|
                0 <= k < buf@.len() ==> #[trigger] buf@[k] == if pos <= k < pos + i {
                    data@[k - pos]
                } else if k < orig.len() {
                    orig[k]
                } else {
                    0u8
                },
        decreases data.len() - i,
    {
        if pos + i < buf.len() {
            buf.set(pos + i, data[i]);
        } else {
            buf.push(data[i]);
        }
        i = i + 1;
    }
    assert(buf@ =~= write_at(orig, pos as int, data@));
}

} // verus!
