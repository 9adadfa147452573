//! Little-endian integers inside byte buffers.
use vstd::prelude::*;

verus! {

/// The little-endian 16-bit integer at offset `o` of `b`.
pub open spec fn u16_at(b: Seq<u8>, o: int) -> u16 {
    (b[o] + 0x100 * b[o + 1]) as u16
}

/// The little-endian 32-bit integer at offset `o` of `b`.
pub open spec fn u32_at(b: Seq<u8>, o: int) -> u32 {
    (b[o] + 0x100 * b[o + 1] + 0x1_0000 * b[o + 2] + 0x100_0000 * b[o + 3]) as u32
}

/// The little-endian 64-bit integer at offset `o` of `b`.
pub open spec fn u64_at(b: Seq<u8>, o: int) -> u64 {
    (u32_at(b, o) + 0x1_0000_0000 * u32_at(b, o + 4)) as u64
}

/// The two bytes of `v`, least significant first.
pub open spec fn le16(v: u16) -> Seq<u8> {
    seq![(v % 0x100) as u8, (v / 0x100) as u8]
}

/// The four bytes of `v`, least significant first.
pub open spec fn le32(v: u32) -> Seq<u8> {
    seq![
        (v % 0x100) as u8,
        (v / 0x100 % 0x100) as u8,
        (v / 0x1_0000 % 0x100) as u8,
        (v / 0x100_0000) as u8,
    ]
}

/// The eight bytes of `v`, least significant first.
pub open spec fn le64(v: u64) -> Seq<u8> {
    le32((v % 0x1_0000_0000) as u32) + le32((v / 0x1_0000_0000) as u32)
}

/// `b` with the bytes from offset `o` on replaced by those of `w`.
pub open spec fn splice(b: Seq<u8>, o: int, w: Seq<u8>) -> Seq<u8> {
    Seq::new(
        b.len(),
        |i: int|
            if o <= i < o + w.len() {
                w[i - o]
            } else {
                b[i]
            },
    )
}

pub fn rd_u16(b: &[u8], o: usize) -> (v: u16)
    requires
        o + 2 <= b@.len(),
    ensures
        v == u16_at(b@, o as int),
{
    b[o] as u16 + 0x100 * (b[o + 1] as u16)
}

pub fn rd_u32(b: &[u8], o: usize) -> (v: u32)
    requires
        o + 4 <= b@.len(),
    ensures
        v == u32_at(b@, o as int),
{
    b[o] as u32 + 0x100 * (b[o + 1] as u32) + 0x1_0000 * (b[o + 2] as u32) + 0x100_0000 * (b[o
        + 3] as u32)
}

pub fn rd_u64(b: &[u8], o: usize) -> (v: u64)
    requires
        o + 8 <= b@.len(),
    ensures
        v == u64_at(b@, o as int),
{
    assert(o + 8 <= b.len());
    let low: u32 = rd_u32(b, o);
    let high: u32 = rd_u32(b, o + 4);
    low as u64 + 0x1_0000_0000 * (high as u64)
}

pub fn wr_u16(b: &mut [u8], o: usize, v: u16)
    requires
        o + 2 <= old(b)@.len(),
    ensures
        final(b)@ == splice(old(b)@, o as int, le16(v)),
{
    b[o] = (v % 0x100) as u8;
    b[o + 1] = (v / 0x100) as u8;
    assert(b@ =~= splice(old(b)@, o as int, le16(v)));
}

pub fn wr_u32(b: &mut [u8], o: usize, v: u32)
    requires
        o + 4 <= old(b)@.len(),
    ensures
        final(b)@ == splice(old(b)@, o as int, le32(v)),
{
    b[o] = (v % 0x100) as u8;
    b[o + 1] = (v / 0x100 % 0x100) as u8;
    b[o + 2] = (v / 0x1_0000 % 0x100) as u8;
    b[o + 3] = (v / 0x100_0000) as u8;
    assert(b@ =~= splice(old(b)@, o as int, le32(v)));
}

pub fn wr_u64(b: &mut [u8], o: usize, v: u64)
    requires
        o + 8 <= old(b)@.len(),
    ensures
        final(b)@ == splice(old(b)@, o as int, le64(v)),
{
    assert(o + 8 <= b.len());
    wr_u32(b, o, (v % 0x1_0000_0000) as u32);
    wr_u32(b, o + 4, (v / 0x1_0000_0000) as u32);
    assert(b@ =~= splice(old(b)@, o as int, le64(v)));
}

/// Writing `w` at the start and then `x` behind it writes `w` and `x` at once.
pub proof fn lemma_splice_next(b: Seq<u8>, w: Seq<u8>, x: Seq<u8>)
    requires
        w.len() + x.len() <= b.len(),
    ensures
        splice(splice(b, 0, w), w.len() as int, x) == splice(b, 0, w + x),
{
    assert(splice(splice(b, 0, w), w.len() as int, x) =~= splice(b, 0, w + x));
}

/// Copies `src` into a new vector.
pub fn copy_bytes(src: &[u8]) -> (out: Vec<u8>)
    ensures
        out@ == src@,
{
    let mut out: Vec<u8> = Vec::new();
    out.extend_from_slice(src);
    assert(out@ =~= src@);
    out
}

/// Reading back a 16-bit integer gives the value that was written.
pub proof fn law_u16_write_then_read(b: Seq<u8>, o: int, v: u16)
    requires
        0 <= o,
        o + 2 <= b.len(),
    ensures
        u16_at(splice(b, o, le16(v)), o) == v,
{
}

/// Reading back a 32-bit integer gives the value that was written.
pub proof fn law_u32_write_then_read(b: Seq<u8>, o: int, v: u32)
    requires
        0 <= o,
        o + 4 <= b.len(),
    ensures
        u32_at(splice(b, o, le32(v)), o) == v,
{
}

/// Reading back a 64-bit integer gives the value that was written.
pub proof fn law_u64_write_then_read(b: Seq<u8>, o: int, v: u64)
    requires
        0 <= o,
        o + 8 <= b.len(),
    ensures
        u64_at(splice(b, o, le64(v)), o) == v,
{
    let low = (v % 0x1_0000_0000) as u32;
    let high = (v / 0x1_0000_0000) as u32;
    let first = splice(b, o, le32(low));
    assert(splice(b, o, le64(v)) =~= splice(first, o + 4, le32(high)));
    law_u32_write_then_read(b, o, low);
    law_u32_write_then_read(first, o + 4, high);
    law_write_leaves_other_integers(first, o + 4, le32(high), o);
}

/// A write leaves every integer that lies outside the written range unchanged.
pub proof fn law_write_leaves_other_integers(b: Seq<u8>, o: int, w: Seq<u8>, p: int)
    requires
        0 <= o,
        o + w.len() <= b.len(),
        0 <= p,
    ensures
        p + 2 <= b.len() && (p + 2 <= o || o + w.len() <= p) ==> u16_at(splice(b, o, w), p)
            == u16_at(b, p),
        p + 4 <= b.len() && (p + 4 <= o || o + w.len() <= p) ==> u32_at(splice(b, o, w), p)
            == u32_at(b, p),
        p + 8 <= b.len() && (p + 8 <= o || o + w.len() <= p) ==> u64_at(splice(b, o, w), p)
            == u64_at(b, p),
{
}

/// Whether the bytes `w` stand in `b` at offset `o`.
pub open spec fn holds(b: Seq<u8>, o: int, w: Seq<u8>) -> bool {
    0 <= o && o + w.len() <= b.len() && b.subrange(o, o + w.len()) == w
}

/// A part of bytes that stand in `b` stands in `b` too.
pub proof fn lemma_holds_part(b: Seq<u8>, o: int, w: Seq<u8>, from: int, to: int)
    requires
        holds(b, o, w),
        0 <= from <= to <= w.len(),
    ensures
        holds(b, o + from, w.subrange(from, to)),
{
    assert(b.subrange(o, o + w.len()) == w);
    assert(b.subrange(o + from, o + to) =~= w.subrange(from, to));
}

/// The bytes of an integer read as that integer.
pub proof fn law_le_bytes_read_back(b: Seq<u8>, o: int, v16: u16, v32: u32, v64: u64)
    ensures
        holds(b, o, le16(v16)) ==> u16_at(b, o) == v16,
        holds(b, o, le32(v32)) ==> u32_at(b, o) == v32,
        holds(b, o, le64(v64)) ==> u64_at(b, o) == v64,
{
    if holds(b, o, le16(v16)) {
        let s = b.subrange(o, o + 2);
        assert(s[0] == b[o] && s[1] == b[o + 1]);
    }
    if holds(b, o, le32(v32)) {
        lemma_le32_reads_back(b, o, v32);
    }
    if holds(b, o, le64(v64)) {
        let low = (v64 % 0x1_0000_0000) as u32;
        let high = (v64 / 0x1_0000_0000) as u32;
        lemma_holds_part(b, o, le64(v64), 0, 4);
        lemma_holds_part(b, o, le64(v64), 4, 8);
        assert(le64(v64).subrange(0, 4) =~= le32(low));
        assert(le64(v64).subrange(4, 8) =~= le32(high));
        lemma_le32_reads_back(b, o, low);
        lemma_le32_reads_back(b, o + 4, high);
    }
}

proof fn lemma_le32_reads_back(b: Seq<u8>, o: int, v: u32)
    requires
        holds(b, o, le32(v)),
    ensures
        u32_at(b, o) == v,
{
    let s = b.subrange(o, o + 4);
    assert(s[0] == b[o] && s[1] == b[o + 1] && s[2] == b[o + 2] && s[3] == b[o + 3]);
}

} // verus!
