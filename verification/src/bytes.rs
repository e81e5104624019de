//! Little-endian integers in byte sequences: how the x86 firmware and the
//! boot protocols lay out their fields.
use vstd::prelude::*;

verus! {

#[verifier::opaque]
/// The `u16` stored little-endian at `off` in `s`.
pub open spec fn le16(s: Seq<u8>, off: int) -> u16 {
    (s[off] as int + s[off + 1] as int * 0x100) as u16
}

#[verifier::opaque]
/// The `u32` stored little-endian at `off` in `s`.
pub open spec fn le32(s: Seq<u8>, off: int) -> u32 {
    (s[off] as int + s[off + 1] as int * 0x100 + s[off + 2] as int * 0x1_0000 + s[off + 3] as int
        * 0x100_0000) as u32
}

#[verifier::opaque]
/// The `u64` stored little-endian at `off` in `s`.
pub open spec fn le64(s: Seq<u8>, off: int) -> u64 {
    (le32(s, off) as int + le32(s, off + 4) as int * 0x1_0000_0000) as u64
}

#[verifier::opaque]
/// The little-endian bytes of a `u16`.
pub open spec fn u16_bytes(v: u16) -> Seq<u8> {
    seq![(v % 0x100) as u8, (v / 0x100) as u8]
}

#[verifier::opaque]
/// The little-endian bytes of a `u32`.
pub open spec fn u32_bytes(v: u32) -> Seq<u8> {
    seq![
        (v % 0x100) as u8,
        ((v / 0x100) % 0x100) as u8,
        ((v / 0x1_0000) % 0x100) as u8,
        (v / 0x100_0000) as u8,
    ]
}

#[verifier::opaque]
/// The little-endian bytes of a `u64`.
pub open spec fn u64_bytes(v: u64) -> Seq<u8> {
    u32_bytes((v % 0x1_0000_0000) as u32) + u32_bytes((v / 0x1_0000_0000) as u32)
}

/// The unsigned number held by the `n` bytes at `off` in `s`, least
/// significant byte first.
pub open spec fn bytes_value(s: Seq<u8>, off: int, n: nat) -> int
    decreases n,
{
    if n == 0 {
        0
    } else {
        s[off] as int + 0x100 * bytes_value(s, off + 1, (n - 1) as nat)
    }
}

/// Reading a 16-, 32- or 64-bit field gives the little-endian number its
/// bytes hold.
pub proof fn lemma_le_values(s: Seq<u8>, off: int)
    ensures
        le16(s, off) as int == bytes_value(s, off, 2),
        le32(s, off) as int == bytes_value(s, off, 4),
        le64(s, off) as int == bytes_value(s, off, 8),
{
    reveal(le16);
    reveal(le32);
    reveal(le64);
    reveal_with_fuel(bytes_value, 9);
    assert(le32(s, off + 4) as int == bytes_value(s, off + 4, 4));
    assert(bytes_value(s, off, 8) == bytes_value(s, off, 4) + 0x1_0000_0000 * bytes_value(
        s,
        off + 4,
        4,
    ));
}

/// The number held by `n` bytes depends on those bytes alone.
pub proof fn lemma_bytes_value_frame(s: Seq<u8>, off: int, t: Seq<u8>, o2: int, n: nat)
    requires
        forall|x: int| off <= x < off + n ==> #[trigger] s[x] == t[x - off + o2],
    ensures
        bytes_value(s, off, n) == bytes_value(t, o2, n),
    decreases n,
{
    if n > 0 {
        assert(s[off] == t[o2]);
        lemma_bytes_value_frame(s, off + 1, t, o2 + 1, (n - 1) as nat);
    }
}

/// Reading `n` bytes of `a + b` reads them from the part they lie in.
pub proof fn lemma_bytes_value_concat(a: Seq<u8>, b: Seq<u8>, k: int, n: nat)
    requires
        0 <= k,
    ensures
        k + n <= a.len() ==> bytes_value(a + b, k, n) == bytes_value(a, k, n),
        k >= a.len() && k + n <= a.len() + b.len() ==> bytes_value(a + b, k, n) == bytes_value(
            b,
            k - a.len(),
            n,
        ),
{
    if k + n <= a.len() {
        lemma_bytes_value_frame(a + b, k, a, k, n);
    }
    if k >= a.len() && k + n <= a.len() + b.len() {
        lemma_bytes_value_frame(a + b, k, b, k - a.len(), n);
    }
}

/// The encodings of integers hold the integers.
pub proof fn lemma_encoded_values(v16: u16, v32: u32, v64: u64)
    ensures
        bytes_value(u16_bytes(v16), 0, 2) == v16,
        bytes_value(u32_bytes(v32), 0, 4) == v32,
        bytes_value(u64_bytes(v64), 0, 8) == v64,
{
    lemma_u16_roundtrip(v16);
    lemma_u32_roundtrip(v32);
    lemma_u64_roundtrip(v64);
    lemma_le_values(u16_bytes(v16), 0);
    lemma_le_values(u32_bytes(v32), 0);
    lemma_le_values(u64_bytes(v64), 0);
}

/// The byte length of a `u16`'s encoding.
pub broadcast proof fn lemma_u16_bytes_len(v: u16)
    ensures
        #[trigger] u16_bytes(v).len() == 2,
{
    reveal(u16_bytes);
}

/// The byte length of a `u32`'s encoding.
pub broadcast proof fn lemma_u32_bytes_len(v: u32)
    ensures
        #[trigger] u32_bytes(v).len() == 4,
{
    reveal(u32_bytes);
}

/// The byte length of a `u64`'s encoding.
pub broadcast proof fn lemma_u64_bytes_len(v: u64)
    ensures
        #[trigger] u64_bytes(v).len() == 8,
{
    reveal(u64_bytes);
    reveal(u32_bytes);
}

/// The byte lengths of the integer encodings.
pub broadcast group group_bytes_len {
    lemma_u16_bytes_len,
    lemma_u32_bytes_len,
    lemma_u64_bytes_len,
}

/// Reading back what a `u16` was written as gives the `u16`.
pub proof fn lemma_u16_roundtrip(v: u16)
    ensures
        u16_bytes(v).len() == 2,
        le16(u16_bytes(v), 0) == v,
{
    reveal(le16);
    reveal(le32);
    reveal(le64);
    reveal(u16_bytes);
    reveal(u32_bytes);
    reveal(u64_bytes);
    let b = u16_bytes(v);
    assert(b[0] as int + b[1] as int * 0x100 == v) by (nonlinear_arith)
        requires
            b[0] == (v % 0x100) as u8,
            b[1] == (v / 0x100) as u8,
    ;
}

/// Reading back what a `u32` was written as gives the `u32`.
pub proof fn lemma_u32_roundtrip(v: u32)
    ensures
        u32_bytes(v).len() == 4,
        le32(u32_bytes(v), 0) == v,
{
    reveal(le16);
    reveal(le32);
    reveal(le64);
    reveal(u16_bytes);
    reveal(u32_bytes);
    reveal(u64_bytes);
    let b = u32_bytes(v);
    assert(b[0] as int + b[1] as int * 0x100 + b[2] as int * 0x1_0000 + b[3] as int * 0x100_0000
        == v) by (nonlinear_arith)
        requires
            b[0] == (v % 0x100) as u8,
            b[1] == ((v / 0x100) % 0x100) as u8,
            b[2] == ((v / 0x1_0000) % 0x100) as u8,
            b[3] == (v / 0x100_0000) as u8,
    ;
}

/// Reading back what a `u64` was written as gives the `u64`.
pub proof fn lemma_u64_roundtrip(v: u64)
    ensures
        u64_bytes(v).len() == 8,
        le64(u64_bytes(v), 0) == v,
{
    reveal(le16);
    reveal(le32);
    reveal(le64);
    reveal(u16_bytes);
    reveal(u32_bytes);
    reveal(u64_bytes);
    let lo = (v % 0x1_0000_0000) as u32;
    let hi = (v / 0x1_0000_0000) as u32;
    lemma_u32_roundtrip(lo);
    lemma_u32_roundtrip(hi);
    let b = u64_bytes(v);
    assert(b.subrange(0, 4) =~= u32_bytes(lo));
    assert(b.subrange(4, 8) =~= u32_bytes(hi));
    assert(le32(b, 0) == le32(u32_bytes(lo), 0));
    assert(le32(b, 4) == le32(u32_bytes(hi), 0));
    assert(lo as int + hi as int * 0x1_0000_0000 == v) by (nonlinear_arith)
        requires
            lo == v % 0x1_0000_0000,
            hi == v / 0x1_0000_0000,
    ;
}

/// Reads the byte at `off`.
pub fn read_u8(s: &[u8], off: usize) -> (v: u8)
    requires
        off < s.len(),
    ensures
        v == s@[off as int],
{
    s[off]
}

/// Reads the little-endian `u16` at `off`.
pub fn read_u16(s: &[u8], off: usize) -> (v: u16)
    requires
        off + 2 <= s.len(),
    ensures
        v == le16(s@, off as int),
{
    reveal(le16);
    reveal(le32);
    reveal(le64);
    reveal(u16_bytes);
    reveal(u32_bytes);
    reveal(u64_bytes);
    s[off] as u16 + (s[off + 1] as u16) * 0x100
}

/// Reads the little-endian `u32` at `off`.
pub fn read_u32(s: &[u8], off: usize) -> (v: u32)
    requires
        off + 4 <= s.len(),
    ensures
        v == le32(s@, off as int),
{
    reveal(le16);
    reveal(le32);
    reveal(le64);
    reveal(u16_bytes);
    reveal(u32_bytes);
    reveal(u64_bytes);
    s[off] as u32 + (s[off + 1] as u32) * 0x100 + (s[off + 2] as u32) * 0x1_0000 + (s[off
        + 3] as u32) * 0x100_0000
}

/// Reads the little-endian `u64` at `off`.
pub fn read_u64(s: &[u8], off: usize) -> (v: u64)
    requires
        off + 8 <= s.len(),
    ensures
        v == le64(s@, off as int),
{
    reveal(le16);
    reveal(le32);
    reveal(le64);
    reveal(u16_bytes);
    reveal(u32_bytes);
    reveal(u64_bytes);
    let lo = read_u32(s, off);
    let hi = read_u32(s, off + 4);
    lo as u64 + (hi as u64) * 0x1_0000_0000
}

/// The little-endian bytes of `v`.
pub fn u16_to_bytes(v: u16) -> (b: Vec<u8>)
    ensures
        b@ == u16_bytes(v),
{
    reveal(u16_bytes);
    reveal(u32_bytes);
    reveal(u64_bytes);
    let b = vec![(v % 0x100) as u8, (v / 0x100) as u8];
    assert(b@ =~= u16_bytes(v));
    b
}

/// The little-endian bytes of `v`.
pub fn u32_to_bytes(v: u32) -> (b: Vec<u8>)
    ensures
        b@ == u32_bytes(v),
{
    reveal(u16_bytes);
    reveal(u32_bytes);
    reveal(u64_bytes);
    let b = vec![
        (v % 0x100) as u8,
        ((v / 0x100) % 0x100) as u8,
        ((v / 0x1_0000) % 0x100) as u8,
        (v / 0x100_0000) as u8,
    ];
    assert(b@ =~= u32_bytes(v));
    b
}

/// The little-endian bytes of `v`.
pub fn u64_to_bytes(v: u64) -> (b: Vec<u8>)
    ensures
        b@ == u64_bytes(v),
{
    reveal(u16_bytes);
    reveal(u32_bytes);
    reveal(u64_bytes);
    let mut b = u32_to_bytes((v % 0x1_0000_0000) as u32);
    let mut hi = u32_to_bytes((v / 0x1_0000_0000) as u32);
    b.append(&mut hi);
    b
}

} // verus!
