//! The run-time type information block that lets an MSVC host
//! `dynamic_cast` the driver object to `IBonDriver2`.
//!
//! The block holds, from its start: the address of the complete object
//! locator (the slot just before the vtable), the vtable, the locator,
//! the class hierarchy of `IBonDriver2`, its base class array, the two
//! base class descriptors, the hierarchy of `IBonDriver` alone with its
//! array, and the two type descriptors. Offsets inside the block are
//! relative to its start, which the host recovers as the locator's
//! address minus the locator's own offset.
use vstd::prelude::*;

verus! {

/// Offset of the vtable.
pub const VTBL_OFF: usize = 0x008;
/// Offset of the complete object locator.
pub const COL_OFF: usize = 0x090;
/// Offset of the class hierarchy descriptor of `IBonDriver2`.
pub const CHD_OFF: usize = 0x0a8;
/// Offset of the base class array of `IBonDriver2`.
pub const BCA_OFF: usize = 0x0b8;
/// Offset of the base class descriptor of `IBonDriver2`.
pub const BCD0_OFF: usize = 0x0c0;
/// Offset of the base class descriptor of `IBonDriver`.
pub const BCD1_OFF: usize = 0x0dc;
/// Offset of the class hierarchy descriptor of `IBonDriver` alone.
pub const CHD1_OFF: usize = 0x0f8;
/// Offset of the base class array of `IBonDriver` alone.
pub const BCA1_OFF: usize = 0x108;
/// Offset of the type descriptor of `IBonDriver2`.
pub const TD2_OFF: usize = 0x110;
/// Offset of the type descriptor of `IBonDriver`.
pub const TD1_OFF: usize = 0x138;
/// Size of the whole block.
pub const BLOCK_SIZE: usize = 0x160;
/// Size of the two pointers that start a type descriptor.
pub const TD_HEADER: usize = 16;

/// The decorated name of `IBonDriver2`, `.?AVIBonDriver2@@`, with its NUL.
pub open spec fn td2_name() -> Seq<u8> {
    seq![
        0x2eu8, 0x3fu8, 0x41u8, 0x56u8, 0x49u8, 0x42u8, 0x6fu8, 0x6eu8, 0x44u8,
        0x72u8, 0x69u8, 0x76u8, 0x65u8, 0x72u8, 0x32u8, 0x40u8, 0x40u8, 0x00u8,
    ]
}

/// The decorated name of `IBonDriver`, `.?AVIBonDriver@@`, with its NUL.
pub open spec fn td1_name() -> Seq<u8> {
    seq![
        0x2eu8, 0x3fu8, 0x41u8, 0x56u8, 0x49u8, 0x42u8, 0x6fu8, 0x6eu8, 0x44u8,
        0x72u8, 0x69u8, 0x76u8, 0x65u8, 0x72u8, 0x40u8, 0x40u8, 0x00u8,
    ]
}

/// The little-endian bytes of a 32-bit value.
pub open spec fn le32(v: nat) -> Seq<u8> {
    seq![
        (v % 0x100) as u8,
        ((v / 0x100) % 0x100) as u8,
        ((v / 0x1_0000) % 0x100) as u8,
        ((v / 0x100_0000) % 0x100) as u8,
    ]
}

/// The little-endian bytes of a 64-bit value.
pub open spec fn le64(v: nat) -> Seq<u8> {
    le32(v % 0x1_0000_0000) + le32((v / 0x1_0000_0000) % 0x1_0000_0000)
}

/// `n` zero bytes.
pub open spec fn zeros(n: nat) -> Seq<u8> {
    Seq::new(n, |i: int| 0u8)
}

/// The whole block for a vtable `vtbl` and a block placed at `base`.
pub open spec fn rtti_image(vtbl: Seq<u8>, base: nat) -> Seq<u8> {
    le64(base + COL_OFF as nat) + vtbl + zeros((COL_OFF - VTBL_OFF - vtbl.len()) as nat)
    // complete object locator: signature 1 (image-relative offsets), offset
    // and displacement 0, type descriptor, hierarchy, and its own offset
    + le32(1) + le32(0) + le32(0) + le32(TD2_OFF as nat) + le32(CHD_OFF as nat) + le32(COL_OFF as nat)
    // hierarchy of IBonDriver2: single, non-virtual inheritance of two classes
    + le32(0) + le32(0) + le32(2) + le32(BCA_OFF as nat)
    + le32(BCD0_OFF as nat) + le32(BCD1_OFF as nat)
    // base class descriptors: type, bases below, displacement {0, -1, 0},
    // attributes (hierarchy present), hierarchy
    + le32(TD2_OFF as nat) + le32(1) + le32(0) + le32(0xffff_ffff) + le32(0) + le32(0x40) + le32(CHD_OFF as nat)
    + le32(TD1_OFF as nat) + le32(0) + le32(0) + le32(0xffff_ffff) + le32(0) + le32(0x40) + le32(CHD1_OFF as nat)
    // hierarchy of IBonDriver alone and its array
    + le32(0) + le32(0) + le32(1) + le32(BCA1_OFF as nat)
    + le32(BCD1_OFF as nat) + zeros((TD2_OFF - BCA1_OFF - 4) as nat)
    // type descriptors: null vftable and spare, then the decorated name
    + zeros(TD_HEADER as nat) + td2_name() + zeros((TD1_OFF - TD2_OFF - TD_HEADER - 18) as nat)
    + zeros(TD_HEADER as nat) + td1_name() + zeros((BLOCK_SIZE - TD1_OFF - TD_HEADER - 17) as nat)
}

/// The fields the host reads stand where it looks for them: the block
/// has its full size, the locator's address sits just before the vtable,
/// the vtable follows, the locator names the `IBonDriver2` type
/// descriptor and its own offset (so the host recovers `base` as the
/// locator's address minus that offset), and each type descriptor's name
/// follows its header without running into the next one or past the end.
pub proof fn lemma_rtti_layout(vtbl: Seq<u8>, base: nat)
    requires
        vtbl.len() <= COL_OFF - VTBL_OFF,
    ensures
        ({
            let img = rtti_image(vtbl, base);
            &&& img.len() == BLOCK_SIZE
            &&& img.subrange(0, VTBL_OFF as int) == le64(base + COL_OFF as nat)
            &&& img.subrange(VTBL_OFF as int, VTBL_OFF + vtbl.len()) == vtbl
            &&& img.subrange(COL_OFF + 12, COL_OFF + 16) == le32(TD2_OFF as nat)
            &&& img.subrange(COL_OFF + 20, COL_OFF + 24) == le32(COL_OFF as nat)
            &&& img.subrange(TD2_OFF + TD_HEADER, TD2_OFF + TD_HEADER + 18) == td2_name()
            &&& img.subrange(TD1_OFF + TD_HEADER, TD1_OFF + TD_HEADER + 17) == td1_name()
            &&& TD2_OFF + TD_HEADER + td2_name().len() <= TD1_OFF
            &&& TD1_OFF + TD_HEADER + td1_name().len() <= BLOCK_SIZE
        }),
{
    let img = rtti_image(vtbl, base);
    let head = le64(base + COL_OFF as nat) + vtbl;
    let a = head + zeros((COL_OFF - VTBL_OFF - vtbl.len()) as nat);
    assert(a.len() == COL_OFF);
    let col = a + le32(1) + le32(0) + le32(0) + le32(TD2_OFF as nat) + le32(CHD_OFF as nat) + le32(COL_OFF as nat);
    assert(col.subrange(COL_OFF + 12, COL_OFF + 16) =~= le32(TD2_OFF as nat));
    assert(col.subrange(COL_OFF + 20, COL_OFF + 24) =~= le32(COL_OFF as nat));
    assert(head.subrange(0, 8) =~= le64(base + COL_OFF as nat));
    assert(head.subrange(8, 8 + vtbl.len() as int) =~= vtbl);
    assert(img.len() == BLOCK_SIZE);
    assert(img.subrange(0, 8) =~= head.subrange(0, 8));
    assert(img.subrange(8, 8 + vtbl.len() as int) =~= head.subrange(8, 8 + vtbl.len() as int));
    assert(img.subrange(COL_OFF + 12, COL_OFF + 16) =~= col.subrange(COL_OFF + 12, COL_OFF + 16));
    assert(img.subrange(COL_OFF + 20, COL_OFF + 24) =~= col.subrange(COL_OFF + 20, COL_OFF + 24));
    assert(img.subrange(TD2_OFF + TD_HEADER, TD2_OFF + TD_HEADER + 18) =~= td2_name());
    assert(img.subrange(TD1_OFF + TD_HEADER, TD1_OFF + TD_HEADER + 17) =~= td1_name());
}

/// The 32-bit little-endian value at `off`.
pub open spec fn read_u32(b: Seq<u8>, off: int) -> int {
    b[off] as int + b[off + 1] as int * 0x100 + b[off + 2] as int * 0x1_0000 + b[off + 3] as int
        * 0x100_0000
}

/// The 64-bit little-endian value at `off`.
pub open spec fn read_u64(b: Seq<u8>, off: int) -> int {
    read_u32(b, off) + read_u32(b, off + 4) * 0x1_0000_0000
}

/// Little-endian bytes read back as the value written.
proof fn lemma_le32_reads(v: nat)
    requires
        v < 0x1_0000_0000,
    ensures
        read_u32(le32(v), 0) == v,
{
    let s = le32(v);
    assert(s[0] as nat == v % 0x100);
    assert(s[1] as nat == (v / 0x100) % 0x100);
    assert(s[2] as nat == (v / 0x1_0000) % 0x100);
    assert(s[3] as nat == (v / 0x100_0000) % 0x100);
    assert(v == v % 0x100 + ((v / 0x100) % 0x100) * 0x100 + ((v / 0x1_0000) % 0x100) * 0x1_0000
        + ((v / 0x100_0000) % 0x100) * 0x100_0000) by (nonlinear_arith)
        requires
            v < 0x1_0000_0000,
    ;
}

/// A value written at `off` reads back there.
proof fn lemma_read_at(b: Seq<u8>, off: int, v: nat)
    requires
        0 <= off,
        off + 4 <= b.len(),
        b.subrange(off, off + 4) == le32(v),
        v < 0x1_0000_0000,
    ensures
        read_u32(b, off) == v,
{
    lemma_le32_reads(v);
    assert(b[off] == b.subrange(off, off + 4)[0]);
    assert(b[off + 1] == b.subrange(off, off + 4)[1]);
    assert(b[off + 2] == b.subrange(off, off + 4)[2]);
    assert(b[off + 3] == b.subrange(off, off + 4)[3]);
}

/// Following the block the way the host's `dynamic_cast` does reaches
/// both classes: the pointer before the vtable and the locator's own
/// offset give back `base`; the locator has signature 1 and names the
/// `IBonDriver2` type descriptor; its hierarchy holds two classes, whose
/// base class array lists first the descriptor of `IBonDriver2` (its type
/// descriptor, named `.?AVIBonDriver2@@`, and that same hierarchy) and
/// then that of `IBonDriver` (named `.?AVIBonDriver@@`, with a hierarchy
/// of one class whose array lists that descriptor again).
#[verifier::rlimit(100)]
pub proof fn lemma_rtti_cast_path(vtbl: Seq<u8>, base: nat)
    requires
        vtbl.len() <= COL_OFF - VTBL_OFF,
        base + COL_OFF < 0x1_0000_0000_0000_0000,
    ensures
        ({
            let img = rtti_image(vtbl, base);
            let col = read_u64(img, 0) - base;
            let td2 = read_u32(img, col + 12);
            let chd = read_u32(img, col + 16);
            let bca = read_u32(img, chd + 12);
            let bcd0 = read_u32(img, bca);
            let bcd1 = read_u32(img, bca + 4);
            let td1 = read_u32(img, bcd1);
            let chd1 = read_u32(img, bcd1 + 24);
            &&& col == COL_OFF
            &&& read_u64(img, 0) - read_u32(img, col + 20) == base
            &&& read_u32(img, col) == 1
            &&& img.subrange(td2 + TD_HEADER, td2 + TD_HEADER + 18) == td2_name()
            &&& read_u32(img, chd + 8) == 2
            &&& read_u32(img, bcd0) == td2
            &&& read_u32(img, bcd0 + 4) == 1
            &&& read_u32(img, bcd0 + 24) == chd
            &&& img.subrange(td1 + TD_HEADER, td1 + TD_HEADER + 17) == td1_name()
            &&& read_u32(img, chd1 + 8) == 1
            &&& read_u32(img, read_u32(img, chd1 + 12)) == bcd1
        }),
{
    let img = rtti_image(vtbl, base);
    lemma_rtti_layout(vtbl, base);
    let p = base + COL_OFF as nat;
    assert(img.subrange(0, 4) =~= le32(p % 0x1_0000_0000));
    assert(img.subrange(4, 8) =~= le32((p / 0x1_0000_0000) % 0x1_0000_0000));
    lemma_read_at(img, 0, p % 0x1_0000_0000);
    lemma_read_at(img, 4, (p / 0x1_0000_0000) % 0x1_0000_0000);
    assert(p == p % 0x1_0000_0000 + ((p / 0x1_0000_0000) % 0x1_0000_0000) * 0x1_0000_0000) by (nonlinear_arith)
        requires
            p < 0x1_0000_0000_0000_0000,
    ;
    assert(img.subrange(0x90, 0x94) =~= le32(1));
    lemma_read_at(img, 0x90, 1);
    lemma_read_at(img, 0x9c, TD2_OFF as nat);
    assert(img.subrange(0xa0, 0xa4) =~= le32(CHD_OFF as nat));
    lemma_read_at(img, 0xa0, CHD_OFF as nat);
    lemma_read_at(img, 0xa4, COL_OFF as nat);
    assert(img.subrange(0xb0, 0xb4) =~= le32(2));
    lemma_read_at(img, 0xb0, 2);
    assert(img.subrange(0xb4, 0xb8) =~= le32(BCA_OFF as nat));
    lemma_read_at(img, 0xb4, BCA_OFF as nat);
    assert(img.subrange(0xb8, 0xbc) =~= le32(BCD0_OFF as nat));
    lemma_read_at(img, 0xb8, BCD0_OFF as nat);
    assert(img.subrange(0xbc, 0xc0) =~= le32(BCD1_OFF as nat));
    lemma_read_at(img, 0xbc, BCD1_OFF as nat);
    assert(img.subrange(0xc0, 0xc4) =~= le32(TD2_OFF as nat));
    lemma_read_at(img, 0xc0, TD2_OFF as nat);
    assert(img.subrange(0xc4, 0xc8) =~= le32(1));
    lemma_read_at(img, 0xc4, 1);
    assert(img.subrange(0xd8, 0xdc) =~= le32(CHD_OFF as nat));
    lemma_read_at(img, 0xd8, CHD_OFF as nat);
    assert(img.subrange(0xdc, 0xe0) =~= le32(TD1_OFF as nat));
    lemma_read_at(img, 0xdc, TD1_OFF as nat);
    assert(img.subrange(0xf4, 0xf8) =~= le32(CHD1_OFF as nat));
    lemma_read_at(img, 0xf4, CHD1_OFF as nat);
    assert(img.subrange(0x100, 0x104) =~= le32(1));
    lemma_read_at(img, 0x100, 1);
    assert(img.subrange(0x104, 0x108) =~= le32(BCA1_OFF as nat));
    lemma_read_at(img, 0x104, BCA1_OFF as nat);
    assert(img.subrange(0x108, 0x10c) =~= le32(BCD1_OFF as nat));
    lemma_read_at(img, 0x108, BCD1_OFF as nat);
}

fn push_u32(out: &mut Vec<u8>, v: u32)
    ensures
        final(out)@ == old(out)@ + le32(v as nat),
{
    out.push((v % 0x100) as u8);
    out.push(((v / 0x100) % 0x100) as u8);
    out.push(((v / 0x1_0000) % 0x100) as u8);
    out.push(((v / 0x100_0000) % 0x100) as u8);
    assert(final(out)@ =~= old(out)@ + le32(v as nat));
}

fn push_u64(out: &mut Vec<u8>, v: u64)
    ensures
        final(out)@ == old(out)@ + le64(v as nat),
{
    push_u32(out, (v % 0x1_0000_0000) as u32);
    push_u32(out, ((v / 0x1_0000_0000) % 0x1_0000_0000) as u32);
    assert(final(out)@ =~= old(out)@ + le64(v as nat));
}

fn push_zeros(out: &mut Vec<u8>, n: usize)
    ensures
        final(out)@ == old(out)@ + zeros(n as nat),
{
    let mut i: usize = 0;
    while i < n
        invariant
            i <= n,
            out@ == old(out)@ + zeros(i as nat),
        decreases n - i,
    {
        out.push(0u8);
        i += 1;
        assert(out@ =~= old(out)@ + zeros(i as nat));
    }
}

fn push_bytes(out: &mut Vec<u8>, bytes: &[u8])
    ensures
        final(out)@ == old(out)@ + bytes@,
{
    let mut i: usize = 0;
    while i < bytes.len()
        invariant
            i <= bytes.len(),
            out@ == old(out)@ + bytes@.subrange(0, i as int),
        decreases bytes.len() - i,
    {
        out.push(bytes[i]);
        i += 1;
        assert(out@ =~= old(out)@ + bytes@.subrange(0, i as int));
    }
    assert(bytes@.subrange(0, bytes.len() as int) =~= bytes@);
}

/// The block for the vtable bytes `vtbl` (which must fit before the
/// locator), to be placed at address `base`; the host is handed the vtable
/// at `base + VTBL_OFF`.
pub fn build_rtti_block(vtbl: &[u8], base: u64) -> (r: Vec<u8>)
    requires
        vtbl.len() <= COL_OFF - VTBL_OFF,
        base + COL_OFF <= u64::MAX,
    ensures
        r@ == rtti_image(vtbl@, base as nat),
{
    let td2: Vec<u8> = vec![
        0x2eu8, 0x3fu8, 0x41u8, 0x56u8, 0x49u8, 0x42u8, 0x6fu8, 0x6eu8, 0x44u8,
        0x72u8, 0x69u8, 0x76u8, 0x65u8, 0x72u8, 0x32u8, 0x40u8, 0x40u8, 0x00u8,
    ];
    let td1: Vec<u8> = vec![
        0x2eu8, 0x3fu8, 0x41u8, 0x56u8, 0x49u8, 0x42u8, 0x6fu8, 0x6eu8, 0x44u8,
        0x72u8, 0x69u8, 0x76u8, 0x65u8, 0x72u8, 0x40u8, 0x40u8, 0x00u8,
    ];
    assert(td2@ =~= td2_name());
    assert(td1@ =~= td1_name());
    let mut out: Vec<u8> = Vec::new();
    push_u64(&mut out, base + COL_OFF as u64);
    push_bytes(&mut out, vtbl);
    push_zeros(&mut out, COL_OFF - VTBL_OFF - vtbl.len());
    push_u32(&mut out, 1);
    push_u32(&mut out, 0);
    push_u32(&mut out, 0);
    push_u32(&mut out, TD2_OFF as u32);
    push_u32(&mut out, CHD_OFF as u32);
    push_u32(&mut out, COL_OFF as u32);
    push_u32(&mut out, 0);
    push_u32(&mut out, 0);
    push_u32(&mut out, 2);
    push_u32(&mut out, BCA_OFF as u32);
    push_u32(&mut out, BCD0_OFF as u32);
    push_u32(&mut out, BCD1_OFF as u32);
    push_u32(&mut out, TD2_OFF as u32);
    push_u32(&mut out, 1);
    push_u32(&mut out, 0);
    push_u32(&mut out, 0xffff_ffff);
    push_u32(&mut out, 0);
    push_u32(&mut out, 0x40);
    push_u32(&mut out, CHD_OFF as u32);
    push_u32(&mut out, TD1_OFF as u32);
    push_u32(&mut out, 0);
    push_u32(&mut out, 0);
    push_u32(&mut out, 0xffff_ffff);
    push_u32(&mut out, 0);
    push_u32(&mut out, 0x40);
    push_u32(&mut out, CHD1_OFF as u32);
    push_u32(&mut out, 0);
    push_u32(&mut out, 0);
    push_u32(&mut out, 1);
    push_u32(&mut out, BCA1_OFF as u32);
    push_u32(&mut out, BCD1_OFF as u32);
    push_zeros(&mut out, TD2_OFF - BCA1_OFF - 4);
    push_zeros(&mut out, TD_HEADER);
    push_bytes(&mut out, td2.as_slice());
    push_zeros(&mut out, TD1_OFF - TD2_OFF - TD_HEADER - 18);
    push_zeros(&mut out, TD_HEADER);
    push_bytes(&mut out, td1.as_slice());
    push_zeros(&mut out, BLOCK_SIZE - TD1_OFF - TD_HEADER - 17);
    out
}

} // verus!
