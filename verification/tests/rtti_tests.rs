use bondriver_mirakurun::rtti::{build_rtti_block, BLOCK_SIZE, COL_OFF, TD1_OFF, TD2_OFF, TD_HEADER, VTBL_OFF};

fn u32_at(b: &[u8], off: usize) -> u32 {
    u32::from_le_bytes([b[off], b[off + 1], b[off + 2], b[off + 3]])
}

#[test]
fn rtti_block_layout() {
    let vtbl: Vec<u8> = (0..136u8).collect();
    let base: u64 = 0x7ff6_1234_0000;
    let b = build_rtti_block(&vtbl, base);
    assert_eq!(b.len(), BLOCK_SIZE);
    assert_eq!(u64::from_le_bytes(b[0..8].try_into().unwrap()), base + COL_OFF as u64);
    assert_eq!(&b[VTBL_OFF..VTBL_OFF + vtbl.len()], &vtbl[..]);
    assert_eq!(u32_at(&b, COL_OFF), 1);
    assert_eq!(u32_at(&b, COL_OFF + 12), TD2_OFF as u32);
    assert_eq!(u32_at(&b, COL_OFF + 16), 0xa8);
    assert_eq!(u32_at(&b, COL_OFF + 20), COL_OFF as u32);
    assert_eq!(u32_at(&b, 0xa8 + 8), 2);
    assert_eq!(u32_at(&b, 0xc0 + 12), 0xffff_ffff);
    assert_eq!(u32_at(&b, 0xdc), TD1_OFF as u32);
    assert_eq!(u32_at(&b, 0x108), 0xdc);
    assert_eq!(&b[TD2_OFF..TD2_OFF + TD_HEADER], &[0u8; 16]);
    assert_eq!(&b[TD2_OFF + TD_HEADER..TD2_OFF + TD_HEADER + 18], b".?AVIBonDriver2@@\0");
    assert_eq!(&b[TD1_OFF + TD_HEADER..TD1_OFF + TD_HEADER + 17], b".?AVIBonDriver@@\0");
    assert!(b[TD1_OFF + TD_HEADER + 17..].iter().all(|&x| x == 0));
}

#[test]
fn short_vtable_is_padded() {
    let b = build_rtti_block(&[9, 9], 0);
    assert_eq!(b.len(), BLOCK_SIZE);
    assert_eq!(&b[8..10], &[9, 9]);
    assert!(b[10..COL_OFF].iter().all(|&x| x == 0));
    assert_eq!(u32_at(&b, 0), COL_OFF as u32);
}
