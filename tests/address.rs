use lease_cache_sim::address::{decompose_address, AddressParts};

#[test]
fn decompose_splits_offset_index_and_tag() {
    // 0b1011_0110_1101 with 3 offset bits and 4 index bits.
    let parts = decompose_address(0b1011_0110_1101, 3, 4).unwrap();
    assert_eq!(
        parts,
        AddressParts { block_offset: 0b101, set_index: 0b1101, tag: 0b1011_0 }
    );
}

#[test]
fn decompose_with_no_offset_and_one_index_bit() {
    assert_eq!(
        decompose_address(2, 0, 1).unwrap(),
        AddressParts { block_offset: 0, set_index: 0, tag: 1 }
    );
    assert_eq!(
        decompose_address(5, 0, 1).unwrap(),
        AddressParts { block_offset: 0, set_index: 1, tag: 2 }
    );
}

#[test]
fn decompose_uses_all_sixty_four_bits() {
    let a = u64::MAX;
    assert_eq!(
        decompose_address(a, 64, 0).unwrap(),
        AddressParts { block_offset: a, set_index: 0, tag: 0 }
    );
    assert_eq!(
        decompose_address(a, 0, 64).unwrap(),
        AddressParts { block_offset: 0, set_index: a, tag: 0 }
    );
    assert_eq!(
        decompose_address(a, 0, 0).unwrap(),
        AddressParts { block_offset: 0, set_index: 0, tag: a }
    );
    assert_eq!(
        decompose_address(a, 60, 4).unwrap(),
        AddressParts { block_offset: (1u64 << 60) - 1, set_index: 0xf, tag: 0 }
    );
}

#[test]
fn decompose_refuses_widths_beyond_the_address() {
    assert_eq!(decompose_address(1, 64, 1), None);
    assert_eq!(decompose_address(1, 33, 32), None);
    assert_eq!(decompose_address(1, 65, 0), None);
    assert_eq!(decompose_address(1, u64::MAX, u64::MAX), None);
}
