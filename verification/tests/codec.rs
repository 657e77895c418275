use gdbstub::arch::{Arch, Registers};
use gdbstub::bytes::{ArchWord, BeBytes};
use gdbstub::simple32::{Simple32, Simple32Manual, Simple32Regs};

fn ramp_regs() -> Simple32Regs {
    let mut r = Simple32Regs::new_unknown();
    for i in 0..16usize {
        r.set_reg(i, Some(0x0101_0101u32.wrapping_mul(i as u32).wrapping_add(0x00C0_FFEE)));
    }
    r
}

#[test]
fn be_bytes_of_u32_are_big_endian() {
    let b = 0xDEAD_BEEFu32.to_be_byte_vec();
    assert_eq!(b, vec![0xDE, 0xAD, 0xBE, 0xEF]);
}

#[test]
fn be_bytes_round_trip() {
    for v in [0u32, 1, 0x7F, 0x8000_0000, 0x1234_5678, u32::MAX] {
        let b = v.to_be_byte_vec();
        assert_eq!(u32::from_be_byte_vec(&b), Some(v));
    }
}

#[test]
fn be_bytes_of_u64_are_big_endian() {
    let b = 0x0102_0304_0506_0708u64.to_be_byte_vec();
    assert_eq!(b, vec![1, 2, 3, 4, 5, 6, 7, 8]);
}

#[test]
fn be_bytes_u64_round_trip() {
    for v in [0u64, 1, 0xDEAD_BEEF_CAFE_F00D, u64::MAX] {
        let b = v.to_be_byte_vec();
        assert_eq!(u64::from_be_byte_vec(&b), Some(v));
    }
}

#[test]
fn be_bytes_u64_wrong_length_rejected() {
    assert_eq!(u64::from_be_byte_vec(&vec![0; 7]), None);
    assert_eq!(u64::from_be_byte_vec(&vec![0; 9]), None);
}

#[test]
fn be_bytes_wrong_length_rejected() {
    assert_eq!(u32::from_be_byte_vec(&vec![1, 2, 3]), None);
    assert_eq!(u32::from_be_byte_vec(&vec![1, 2, 3, 4, 5]), None);
    assert_eq!(u32::from_be_byte_vec(&vec![]), None);
}

#[test]
fn serialize_emits_fixed_width() {
    // Whatever is unknown, the output is exactly the declared width.
    let empty = Simple32Regs::new_unknown();
    assert_eq!(empty.gdb_serialize().len(), 64);
    let full = ramp_regs();
    assert_eq!(full.gdb_serialize().len(), 64);
}

#[test]
fn serialize_one_unset_register_yields_markers_not_zeroes() {
    // 32-bit architecture, 16 registers of 4 bytes, one register unset:
    // 64 positions, the unset register's four all unknown markers.
    let mut r = ramp_regs();
    r.set_reg(5, None);
    let out = r.gdb_serialize();
    assert_eq!(out.len(), 64);
    for j in 0..64usize {
        if (20..24).contains(&j) {
            assert_eq!(out[j], None);
            assert_ne!(out[j], Some(0));
        } else {
            assert!(out[j].is_some());
        }
    }
}

#[test]
fn serialize_known_register_bytes_exact() {
    let mut r = Simple32Regs::new_unknown();
    r.set_reg(0, Some(0x1122_3344));
    let out = r.gdb_serialize();
    assert_eq!(out[0], Some(0x11));
    assert_eq!(out[1], Some(0x22));
    assert_eq!(out[2], Some(0x33));
    assert_eq!(out[3], Some(0x44));
}

#[test]
fn round_trip_reproduces_fully_known_file() {
    let r = ramp_regs();
    let out = r.gdb_serialize();
    let bytes: Vec<u8> = out.iter().map(|o| o.unwrap()).collect();
    let mut back = Simple32Regs::new_unknown();
    assert_eq!(back.gdb_deserialize(&bytes[..]), Ok(()));
    for i in 0..16usize {
        assert_eq!(back.get_reg(i), r.get_reg(i));
    }
}

#[test]
fn deserialize_positional_order() {
    let mut bytes = vec![0u8; 64];
    bytes[4] = 0xAA;
    bytes[5] = 0xBB;
    bytes[6] = 0xCC;
    bytes[7] = 0xDD;
    let mut r = Simple32Regs::new_unknown();
    assert_eq!(r.gdb_deserialize(&bytes[..]), Ok(()));
    assert_eq!(r.get_reg(1), Some(0xAABB_CCDD));
    assert_eq!(r.get_reg(0), Some(0));
}

#[test]
fn deserialize_short_buffer_fails_without_mutation() {
    // A buffer three bytes shorter than the declared register width is the
    // malformed-input condition, and the file is left as it was.
    let mut r = ramp_regs();
    let expected: Vec<Option<u32>> = (0..16usize).map(|i| r.get_reg(i)).collect();
    let bytes = vec![0u8; 61];
    assert_eq!(r.gdb_deserialize(&bytes[..]), Err(()));
    for i in 0..16usize {
        assert_eq!(r.get_reg(i), expected[i]);
    }
}

#[test]
fn deserialize_long_buffer_fails() {
    let mut r = Simple32Regs::new_unknown();
    let bytes = vec![0u8; 65];
    assert_eq!(r.gdb_deserialize(&bytes[..]), Err(()));
    for i in 0..16usize {
        assert_eq!(r.get_reg(i), None);
    }
}

#[test]
fn default_file_is_fully_unknown() {
    let r = Simple32Regs::default();
    for i in 0..16usize {
        assert_eq!(r.get_reg(i), None);
    }
}

#[test]
fn manual_architecture_offers_no_description() {
    assert_eq!(Simple32Manual::target_description_xml(), None);
}

#[test]
fn arch_word_checked_arithmetic() {
    assert_eq!(3u32.add_checked(4), Some(7));
    assert_eq!(u32::MAX.add_checked(1), None);
    assert_eq!(10u32.sub_checked(4), Some(6));
    assert_eq!(3u32.sub_checked(4), None);
    assert!(3u32.less_than(4));
    assert!(!4u32.less_than(4));
    assert_eq!(<u32 as ArchWord>::zero(), 0);
    assert_eq!(5u64.add_checked(6), Some(11));
    assert_eq!(u64::MAX.add_checked(1), None);
    assert_eq!(7u64.sub_checked(9), None);
}

#[test]
fn target_description_is_offered() {
    let xml = Simple32::target_description_xml();
    assert_eq!(
        xml,
        Some("<target version=\"1.0\"><architecture>simple32</architecture></target>")
    );
}
