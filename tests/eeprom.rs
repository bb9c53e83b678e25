use eeprom_emu::eeprom::{ERASE_SIZE, ERASE_VALUE, REGION_SIZE, WRITE_SIZE};
use eeprom_emu::{EepromEmu, NotEnoughSpace};

fn read_vec(emu: &EepromEmu, offset: u32, len: usize) -> Vec<u8> {
    let mut out = vec![0u8; len];
    emu.read(offset, &mut out).unwrap();
    out
}

#[test]
fn new_device_is_erased_and_holds_two_regions() {
    let emu = EepromEmu::new();
    assert_eq!(emu.capacity(), 1024);
    assert_eq!(REGION_SIZE, 512);
    assert_eq!(read_vec(&emu, 0, 1024), vec![0xff; 1024]);
}

#[test]
fn granularities() {
    assert_eq!(WRITE_SIZE, 1);
    assert_eq!(ERASE_SIZE, 16);
    assert!(ERASE_SIZE >= 3 * WRITE_SIZE);
    assert_eq!(ERASE_VALUE, 0xff);
}

#[test]
fn scenario_write_ending_at_boundary() {
    let mut emu = EepromEmu::new();
    let data: Vec<u8> = (1..=12).collect();
    emu.write(500, &data).unwrap();
    assert_eq!(read_vec(&emu, 500, 12), data);
    assert_eq!(read_vec(&emu, 0, 500), vec![0xff; 500]);
    assert_eq!(read_vec(&emu, 512, 4), vec![0xff; 4]);
}

#[test]
fn scenario_write_crossing_boundary() {
    let mut emu = EepromEmu::new();
    let data: Vec<u8> = (1..=12).collect();
    emu.write(500, &data).unwrap();
    emu.write(505, &[9; 10]).unwrap();
    assert_eq!(read_vec(&emu, 505, 10), vec![9; 10]);
    assert_eq!(read_vec(&emu, 512, 2), vec![9, 9]);
    assert_eq!(read_vec(&emu, 500, 5), vec![1, 2, 3, 4, 5]);
    assert_eq!(read_vec(&emu, 515, 1), vec![0xff]);
}

#[test]
fn round_trip_at_many_offsets() {
    for offset in [0u32, 1, 100, 505, 511, 512, 513, 1000] {
        let mut emu = EepromEmu::new();
        let len = core::cmp::min(20, 1024 - offset as usize);
        let data: Vec<u8> = (0..len).map(|i| (i * 7 + 3) as u8).collect();
        emu.write(offset, &data).unwrap();
        assert_eq!(read_vec(&emu, offset, len), data);
    }
}

#[test]
fn split_write_equals_two_local_writes() {
    let data: Vec<u8> = (0..40).map(|i| i as u8).collect();
    let mut whole = EepromEmu::new();
    whole.write(490, &data).unwrap();
    let mut parts = EepromEmu::new();
    parts.write(490, &data[..22]).unwrap();
    parts.write(512, &data[22..]).unwrap();
    assert_eq!(read_vec(&whole, 0, 1024), read_vec(&parts, 0, 1024));
}

#[test]
fn write_past_end_is_rejected_and_changes_nothing() {
    let mut emu = EepromEmu::new();
    assert_eq!(emu.write(1020, &[1, 2, 3, 4, 5]), Err(NotEnoughSpace {}));
    assert_eq!(read_vec(&emu, 1000, 24), vec![0xff; 24]);
    assert_eq!(emu.write(2000, &[1]), Err(NotEnoughSpace {}));
    assert_eq!(emu.write(1020, &[1, 2, 3, 4]), Ok(()));
}

#[test]
fn read_past_end_is_rejected_and_leaves_buffer() {
    let emu = EepromEmu::new();
    let mut out = [7u8; 5];
    assert_eq!(emu.read(1020, &mut out), Err(NotEnoughSpace {}));
    assert_eq!(out, [7u8; 5]);
    let mut one = [0u8; 1];
    assert_eq!(emu.read(1024, &mut one), Err(NotEnoughSpace {}));
}

#[test]
fn zero_length_requests_succeed_and_change_nothing() {
    let mut emu = EepromEmu::new();
    emu.write(3, &[5, 6]).unwrap();
    assert_eq!(emu.write(0, &[]), Ok(()));
    assert_eq!(emu.write(1024, &[]), Ok(()));
    let mut empty: [u8; 0] = [];
    assert_eq!(emu.read(512, &mut empty), Ok(()));
    assert_eq!(emu.read(1024, &mut empty), Ok(()));
    let mut expected = vec![0xff; 1024];
    expected[3] = 5;
    expected[4] = 6;
    assert_eq!(read_vec(&emu, 0, 1024), expected);
}

#[test]
fn boundary_offset_touches_only_second_region() {
    let mut emu = EepromEmu::new();
    emu.write(512, &[1, 2, 3]).unwrap();
    assert_eq!(read_vec(&emu, 0, 512), vec![0xff; 512]);
    assert_eq!(read_vec(&emu, 512, 4), vec![1, 2, 3, 0xff]);
}

#[test]
fn erase_sets_range_and_leaves_the_rest() {
    let mut emu = EepromEmu::new();
    let data: Vec<u8> = (0..64).map(|i| i as u8).collect();
    emu.write(496, &data).unwrap();
    emu.erase(504, 520).unwrap();
    let got = read_vec(&emu, 496, 64);
    for (i, b) in got.iter().enumerate() {
        let g = 496 + i;
        if (504..520).contains(&g) {
            assert_eq!(*b, 0xff);
        } else {
            assert_eq!(*b, data[i]);
        }
    }
}

#[test]
fn erase_whole_device_resets_it() {
    let mut emu = EepromEmu::new();
    emu.write(100, &[0; 800]).unwrap();
    emu.erase(0, 1024).unwrap();
    assert_eq!(read_vec(&emu, 0, 1024), vec![0xff; 1024]);
}

#[test]
fn erase_past_end_is_rejected_and_changes_nothing() {
    let mut emu = EepromEmu::new();
    emu.write(1008, &[1; 16]).unwrap();
    assert_eq!(emu.erase(1008, 1040), Err(NotEnoughSpace {}));
    assert_eq!(read_vec(&emu, 1008, 16), vec![1; 16]);
}

#[test]
fn erase_of_empty_range_changes_nothing() {
    let mut emu = EepromEmu::new();
    emu.write(0, &[1; 32]).unwrap();
    assert_eq!(emu.erase(16, 16), Ok(()));
    assert_eq!(emu.erase(32, 16), Ok(()));
    assert_eq!(read_vec(&emu, 0, 32), vec![1; 32]);
}

#[test]
fn three_regions_write_across_all() {
    let mut emu = EepromEmu::with_region_sizes(&[4, 3, 5]);
    assert_eq!(emu.capacity(), 12);
    emu.write(2, &[10, 11, 12, 13, 14, 15, 16, 17]).unwrap();
    assert_eq!(
        read_vec(&emu, 0, 12),
        vec![0xff, 0xff, 10, 11, 12, 13, 14, 15, 16, 17, 0xff, 0xff]
    );
    assert_eq!(read_vec(&emu, 3, 5), vec![11, 12, 13, 14, 15]);
    assert_eq!(emu.write(10, &[1, 2, 3]), Err(NotEnoughSpace {}));
}

#[test]
fn request_ending_at_boundary_does_not_spill() {
    let mut emu = EepromEmu::with_region_sizes(&[4, 4]);
    emu.write(2, &[7, 8]).unwrap();
    assert_eq!(read_vec(&emu, 0, 8), vec![0xff, 0xff, 7, 8, 0xff, 0xff, 0xff, 0xff]);
}

#[test]
fn empty_regions_are_skipped() {
    let mut emu = EepromEmu::with_region_sizes(&[0, 2, 0, 2]);
    assert_eq!(emu.capacity(), 4);
    emu.write(1, &[1, 2]).unwrap();
    assert_eq!(read_vec(&emu, 0, 4), vec![0xff, 1, 2, 0xff]);
    let none = EepromEmu::with_region_sizes(&[]);
    assert_eq!(none.capacity(), 0);
}
