use kh940::disk::Disk;
use kh940::kh940::MachineState;
use kh940::pattern::Pattern;
use kh940::KhError;

fn checker_pixels(width: u32, height: u32) -> Vec<u8> {
    let mut pixels = Vec::new();
    for y in 0..height {
        for x in 0..width {
            pixels.push(if (x + y) % 3 == 0 { 10 } else { 200 });
        }
    }
    pixels
}

fn be16(bytes: &[u8], at: usize) -> u16 {
    (bytes[at] as u16) * 256 + bytes[at + 1] as u16
}

#[test]
fn disk_save_load_round_trip() {
    let mut disk = Disk::new();
    let flat: Vec<u8> = (0..81920u32).map(|i| (i % 241) as u8).collect();
    disk.set_flattened_data(flat).unwrap();
    disk.sectors[0].id = (1..=12u8).collect();
    disk.sectors[79].id = vec![0xab; 12];
    let bytes = disk.to_bytes();
    assert_eq!(bytes.len(), 82880);
    let loaded = Disk::from_bytes(&bytes).unwrap();
    for i in 0..80 {
        assert_eq!(loaded.sectors[i].id, disk.sectors[i].id);
        assert_eq!(loaded.sectors[i].data, disk.sectors[i].data);
    }
}

#[test]
fn disk_from_bytes_rejects_wrong_length() {
    assert!(matches!(Disk::from_bytes(&vec![0u8; 100]), Err(KhError::Io)));
    assert!(matches!(Disk::from_bytes(&vec![0u8; 82881]), Err(KhError::Io)));
}

#[test]
fn flatten_pads_and_truncates() {
    let mut disk = Disk::new();
    disk.sectors[5].id = vec![7; 12];
    // Short input: zero-padded to 81 920 bytes.
    disk.set_flattened_data(vec![1, 2, 3]).unwrap();
    let flat = disk.flatten_data();
    assert_eq!(flat.len(), 81920);
    assert_eq!(&flat[0..3], &[1, 2, 3]);
    assert!(flat[3..].iter().all(|b| *b == 0));
    // Long input: truncated.
    let long: Vec<u8> = (0..90000u32).map(|i| (i % 7) as u8 + 1).collect();
    disk.set_flattened_data(long.clone()).unwrap();
    let flat = disk.flatten_data();
    assert_eq!(flat.len(), 81920);
    assert_eq!(flat.as_slice(), &long[..81920]);
    // Identifiers untouched by both calls.
    assert_eq!(disk.sectors[5].id, vec![7; 12]);
}

#[test]
fn empty_ram_serializes_with_prescribed_control_block() {
    let mut ms = MachineState::from_memory_dump(&vec![0u8; 32768]);
    assert!(ms.patterns().is_empty());
    assert!(ms.can_serialize());
    let out = ms.serialize();
    assert_eq!(out.len(), 32768);
    assert_eq!(be16(&out, 0x7f00), 0x0120); // next_pattern_ptr1
    assert_eq!(be16(&out, 0x7f04), 0); // next_pattern_ptr2
    assert_eq!(be16(&out, 0x7f06), 0); // last_pattern_end_ptr
    assert_eq!(be16(&out, 0x7f0a), 0); // last_pattern_start_ptr
    assert_eq!(be16(&out, 0x7f10), 0x7ff9); // header_end_ptr
    // The next free pattern number defaults to 901, packed after the
    // 5-byte sentinel slot.
    assert_eq!(&out[0..7], &[0, 0, 0, 0, 0, 0x09, 0x01]);
}

#[test]
fn one_pattern_serializes_with_prescribed_layout() {
    let mut ms = MachineState::from_memory_dump(&vec![0u8; 32768]);
    let pixels = checker_pixels(20, 30);
    let p = Pattern::from_image(42, 20, 30, &pixels).unwrap();
    ms.add_pattern(p);
    assert!(ms.can_serialize());
    let out = ms.serialize();
    assert_eq!(out.len(), 32768);
    // Header slot 0: end offset 0x120, then BCD height 030, width 020,
    // number 0042.
    assert_eq!(&out[0..7], &[0x01, 0x20, 0x03, 0x00, 0x20, 0x00, 0x42]);
    // Body: 5 nibbles per row, 30 rows, no initial padding: 75 packed
    // bytes plus 15 memo bytes.
    let body_len = 90;
    assert_eq!(be16(&out, 0x7f06), 0x120); // last_pattern_end_ptr
    assert_eq!(be16(&out, 0x7f0a), 0x120 + body_len); // last_pattern_start_ptr
    assert_eq!(be16(&out, 0x7f00), 0x120 + body_len + 1); // next_pattern_ptr1
    assert_eq!(be16(&out, 0x7f04), 0x120 + body_len + 1); // next_pattern_ptr2
    assert_eq!(be16(&out, 0x7f10), 0x8000 - 7 - 7); // header_end_ptr
    // Next free number is 43.
    assert_eq!(&out[7..14], &[0, 0, 0, 0, 0, 0x00, 0x43]);
    // The body region ends right below the passthrough regions.
    let body_end = 0x7ee0;
    assert!(out[686..body_end - body_len as usize].iter().all(|b| *b == 0));
}

#[test]
fn pattern_round_trips_through_image() {
    let mut ms = MachineState::from_memory_dump(&vec![0u8; 32768]);
    let pixels = checker_pixels(20, 30);
    let p = Pattern::from_image(42, 20, 30, &pixels).unwrap();
    let original_rows: Vec<Vec<bool>> = p.rows.clone();
    ms.add_pattern(p);
    let out = ms.serialize();
    let decoded = MachineState::from_memory_dump(&out);
    let ps = decoded.patterns();
    assert_eq!(ps.len(), 1);
    assert_eq!(ps[0].pattern_number(), 42);
    assert_eq!(ps[0].width, 20);
    assert_eq!(ps[0].height, 30);
    assert_eq!(ps[0].rows, original_rows);
    // The raster comes back too.
    let raster = ps[0].to_image();
    let expected: Vec<u8> = pixels.iter().map(|v| if *v < 128 { 0 } else { 255 }).collect();
    assert_eq!(raster, expected);
}

#[test]
fn odd_width_pattern_round_trips() {
    let mut ms = MachineState::from_memory_dump(&vec![0u8; 32768]);
    let pixels = checker_pixels(13, 7);
    let p = Pattern::from_image(7, 13, 7, &pixels).unwrap();
    let original_rows = p.rows.clone();
    ms.add_pattern(p);
    let out = ms.serialize();
    let decoded = MachineState::from_memory_dump(&out);
    assert_eq!(decoded.patterns()[0].rows, original_rows);
}

#[test]
fn memo_bytes_are_preserved_verbatim() {
    let mut ms = MachineState::from_memory_dump(&vec![0u8; 32768]);
    let pixels = checker_pixels(8, 6);
    let mut p = Pattern::from_image(5, 8, 6, &pixels).unwrap();
    p.memo = vec![0xde, 0xad, 0xbe];
    ms.add_pattern(p);
    let out = ms.serialize();
    let decoded = MachineState::from_memory_dump(&out);
    assert_eq!(decoded.patterns()[0].memo, vec![0xde, 0xad, 0xbe]);
}

#[test]
fn decode_reencode_is_byte_stable() {
    let mut ms = MachineState::from_memory_dump(&vec![0u8; 32768]);
    for (n, w, h) in [(42u16, 20u32, 30u32), (7, 13, 9), (900, 40, 12)] {
        let pixels = checker_pixels(w, h);
        ms.add_pattern(Pattern::from_image(n, w, h, &pixels).unwrap());
    }
    let img1 = ms.serialize();
    let mut decoded = MachineState::from_memory_dump(&img1);
    let img2 = decoded.serialize();
    assert_eq!(img1, img2);
}

#[test]
fn add_pattern_replaces_and_sorts() {
    let mut ms = MachineState::from_memory_dump(&vec![0u8; 32768]);
    ms.add_pattern(Pattern::from_image(50, 4, 4, &checker_pixels(4, 4)).unwrap());
    ms.add_pattern(Pattern::from_image(10, 4, 4, &checker_pixels(4, 4)).unwrap());
    let replacement = Pattern::from_image(50, 6, 2, &checker_pixels(6, 2)).unwrap();
    ms.add_pattern(replacement);
    let ps = ms.patterns();
    assert_eq!(ps.len(), 2);
    assert_eq!(ps[0].pattern_number(), 10);
    assert_eq!(ps[1].pattern_number(), 50);
    assert_eq!(ps[1].width, 6);
    assert_eq!(ps[1].height, 2);
}

#[test]
fn from_image_rejects_oversize_dimensions() {
    assert!(matches!(
        Pattern::from_image(1, 1000, 1, &vec![0; 1000]),
        Err(KhError::Encoding)
    ));
    assert!(matches!(
        Pattern::from_image(1, 1, 1000, &vec![0; 1000]),
        Err(KhError::Encoding)
    ));
    assert!(matches!(Pattern::from_image(1, 0, 1, &vec![]), Err(KhError::Encoding)));
    assert!(matches!(
        Pattern::from_image(9999, 2, 2, &vec![0; 4]),
        Err(KhError::Encoding)
    ));
}

#[test]
fn try_serialize_rejects_unencodable_state() {
    let mut ms = MachineState::from_memory_dump(&vec![0u8; 32768]);
    ms.loaded_pattern = 1000;
    assert!(!ms.can_serialize());
    assert!(matches!(ms.try_serialize(), Err(KhError::Invariant)));
    ms.loaded_pattern = 12;
    let out = ms.try_serialize().unwrap();
    assert_eq!(out.len(), 32768);
    // The loaded-pattern field carries the marker nibble and BCD digits.
    assert_eq!(&out[0x7fea..0x7fec], &[0x10, 0x12]);
}

#[test]
fn largest_practical_pattern_round_trips() {
    let mut ms = MachineState::from_memory_dump(&vec![0u8; 32768]);
    let pixels = checker_pixels(200, 999);
    let p = Pattern::from_image(1, 200, 999, &pixels).unwrap();
    let original_rows = p.rows.clone();
    ms.add_pattern(p);
    assert!(ms.can_serialize());
    let out = ms.serialize();
    let decoded = MachineState::from_memory_dump(&out);
    assert_eq!(decoded.patterns()[0].rows, original_rows);
    assert_eq!(decoded.patterns()[0].memo.len(), 500);
}

#[test]
fn oversize_layout_is_rejected() {
    // A 999-wide, 999-tall pattern alone overflows the body region.
    let mut ms = MachineState::from_memory_dump(&vec![0u8; 32768]);
    let pixels = checker_pixels(999, 999);
    ms.add_pattern(Pattern::from_image(1, 999, 999, &pixels).unwrap());
    assert!(!ms.can_serialize());
    assert!(matches!(ms.try_serialize(), Err(KhError::Invariant)));
}

#[test]
fn from_bcd_takes_digits_at_face_value() {
    // A hex digit above 9 counts as its face value, as on the machine.
    assert_eq!(
        kh940::util::from_bcd(&vec![kh940::nibble::Nibble::new(0xa), kh940::nibble::Nibble::new(3)]),
        103
    );
}

#[test]
fn passthrough_regions_survive_round_trip() {
    let mut img = vec![0u8; 32768];
    for (i, b) in img[0x7ee0..0x7f00].iter_mut().enumerate() {
        *b = (i + 1) as u8;
    }
    for (i, b) in img[0x7f17..0x7fea].iter_mut().enumerate() {
        *b = (i % 251) as u8;
    }
    img[0x7fea] = 0x11; // loaded pattern 123
    img[0x7feb] = 0x23;
    for (i, b) in img[0x7fec..0x8000].iter_mut().enumerate() {
        *b = (0x30 + i) as u8;
    }
    // Unknown control fields.
    img[0x7f02] = 0xaa;
    img[0x7f03] = 0xbb;
    img[0x7f08] = 0xcc;
    img[0x7f0c] = 0x01;
    img[0x7f0d] = 0x02;
    img[0x7f0e] = 0x03;
    img[0x7f0f] = 0x04;
    img[0x7f12] = 0x05;
    img[0x7f14] = 0x06;
    img[0x7f16] = 0x07;
    let mut ms = MachineState::from_memory_dump(&img);
    assert_eq!(ms.loaded_pattern, 123);
    let out = ms.serialize();
    assert_eq!(&out[0x7ee0..0x7f00], &img[0x7ee0..0x7f00]);
    assert_eq!(&out[0x7f17..0x7fea], &img[0x7f17..0x7fea]);
    assert_eq!(&out[0x7fea..0x7fec], &img[0x7fea..0x7fec]);
    assert_eq!(&out[0x7fec..0x8000], &img[0x7fec..0x8000]);
    // Unknown control bytes are preserved verbatim.
    assert_eq!(&out[0x7f02..0x7f04], &img[0x7f02..0x7f04]);
    assert_eq!(&out[0x7f08..0x7f0a], &img[0x7f08..0x7f0a]);
    assert_eq!(&out[0x7f0c..0x7f10], &img[0x7f0c..0x7f10]);
    assert_eq!(&out[0x7f12..0x7f17], &img[0x7f12..0x7f17]);
}
