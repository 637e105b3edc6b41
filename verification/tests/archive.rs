use tripatch::azsys::{asb_payload_fits, decrypt_asb, encrypt_asb, Arc, ArcEntry, TRIPTYCH_KEY};
use tripatch::error::PatchError;
use tripatch::lzss::{pack_index, try_unpack_index, unpack_index};

fn header() -> Vec<u8> {
    let mut h = vec![0u8; 0x30];
    h[0..4].copy_from_slice(b"ARC\x1a");
    h[0x20] = 0x77;
    h
}

fn index_record(name: &str, extra: u8) -> Vec<u8> {
    let mut r = vec![0u8; 0x40];
    r[8] = extra;
    r[0x10..0x10 + name.len()].copy_from_slice(name.as_bytes());
    r
}

fn entry(name: &str, data: &[u8], extra: u8) -> ArcEntry {
    ArcEntry { name: name.to_string(), data: data.to_vec(), raw_index: index_record(name, extra) }
}

#[test]
fn pack_index_exact_bytes() {
    let packed = pack_index(&[1, 2, 3]);
    let mut expected = Vec::new();
    expected.extend_from_slice(&0xc6d6_6699u32.to_le_bytes());
    expected.extend_from_slice(&1u32.to_le_bytes());
    expected.extend_from_slice(&0u32.to_le_bytes());
    expected.extend_from_slice(&4u32.to_le_bytes());
    expected.extend_from_slice(&3u32.to_le_bytes());
    expected.extend_from_slice(&[0, 2, 1, 2, 3]);
    assert_eq!(packed, expected);
}

#[test]
fn pack_index_empty() {
    let packed = pack_index(&[]);
    assert_eq!(packed, vec![0u8; 0x14]);
    assert_eq!(unpack_index(&packed), Vec::<u8>::new());
}

#[test]
fn pack_unpack_round_trip() {
    let data: Vec<u8> = (0..3000u32).map(|i| (i * 7 % 251) as u8).collect();
    let packed = pack_index(&data);
    // 12 literal runs of at most 256 bytes: two control bytes, one count byte per run.
    assert_eq!(packed.len(), 0x14 + 2 + 12 + data.len());
    assert_eq!(try_unpack_index(&packed), Some(data.clone()));
    assert_eq!(unpack_index(&packed), data);
}

#[test]
fn unpack_index_back_reference() {
    let mut packed = Vec::new();
    packed.extend_from_slice(&0u32.to_le_bytes());
    packed.extend_from_slice(&1u32.to_le_bytes());
    packed.extend_from_slice(&2u32.to_le_bytes());
    packed.extend_from_slice(&3u32.to_le_bytes());
    packed.extend_from_slice(&5u32.to_le_bytes());
    packed.push(0x40); // a literal run, then a back reference
    packed.extend_from_slice(&[0x01, 0x00]); // 3 bytes from 2 back
    packed.extend_from_slice(&[0x01, b'a', b'b']);
    assert_eq!(try_unpack_index(&packed), Some(b"ababa".to_vec()));
    assert_eq!(unpack_index(&packed), b"ababa".to_vec());
}

#[test]
fn try_unpack_index_rejects_truncated() {
    assert_eq!(try_unpack_index(&[0u8; 8]), None);
    let mut packed = pack_index(&[9, 8, 7, 6]);
    packed.truncate(packed.len() - 1);
    assert_eq!(try_unpack_index(&packed), None);
}

#[test]
fn asb_round_trip() {
    let script: Vec<u8> = (0..1000u32).map(|i| (i % 13) as u8).collect();
    let asb = encrypt_asb(&script, TRIPTYCH_KEY).expect("compresses");
    assert_eq!(&asb[0..4], b"ASB\x1a");
    assert_eq!(u32::from_le_bytes([asb[4], asb[5], asb[6], asb[7]]) as usize, asb.len() - 12);
    assert_eq!(u32::from_le_bytes([asb[8], asb[9], asb[10], asb[11]]), 1000);
    assert!(asb_payload_fits(&asb));
    assert_eq!(decrypt_asb(&asb, TRIPTYCH_KEY).expect("decrypts"), script);
}

#[test]
fn asb_empty_round_trip() {
    let asb = encrypt_asb(&[], TRIPTYCH_KEY).expect("compresses");
    assert!(asb_payload_fits(&asb));
    assert_eq!(decrypt_asb(&asb, TRIPTYCH_KEY).expect("decrypts"), Vec::<u8>::new());
}

#[test]
fn decrypt_bad_signature() {
    let asb = b"ASC\x1a\x04\x00\x00\x00\x00\x00\x00\x00abcd".to_vec();
    assert!(asb_payload_fits(&asb));
    match decrypt_asb(&asb, TRIPTYCH_KEY) {
        Err(PatchError::Format(m)) => assert_eq!(m, "bad ASB signature"),
        other => panic!("unexpected {other:?}"),
    }
    assert!(matches!(decrypt_asb(b"ASB", TRIPTYCH_KEY), Err(PatchError::Format(_))));
}

#[test]
fn decrypt_wrong_key_fails_crc() {
    let asb = encrypt_asb(b"some script bytes", TRIPTYCH_KEY).expect("compresses");
    assert!(matches!(decrypt_asb(&asb, TRIPTYCH_KEY ^ 1), Err(PatchError::Format(_))));
}

#[test]
fn decrypt_tampered_fails() {
    let mut asb = encrypt_asb(b"another script", TRIPTYCH_KEY).expect("compresses");
    let last = asb.len() - 1;
    asb[last] ^= 0x55;
    assert!(matches!(decrypt_asb(&asb, TRIPTYCH_KEY), Err(PatchError::Format(_))));
}

#[test]
fn asb_payload_fits_checks_size_field() {
    let mut asb = encrypt_asb(b"xyz", TRIPTYCH_KEY).expect("compresses");
    asb[4..8].copy_from_slice(&1000u32.to_le_bytes());
    assert!(!asb_payload_fits(&asb));
}

#[test]
fn arc_save_load_round_trip() {
    let arc = Arc {
        entries: vec![entry("a.asb", b"first entry", 1), entry(" pad.txt ", b"", 2), entry("c.bin", &[7; 300], 3)],
        header: header(),
    };
    let blob = arc.save();
    assert_eq!(&blob[0..8], &header()[0..8]);
    assert_eq!(u32::from_le_bytes([blob[8], blob[9], blob[10], blob[11]]), 3);
    let loaded = Arc::load_checked(&blob).expect("loads");
    assert_eq!(loaded.header[16..], header()[16..]);
    assert_eq!(loaded.entries.len(), 3);
    assert_eq!(loaded.entries[0].name, "a.asb");
    assert_eq!(loaded.entries[1].name, "pad.txt");
    assert_eq!(loaded.entries[2].name, "c.bin");
    assert_eq!(loaded.entries[0].data, b"first entry".to_vec());
    assert_eq!(loaded.entries[1].data, Vec::<u8>::new());
    assert_eq!(loaded.entries[2].data, vec![7; 300]);
    // offsets and sizes are rewritten, the rest of each record is kept
    assert_eq!(&loaded.entries[2].raw_index[0..4], &11u32.to_le_bytes());
    assert_eq!(&loaded.entries[2].raw_index[4..8], &300u32.to_le_bytes());
    assert_eq!(loaded.entries[2].raw_index[8], 3);
    assert_eq!(&loaded.entries[2].raw_index[0x10..], &index_record("c.bin", 3)[0x10..]);
    let again = Arc::load(&blob).expect("loads");
    assert_eq!(again.save(), blob);
}

#[test]
fn arc_empty() {
    let arc = Arc { entries: Vec::new(), header: header() };
    let blob = arc.save();
    assert_eq!(blob.len(), 0x30 + 0x14);
    let loaded = Arc::load_checked(&blob).expect("loads");
    assert!(loaded.entries.is_empty());
}

#[test]
fn arc_too_small() {
    match Arc::load(&[0u8; 0x2f]) {
        Err(PatchError::Format(m)) => assert_eq!(m, "ARC file too small"),
        other => panic!("unexpected {:?}", other.err()),
    }
    assert!(matches!(Arc::load_checked(&[0u8; 0x10]), Err(PatchError::Format(_))));
}

#[test]
fn arc_inconsistent_layout() {
    let arc = Arc { entries: vec![entry("a.asb", b"data", 0)], header: header() };
    let mut blob = arc.save();
    // claim two entries while the index holds one record
    blob[8..12].copy_from_slice(&2u32.to_le_bytes());
    match Arc::load_checked(&blob) {
        Err(PatchError::Format(m)) => assert_eq!(m, "inconsistent ARC layout"),
        other => panic!("unexpected {:?}", other.err()),
    }
    let mut cut = arc.save();
    cut.truncate(cut.len() - 1);
    assert!(matches!(Arc::load_checked(&cut), Err(PatchError::Format(_))));
}
