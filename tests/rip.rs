use rip_converter::rip::{rip_header, RipError, TrackMetadata, MAX_FIELD_LEN};

fn meta(title: Option<&str>, artist: Option<&str>, album: Option<&str>) -> TrackMetadata {
    TrackMetadata {
        title: title.map(|s| s.to_string()),
        artist: artist.map(|s| s.to_string()),
        album: album.map(|s| s.to_string()),
    }
}

fn record(m: &TrackMetadata, payload: &[u8]) -> Vec<u8> {
    let mut out = rip_header(m, payload.len()).unwrap();
    out.extend_from_slice(payload);
    out
}

fn read_u16(b: &[u8], at: usize) -> usize {
    (b[at] as usize) * 256 + b[at + 1] as usize
}

#[test]
fn single_letter_title_record() {
    let m = meta(Some("A"), Some(""), Some(""));
    assert_eq!(
        record(&m, &[0xFF]),
        vec![0x72, 0x69, 0x70, 0x00, 0x01, 0x41, 0x00, 0x00, 0x00, 0x00, 0x00, 0x00, 0x00, 0x01, 0xFF]
    );
}

#[test]
fn absent_fields_are_empty_strings() {
    let absent = meta(None, None, None);
    let empty = meta(Some(""), Some(""), Some(""));
    assert_eq!(rip_header(&absent, 3), rip_header(&empty, 3));
    assert_eq!(
        rip_header(&absent, 3).unwrap(),
        vec![0x72, 0x69, 0x70, 0, 0, 0, 0, 0, 0, 0, 0, 0, 3]
    );
}

#[test]
fn lengths_are_big_endian() {
    let title = "t".repeat(0x0102);
    let m = meta(Some(&title), None, None);
    let h = rip_header(&m, 0x0102_0304).unwrap();
    assert_eq!(&h[3..5], &[0x01, 0x02]);
    assert_eq!(h.len(), 3 + 2 + 0x0102 + 2 + 2 + 4);
    assert_eq!(&h[h.len() - 4..], &[0x01, 0x02, 0x03, 0x04]);
}

#[test]
fn utf8_fields_are_counted_in_bytes() {
    let m = meta(Some("é"), Some("ab"), None);
    let h = rip_header(&m, 0).unwrap();
    assert_eq!(
        h,
        vec![0x72, 0x69, 0x70, 0, 2, 0xC3, 0xA9, 0, 2, b'a', b'b', 0, 0, 0, 0, 0, 0]
    );
}

#[test]
fn longest_field_is_accepted() {
    let long = "x".repeat(MAX_FIELD_LEN);
    let m = meta(None, Some(&long), None);
    let h = rip_header(&m, 0).unwrap();
    assert_eq!(&h[5..7], &[0xFF, 0xFF]);
}

#[test]
fn overlong_field_is_rejected() {
    let long = "x".repeat(MAX_FIELD_LEN + 1);
    assert_eq!(rip_header(&meta(Some(&long), None, None), 0), Err(RipError::MetadataTooLong));
    assert_eq!(rip_header(&meta(None, None, Some(&long)), 0), Err(RipError::MetadataTooLong));
    // The metadata check comes before the payload check.
    assert_eq!(
        rip_header(&meta(None, Some(&long), None), usize::MAX),
        Err(RipError::MetadataTooLong)
    );
}

#[test]
fn overlong_payload_is_rejected() {
    let m = meta(Some("A"), None, None);
    assert_eq!(rip_header(&m, usize::MAX), Err(RipError::PayloadTooLong));
    if usize::BITS > 32 {
        assert_eq!(rip_header(&m, (u32::MAX as usize) + 1), Err(RipError::PayloadTooLong));
    }
    let h = rip_header(&m, u32::MAX as usize).unwrap();
    assert_eq!(&h[h.len() - 4..], &[0xFF, 0xFF, 0xFF, 0xFF]);
}

#[test]
fn record_reads_back() {
    let m = meta(Some("Title"), Some("Some Artist"), Some("Ünïcode"));
    let payload: Vec<u8> = (0..300u32).map(|k| (k % 256) as u8).collect();
    let b = record(&m, &payload);
    assert_eq!(&b[0..3], b"rip");
    let mut at = 3;
    let mut fields = Vec::new();
    for _ in 0..3 {
        let n = read_u16(&b, at);
        fields.push(b[at + 2..at + 2 + n].to_vec());
        at += 2 + n;
    }
    assert_eq!(fields[0], b"Title".to_vec());
    assert_eq!(fields[1], b"Some Artist".to_vec());
    assert_eq!(fields[2], "Ünïcode".as_bytes().to_vec());
    let n = u32::from_be_bytes([b[at], b[at + 1], b[at + 2], b[at + 3]]) as usize;
    assert_eq!(n, payload.len());
    assert_eq!(&b[at + 4..], payload.as_slice());
}
