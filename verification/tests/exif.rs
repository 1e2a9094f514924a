use sfmtory::exif::{read_jpeg_exif, ExifFocal, Ratio};

/// Builds a minimal little-endian JPEG+EXIF with the given 35mm focal.
fn synth_jpeg(f35: u16) -> Vec<u8> {
    let mut tiff: Vec<u8> = Vec::new();
    tiff.extend_from_slice(b"II");
    tiff.extend_from_slice(&42u16.to_le_bytes());
    tiff.extend_from_slice(&8u32.to_le_bytes()); // IFD0 at offset 8
    // IFD0: one entry (ExifIFDPointer), next-IFD = 0
    tiff.extend_from_slice(&1u16.to_le_bytes());
    tiff.extend_from_slice(&0x8769u16.to_le_bytes());
    tiff.extend_from_slice(&4u16.to_le_bytes()); // LONG
    tiff.extend_from_slice(&1u32.to_le_bytes());
    // IFD0 occupies bytes 0..26 (8 header + 2 count + 12 entry + 4 next),
    // so the sub-IFD starts immediately after it.
    tiff.extend_from_slice(&26u32.to_le_bytes());
    tiff.extend_from_slice(&0u32.to_le_bytes());
    assert_eq!(tiff.len(), 26);
    // Exif sub-IFD: one entry (FocalLengthIn35mmFilm, SHORT)
    tiff.extend_from_slice(&1u16.to_le_bytes());
    tiff.extend_from_slice(&0xA405u16.to_le_bytes());
    tiff.extend_from_slice(&3u16.to_le_bytes());
    tiff.extend_from_slice(&1u32.to_le_bytes());
    tiff.extend_from_slice(&(f35 as u32).to_le_bytes());
    tiff.extend_from_slice(&0u32.to_le_bytes());
    wrapped(&tiff)
}

/// The bytes of a JPEG whose one segment holds a TIFF block.
fn wrapped(tiff: &[u8]) -> Vec<u8> {
    let mut app1: Vec<u8> = b"Exif\0\0".to_vec();
    app1.extend_from_slice(tiff);
    let mut out: Vec<u8> = vec![0xFF, 0xD8];
    out.extend_from_slice(&[0xFF, 0xE1]);
    out.extend_from_slice(&((app1.len() + 2) as u16).to_be_bytes());
    out.extend_from_slice(&app1);
    out.extend_from_slice(&[0xFF, 0xDA]); // SOS
    out
}

fn number(r: Ratio) -> f64 {
    r.num as f64 / r.den as f64
}

#[test]
fn reads_focal_35mm_and_converts_to_pixels() {
    let jpg = synth_jpeg(26);
    let e = read_jpeg_exif(&jpg).expect("exif present");
    assert_eq!(e.focal_35mm.map(number), Some(26.0));
    // Landscape and portrait must agree: the 35mm equivalent is defined
    // against the frame's long side.
    let land = number(e.focal_px(4032, 3024).unwrap());
    let port = number(e.focal_px(3024, 4032).unwrap());
    assert!((land - port).abs() < 1e-9);
    assert!((land - 26.0 / 36.0 * 4032.0).abs() < 1e-6);
}

#[test]
fn returns_none_without_exif() {
    // A JPEG whose segments carry no APP1/Exif at all.
    let bytes = vec![0xFF, 0xD8, 0xFF, 0xDA];
    assert!(read_jpeg_exif(&bytes).is_none());
    assert!(read_jpeg_exif(b"not a jpeg").is_none());
}

#[test]
fn survives_truncated_input() {
    let jpg = synth_jpeg(26);
    for cut in [4, 10, 20, 30, 40] {
        let _ = read_jpeg_exif(&jpg[..cut.min(jpg.len())]);
    }
}

#[test]
fn a_recorded_zero_is_no_focal_length() {
    let e = ExifFocal {
        focal_35mm: Some(Ratio { num: 0, den: 1 }),
        focal_mm: None,
        make: None,
        model: None,
    };
    assert!(e.focal_px(4032, 3024).is_none());
    let e = ExifFocal { focal_35mm: None, focal_mm: None, make: None, model: None };
    assert!(e.focal_px(4032, 3024).is_none());
}

#[test]
fn big_endian_names_and_fractions_are_read() {
    // IFD0 with Make, Model and the pointer; the sub-IFD with FocalLength.
    let mut t: Vec<u8> = Vec::new();
    t.extend_from_slice(b"MM");
    t.extend_from_slice(&42u16.to_be_bytes());
    t.extend_from_slice(&8u32.to_be_bytes());
    t.extend_from_slice(&3u16.to_be_bytes());
    let entry = |t: &mut Vec<u8>, tag: u16, kind: u16, count: u32, value: [u8; 4]| {
        t.extend_from_slice(&tag.to_be_bytes());
        t.extend_from_slice(&kind.to_be_bytes());
        t.extend_from_slice(&count.to_be_bytes());
        t.extend_from_slice(&value);
    };
    // IFD0 ends at 8 + 2 + 3 * 12 + 4 = 50.
    entry(&mut t, 0x010F, 2, 4, *b"Acm\0");
    entry(&mut t, 0x0110, 2, 8, 68u32.to_be_bytes());
    entry(&mut t, 0x8769, 4, 1, 50u32.to_be_bytes());
    t.extend_from_slice(&0u32.to_be_bytes());
    assert_eq!(t.len(), 50);
    t.extend_from_slice(&1u16.to_be_bytes());
    entry(&mut t, 0x920A, 5, 1, 76u32.to_be_bytes());
    t.extend_from_slice(&0u32.to_be_bytes());
    assert_eq!(t.len(), 68);
    t.extend_from_slice(b"Phone 9\0");
    t.extend_from_slice(&85u32.to_be_bytes());
    t.extend_from_slice(&20u32.to_be_bytes());
    let e = read_jpeg_exif(&wrapped(&t)).unwrap();
    assert_eq!(e.make.as_deref(), Some("Acm"));
    assert_eq!(e.model.as_deref(), Some("Phone 9"));
    assert_eq!(e.focal_mm.map(number), Some(4.25));
    assert!(e.focal_35mm.is_none());
}
