use psolve_cli::fits_update::{
    card_key, card_text, pack_header, raw_header_cards, rewrite_header, verify_rewritten,
    FitsUpdateError, TempGuard,
};
use psolve_cli::sidecar::WcsFields;

fn fields() -> WcsFields {
    WcsFields {
        crpix1: " 1.920500000000E+003".to_string(),
        crpix2: " 1.080500000000E+003".to_string(),
        crval1: " 2.542500000000E+002".to_string(),
        crval2: "-4.033333300000E+001".to_string(),
        cdelt1: " 6.815493225884E-004".to_string(),
        cdelt2: " 6.815493225884E-004".to_string(),
        crota1: " 1.234500000000E+000".to_string(),
        crota2: " 1.234500000000E+000".to_string(),
        cd1_1: "-6.815335000000E-004".to_string(),
        cd1_2: " 1.468000000000E-005".to_string(),
        cd2_1: "-1.468000000000E-005".to_string(),
        cd2_2: "-6.815335000000E-004".to_string(),
    }
}

fn card(text: &str) -> Vec<u8> {
    let mut b = text.as_bytes().to_vec();
    b.resize(80, b' ');
    b
}

/// A one-block header holding `cards` then `END`, followed by `pixels`.
fn fits_file(cards: &[&str], pixels: &[u8]) -> Vec<u8> {
    let mut bytes = Vec::new();
    for c in cards {
        bytes.extend(card(c));
    }
    bytes.extend(card("END"));
    bytes.resize(2880, b' ');
    bytes.extend_from_slice(pixels);
    bytes
}

#[test]
fn the_header_scan_stops_before_end() {
    let f = fits_file(&["SIMPLE  =                    T", "BITPIX  =                    8"], b"px");
    let cards = raw_header_cards(&f, 2880);
    assert_eq!(cards.len(), 2);
    assert_eq!(cards[1], card("BITPIX  =                    8"));
    assert_eq!(card_key(&cards[1]), "BITPIX");
    assert_eq!(card_text(&card("COMMENT x  ")), "COMMENT x");
    assert_eq!(raw_header_cards(&f, 100).len(), 1);
}

#[test]
fn packing_fills_exactly_the_target_or_reports_blocks() {
    let cards = vec![card("A       = 1"), card("B       = 2")];
    let h = pack_header(&cards, 2880).unwrap();
    assert_eq!(h.len(), 2880);
    assert_eq!(&h[160..163], b"END");
    assert_eq!(pack_header(&cards, 240).unwrap().len(), 240);
    assert_eq!(pack_header(&cards, 239), Err(1));
    let many: Vec<Vec<u8>> = (0..36).map(|i| card(&format!("K{i:<7}= {i}"))).collect();
    assert_eq!(pack_header(&many, 2880), Err(2));
}

#[test]
fn rewriting_keeps_every_pixel_byte_and_the_header_length() {
    let pixels: Vec<u8> = (0..=255u8).collect();
    let original = fits_file(
        &[
            "SIMPLE  =                    T",
            "BITPIX  =                    8",
            "CRPIX1  =  9.999000000000E+002 / stale",
            "COMMENT Astrometric solution by psolve",
            "COMMENT Astrometric solution by psolve",
        ],
        &pixels,
    );
    let new_file = rewrite_header(&original, 2880, &fields()).unwrap();
    assert_eq!(new_file.len(), original.len());
    assert_eq!(&new_file[2880..], &pixels[..]);
    let cards = raw_header_cards(&new_file, 2880);
    assert_eq!(cards[0], card("SIMPLE  =                    T"));
    assert!(cards[2].starts_with(b"CRPIX1  =  1.920500000000E+003 / X of reference pixel"));
    let markers = cards
        .iter()
        .filter(|c| card_text(c) == "COMMENT Astrometric solution by psolve")
        .count();
    assert_eq!(markers, 1);
    assert_eq!(card_text(cards.last().unwrap()), "COMMENT Astrometric solution by psolve");
    assert!(!cards.iter().any(|c| card_key(c) == "END"));
}

#[test]
fn rewriting_twice_gives_the_same_bytes() {
    let original = fits_file(&["SIMPLE  =                    T", "OBJECT  = 'M31     '"], b"pixels");
    let once = rewrite_header(&original, 2880, &fields()).unwrap();
    let twice = rewrite_header(&once, 2880, &fields()).unwrap();
    assert_eq!(once, twice);
}

#[test]
fn a_header_that_would_grow_is_refused() {
    let cards: Vec<String> = (0..30).map(|i| format!("K{i:<7}= {i}")).collect();
    let refs: Vec<&str> = cards.iter().map(|s| s.as_str()).collect();
    let original = fits_file(&refs, b"data");
    match rewrite_header(&original, 2880, &fields()) {
        Err(FitsUpdateError::HeaderGrew { original_blocks, needed_blocks }) => {
            assert_eq!(original_blocks, 1);
            assert_eq!(needed_blocks, 2);
        }
        other => panic!("expected HeaderGrew, got {other:?}"),
    }
}

#[test]
fn error_messages_read_as_before() {
    let e = FitsUpdateError::HeaderGrew { original_blocks: 1, needed_blocks: 12 };
    assert_eq!(
        e.message(),
        "refusing to update: the new header needs 12 2880-byte block(s) but the original header \
         only has 1; writing it would shift the pixel data, so nothing was written"
    );
    assert_eq!(
        FitsUpdateError::ReadOnly("x exists".to_string()).message(),
        "refusing to write, read-only: x exists"
    );
    assert_eq!(FitsUpdateError::Io("disk full".to_string()).message(), "disk full");
    assert_eq!(
        FitsUpdateError::NotFits("bad".to_string()).message(),
        "refusing to update: not a FITS header: bad"
    );
}

#[test]
fn the_temp_guard_arms_and_disarms() {
    let mut g = TempGuard::new("/tmp/.psolve-tmp-x".to_string());
    assert!(!g.is_armed());
    g.arm();
    assert!(g.is_armed());
    g.disarm();
    assert!(!g.is_armed());
    assert_eq!(g.path, "/tmp/.psolve-tmp-x");
}

#[test]
fn invalid_utf8_card_bytes_read_leniently() {
    let mut c = vec![0xffu8, b'A', b' ', b' '];
    c.resize(80, b' ');
    assert_eq!(card_key(&c), "\u{FFFD}A");
    assert_eq!(card_text(&c), "\u{FFFD}A");
}

#[test]
fn a_rewritten_file_with_the_same_offset_and_pixels_verifies() {
    let mut bytes = vec![b' '; 2880];
    bytes.extend_from_slice(&[1, 2, 3, 4]);
    assert!(verify_rewritten(&bytes, 2880, 2880, &[1, 2, 3, 4]).is_ok());
}

#[test]
fn a_moved_data_unit_fails_verification() {
    let bytes = vec![b' '; 5760];
    match verify_rewritten(&bytes, 5760, 2880, &[]) {
        Err(FitsUpdateError::Verify(m)) => {
            assert_eq!(m, "data unit moved: was at byte 2880, is now at byte 5760")
        }
        other => panic!("expected a verification failure, got {other:?}"),
    }
}

#[test]
fn changed_pixel_bytes_fail_verification() {
    let mut bytes = vec![b' '; 2880];
    bytes.extend_from_slice(&[1, 2, 9, 4]);
    match verify_rewritten(&bytes, 2880, 2880, &[1, 2, 3, 4]) {
        Err(FitsUpdateError::Verify(m)) => assert_eq!(m, "pixel bytes changed"),
        other => panic!("expected a verification failure, got {other:?}"),
    }
    match verify_rewritten(&bytes, 2880, 2880, &[1, 2, 9]) {
        Err(FitsUpdateError::Verify(m)) => assert_eq!(m, "pixel bytes changed"),
        other => panic!("expected a verification failure, got {other:?}"),
    }
}
