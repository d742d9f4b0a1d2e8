use psolve_cli::cards::merge_cards_by_key;
use psolve_cli::sidecar::{
    astap_number,
    card_key_str, card_text_str, format_ini_failure, format_ini_success, format_wcs_fits_block,
    format_wcs_text, kv_card, lines, merged_wcs_cards, pad_or_truncate_card, value_field_right,
    value_field_string, wcs_solution_cards, WcsFields,
};

fn fields(crpix1: &str) -> WcsFields {
    WcsFields {
        crpix1: crpix1.to_string(),
        crpix2: " 1.080500000000E+003".to_string(),
        crval1: " 2.542500000000E+002".to_string(),
        crval2: "-4.033333300000E+001".to_string(),
        cdelt1: " 6.815493225884E-004".to_string(),
        cdelt2: " 6.815493225884E-004".to_string(),
        crota1: " 1.234500000000E+000".to_string(),
        crota2: " 1.234500000000E+000".to_string(),
        cd1_1: "-6.815335000000E-004".to_string(),
        cd1_2: " 1.468000000000E-005".to_string(),
        cd2_1: "-1.468000000000E-005".to_string(),
        cd2_2: "-6.815335000000E-004".to_string(),
    }
}

#[test]
fn failure_ini_has_a_leading_blank_line_and_cmdline_before_error() {
    assert_eq!(
        format_ini_failure("astap_cli -f x.fits", "Not enough stars."),
        "\nPLTSOLVD=F\nCMDLINE=astap_cli -f x.fits\nERROR=Not enough stars.\n"
    );
}

#[test]
fn success_ini_lists_fourteen_keys_in_order() {
    let f = fields(" 1.920500000000E+003");
    let ini = format_ini_success(&f, "astap_cli -f x.fits");
    let keys: Vec<&str> = ini.lines().map(|l| l.split('=').next().unwrap()).collect();
    assert_eq!(
        keys,
        vec![
            "PLTSOLVD", "CRPIX1", "CRPIX2", "CRVAL1", "CRVAL2", "CDELT1", "CDELT2", "CROTA1",
            "CROTA2", "CD1_1", "CD1_2", "CD2_1", "CD2_2", "CMDLINE"
        ]
    );
    assert!(ini.starts_with("PLTSOLVD=T\nCRPIX1= 1.920500000000E+003\n"));
    assert!(ini.ends_with("CMDLINE=astap_cli -f x.fits\n"));
}

#[test]
fn value_fields_are_21_columns() {
    assert_eq!(value_field_right("T"), format!("{:>21}", "T"));
    assert_eq!(value_field_string("deg"), " 'deg     '          ");
    assert_eq!(value_field_string("RA---TAN").len(), 21);
}

#[test]
fn kv_cards_are_exactly_80_bytes() {
    let c = kv_card("CRPIX1", &value_field_right(" 1.920500000000E+003"), "X of reference pixel");
    assert_eq!(c.len(), 80);
    assert_eq!(c, format!("{:<80}", "CRPIX1  =  1.920500000000E+003 / X of reference pixel"));
    let long = kv_card("COMMENTS", "x", &"y".repeat(100));
    assert_eq!(long.len(), 80);
    assert!(long.starts_with("COMMENTS=x / yyyy"));
}

#[test]
fn cards_are_padded_or_cut_to_80_bytes() {
    let end = pad_or_truncate_card("END");
    assert_eq!(end.len(), 80);
    assert_eq!(&end[..3], b"END");
    assert!(end[3..].iter().all(|b| *b == b' '));
    let long = pad_or_truncate_card(&"Z".repeat(90));
    assert_eq!(long, vec![b'Z'; 80]);
}

#[test]
fn text_card_key_and_text() {
    assert_eq!(card_key_str("CRPIX1  =  1.0"), "CRPIX1");
    assert_eq!(card_key_str("END"), "END");
    assert_eq!(card_key_str(""), "");
    assert_eq!(card_text_str("COMMENT hello     "), "COMMENT hello");
}

#[test]
fn lines_follow_str_lines() {
    let text = "a\r\nb\n\nc\r";
    assert_eq!(lines(text), text.lines().map(String::from).collect::<Vec<_>>());
    assert_eq!(lines("x\n"), vec!["x".to_string()]);
    assert_eq!(lines(""), Vec::<String>::new());
    assert_eq!(lines("\n\n"), vec![String::new(), String::new()]);
}

#[test]
fn the_solution_has_eighteen_cards_ending_in_marker_and_end() {
    let cards = wcs_solution_cards(&fields(" 1.920500000000E+003"));
    assert_eq!(cards.len(), 18);
    assert_eq!(cards[16], "COMMENT Astrometric solution by psolve");
    assert_eq!(cards[17], format!("{:<80}", "END"));
    assert!(cards[..16].iter().all(|c| c.len() == 80));
    assert_eq!(
        cards[1],
        format!("{:<80}", "CTYPE2  = 'DEC--TAN'           / second parameter DEC,  projection TANgential")
    );
}

#[test]
fn a_re_solve_replaces_stale_cards_in_place() {
    let header = format!(
        "{:<80}\n{:<80}\n{:<80}\nCOMMENT Astrometric solution by psolve\nCOMMENT Astrometric solution by psolve\n{:<80}",
        "SIMPLE  =                    T",
        "CRPIX1  =  9.999000000000E+002 / stale",
        "OBJECT  = 'M31     '",
        "HISTORY old"
    );
    let cards = merged_wcs_cards(&fields(" 1.920500000000E+003"), &header);
    assert_eq!(cards[0], format!("{:<80}", "SIMPLE  =                    T"));
    assert!(cards[1].starts_with("CRPIX1  =  1.920500000000E+003 / X of reference pixel"));
    assert_eq!(cards[2], format!("{:<80}", "OBJECT  = 'M31     '"));
    assert_eq!(cards.iter().filter(|c| c.trim_end() == "COMMENT Astrometric solution by psolve").count(), 1);
    assert_eq!(cards.iter().filter(|c| c.starts_with("CRPIX1")).count(), 1);
    assert_eq!(cards.last().unwrap(), &format!("{:<80}", "END"));
    assert_eq!(cards[cards.len() - 2], "COMMENT Astrometric solution by psolve");
}

#[test]
fn text_wcs_is_newline_terminated_cards() {
    let f = fields(" 1.920500000000E+003");
    let text = format_wcs_text(&f, "");
    let cards = wcs_solution_cards(&f);
    let expected: String = cards.iter().map(|c| format!("{c}\n")).collect();
    assert_eq!(text, expected);
}

#[test]
fn block_wcs_is_whole_blocks_of_80_byte_cards() {
    let f = fields(" 1.920500000000E+003");
    let header = format!("{:<80}\nCOMMENT a short one", "SIMPLE  =                    T");
    let block = format_wcs_fits_block(&f, &header);
    assert_eq!(block.len() % 2880, 0);
    assert_eq!(block.len(), 2880);
    assert!(!block.contains(&b'\n'));
    assert_eq!(&block[..30], b"SIMPLE  =                    T");
    assert_eq!(&block[80..99], b"COMMENT a short one");
    assert!(block[99..160].iter().all(|b| *b == b' '));
    assert!(block[20 * 80..].iter().all(|b| *b == b' '));
}

#[test]
fn merge_by_key_appends_history_and_collapses_the_marker() {
    let original = vec![
        "CRVAL1  = 1".to_string(),
        "COMMENT Astrometric solution by psolve".to_string(),
        "HISTORY a".to_string(),
        "COMMENT Astrometric solution by psolve".to_string(),
    ];
    let solution = vec![
        "HISTORY b".to_string(),
        "CRVAL1  = 2".to_string(),
        "COMMENT other".to_string(),
        "COMMENT Astrometric solution by psolve".to_string(),
        "NEWKEY  = 3".to_string(),
    ];
    let merged = merge_cards_by_key(original, solution);
    assert_eq!(
        merged,
        vec![
            "CRVAL1  = 2".to_string(),
            "HISTORY a".to_string(),
            "HISTORY b".to_string(),
            "COMMENT other".to_string(),
            "COMMENT Astrometric solution by psolve".to_string(),
            "NEWKEY  = 3".to_string(),
        ]
    );
}

#[test]
fn numbers_are_laid_out_the_astap_way() {

    assert_eq!(astap_number(&format!("{:.4e}", 1920.5f64)), " 1.9205E+003");
    assert_eq!(astap_number(&format!("{:.16e}", -6.8154932258843713e-4f64)), "-6.8154932258843713E-004");
    assert_eq!(astap_number(&format!("{:.1e}", 0.0f64)), " 0.0E+000");
    assert_eq!(astap_number("1.5e123"), " 1.5E+123");
    assert_eq!(astap_number("2.0e-1234"), " 2.0E-1234");
    assert_eq!(astap_number("7.5"), " 7.5E+000");
    assert_eq!(astap_number("7.5ex"), " 7.5E+000");
    assert_eq!(astap_number("-1e-0"), "-1E+000");
}

#[test]
fn merging_the_same_solution_twice_changes_nothing() {
    let original = vec![
        "SIMPLE  = T".to_string(),
        "CRVAL1  = 0".to_string(),
        "COMMENT Astrometric solution by psolve".to_string(),
        "OBJECT  = 'M31'".to_string(),
        "COMMENT Astrometric solution by psolve".to_string(),
    ];
    let solution = vec![
        "CRVAL1  = 1".to_string(),
        "CRVAL2  = 2".to_string(),
        "COMMENT Astrometric solution by psolve".to_string(),
    ];
    let once = merge_cards_by_key(original, solution.clone());
    let twice = merge_cards_by_key(once.clone(), solution);
    assert_eq!(once, twice);
    assert_eq!(
        once,
        vec![
            "SIMPLE  = T".to_string(),
            "CRVAL1  = 1".to_string(),
            "OBJECT  = 'M31'".to_string(),
            "CRVAL2  = 2".to_string(),
            "COMMENT Astrometric solution by psolve".to_string(),
        ]
    );
}

#[test]
fn merging_a_solution_that_repeats_a_keyword_twice_changes_nothing() {
    let original = vec![
        "CRVAL1  = 0".to_string(),
        "COMMENT taken by the capture program".to_string(),
        "COMMENT Astrometric solution by psolve".to_string(),
    ];
    let solution = vec![
        "CRVAL1  = 1".to_string(),
        "CRVAL2  = 5".to_string(),
        "CRVAL1  = 2".to_string(),
        "COMMENT Astrometric solution by psolve".to_string(),
    ];
    let once = merge_cards_by_key(original, solution.clone());
    assert_eq!(
        once,
        vec![
            "CRVAL1  = 2".to_string(),
            "COMMENT taken by the capture program".to_string(),
            "CRVAL2  = 5".to_string(),
            "COMMENT Astrometric solution by psolve".to_string(),
        ]
    );
    let twice = merge_cards_by_key(once.clone(), solution);
    assert_eq!(once, twice);
}

#[test]
fn any_solution_holding_the_marker_leaves_one_and_keeps_other_comments() {
    let original = vec![
        "COMMENT Astrometric solution by psolve".to_string(),
        "COMMENT first note".to_string(),
        "COMMENT Astrometric solution by psolve".to_string(),
        "COMMENT second note".to_string(),
    ];
    let solution = vec![
        "COMMENT Astrometric solution by psolve".to_string(),
        "HISTORY solved".to_string(),
        "COMMENT solver note".to_string(),
        "CRPIX1  = 3".to_string(),
    ];
    let merged = merge_cards_by_key(original, solution);
    let markers = merged.iter().filter(|c| c.as_str() == "COMMENT Astrometric solution by psolve").count();
    assert_eq!(markers, 1);
    let others: Vec<&String> = merged
        .iter()
        .filter(|c| c.starts_with("COMMENT") && c.as_str() != "COMMENT Astrometric solution by psolve")
        .collect();
    assert_eq!(others, vec!["COMMENT first note", "COMMENT second note", "COMMENT solver note"]);
}
