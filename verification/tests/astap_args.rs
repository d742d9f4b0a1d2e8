use psolve_cli::astap::{
    astap_sidecar_base, astap_wcs_original_header, parse_astap, parse_u32, parse_usize,
    pick_by_extension, take_value, unwired_flags_warning, AstapArgs,
};

const PROG: &str = "astap_cli";

/// Whether each token reads as a finite floating-point number.
fn finite_flags(args: &[String]) -> Vec<bool> {
    args.iter().map(|a| a.parse::<f64>().map_or(false, |x| x.is_finite())).collect()
}

fn parse(program: &str, args: &[String]) -> Result<AstapArgs, String> {
    let finite = finite_flags(args);
    parse_astap(program, args, &finite)
}

fn num(t: &str) -> f64 {
    t.parse::<f64>().unwrap()
}

#[test]
fn the_real_blind_invocation_parses() {
    let a = parse(
        PROG,
        &["-f", "/x/y.fits", "-r", "180", "-fov", "1.4770", "-d", "/home/user/astap", "-update"]
            .map(String::from),
    )
    .unwrap();
    assert_eq!(a.file, "/x/y.fits");
    assert_eq!(num(&a.radius_deg), 180.0);
    assert_eq!(a.fov_deg.as_deref().map(num), Some(1.4770));
    assert_eq!(a.db_dir.as_deref(), Some("/home/user/astap"));
    assert!(a.update);
    assert!(a.ra_hours.is_none() && a.spd_deg.is_none(), "-r 180 with no -ra/-spd is a blind solve");
}

#[test]
fn the_real_hinted_retry_parses() {
    let a = parse(
        PROG,
        &[
            "-f", "/x/y.fits", "-ra", "16.950000", "-spd", "49.666667", "-r", "15", "-fov",
            "1.4770", "-d", "/home/user/astap", "-update",
        ]
        .map(String::from),
    )
    .unwrap();
    assert_eq!(num(&a.radius_deg), 15.0);
    assert!(a.ra_hours.is_some() && a.spd_deg.is_some());
    assert!(a.update);
}

#[test]
fn a_missing_input_file_is_an_error_not_a_default() {
    assert!(parse(PROG, &["-r".into(), "180".into()]).is_err());
    assert!(parse(PROG, &["-f".into()]).is_err(), "-f with no value must not silently pass");
}

#[test]
fn native_flags_are_rejected_in_astap_mode() {
    assert!(parse(PROG, &["-f", "x.fits", "--index", "i.psidx"].map(String::from)).is_err());
}

#[test]
fn radius_defaults_to_180_when_r_is_absent() {
    let a = parse(PROG, &["-f", "x.fits"].map(String::from)).unwrap();
    assert_eq!(num(&a.radius_deg), 180.0);
}

#[test]
fn ignored_flags_are_accepted_not_errors() {
    let a = parse(
        PROG,
        &[
            "-f", "x.fits", "-log", "-sip", "-check", "-progress", "-speed", "auto", "-analyse",
            "3.5", "-extract", "3.5", "-extract2", "3.5",
        ]
        .map(String::from),
    );
    assert!(a.is_ok(), "analysis-only flags must be accepted, not rejected");
}

#[test]
fn an_unknown_flag_is_an_error() {
    assert!(parse(PROG, &["-f", "x.fits", "-bogus"].map(String::from)).is_err());
}

#[test]
fn dash_capital_d_also_fills_db_dir() {
    let a = parse(PROG, &["-f", "x.fits", "-D", "d50"].map(String::from)).unwrap();
    assert_eq!(a.db_dir.as_deref(), Some("d50"));
}

#[test]
fn cmdline_is_the_joined_original_argv() {
    let raw = ["-f", "x.fits", "-r", "180"];
    let a = parse(PROG, &raw.map(String::from)).unwrap();
    assert_eq!(a.cmdline, format!("{PROG} {}", raw.join(" ")));
}

#[test]
fn cmdline_begins_with_the_program_path() {
    let program = "/home/user/astap/astap_cli";
    let a = parse(
        program,
        &["-f", "/x/y.fits", "-r", "180", "-fov", "1.4770", "-d", "/home/user/astap", "-update"]
            .map(String::from),
    )
    .unwrap();
    assert_eq!(
        a.cmdline,
        "/home/user/astap/astap_cli -f /x/y.fits -r 180 -fov 1.4770 \
         -d /home/user/astap -update"
    );
}

#[test]
fn an_empty_program_path_falls_back_rather_than_leaving_a_leading_space() {
    let a = parse("", &["-f", "x.fits"].map(String::from)).unwrap();
    assert!(!a.cmdline.starts_with(' '), "cmdline was {:?}", a.cmdline);
    assert!(a.cmdline.starts_with("psolve "), "cmdline was {:?}", a.cmdline);
}

#[test]
fn astap_error_messages_name_the_flag_and_value() {
    let e = parse(PROG, &["-f", "x.fits", "-r", "abc"].map(String::from)).unwrap_err();
    assert_eq!(e, "psolve: -r must be a finite number, got \"abc\"");
    let e = parse(PROG, &["-f", "x.fits", "-r", "inf"].map(String::from)).unwrap_err();
    assert_eq!(e, "psolve: -r must be a finite number, got \"inf\"");
    let e = parse(PROG, &["-f", "x.fits", "-z", "-1"].map(String::from)).unwrap_err();
    assert_eq!(e, "psolve: -z must be a non-negative integer, got \"-1\"");
    let e = parse(PROG, &["-f", "x.fits", "-s", "many"].map(String::from)).unwrap_err();
    assert_eq!(e, "psolve: -s must be a positive integer, got \"many\"");
    let e = parse(PROG, &["-f", "x.fits", "-bogus"].map(String::from)).unwrap_err();
    assert_eq!(e, "psolve: unknown ASTAP flag \"-bogus\"");
    let e = parse(PROG, &["-r", "180"].map(String::from)).unwrap_err();
    assert_eq!(e, "psolve: -f <FILE> is required in ASTAP mode");
    let e = parse(PROG, &["-f", "x.fits", "-o"].map(String::from)).unwrap_err();
    assert_eq!(e, "psolve: -o requires a value");
}

#[test]
fn astap_first_error_in_argv_order_wins() {
    let e = parse(PROG, &["-r", "abc", "-z", "xyz"].map(String::from)).unwrap_err();
    assert_eq!(e, "psolve: -r must be a finite number, got \"abc\"");
}

#[test]
fn astap_repeated_flags_keep_the_last_value_and_numbers_are_read() {
    let a = parse(
        PROG,
        &["-f", "a.fits", "-f", "b.fits", "-z", "+2", "-s", "500", "-wcs", "-o", "out/base"]
            .map(String::from),
    )
    .unwrap();
    assert_eq!(a.file, "b.fits");
    assert_eq!(a.downsample, Some(2));
    assert_eq!(a.max_stars, Some(500));
    assert!(a.wcs_fits_block);
    assert!(!a.update);
    assert_eq!(a.out_base.as_deref(), Some("out/base"));
}

#[test]
fn parse_u32_and_usize_follow_the_integer_grammar() {
    assert_eq!(parse_u32("4294967295", "-z"), Ok(u32::MAX));
    assert!(parse_u32("4294967296", "-z").is_err());
    assert_eq!(parse_u32("+7", "-z"), Ok(7));
    assert!(parse_u32("+", "-z").is_err());
    assert!(parse_u32("", "-z").is_err());
    assert_eq!(parse_usize("007", "-s"), Ok(7));
    assert_eq!(
        parse_usize("1.5", "-s"),
        Err("psolve: -s must be a positive integer, got \"1.5\"".to_string())
    );
}

#[test]
fn take_value_consumes_the_flag_and_its_value() {
    let args = ["-f", "x.fits", "-d"].map(String::from);
    let mut i = 0usize;
    assert_eq!(take_value(&args, &mut i, "-f"), Ok("x.fits".to_string()));
    assert_eq!(i, 2);
    assert_eq!(take_value(&args, &mut i, "-d"), Err("psolve: -d requires a value".to_string()));
    assert_eq!(i, 2);
}

#[test]
fn sidecar_base_is_o_or_the_file_without_extension() {
    let a = parse(PROG, &["-f", "/data/m31.fits"].map(String::from)).unwrap();
    assert_eq!(astap_sidecar_base(&a), "/data/m31");
    let b = parse(PROG, &["-f", "/data/m31.fits", "-o", "/out/x"].map(String::from)).unwrap();
    assert_eq!(astap_sidecar_base(&b), "/out/x");
}

#[test]
fn unwired_flags_are_named_in_one_warning() {
    let none = parse(PROG, &["-f", "x.fits"].map(String::from)).unwrap();
    assert_eq!(unwired_flags_warning(&none), None);
    let one = parse(PROG, &["-f", "x.fits", "-t", "0.007"].map(String::from)).unwrap();
    assert_eq!(
        unwired_flags_warning(&one).as_deref(),
        Some(
            "psolve: warning: -t accepted but not applied to the solve (no verified psolve \
             equivalent for it yet)"
        )
    );
    let two = parse(PROG, &["-f", "x.fits", "-m", "1.5", "-z", "2"].map(String::from)).unwrap();
    assert_eq!(
        unwired_flags_warning(&two).as_deref(),
        Some(
            "psolve: warning: -z, -m accepted but not applied to the solve (no verified psolve \
             equivalent for them yet)"
        )
    );
}

fn card(text: &str) -> Vec<u8> {
    let mut b = text.as_bytes().to_vec();
    b.resize(80, b' ');
    b
}

#[test]
fn wcs_pass_through_downgrades_the_axis_keywords() {
    let mut bytes = Vec::new();
    for t in [
        "SIMPLE  =                    T",
        "BITPIX  =                   16",
        "NAXIS   =                    2",
        "NAXIS1  =                  100",
        "NAXIS2  =                   50",
        "OBJECT  = 'M31     '",
        "END",
    ] {
        bytes.extend(card(t));
    }
    bytes.resize(2880, b' ');
    let h = astap_wcs_original_header(&bytes, Some(2880));
    let lines: Vec<&str> = h.split('\n').collect();
    assert_eq!(lines.len(), 4);
    assert_eq!(lines[0], String::from_utf8(card("SIMPLE  =                    T")).unwrap());
    assert_eq!(lines[1], format!("{:<80}", "BITPIX  =                    8"));
    assert_eq!(lines[2], format!("{:<80}", "NAXIS   =                    0 / Dimensionality"));
    assert_eq!(lines[3], String::from_utf8(card("OBJECT  = 'M31     '")).unwrap());
    assert_eq!(astap_wcs_original_header(&bytes, None), "");
}

#[test]
fn the_first_sorted_file_with_the_extension_is_picked() {
    let names: Vec<Vec<u8>> = ["readme.txt", "b.psidx", "a-first.psidx", ".psidx", "q.psqidx"]
        .iter()
        .map(|n| n.as_bytes().to_vec())
        .collect();
    assert_eq!(pick_by_extension(&names, b"psidx"), Some(2));
    assert_eq!(pick_by_extension(&names, b"psqidx"), Some(4));
    assert_eq!(pick_by_extension(&names, b"fits"), None);
    assert_eq!(pick_by_extension(&Vec::new(), b"psidx"), None);
}
