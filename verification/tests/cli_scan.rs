use psolve_cli::cli::{
    astap_mode, dispatch, flag, info_positional, is_valued_flag, optional_flag, positional,
    query_positional, Command, ValuedFlags,
};

#[test]
fn cmd_index_every_valued_flag_is_registered_for_the_positional_scan() {
    for f in ["--ra", "--dec", "--radius", "--max-mag", "--format"] {
        assert!(
            is_valued_flag(ValuedFlags::IndexQuery, f),
            "{f} takes a value but is not registered; the positional scan \
             will bind its value as the index path"
        );
    }
}

#[test]
fn positional_skips_every_valued_flag_and_its_value() {
    let args = [
        "--ra", "10.0", "--dec", "-20.0", "--radius", "2.0", "--max-mag", "14", "--format", "csv",
        "index.psidx",
    ];
    assert_eq!(query_positional(&args), Some("index.psidx"));
}

#[test]
fn positional_finds_the_index_path_before_the_flags_too() {
    let args = ["index.psidx", "--ra", "10.0", "--dec", "-20.0", "--radius", "2.0"];
    assert_eq!(query_positional(&args), Some("index.psidx"));
}

#[test]
fn optional_flag_is_ok_none_when_the_flag_is_absent_entirely() {
    let args = ["--ra", "10.0"];
    assert_eq!(optional_flag(&args, "--max-mag"), Ok(None));
    assert_eq!(optional_flag(&args, "--format"), Ok(None));
}

#[test]
fn optional_flag_is_ok_some_when_a_value_follows() {
    let args = ["--max-mag", "14.0"];
    assert_eq!(optional_flag(&args, "--max-mag"), Ok(Some("14.0")));
}

#[test]
fn optional_flag_errors_when_present_with_no_value_following() {
    let args = ["--ra", "10.0", "--max-mag"];
    assert!(optional_flag(&args, "--max-mag").is_err());

    let args2 = ["--ra", "10.0", "--format"];
    assert!(optional_flag(&args2, "--format").is_err());
}

#[test]
fn cmd_solve_every_valued_flag_is_registered_for_the_positional_scan() {
    for f in [
        "--index", "--hint", "--scale", "--radius", "--cat-limit", "--saturation", "--sigma",
        "--min-pix", "--keep", "--max-ellipticity", "--quad-index", "--max-mag",
    ] {
        assert!(
            is_valued_flag(ValuedFlags::Solve, f),
            "{f} takes a value but is not registered; the positional scan \
             will bind its value as the input file"
        );
    }
}

#[test]
fn solve_positional_skips_a_valued_flag_value() {
    let args = ["--index", "t.psidx", "frame.fits"];
    assert_eq!(positional(&args), Some("frame.fits"));
    assert_eq!(positional(&["--verbose", "frame.fits"]), Some("frame.fits"));
    assert_eq!(positional(&["--index", "t.psidx"]), None);
    assert_eq!(positional(&[]), None);
}

#[test]
fn info_positional_skips_the_star_index_value() {
    let args = ["--star-index", "stars.psidx", "quads.psqidx", "--verify"];
    assert_eq!(info_positional(&args), Some("quads.psqidx"));
}

#[test]
fn flag_reads_the_token_after_the_first_occurrence() {
    let args = ["--input", "dir", "--out", "x.psidx", "--input", "other"];
    assert_eq!(flag(&args, "--input"), Some("dir"));
    assert_eq!(flag(&args, "--name"), None);
    assert_eq!(flag(&["--out"], "--out"), None);
    assert_eq!(
        optional_flag(&["--format"], "--format"),
        Err("--format requires a value, got none".to_string())
    );
}

#[test]
fn subcommands_are_dispatched_by_their_leading_words() {
    assert_eq!(dispatch(&["index", "build", "--input", "d"]), (Command::IndexBuild, 2));
    assert_eq!(dispatch(&["index", "query", "x.psidx"]), (Command::IndexQuery, 2));
    assert_eq!(dispatch(&["quad-index", "info"]), (Command::QuadIndexInfo, 2));
    assert_eq!(dispatch(&["solve", "frame.fits"]), (Command::Solve, 1));
    assert_eq!(dispatch(&[]), (Command::Help, 0));
    assert_eq!(dispatch(&["--help"]), (Command::Help, 1));
    assert_eq!(dispatch(&["--version"]), (Command::Version, 1));
    assert_eq!(dispatch(&["version", "x"]), (Command::Unknown, 0));
    assert_eq!(dispatch(&["index", "bogus"]), (Command::Unknown, 0));
    assert!(astap_mode(&["-r".to_string(), "-f".to_string()]));
    assert!(!astap_mode(&["solve".to_string(), "--f".to_string()]));
}
