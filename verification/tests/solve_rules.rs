use psolve_cli::solve::{
    cat_limit_for, group_by_seed, interleave_groups, keep_most_informative, positive_integer,
    split_hint,
};

/// A failure report standing for the solver's: its reason code and detail,
/// flagged as an evidence-threshold refusal when the reason says so.
fn failed(reason: &'static str, detail: &str) -> ((&'static str, String, &'static str), bool) {
    ((reason, detail.to_string(), "hdr"), reason == "LOW_CONFIDENCE")
}

fn reason_of(o: &Option<((&'static str, String, &'static str), bool)>) -> &'static str {
    match o {
        Some(((r, _, _), _)) => r,
        None => panic!("expected a held failure"),
    }
}

fn detail_of(o: &Option<((&'static str, String, &'static str), bool)>) -> String {
    match o {
        Some(((_, d, _), _)) => d.clone(),
        None => panic!("expected a held failure"),
    }
}

#[test]
fn gate_refusal_is_not_masked_by_a_later_bare_failure() {
    let mut held = None;
    keep_most_informative(&mut held, failed("LOW_CONFIDENCE", "gate"));
    keep_most_informative(&mut held, failed("NO_QUAD_MATCH", "later"));
    assert_eq!(reason_of(&held), "LOW_CONFIDENCE");
    assert_eq!(detail_of(&held), "gate");
}

#[test]
fn a_gate_refusal_replaces_an_earlier_bare_failure() {
    let mut held = None;
    keep_most_informative(&mut held, failed("NO_QUAD_MATCH", "early"));
    keep_most_informative(&mut held, failed("LOW_CONFIDENCE", "gate"));
    assert_eq!(reason_of(&held), "LOW_CONFIDENCE");
    assert_eq!(detail_of(&held), "gate");
}

#[test]
fn among_bare_failures_the_later_one_wins_as_before() {
    let mut held = None;
    keep_most_informative(&mut held, failed("NO_QUAD_MATCH", "first"));
    keep_most_informative(&mut held, failed("NO_QUAD_MATCH", "second"));
    assert_eq!(detail_of(&held), "second");
}

#[test]
fn among_gate_refusals_the_later_one_wins_as_before() {
    let mut held = None;
    keep_most_informative(&mut held, failed("LOW_CONFIDENCE", "first"));
    keep_most_informative(&mut held, failed("LOW_CONFIDENCE", "second"));
    assert_eq!(detail_of(&held), "second");
}

#[test]
fn the_first_failure_is_always_taken() {
    let mut held = None;
    keep_most_informative(&mut held, failed("TOO_FEW_STARS", "only"));
    assert_eq!(reason_of(&held), "TOO_FEW_STARS");
}

#[test]
fn cat_limit_is_three_per_star_clamped_to_300_5000() {
    assert_eq!(cat_limit_for(0), 300);
    assert_eq!(cat_limit_for(100), 300);
    assert_eq!(cat_limit_for(101), 303);
    assert_eq!(cat_limit_for(1000), 3000);
    assert_eq!(cat_limit_for(1667), 5000);
    assert_eq!(cat_limit_for(100_000), 5000);
}

#[test]
fn interleave_takes_rank_by_rank_up_to_the_cap() {
    let groups = vec![vec![10, 11, 12], vec![], vec![20], vec![30, 31]];
    assert_eq!(interleave_groups(&groups, 100), vec![10, 20, 30, 11, 31, 12]);
    assert_eq!(interleave_groups(&groups, 4), vec![10, 20, 30, 11]);
    assert_eq!(interleave_groups(&groups, 0), Vec::<usize>::new());
    assert_eq!(interleave_groups(&vec![], 5), Vec::<usize>::new());
}

#[test]
fn interleave_never_repeats_and_keeps_each_group_in_order() {
    let groups = vec![vec![0, 3, 6, 9], vec![1, 4, 7], vec![2, 5, 8]];
    let out = interleave_groups(&groups, 25);
    assert_eq!(out, (0..10).collect::<Vec<usize>>());
}

#[test]
fn positions_are_grouped_by_their_seed() {
    let seeds = [2, 0, 2, 1, 0];
    let g = group_by_seed(&seeds, 4);
    assert_eq!(g, vec![vec![1, 4], vec![3], vec![0, 2], vec![]]);
}

#[test]
fn a_positive_integer_flag_accepts_what_parse_accepts_above_zero() {
    assert_eq!(positive_integer("537", "--cat-limit", u64::MAX), Ok(537));
    assert_eq!(positive_integer("+7", "--keep", u64::MAX), Ok(7));
    assert_eq!(positive_integer("4294967295", "--min-pix", u32::MAX as u64), Ok(4294967295));
}

#[test]
fn a_positive_integer_flag_rejects_zero_signs_and_overflow() {
    assert_eq!(
        positive_integer("0", "--min-pix", u32::MAX as u64),
        Err("--min-pix must be a positive integer, got \"0\"".to_string())
    );
    assert_eq!(
        positive_integer("-3", "--keep", u64::MAX),
        Err("--keep must be a positive integer, got \"-3\"".to_string())
    );
    assert_eq!(
        positive_integer("4294967296", "--min-pix", u32::MAX as u64),
        Err("--min-pix must be a positive integer, got \"4294967296\"".to_string())
    );
    assert!(positive_integer("", "--keep", u64::MAX).is_err());
    assert!(positive_integer("1.5", "--keep", u64::MAX).is_err());
}

#[test]
fn a_hint_splits_at_its_one_comma_and_trims_each_side() {
    assert_eq!(split_hint("10.5,-20"), Some(("10.5".to_string(), "-20".to_string())));
    assert_eq!(split_hint(" 83.8 , -5.4 "), Some(("83.8".to_string(), "-5.4".to_string())));
    assert_eq!(split_hint(","), Some((String::new(), String::new())));
}

#[test]
fn a_hint_without_exactly_one_comma_is_refused() {
    assert_eq!(split_hint("10.5"), None);
    assert_eq!(split_hint("1,2,3"), None);
    assert_eq!(split_hint(""), None);
}

#[test]
fn the_interleave_takes_no_position_twice_and_leads_with_one_per_seed() {
    let seeds = [0usize, 0, 1, 2, 1, 0, 2, 2];
    let groups = group_by_seed(&seeds, 3);
    let all = interleave_groups(&groups, 100);
    assert_eq!(all, vec![0, 2, 3, 1, 4, 6, 5, 7]);
    let mut sorted = all.clone();
    sorted.sort();
    sorted.dedup();
    assert_eq!(sorted.len(), seeds.len());
    let first: Vec<usize> = all.iter().take(3).map(|&p| seeds[p]).collect();
    assert_eq!(first, vec![0, 1, 2]);
    assert_eq!(interleave_groups(&groups, 4), vec![0, 2, 3, 1]);
}
