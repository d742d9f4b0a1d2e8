use psolve_cli::blind::{
    blind_summary, no_fit_detail, no_survivor_detail, ClusterSearch, Consider,
    MAX_BLIND_CLUSTER_ATTEMPTS, NO_IMAGE_QUADS,
};
use psolve_cli::ladder::{Action, Disc, Ladder, Report, Rung, ScaleSource, Verdict};

fn rung_of(a: Action) -> Option<Rung> {
    match a {
        Action::Try { rung, .. } => Some(rung),
        Action::Finish => None,
    }
}

#[test]
fn a_first_solve_runs_no_rung_and_keeps_the_header_source() {
    let mut l = Ladder::new(Verdict::Solved, false, true, true, true);
    assert_eq!(l.next_action(), Action::Finish);
    assert_eq!(l.source.label(), "header");
    assert_eq!(l.held, Verdict::Solved);
}

#[test]
fn an_explicit_scale_is_reported_and_never_retried() {
    let mut l = Ladder::new(Verdict::Unmatched, true, true, false, false);
    assert_eq!(l.source.label(), "explicit");
    assert_eq!(rung_of(l.next_action()), Some(Rung::PairMatch));
}

#[test]
fn the_scale_retry_comes_first_on_a_binned_header() {
    let mut l = Ladder::new(Verdict::Unmatched, false, true, true, true);
    assert_eq!(
        l.next_action(),
        Action::Try {
            rung: Rung::ScaleRetry,
            corrected_scale: false,
            better_frame: false,
            refetched_catalog: false,
            matched_filter: false,
        }
    );
    assert!(l.record(Report::ScaleRetried { verdict: Verdict::Solved, refetched: true }));
    assert_eq!(l.next_action(), Action::Finish);
    assert_eq!(l.source.label(), "header/binning-retry");
}

#[test]
fn the_scale_retry_outcome_is_adopted_even_when_it_fails() {
    let mut l = Ladder::new(Verdict::Refused, false, true, false, false);
    assert_eq!(rung_of(l.next_action()), Some(Rung::ScaleRetry));
    assert!(l.record(Report::ScaleRetried { verdict: Verdict::Failed, refetched: false }));
    assert_eq!(l.held, Verdict::Failed);
    assert_eq!(l.source, ScaleSource::Header);
}

#[test]
fn later_rungs_get_the_corrected_scale_and_refetched_disc() {
    let mut l = Ladder::new(Verdict::Unmatched, false, true, true, true);
    l.next_action();
    assert!(l.record(Report::ScaleRetried { verdict: Verdict::Unmatched, refetched: true }));
    assert_eq!(
        l.next_action(),
        Action::Try {
            rung: Rung::MatchedFilter,
            corrected_scale: false,
            better_frame: false,
            refetched_catalog: true,
            matched_filter: true,
        }
    );
    assert!(!l.record(Report::ReExtracted { verdict: Verdict::Unmatched, more_stars: true }));
    assert_eq!(
        l.next_action(),
        Action::Try {
            rung: Rung::PairMatch,
            corrected_scale: true,
            better_frame: true,
            refetched_catalog: true,
            matched_filter: true,
        }
    );
    assert!(l.record(Report::PairMatched { verdict: Verdict::Failed }));
    assert_eq!(
        l.next_action(),
        Action::Try {
            rung: Rung::TightRadius,
            corrected_scale: true,
            better_frame: true,
            refetched_catalog: false,
            matched_filter: true,
        }
    );
    assert!(l.record(Report::TightRetried { verdict: Verdict::Solved }));
    assert_eq!(l.next_action(), Action::Finish);
    assert_eq!(l.source.label(), "header/tight-radius");
}

#[test]
fn a_re_extraction_that_finds_fewer_stars_is_not_handed_on() {
    let mut l = Ladder::new(Verdict::Unmatched, false, false, true, false);
    assert_eq!(rung_of(l.next_action()), Some(Rung::MatchedFilter));
    assert!(!l.record(Report::ReExtracted { verdict: Verdict::Failed, more_stars: false }));
    assert_eq!(l.held, Verdict::Unmatched);
    match l.next_action() {
        Action::Try { rung, better_frame, matched_filter, .. } => {
            assert_eq!(rung, Rung::PairMatch);
            assert!(!better_frame);
            assert!(!matched_filter);
        }
        Action::Finish => panic!("the pair rung must run"),
    }
}

#[test]
fn a_re_extraction_solve_is_reported_as_the_matched_filter() {
    let mut l = Ladder::new(Verdict::Unmatched, false, false, true, true);
    l.next_action();
    assert!(l.record(Report::ReExtracted { verdict: Verdict::Solved, more_stars: true }));
    assert_eq!(l.next_action(), Action::Finish);
    assert_eq!(l.source.label(), "header/matched-filter");
}

#[test]
fn a_failed_re_extraction_changes_nothing() {
    let mut l = Ladder::new(Verdict::Unmatched, false, false, true, false);
    l.next_action();
    assert!(!l.record(Report::ReExtractFailed));
    assert_eq!(l.held, Verdict::Unmatched);
    assert_eq!(rung_of(l.next_action()), Some(Rung::PairMatch));
}

#[test]
fn only_unmatched_failures_are_re_extracted() {
    let mut l = Ladder::new(Verdict::Failed, false, false, true, false);
    assert_eq!(rung_of(l.next_action()), Some(Rung::PairMatch));
    let mut r = Ladder::new(Verdict::Refused, false, false, true, false);
    assert_eq!(rung_of(r.next_action()), Some(Rung::PairMatch));
}

#[test]
fn a_refusal_survives_both_pair_rungs() {
    let mut l = Ladder::new(Verdict::Refused, false, false, false, true);
    assert_eq!(rung_of(l.next_action()), Some(Rung::PairMatch));
    assert!(!l.record(Report::PairMatched { verdict: Verdict::Unmatched }));
    assert_eq!(rung_of(l.next_action()), Some(Rung::TightRadius));
    assert!(!l.record(Report::TightRetried { verdict: Verdict::Failed }));
    assert_eq!(l.next_action(), Action::Finish);
    assert_eq!(l.held, Verdict::Refused);
    assert_eq!(l.source.label(), "header");
}

#[test]
fn a_later_refusal_replaces_a_bare_failure() {
    let mut l = Ladder::new(Verdict::Failed, false, false, false, false);
    l.next_action();
    assert!(l.record(Report::PairMatched { verdict: Verdict::Refused }));
    assert_eq!(l.held, Verdict::Refused);
    assert_eq!(l.next_action(), Action::Finish);
}

#[test]
fn a_report_for_another_rung_is_ignored() {
    let mut l = Ladder::new(Verdict::Failed, false, false, false, true);
    assert_eq!(rung_of(l.next_action()), Some(Rung::PairMatch));
    assert!(!l.record(Report::TightRetried { verdict: Verdict::Solved }));
    assert_eq!(l.held, Verdict::Failed);
    assert!(l.record(Report::PairMatched { verdict: Verdict::Failed }));
    assert!(!l.record(Report::PairMatched { verdict: Verdict::Solved }));
    assert_eq!(l.held, Verdict::Failed);
}

#[test]
fn no_tight_disc_means_no_tight_rung() {
    let mut l = Ladder::new(Verdict::Failed, false, false, false, false);
    assert_eq!(rung_of(l.next_action()), Some(Rung::PairMatch));
    l.record(Report::PairMatched { verdict: Verdict::Failed });
    assert_eq!(l.next_action(), Action::Finish);
}

#[test]
fn every_scale_source_label() {
    assert_eq!(ScaleSource::Explicit.label(), "explicit");
    assert_eq!(ScaleSource::Header.label(), "header");
    assert_eq!(ScaleSource::BinningRetry.label(), "header/binning-retry");
    assert_eq!(ScaleSource::MatchedFilter.label(), "header/matched-filter");
    assert_eq!(ScaleSource::PairMatch.label(), "header/pair-match");
    assert_eq!(ScaleSource::TightRadius.label(), "header/tight-radius");
    assert_eq!(ScaleSource::NotApplicable.label(), "n/a");
}

#[test]
fn the_blind_search_attempts_at_most_forty_clusters() {
    let mut s: ClusterSearch<u32> = ClusterSearch::new();
    let mut attempts = 0;
    for _ in 0..100 {
        match s.consider(false) {
            Consider::Attempt => attempts += 1,
            Consider::Skip => panic!("no cluster is near another here"),
            Consider::Stop => break,
        }
    }
    assert_eq!(attempts, 40);
    assert_eq!(s.tried, MAX_BLIND_CLUSTER_ATTEMPTS);
    assert_eq!(s.consider(true), Consider::Stop);
}

#[test]
fn a_cluster_near_one_already_tried_is_skipped_uncounted() {
    let mut s: ClusterSearch<u32> = ClusterSearch::new();
    assert_eq!(s.consider(false), Consider::Attempt);
    assert_eq!(s.consider(true), Consider::Skip);
    assert_eq!(s.tried, 1);
}

#[test]
fn the_blind_search_keeps_its_most_informative_failure() {
    let mut s: ClusterSearch<&str> = ClusterSearch::new();
    s.failed("no match", false);
    s.failed("refused", true);
    s.failed("no match again", false);
    assert_eq!(s.last_failure, Some(("refused", true)));
    s.failed("refused later", true);
    assert_eq!(s.last_failure, Some(("refused later", true)));
}

#[test]
fn blind_failure_details() {
    assert_eq!(NO_IMAGE_QUADS, "no image quads could be formed");
    assert_eq!(
        no_survivor_detail(12, 345),
        "12 image quads, 345 candidate hypotheses offered, none survived"
    );
    assert_eq!(
        no_fit_detail(12, 345, 6, 0),
        "12 image quads, 345 hypotheses, 6 candidate transforms survived across 0 cluster(s), none reached a fit"
    );
    assert_eq!(
        blind_summary("solving a.fits", 12, 345, 6, 3),
        "solving a.fits: blind search -- 12 image quads, 345 hypotheses offered, 6 candidate transform(s) survived, 3 cluster(s) attempted"
    );
    assert_eq!(
        blind_summary("psolve", 0, 0, 0, 0),
        "psolve: blind search -- 0 image quads, 0 hypotheses offered, 0 candidate transform(s) survived, 0 cluster(s) attempted"
    );
}

#[test]
fn the_disc_reported_is_the_one_the_kept_outcome_came_from() {
    let mut l = Ladder::new(Verdict::Unmatched, false, true, false, true);
    assert_eq!(l.disc, Disc::First);
    l.next_action();
    l.record(Report::ScaleRetried { verdict: Verdict::Failed, refetched: true });
    assert_eq!(l.disc, Disc::Refetched);
    l.next_action();
    assert!(l.record(Report::PairMatched { verdict: Verdict::Refused }));
    assert_eq!(l.disc, Disc::Refetched);
    assert_eq!(rung_of(l.next_action()), Some(Rung::TightRadius));
    assert!(l.record(Report::TightRetried { verdict: Verdict::Refused }));
    assert_eq!(l.disc, Disc::Tight);
}

#[test]
fn a_scale_retry_without_a_refetch_keeps_the_first_disc() {
    let mut l = Ladder::new(Verdict::Failed, false, true, false, false);
    l.next_action();
    l.record(Report::ScaleRetried { verdict: Verdict::Solved, refetched: false });
    assert_eq!(l.disc, Disc::First);
}
