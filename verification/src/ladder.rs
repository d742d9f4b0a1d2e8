//! The retry ladder behind every solve: after a failed first attempt, which
//! rung runs next, which of the earlier rungs' improvements it is handed,
//! which outcome is kept and which scale source is reported.
//!
//! The solver itself runs outside; it reports each attempt's [`Verdict`] and
//! this state machine decides the rest.
use vstd::prelude::*;
use crate::solve::prefers_incoming;

verus! {

/// How a finished solve attempt ended, as far as the ladder is concerned.
#[derive(Clone, Copy, PartialEq, Eq, Structural, Debug)]
pub enum Verdict {
    /// A solution was found.
    Solved,
    /// A transform was found and the evidence threshold refused it.
    Refused,
    /// Too few usable stars, or no quad matched: what a better extraction
    /// can help with.
    Unmatched,
    /// Any other failure.
    Failed,
}

/// The rungs tried after a failed first solve, in the order they are tried.
#[derive(Clone, Copy, PartialEq, Eq, Structural, Debug)]
pub enum Rung {
    /// Retry once at the header scale divided by `XBINNING`, with the
    /// catalogue disc refetched to match.
    ScaleRetry,
    /// Re-extract the frame with a matched filter and solve again.
    MatchedFilter,
    /// Solve by pair matching.
    PairMatch,
    /// Pair matching against a disc sized to the frame itself.
    TightRadius,
}

/// Which plate scale, and which rung, produced the reported outcome.
#[derive(Clone, Copy, PartialEq, Eq, Structural, Debug)]
pub enum ScaleSource {
    Explicit,
    Header,
    BinningRetry,
    MatchedFilter,
    PairMatch,
    TightRadius,
    /// A blind search that never reached a solve attempt.
    NotApplicable,
}

/// The label a scale source is reported under.
pub open spec fn source_label(s: ScaleSource) -> Seq<char> {
    match s {
        ScaleSource::Explicit => "explicit"@,
        ScaleSource::Header => "header"@,
        ScaleSource::BinningRetry => "header/binning-retry"@,
        ScaleSource::MatchedFilter => "header/matched-filter"@,
        ScaleSource::PairMatch => "header/pair-match"@,
        ScaleSource::TightRadius => "header/tight-radius"@,
        ScaleSource::NotApplicable => "n/a"@,
    }
}

impl ScaleSource {
    /// The label this source is reported under in the JSON and on stderr.
    pub fn label(&self) -> (t: &'static str)
        ensures
            t@ == source_label(*self),
    {
        match self {
            ScaleSource::Explicit => "explicit",
            ScaleSource::Header => "header",
            ScaleSource::BinningRetry => "header/binning-retry",
            ScaleSource::MatchedFilter => "header/matched-filter",
            ScaleSource::PairMatch => "header/pair-match",
            ScaleSource::TightRadius => "header/tight-radius",
            ScaleSource::NotApplicable => "n/a",
        }
    }
}

/// The position of a rung in the ladder.
pub open spec fn rank(r: Rung) -> int {
    match r {
        Rung::ScaleRetry => 0,
        Rung::MatchedFilter => 1,
        Rung::PairMatch => 2,
        Rung::TightRadius => 3,
    }
}

/// The rung at position `k` (`0..4`).
pub open spec fn rung_at(k: int) -> Rung {
    if k <= 0 {
        Rung::ScaleRetry
    } else if k == 1 {
        Rung::MatchedFilter
    } else if k == 2 {
        Rung::PairMatch
    } else {
        Rung::TightRadius
    }
}

fn rung_at_exec(k: u8) -> (r: Rung)
    requires
        k < 4,
    ensures
        r == rung_at(k as int),
        rank(r) == k,
{
    if k == 0 {
        Rung::ScaleRetry
    } else if k == 1 {
        Rung::MatchedFilter
    } else if k == 2 {
        Rung::PairMatch
    } else {
        Rung::TightRadius
    }
}

/// The scale source reported when rung `r` solves.
pub open spec fn solved_source(r: Rung) -> ScaleSource {
    match r {
        Rung::ScaleRetry => ScaleSource::BinningRetry,
        Rung::MatchedFilter => ScaleSource::MatchedFilter,
        Rung::PairMatch => ScaleSource::PairMatch,
        Rung::TightRadius => ScaleSource::TightRadius,
    }
}

/// Which catalogue disc the outcome held was solved against.
#[derive(Clone, Copy, PartialEq, Eq, Structural, Debug)]
pub enum Disc {
    /// The disc fetched before the first attempt.
    First,
    /// The disc the scale retry refetched at the corrected radius.
    Refetched,
    /// The disc sized to the frame, fetched by the tight-radius retry.
    Tight,
}

/// What the next rung is, and which improvements of earlier rungs it runs
/// with: the corrected plate scale, the re-extracted frame, the refetched
/// catalogue disc, the matched-filter extraction setting.
#[derive(Clone, Copy, PartialEq, Eq, Structural, Debug)]
pub enum Action {
    Try {
        rung: Rung,
        corrected_scale: bool,
        better_frame: bool,
        refetched_catalog: bool,
        matched_filter: bool,
    },
    /// No rung is left to try: report the outcome held.
    Finish,
}

/// What a rung reports back.
#[derive(Clone, Copy, PartialEq, Eq, Structural, Debug)]
pub enum Report {
    /// The scale retry ran; `refetched` says whether it fetched a new disc.
    ScaleRetried { verdict: Verdict, refetched: bool },
    /// The re-extraction ran and was solved against; `more_stars` says
    /// whether it found more usable stars than the first extraction.
    ReExtracted { verdict: Verdict, more_stars: bool },
    /// The re-extraction itself failed; nothing was solved.
    ReExtractFailed,
    /// Pair matching ran.
    PairMatched { verdict: Verdict },
    /// The tight-radius retry ran.
    TightRetried { verdict: Verdict },
}

/// The rung a report is about.
pub open spec fn report_rung(r: Report) -> Rung {
    match r {
        Report::ScaleRetried { .. } => Rung::ScaleRetry,
        Report::ReExtracted { .. } => Rung::MatchedFilter,
        Report::ReExtractFailed => Rung::MatchedFilter,
        Report::PairMatched { .. } => Rung::PairMatch,
        Report::TightRetried { .. } => Rung::TightRadius,
    }
}

/// The verdict a report carries (`held` where it carries none).
pub open spec fn report_verdict(r: Report, held: Verdict) -> Verdict {
    match r {
        Report::ScaleRetried { verdict, .. } => verdict,
        Report::ReExtracted { verdict, .. } => verdict,
        Report::ReExtractFailed => held,
        Report::PairMatched { verdict } => verdict,
        Report::TightRetried { verdict } => verdict,
    }
}

/// Whether the outcome a rung reports replaces the one held. The scale
/// retry's outcome is adopted either way, since the disc it refetched is
/// the one that produced it; a re-extraction is adopted only when it
/// solves; the two pair-matching rungs are adopted when they solve, and
/// otherwise by the rule that keeps an evidence-threshold refusal over a
/// failure that stopped earlier.
pub open spec fn adopts(held: Verdict, r: Report) -> bool {
    match r {
        Report::ScaleRetried { .. } => true,
        Report::ReExtracted { verdict, .. } => verdict == Verdict::Solved,
        Report::ReExtractFailed => false,
        Report::PairMatched { verdict } => verdict == Verdict::Solved || prefers_incoming(
            held == Verdict::Refused,
            verdict == Verdict::Refused,
        ),
        Report::TightRetried { verdict } => verdict == Verdict::Solved || prefers_incoming(
            held == Verdict::Refused,
            verdict == Verdict::Refused,
        ),
    }
}

/// The state of one run of the ladder.
#[derive(Clone, Copy, Debug)]
pub struct Ladder {
    /// The verdict of the outcome held so far.
    pub held: Verdict,
    /// The scale source reported with it.
    pub source: ScaleSource,
    /// The caller gave the plate scale.
    pub explicit_scale: bool,
    /// The header has `XBINNING > 1` and a plate scale of its own.
    pub binned_header: bool,
    /// The frame's bytes were handed over, so it can be re-extracted.
    pub frame_bytes: bool,
    /// A disc sized to the frame, narrower than the one fetched, can be
    /// fetched.
    pub tight_disc: bool,
    /// The scale retry has established a corrected plate scale.
    pub corrected_scale: bool,
    /// A re-extraction found more usable stars than the first one.
    pub better_frame: bool,
    /// The scale retry refetched the catalogue disc.
    pub refetched_catalog: bool,
    /// The disc the outcome held came from.
    pub disc: Disc,
    /// The position of the first rung not yet considered (`4`: none left).
    pub next: u8,
    /// The rung whose report is expected.
    pub awaiting: Option<Rung>,
}

impl Ladder {
    /// The ladder's own consistency: a report is awaited only for the rung
    /// just handed out, and only while the outcome held is a failure.
    pub open spec fn inv(self) -> bool {
        &&& self.next <= 4
        &&& self.awaiting matches Some(r) ==> self.held != Verdict::Solved && rank(r) + 1
            == self.next
    }

    /// Whether rung `r` runs, given what is held: every rung needs a
    /// failure; the scale retry also a binned header and no explicit scale;
    /// the re-extraction the frame's bytes and a failure it can help with;
    /// the tight-radius retry a narrower disc to fetch.
    pub open spec fn applies(self, r: Rung) -> bool {
        match r {
            Rung::ScaleRetry => self.held != Verdict::Solved && !self.explicit_scale
                && self.binned_header,
            Rung::MatchedFilter => self.frame_bytes && self.held == Verdict::Unmatched,
            Rung::PairMatch => self.held != Verdict::Solved,
            Rung::TightRadius => self.held != Verdict::Solved && self.tight_disc,
        }
    }

    /// The first rung at position `k` or later that runs.
    pub open spec fn first_from(self, k: int) -> Option<Rung> {
        if k <= 0 && self.applies(Rung::ScaleRetry) {
            Some(Rung::ScaleRetry)
        } else if k <= 1 && self.applies(Rung::MatchedFilter) {
            Some(Rung::MatchedFilter)
        } else if k <= 2 && self.applies(Rung::PairMatch) {
            Some(Rung::PairMatch)
        } else if k <= 3 && self.applies(Rung::TightRadius) {
            Some(Rung::TightRadius)
        } else {
            None
        }
    }

    /// What rung `r` is handed. The re-extraction keeps the first plate
    /// scale and uses a refetched disc; the pair-matching rungs use every
    /// improvement an earlier rung produced, the tight one with its own disc.
    pub open spec fn inputs(self, r: Rung) -> Action {
        match r {
            Rung::ScaleRetry => Action::Try {
                rung: r,
                corrected_scale: false,
                better_frame: false,
                refetched_catalog: false,
                matched_filter: false,
            },
            Rung::MatchedFilter => Action::Try {
                rung: r,
                corrected_scale: false,
                better_frame: false,
                refetched_catalog: self.refetched_catalog,
                matched_filter: true,
            },
            Rung::PairMatch => Action::Try {
                rung: r,
                corrected_scale: self.corrected_scale,
                better_frame: self.better_frame,
                refetched_catalog: self.refetched_catalog,
                matched_filter: self.better_frame,
            },
            Rung::TightRadius => Action::Try {
                rung: r,
                corrected_scale: self.corrected_scale,
                better_frame: self.better_frame,
                refetched_catalog: false,
                matched_filter: self.better_frame,
            },
        }
    }

    /// The state after the awaited rung reports `r`.
    pub open spec fn after(self, r: Report) -> Ladder {
        let adopt = adopts(self.held, r);
        let v = report_verdict(r, self.held);
        Ladder {
            held: if adopt {
                v
            } else {
                self.held
            },
            source: if adopt && v == Verdict::Solved {
                solved_source(report_rung(r))
            } else {
                self.source
            },
            corrected_scale: self.corrected_scale || r is ScaleRetried,
            refetched_catalog: match r {
                Report::ScaleRetried { refetched, .. } => refetched,
                _ => self.refetched_catalog,
            },
            better_frame: match r {
                Report::ReExtracted { verdict, more_stars } => self.better_frame || (verdict
                    != Verdict::Solved && more_stars),
                _ => self.better_frame,
            },
            disc: if adopt {
                match r {
                    Report::ScaleRetried { refetched, .. } => if refetched {
                        Disc::Refetched
                    } else {
                        Disc::First
                    },
                    Report::TightRetried { .. } => Disc::Tight,
                    _ => if self.refetched_catalog {
                        Disc::Refetched
                    } else {
                        Disc::First
                    },
                }
            } else {
                self.disc
            },
            awaiting: None,
            ..self
        }
    }

    fn applies_exec(&self, r: Rung) -> (b: bool)
        ensures
            b == self.applies(r),
    {
        let failed = !matches!(self.held, Verdict::Solved);
        match r {
            Rung::ScaleRetry => failed && !self.explicit_scale && self.binned_header,
            Rung::MatchedFilter => self.frame_bytes && matches!(self.held, Verdict::Unmatched),
            Rung::PairMatch => failed,
            Rung::TightRadius => failed && self.tight_disc,
        }
    }

    fn inputs_exec(&self, r: Rung) -> (a: Action)
        ensures
            a == self.inputs(r),
    {
        match r {
            Rung::ScaleRetry => Action::Try {
                rung: r,
                corrected_scale: false,
                better_frame: false,
                refetched_catalog: false,
                matched_filter: false,
            },
            Rung::MatchedFilter => Action::Try {
                rung: r,
                corrected_scale: false,
                better_frame: false,
                refetched_catalog: self.refetched_catalog,
                matched_filter: true,
            },
            Rung::PairMatch => Action::Try {
                rung: r,
                corrected_scale: self.corrected_scale,
                better_frame: self.better_frame,
                refetched_catalog: self.refetched_catalog,
                matched_filter: self.better_frame,
            },
            Rung::TightRadius => Action::Try {
                rung: r,
                corrected_scale: self.corrected_scale,
                better_frame: self.better_frame,
                refetched_catalog: false,
                matched_filter: self.better_frame,
            },
        }
    }

    /// A ladder over a first attempt that ended with `first`. The scale
    /// source starts as the caller's when the caller gave the scale, else
    /// the header's.
    pub fn new(
        first: Verdict,
        explicit_scale: bool,
        binned_header: bool,
        frame_bytes: bool,
        tight_disc: bool,
    ) -> (l: Ladder)
        ensures
            l == (Ladder {
                held: first,
                source: if explicit_scale {
                    ScaleSource::Explicit
                } else {
                    ScaleSource::Header
                },
                explicit_scale,
                binned_header,
                frame_bytes,
                tight_disc,
                corrected_scale: false,
                better_frame: false,
                refetched_catalog: false,
                disc: Disc::First,
                next: 0,
                awaiting: None,
            }),
            l.inv(),
    {
        Ladder {
            held: first,
            source: if explicit_scale {
                ScaleSource::Explicit
            } else {
                ScaleSource::Header
            },
            explicit_scale,
            binned_header,
            frame_bytes,
            tight_disc,
            corrected_scale: false,
            better_frame: false,
            refetched_catalog: false,
            disc: Disc::First,
            next: 0,
            awaiting: None,
        }
    }

    /// The next rung to run, with its inputs, or `Finish` when none is left.
    /// Rungs that do not apply to what is held are passed over for good.
    pub fn next_action(&mut self) -> (a: Action)
        requires
            old(self).inv(),
        ensures
            final(self).inv(),
            match old(self).first_from(old(self).next as int) {
                Some(r) => a == old(self).inputs(r) && *final(self) == (Ladder {
                    next: (rank(r) + 1) as u8,
                    awaiting: Some(r),
                    ..*old(self)
                }),
                None => a == Action::Finish && *final(self) == (Ladder {
                    next: 4,
                    awaiting: None,
                    ..*old(self)
                }),
            },
    {
        let mut k: u8 = self.next;
        while k < 4
            invariant
                *self == *old(self),
                old(self).next <= k <= 4,
                old(self).first_from(old(self).next as int) == old(self).first_from(k as int),
            decreases 4 - k,
        {
            let r = rung_at_exec(k);
            if self.applies_exec(r) {
                let a = self.inputs_exec(r);
                self.next = k + 1;
                self.awaiting = Some(r);
                return a;
            }
            k += 1;
        }
        self.next = 4;
        self.awaiting = None;
        Action::Finish
    }

    /// Take a rung's report: returns whether its outcome replaces the one
    /// held. A report for any rung but the one awaited changes nothing.
    pub fn record(&mut self, r: Report) -> (adopt: bool)
        requires
            old(self).inv(),
        ensures
            final(self).inv(),
            if old(self).awaiting == Some(report_rung(r)) {
                adopt == adopts(old(self).held, r) && *final(self) == old(self).after(r)
            } else {
                !adopt && *final(self) == *old(self)
            },
    {
        let rung = match r {
            Report::ScaleRetried { .. } => Rung::ScaleRetry,
            Report::ReExtracted { .. } => Rung::MatchedFilter,
            Report::ReExtractFailed => Rung::MatchedFilter,
            Report::PairMatched { .. } => Rung::PairMatch,
            Report::TightRetried { .. } => Rung::TightRadius,
        };
        let expected = match self.awaiting {
            Some(w) => w == rung,
            None => false,
        };
        if !expected {
            return false;
        }
        let held_refused = matches!(self.held, Verdict::Refused);
        let (adopt, v) = match r {
            Report::ScaleRetried { verdict, refetched } => {
                self.corrected_scale = true;
                self.refetched_catalog = refetched;
                (true, verdict)
            },
            Report::ReExtracted { verdict, more_stars } => {
                let solved = matches!(verdict, Verdict::Solved);
                if !solved && more_stars {
                    self.better_frame = true;
                }
                (solved, verdict)
            },
            Report::ReExtractFailed => (false, self.held),
            Report::PairMatched { verdict } => {
                let keep = matches!(verdict, Verdict::Solved) || matches!(verdict, Verdict::Refused)
                    || !held_refused;
                (keep, verdict)
            },
            Report::TightRetried { verdict } => {
                let keep = matches!(verdict, Verdict::Solved) || matches!(verdict, Verdict::Refused)
                    || !held_refused;
                (keep, verdict)
            },
        };
        if adopt {
            self.disc = match r {
                Report::ScaleRetried { refetched, .. } => if refetched {
                    Disc::Refetched
                } else {
                    Disc::First
                },
                Report::TightRetried { .. } => Disc::Tight,
                _ => if self.refetched_catalog {
                    Disc::Refetched
                } else {
                    Disc::First
                },
            };
            self.held = v;
            if matches!(v, Verdict::Solved) {
                self.source = match rung {
                    Rung::ScaleRetry => ScaleSource::BinningRetry,
                    Rung::MatchedFilter => ScaleSource::MatchedFilter,
                    Rung::PairMatch => ScaleSource::PairMatch,
                    Rung::TightRadius => ScaleSource::TightRadius,
                };
            }
        }
        self.awaiting = None;
        adopt
    }
}

/// The ladder hands out the first rung, at or after position `k`, that
/// applies to what is held, passing over only rungs that do not; when it
/// hands out none, no rung from `k` on applies.
pub proof fn law_first_applicable_rung(l: Ladder, k: int)
    requires
        0 <= k,
    ensures
        match l.first_from(k) {
            Some(r) => k <= rank(r) < 4 && l.applies(r) && r == rung_at(rank(r)) && forall|j: int|
                k <= j < rank(r) ==> !l.applies(#[trigger] rung_at(j)),
            None => forall|j: int| k <= j < 4 ==> !l.applies(#[trigger] rung_at(j)),
        },
{
}

/// Once the outcome held is a solve, the ladder is over: no rung applies,
/// none is handed out, and no report is taken, so a frame that solves keeps
/// its answer and its scale source.
pub proof fn law_solved_is_final(l: Ladder, r: Report)
    requires
        l.inv(),
        l.held == Verdict::Solved,
    ensures
        forall|x: Rung| !l.applies(x),
        l.first_from(l.next as int) is None,
        l.awaiting != Some(report_rung(r)),
{
    law_first_applicable_rung(l, l.next as int);
}

/// A rung's solve is adopted and reported under that rung's scale source.
pub proof fn law_solve_is_adopted(l: Ladder, r: Report)
    requires
        report_verdict(r, l.held) == Verdict::Solved,
        !(r is ReExtractFailed),
    ensures
        adopts(l.held, r),
        l.after(r).held == Verdict::Solved,
        l.after(r).source == solved_source(report_rung(r)),
{
}

/// Neither pair-matching rung replaces an evidence-threshold refusal held
/// with a failure that stopped earlier.
pub proof fn law_refusal_survives_pair_rungs(l: Ladder, r: Report)
    requires
        l.held == Verdict::Refused,
        r is PairMatched || r is TightRetried,
        report_verdict(r, l.held) == Verdict::Unmatched || report_verdict(r, l.held)
            == Verdict::Failed,
    ensures
        !adopts(l.held, r),
        l.after(r).held == Verdict::Refused,
        l.after(r).source == l.source,
{
}

/// Each rung runs at most once and in ladder order: the rung handed out
/// is never before the next position, and the next position moves past it.
pub proof fn law_rungs_in_order(l: Ladder)
    requires
        l.inv(),
    ensures
        l.first_from(l.next as int) matches Some(r) ==> l.next <= rank(r) && (rank(r) + 1) as u8
            > l.next,
{
    law_first_applicable_rung(l, l.next as int);
}

/// The disc reported with an outcome is the one that outcome was solved
/// against: a tight-radius outcome that is kept, solved or not, reports the
/// tight disc; an outcome that is not kept leaves the disc as it was.
pub proof fn law_disc_follows_outcome(l: Ladder, r: Report)
    ensures
        adopts(l.held, r) && r is TightRetried ==> l.after(r).disc == Disc::Tight,
        adopts(l.held, r) && (r matches Report::ScaleRetried { refetched, .. } && refetched)
            ==> l.after(r).disc == Disc::Refetched,
        !adopts(l.held, r) ==> l.after(r).disc == l.disc,
{
}

} // verus!
