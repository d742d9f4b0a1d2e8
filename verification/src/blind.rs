//! The blind search's bookkeeping: which candidate clusters are attempted,
//! which failure is reported when none is accepted, and the texts of its
//! failures and of its summary line.
use vstd::prelude::*;
use crate::solve::{held_refusal, keep_most_informative, prefers_incoming};
use crate::sidecar::push_all;
use crate::text::{decimal, usize_to_decimal};

verus! {

/// How many distinct candidate sky positions a blind search attempts a full
/// solve against before giving up.
pub const MAX_BLIND_CLUSTER_ATTEMPTS: usize = 40;

/// The detail of a blind failure before any quad could be built.
pub const NO_IMAGE_QUADS: &'static str = "no image quads could be formed";

/// What to do with the next candidate cluster in order.
#[derive(Clone, Copy, PartialEq, Eq, Structural, Debug)]
pub enum Consider {
    /// The attempt budget is spent: stop searching.
    Stop,
    /// Within the radius of a cluster already attempted: not an
    /// independent try.
    Skip,
    /// Attempt a solve at this cluster.
    Attempt,
}

/// The state of a search over candidate clusters: how many were attempted,
/// and the most informative failure so far with whether it is a refusal by
/// the evidence threshold.
pub struct ClusterSearch<T> {
    pub tried: usize,
    pub last_failure: Option<(T, bool)>,
}

impl<T> ClusterSearch<T> {
    /// A search that has attempted nothing.
    pub fn new() -> (s: ClusterSearch<T>)
        ensures
            s.tried == 0,
            s.last_failure is None,
    {
        ClusterSearch { tried: 0, last_failure: None }
    }

    /// Decide on the next cluster, given whether it lies within the radius
    /// of one already attempted: see [`decision`].
    pub fn consider(&mut self, near_tried: bool) -> (c: Consider)
        ensures
            c == decision(old(self).tried as nat, near_tried),
            final(self).tried == tried_after(old(self).tried as nat, near_tried),
            final(self).last_failure == old(self).last_failure,
    {
        if self.tried >= MAX_BLIND_CLUSTER_ATTEMPTS {
            Consider::Stop
        } else if near_tried {
            Consider::Skip
        } else {
            self.tried = self.tried + 1;
            Consider::Attempt
        }
    }

    /// Take an attempt's failure; `refusal` says whether the evidence
    /// threshold refused it. It is kept by the rule of
    /// [`keep_most_informative`].
    pub fn failed(&mut self, failure: T, refusal: bool)
        ensures
            final(self).tried == old(self).tried,
            final(self).last_failure == (if prefers_incoming(
                held_refusal(old(self).last_failure),
                refusal,
            ) {
                Some((failure, refusal))
            } else {
                old(self).last_failure
            }),
    {
        keep_most_informative(&mut self.last_failure, (failure, refusal));
    }
}

/// What to do with the next cluster after `tried` attempts: once the budget
/// is spent, stop; otherwise skip a cluster near one already attempted and
/// attempt any other.
pub open spec fn decision(tried: nat, near_tried: bool) -> Consider {
    if tried >= MAX_BLIND_CLUSTER_ATTEMPTS {
        Consider::Stop
    } else if near_tried {
        Consider::Skip
    } else {
        Consider::Attempt
    }
}

/// The attempt count after deciding on one more cluster.
pub open spec fn tried_after(tried: nat, near_tried: bool) -> nat {
    if decision(tried, near_tried) == Consider::Attempt {
        tried + 1
    } else {
        tried
    }
}

/// However many clusters there are, a search never attempts more than
/// `MAX_BLIND_CLUSTER_ATTEMPTS`, and once it has stopped it stays stopped.
pub proof fn law_attempts_capped(tried: nat, near_tried: bool, next_near: bool)
    requires
        tried <= MAX_BLIND_CLUSTER_ATTEMPTS,
    ensures
        tried_after(tried, near_tried) <= MAX_BLIND_CLUSTER_ATTEMPTS,
        decision(tried, near_tried) == Consider::Stop ==> tried_after(tried, near_tried) == tried
            && decision(tried_after(tried, near_tried), next_near) == Consider::Stop,
{
}

/// `{image_quads} image quads, {hypotheses} candidate hypotheses offered,
/// none survived`.
pub open spec fn no_survivor_text(image_quads: nat, hypotheses: nat) -> Seq<char> {
    decimal(image_quads) + " image quads, "@ + decimal(hypotheses)
        + " candidate hypotheses offered, none survived"@
}

/// `{image_quads} image quads, {hypotheses} hypotheses, {survivors}
/// candidate transforms survived across {clusters} cluster(s), none reached
/// a fit`.
pub open spec fn no_fit_text(image_quads: nat, hypotheses: nat, survivors: nat, clusters: nat) -> Seq<
    char,
> {
    decimal(image_quads) + " image quads, "@ + decimal(hypotheses) + " hypotheses, "@ + decimal(
        survivors,
    ) + " candidate transforms survived across "@ + decimal(clusters)
        + " cluster(s), none reached a fit"@
}

/// `{who}: blind search -- {image_quads} image quads, {hypotheses}
/// hypotheses offered, {survivors} candidate transform(s) survived,
/// {clusters} cluster(s) attempted`.
pub open spec fn summary_text(
    who: Seq<char>,
    image_quads: nat,
    hypotheses: nat,
    survivors: nat,
    clusters: nat,
) -> Seq<char> {
    who + ": blind search -- "@ + decimal(image_quads) + " image quads, "@ + decimal(
        hypotheses,
    ) + " hypotheses offered, "@ + decimal(survivors) + " candidate transform(s) survived, "@
        + decimal(clusters) + " cluster(s) attempted"@
}

/// Append `n` in decimal.
fn push_decimal(s: &mut String, n: usize)
    ensures
        final(s)@ == old(s)@ + decimal(n as nat),
{
    let d = usize_to_decimal(n);
    push_all(s, d.as_str());
}

/// The detail of a blind failure in which no candidate transform survived.
pub fn no_survivor_detail(image_quads: usize, hypotheses: usize) -> (t: String)
    ensures
        t@ == no_survivor_text(image_quads as nat, hypotheses as nat),
{
    let mut t = String::new();
    push_decimal(&mut t, image_quads);
    push_all(&mut t, " image quads, ");
    push_decimal(&mut t, hypotheses);
    push_all(&mut t, " candidate hypotheses offered, none survived");
    assert(t@ =~= no_survivor_text(image_quads as nat, hypotheses as nat));
    t
}

/// The detail of a blind failure in which no attempted cluster reached a
/// fit.
pub fn no_fit_detail(image_quads: usize, hypotheses: usize, survivors: usize, clusters: usize) -> (t:
    String)
    ensures
        t@ == no_fit_text(image_quads as nat, hypotheses as nat, survivors as nat, clusters as nat),
{
    let mut t = String::new();
    push_decimal(&mut t, image_quads);
    push_all(&mut t, " image quads, ");
    push_decimal(&mut t, hypotheses);
    push_all(&mut t, " hypotheses, ");
    push_decimal(&mut t, survivors);
    push_all(&mut t, " candidate transforms survived across ");
    push_decimal(&mut t, clusters);
    push_all(&mut t, " cluster(s), none reached a fit");
    assert(t@ =~= no_fit_text(
        image_quads as nat,
        hypotheses as nat,
        survivors as nat,
        clusters as nat,
    ));
    t
}

/// The stderr line that sums up a blind search, for `who` (`solving
/// {path}` in native mode, `psolve` in ASTAP mode).
pub fn blind_summary(
    who: &str,
    image_quads: usize,
    hypotheses: usize,
    survivors: usize,
    clusters: usize,
) -> (t: String)
    ensures
        t@ == summary_text(
            who@,
            image_quads as nat,
            hypotheses as nat,
            survivors as nat,
            clusters as nat,
        ),
{
    let mut t = String::new();
    push_all(&mut t, who);
    push_all(&mut t, ": blind search -- ");
    push_decimal(&mut t, image_quads);
    push_all(&mut t, " image quads, ");
    push_decimal(&mut t, hypotheses);
    push_all(&mut t, " hypotheses offered, ");
    push_decimal(&mut t, survivors);
    push_all(&mut t, " candidate transform(s) survived, ");
    push_decimal(&mut t, clusters);
    push_all(&mut t, " cluster(s) attempted");
    assert(t@ =~= summary_text(
        who@,
        image_quads as nat,
        hypotheses as nat,
        survivors as nat,
        clusters as nat,
    ));
    t
}

} // verus!
