//! Decisions of the solve and quad-index paths that do not depend on the
//! pixels: the catalogue budget, which failure report to keep, the integer
//! and `RA,DEC` flag values, and the seed-by-seed interleave that spreads a
//! tile's quads.
use vstd::prelude::*;
use crate::astap::{debug_quoted, debug_str, digits_value, parse_unsigned, parses_unsigned, unsigned_digits};
use crate::sidecar::push_all;
use crate::text::{chars_of, string_from_chars, trim, trimmed};

verus! {

/// `x` clamped to `lo..=hi`.
pub open spec fn clamp(x: int, lo: int, hi: int) -> int {
    if x < lo {
        lo
    } else if x > hi {
        hi
    } else {
        x
    }
}

/// Catalogue stars to fetch for a frame with `usable` detected stars:
/// three per star, at least 300 and at most 5000.
pub fn cat_limit_for(usable: usize) -> (n: usize)
    requires
        usable <= usize::MAX / 3,
    ensures
        n == clamp(3 * usable, 300, 5000),
        300 <= n <= 5000,
{
    let x = usable * 3;
    if x < 300 {
        300
    } else if x > 5000 {
        5000
    } else {
        x
    }
}

/// Whether an incoming failure replaces the one held, from whether each is
/// a refusal by the evidence threshold: a refusal always does, and anything
/// does unless what is held is a refusal.
pub open spec fn prefers_incoming(held_refusal: bool, incoming_refusal: bool) -> bool {
    incoming_refusal || !held_refusal
}

/// Whether the failure held, if any, is a refusal.
pub open spec fn held_refusal<T>(held: Option<(T, bool)>) -> bool {
    held matches Some((_, true))
}

/// Keep the more informative of the failure held so far and an incoming
/// one; each carries whether it is a refusal by the blind solve's evidence
/// threshold. Such a refusal wins over a failure that stopped earlier; between
/// two of the same kind the later one wins.
pub fn keep_most_informative<T>(current: &mut Option<(T, bool)>, incoming: (T, bool))
    ensures
        *final(current) == (if prefers_incoming(held_refusal(*old(current)), incoming.1) {
            Some(incoming)
        } else {
            *old(current)
        }),
{
    let held_is_refusal = match current {
        Some((_, g)) => *g,
        None => false,
    };
    if incoming.1 || !held_is_refusal {
        *current = Some(incoming);
    }
}

/// A held evidence-threshold refusal is never replaced by a failure that
/// stopped earlier, and the first failure is always taken.
pub proof fn law_threshold_refusal_kept<T>(held: Option<(T, bool)>, incoming: (T, bool))
    ensures
        held_refusal(held) && !incoming.1 ==> !prefers_incoming(held_refusal(held), incoming.1),
        held is None ==> prefers_incoming(held_refusal(held), incoming.1),
{
}

/// `{name} must be a positive integer, got {v:?}`.
pub open spec fn not_positive_message(name: Seq<char>, v: Seq<char>) -> Seq<char> {
    name + " must be a positive integer, got "@ + debug_quoted(v)
}

/// `v` reads as a positive integer no larger than `max`.
pub open spec fn is_positive_integer(v: Seq<char>, max: nat) -> bool {
    parses_unsigned(v, max) && digits_value(unsigned_digits(v)) > 0
}

/// A flag value that must be a positive integer of an unsigned type whose
/// largest value is `max` (`str::parse`, then `> 0`), or the error naming
/// the flag and quoting the value.
pub fn positive_integer(v: &str, name: &str, max: u64) -> (r: Result<u64, String>)
    ensures
        match r {
            Ok(n) => is_positive_integer(v@, max as nat) && n == digits_value(unsigned_digits(v@)),
            Err(e) => !is_positive_integer(v@, max as nat) && e@ == not_positive_message(name@, v@),
        },
{
    match parse_unsigned(v, max) {
        Some(n) => {
            if n > 0 {
                return Ok(n);
            }
        },
        None => {},
    }
    let mut e = String::new();
    push_all(&mut e, name);
    push_all(&mut e, " must be a positive integer, got ");
    let q = debug_str(v);
    push_all(&mut e, q.as_str());
    Err(e)
}

/// Positions of `c` in `s`.
pub open spec fn positions_of_char(s: Seq<char>, c: char) -> Seq<int>
    decreases s.len(),
{
    if s.len() == 0 {
        Seq::empty()
    } else if s.last() == c {
        positions_of_char(s.drop_last(), c).push(s.len() - 1)
    } else {
        positions_of_char(s.drop_last(), c)
    }
}

/// `RA,DEC`: the two sides of the one comma, each trimmed; `None` unless
/// there is exactly one comma.
pub open spec fn hint_sides(s: Seq<char>) -> Option<(Seq<char>, Seq<char>)> {
    let p = positions_of_char(s, ',');
    if p.len() == 1 {
        Some((trim(s.take(p[0])), trim(s.skip(p[0] + 1))))
    } else {
        None
    }
}

proof fn lemma_positions_in_range(s: Seq<char>, c: char)
    ensures
        forall|k: int|
            0 <= k < positions_of_char(s, c).len() ==> 0 <= #[trigger] positions_of_char(s, c)[k]
                < s.len() && s[positions_of_char(s, c)[k]] == c,
    decreases s.len(),
{
    if s.len() > 0 {
        let t = s.drop_last();
        lemma_positions_in_range(t, c);
        let p = positions_of_char(s, c);
        assert forall|k: int| 0 <= k < p.len() implies 0 <= #[trigger] p[k] < s.len() && s[p[k]]
            == c by {
            if k < positions_of_char(t, c).len() {
                assert(p[k] == positions_of_char(t, c)[k]);
                assert(s[p[k]] == t[p[k]]);
            }
        }
    }
}

/// Split a `--hint` value into its two trimmed sides.
pub fn split_hint(spec: &str) -> (r: Option<(String, String)>)
    ensures
        match r {
            Some((a, b)) => hint_sides(spec@) == Some((a@, b@)),
            None => hint_sides(spec@) is None,
        },
{
    let v = chars_of(spec);
    let mut count: usize = 0;
    let mut first: usize = 0;
    let mut i: usize = 0;
    while i < v.len()
        invariant
            v@ == spec@,
            i <= v.len(),
            count <= i,
            count == positions_of_char(v@.take(i as int), ',').len(),
            count >= 1 ==> first == positions_of_char(v@.take(i as int), ',')[0],
        decreases v.len() - i,
    {
        assert(v@.take(i + 1).drop_last() =~= v@.take(i as int));
        if v[i] == ',' {
            if count == 0 {
                first = i;
            }
            count += 1;
        }
        i += 1;
    }
    assert(v@.take(v.len() as int) =~= v@);
    if count != 1 {
        return None;
    }
    proof {
        lemma_positions_in_range(v@, ',');
    }
    let left = string_from_chars(vstd::slice::slice_subrange(v.as_slice(), 0, first));
    let right = string_from_chars(vstd::slice::slice_subrange(v.as_slice(), first + 1, v.len()));
    assert(left@ =~= spec@.take(first as int));
    assert(right@ =~= spec@.skip(first + 1));
    Some((trimmed(left.as_str()), trimmed(right.as_str())))
}


/// The elements of rank `r` (position `r` within their group), group by
/// group in order, for the groups that have one.
pub open spec fn layer(groups: Seq<Seq<usize>>, r: int) -> Seq<usize>
    decreases groups.len(),
{
    if groups.len() == 0 {
        Seq::empty()
    } else {
        layer(groups.drop_last(), r) + if 0 <= r < groups.last().len() {
            seq![groups.last()[r]]
        } else {
            Seq::empty()
        }
    }
}

/// All elements of ranks below `depth`, rank by rank.
pub open spec fn interleaved(groups: Seq<Seq<usize>>, depth: int) -> Seq<usize>
    decreases depth,
{
    if depth <= 0 {
        Seq::empty()
    } else {
        interleaved(groups, depth - 1) + layer(groups, depth - 1)
    }
}

/// The length of the longest group.
pub open spec fn deepest(groups: Seq<Seq<usize>>) -> nat
    decreases groups.len(),
{
    if groups.len() == 0 {
        0
    } else if groups.last().len() > deepest(groups.drop_last()) {
        groups.last().len()
    } else {
        deepest(groups.drop_last())
    }
}

/// The contents of each group.
pub open spec fn group_views(groups: Seq<Vec<usize>>) -> Seq<Seq<usize>> {
    groups.map_values(|g: Vec<usize>| g@)
}

/// The round-robin interleave of all the groups cut to `cap` elements.
pub open spec fn round_robin(groups: Seq<Seq<usize>>, cap: nat) -> Seq<usize> {
    let all = interleaved(groups, deepest(groups) as int);
    all.take(if cap < all.len() { cap as int } else { all.len() as int })
}

proof fn lemma_layer_prefix(groups: Seq<Seq<usize>>, r: int, s: int)
    requires
        0 <= s < groups.len(),
    ensures
        layer(groups.take(s + 1), r) == layer(groups.take(s), r) + if 0 <= r < groups[s].len() {
            seq![groups[s][r]]
        } else {
            Seq::empty()
        },
{
    assert(groups.take(s + 1).drop_last() =~= groups.take(s));
    assert(groups.take(s + 1).last() == groups[s]);
}

proof fn lemma_interleaved_prefix(groups: Seq<Seq<usize>>, a: int, b: int)
    requires
        0 <= a <= b,
    ensures
        interleaved(groups, a).len() <= interleaved(groups, b).len(),
        interleaved(groups, b).take(interleaved(groups, a).len() as int) == interleaved(groups, a),
    decreases b - a,
{
    if a < b {
        lemma_interleaved_prefix(groups, a, b - 1);
        let x = interleaved(groups, b - 1);
        assert(interleaved(groups, b).take(x.len() as int) =~= x);
        assert(interleaved(groups, b).take(interleaved(groups, a).len() as int) =~= x.take(
            interleaved(groups, a).len() as int,
        ));
    } else {
        assert(interleaved(groups, b).take(interleaved(groups, a).len() as int) =~= interleaved(groups, a));
    }
}

/// The length of the longest group.
pub fn deepest_group(groups: &Vec<Vec<usize>>) -> (d: usize)
    ensures
        d == deepest(group_views(groups@)),
{
    let ghost gs = group_views(groups@);
    let mut d: usize = 0;
    let mut i: usize = 0;
    assert(gs.take(0) =~= Seq::<Seq<usize>>::empty());
    while i < groups.len()
        invariant
            gs == group_views(groups@),
            i <= groups.len(),
            d == deepest(gs.take(i as int)),
        decreases groups.len() - i,
    {
        assert(gs.take(i + 1).drop_last() =~= gs.take(i as int));
        assert(gs.take(i + 1).last() == groups@[i as int]@);
        if groups[i].len() > d {
            d = groups[i].len();
        }
        i += 1;
    }
    assert(gs.take(groups.len() as int) =~= gs);
    d
}

/// A layer over the first groups is a prefix of the layer over all of them.
proof fn lemma_layer_is_prefix(groups: Seq<Seq<usize>>, r: int, s: int)
    requires
        0 <= s <= groups.len(),
    ensures
        layer(groups.take(s), r).len() <= layer(groups, r).len(),
        layer(groups, r).take(layer(groups.take(s), r).len() as int) == layer(groups.take(s), r),
    decreases groups.len() - s,
{
    if s == groups.len() {
        assert(groups.take(s) =~= groups);
    } else {
        lemma_layer_is_prefix(groups, r, s + 1);
        lemma_layer_prefix(groups, r, s);
        let a = layer(groups.take(s), r);
        let b = layer(groups.take(s + 1), r);
        assert(layer(groups, r).take(a.len() as int) =~= b.take(a.len() as int));
    }
}

/// Take elements rank by rank, one from each group that has one at that
/// rank and in group order, until `cap` elements are taken or every group
/// is exhausted.
pub fn interleave_groups(groups: &Vec<Vec<usize>>, cap: usize) -> (r: Vec<usize>)
    ensures
        r@ == round_robin(group_views(groups@), cap as nat),
{
    let ghost gs = group_views(groups@);
    let deep = deepest_group(groups);
    let ghost all = interleaved(gs, deep as int);
    let mut out: Vec<usize> = Vec::new();
    let mut rank: usize = 0;
    assert(all.take(0) =~= Seq::<usize>::empty());
    while rank < deep && out.len() < cap
        invariant
            gs == group_views(groups@),
            all == interleaved(gs, deep as int),
            deep == deepest(gs),
            rank <= deep,
            out.len() <= cap,
            out.len() < cap ==> out@ == interleaved(gs, rank as int),
            out@ == all.take(out.len() as int),
            out.len() <= all.len(),
        decreases deep - rank,
    {
        let ghost before = out@;
        let mut s: usize = 0;
        proof {
            lemma_interleaved_prefix(gs, rank + 1, deep as int);
            assert(gs.take(0) =~= Seq::<Seq<usize>>::empty());
            assert(before + layer(gs.take(0), rank as int) =~= before);
        }
        while s < groups.len() && out.len() < cap
            invariant
                gs == group_views(groups@),
                all == interleaved(gs, deep as int),
                rank < deep,
                s <= groups.len(),
                out.len() <= cap,
                before == interleaved(gs, rank as int),
                out.len() < cap ==> out@ == before + layer(gs.take(s as int), rank as int),
                out@ == all.take(out.len() as int),
                out.len() <= all.len(),
                all.take(interleaved(gs, rank + 1).len() as int) == interleaved(gs, rank + 1),
                interleaved(gs, rank + 1).len() <= all.len(),
                interleaved(gs, rank + 1) == before + layer(gs, rank as int),
            decreases groups.len() - s,
        {
            proof {
                lemma_layer_prefix(gs, rank as int, s as int);
                lemma_layer_is_prefix(gs, rank as int, s + 1);
                let p1 = before + layer(gs.take(s + 1), rank as int);
                let full = interleaved(gs, rank + 1);
                assert(full.take(p1.len() as int) =~= p1);
                assert(all.take(p1.len() as int) =~= full.take(p1.len() as int));
                assert(gs[s as int] == groups@[s as int]@);
            }
            if rank < groups[s].len() {
                out.push(groups[s][rank]);
            }
            s += 1;
        }
        proof {
            if out.len() < cap {
                assert(gs.take(groups.len() as int) =~= gs);
            }
        }
        rank += 1;
    }
    out
}

/// The positions `i` of `seeds` (in order) whose seed is `k`.
pub open spec fn positions_of(seeds: Seq<usize>, k: usize) -> Seq<usize>
    decreases seeds.len(),
{
    if seeds.len() == 0 {
        Seq::empty()
    } else {
        positions_of(seeds.drop_last(), k) + if seeds.last() == k {
            seq![(seeds.len() - 1) as usize]
        } else {
            Seq::empty()
        }
    }
}

/// Group positions by their seed: group `k` lists, in order, the positions
/// whose seed is `k`.
pub fn group_by_seed(seeds: &[usize], n: usize) -> (groups: Vec<Vec<usize>>)
    ensures
        groups.len() == n,
        forall|k: int| 0 <= k < n ==> (#[trigger] groups@[k])@ == positions_of(seeds@, k as usize),
{
    let mut groups: Vec<Vec<usize>> = Vec::new();
    let mut k: usize = 0;
    while k < n
        invariant
            k <= n,
            groups.len() == k,
            forall|j: int| 0 <= j < k ==> (#[trigger] groups@[j])@ == positions_of(seeds@, j as usize),
        decreases n - k,
    {
        let mut g: Vec<usize> = Vec::new();
        let mut i: usize = 0;
        assert(seeds@.take(0) =~= Seq::<usize>::empty());
        while i < seeds.len()
            invariant
                i <= seeds.len(),
                g@ == positions_of(seeds@.take(i as int), k),
            decreases seeds.len() - i,
        {
            assert(seeds@.take(i + 1).drop_last() =~= seeds@.take(i as int));
            assert(seeds@.take(i + 1).last() == seeds@[i as int]);
            if seeds[i] == k {
                g.push(i);
            }
            i += 1;
        }
        assert(seeds@.take(seeds.len() as int) =~= seeds@);
        groups.push(g);
        k += 1;
    }
    groups
}

/// Number of elements in all the groups.
pub open spec fn total(groups: Seq<Seq<usize>>) -> nat
    decreases groups.len(),
{
    if groups.len() == 0 {
        0
    } else {
        total(groups.drop_last()) + groups.last().len()
    }
}

/// Number of elements of rank below `d`, over all groups.
pub open spec fn total_below(groups: Seq<Seq<usize>>, d: int) -> nat
    decreases groups.len(),
{
    if groups.len() == 0 {
        0
    } else {
        total_below(groups.drop_last(), d) + if groups.last().len() < d {
            groups.last().len()
        } else if d < 0 {
            0
        } else {
            d as nat
        }
    }
}

proof fn lemma_layer_len(groups: Seq<Seq<usize>>, d: int)
    requires
        d >= 0,
    ensures
        layer(groups, d).len() + total_below(groups, d) == total_below(groups, d + 1),
    decreases groups.len(),
{
    if groups.len() > 0 {
        lemma_layer_len(groups.drop_last(), d);
    }
}

proof fn lemma_interleaved_len(groups: Seq<Seq<usize>>, d: int)
    requires
        d >= 0,
    ensures
        interleaved(groups, d).len() == total_below(groups, d),
    decreases d,
{
    if d == 0 {
        lemma_total_below_zero(groups);
    } else {
        lemma_interleaved_len(groups, d - 1);
        lemma_layer_len(groups, d - 1);
    }
}

proof fn lemma_total_below_zero(groups: Seq<Seq<usize>>)
    ensures
        total_below(groups, 0) == 0,
    decreases groups.len(),
{
    if groups.len() > 0 {
        lemma_total_below_zero(groups.drop_last());
    }
}

proof fn lemma_total_below_deepest(groups: Seq<Seq<usize>>)
    ensures
        total_below(groups, deepest(groups) as int) == total(groups),
    decreases groups.len(),
{
    if groups.len() > 0 {
        let front = groups.drop_last();
        lemma_total_below_deepest(front);
        lemma_total_below_ge(front, deepest(front) as int, deepest(groups) as int);
    }
}

proof fn lemma_total_below_ge(groups: Seq<Seq<usize>>, a: int, b: int)
    requires
        total_below(groups, a) == total(groups),
        0 <= a <= b,
    ensures
        total_below(groups, b) == total(groups),
    decreases groups.len(),
{
    if groups.len() > 0 {
        let front = groups.drop_last();
        lemma_total_below_le(front, a, b);
        lemma_total_below_bound(front, a);
        lemma_total_below_bound(front, b);
        lemma_total_below_ge(front, a, b);
    }
}

proof fn lemma_total_below_bound(groups: Seq<Seq<usize>>, d: int)
    ensures
        total_below(groups, d) <= total(groups),
    decreases groups.len(),
{
    if groups.len() > 0 {
        lemma_total_below_bound(groups.drop_last(), d);
    }
}

proof fn lemma_total_below_le(groups: Seq<Seq<usize>>, a: int, b: int)
    requires
        0 <= a <= b,
    ensures
        total_below(groups, a) <= total_below(groups, b),
    decreases groups.len(),
{
    if groups.len() > 0 {
        lemma_total_below_le(groups.drop_last(), a, b);
    }
}

/// The interleave takes exactly as many elements as the cap allows: all of
/// them when the groups hold no more than `cap`, else exactly `cap`.
pub proof fn law_round_robin_len(groups: Seq<Seq<usize>>, cap: nat)
    ensures
        round_robin(groups, cap).len() == if cap < total(groups) {
            cap
        } else {
            total(groups)
        },
{
    lemma_interleaved_len(groups, deepest(groups) as int);
    lemma_total_below_deepest(groups);
}

/// `groups[g][r]` exists.
pub open spec fn is_entry(groups: Seq<Seq<usize>>, g: int, r: int) -> bool {
    0 <= g < groups.len() && 0 <= r < groups[g].len()
}

/// No value stands at two places of the groups.
pub open spec fn entries_distinct(groups: Seq<Seq<usize>>) -> bool {
    forall|g1: int, r1: int, g2: int, r2: int|
        is_entry(groups, g1, r1) && is_entry(groups, g2, r2) && (g1 != g2 || r1 != r2)
            ==> #[trigger] groups[g1][r1] != #[trigger] groups[g2][r2]
}

/// `x` stands somewhere in the groups at a rank below `d`.
pub open spec fn entry_below(groups: Seq<Seq<usize>>, x: usize, d: int) -> bool {
    exists|g: int, r: int| is_entry(groups, g, r) && r < d && #[trigger] groups[g][r] == x
}

/// `x` stands in some group at rank `r`.
pub open spec fn entry_at_rank(groups: Seq<Seq<usize>>, x: usize, r: int) -> bool {
    exists|g: int| is_entry(groups, g, r) && #[trigger] groups[g][r] == x
}

proof fn lemma_layer_entries(groups: Seq<Seq<usize>>, r: int)
    ensures
        forall|i: int|
            0 <= i < layer(groups, r).len() ==> entry_at_rank(groups, #[trigger] layer(groups, r)[i], r),
    decreases groups.len(),
{
    if groups.len() > 0 {
        let front = groups.drop_last();
        lemma_layer_entries(front, r);
        let l = layer(groups, r);
        assert forall|i: int| 0 <= i < l.len() implies entry_at_rank(groups, #[trigger] l[i], r) by {
            if i < layer(front, r).len() {
                assert(l[i] == layer(front, r)[i]);
                assert(entry_at_rank(front, layer(front, r)[i], r));
                let g = choose|g: int| is_entry(front, g, r) && #[trigger] front[g][r] == layer(front, r)[i];
                assert(front[g] == groups[g]);
                assert(is_entry(groups, g, r) && groups[g][r] == l[i]);
            } else {
                let g = groups.len() - 1;
                assert(l[i] == groups[g][r]);
                assert(is_entry(groups, g, r));
            }
        }
    }
}

proof fn lemma_layer_distinct(groups: Seq<Seq<usize>>, r: int)
    requires
        entries_distinct(groups),
    ensures
        layer(groups, r).no_duplicates(),
    decreases groups.len(),
{
    if groups.len() > 0 {
        let front = groups.drop_last();
        assert forall|g1: int, r1: int, g2: int, r2: int|
            is_entry(front, g1, r1) && is_entry(front, g2, r2) && (g1 != g2 || r1 != r2) implies
            #[trigger] front[g1][r1] != #[trigger] front[g2][r2] by {
            assert(front[g1] == groups[g1] && front[g2] == groups[g2]);
            assert(is_entry(groups, g1, r1) && is_entry(groups, g2, r2));
        }
        lemma_layer_distinct(front, r);
        lemma_layer_entries(front, r);
        let last = groups.len() - 1;
        if 0 <= r < groups.last().len() {
            let a = layer(front, r);
            let b = seq![groups[last][r]];
            assert forall|i: int, j: int| 0 <= i < a.len() && 0 <= j < b.len() implies a[i]
                != b[j] by {
                assert(entry_at_rank(front, a[i], r));
                let g = choose|g: int| is_entry(front, g, r) && #[trigger] front[g][r] == a[i];
                assert(front[g] == groups[g]);
                assert(is_entry(groups, g, r) && is_entry(groups, last, r));
            }
            vstd::seq_lib::lemma_no_dup_in_concat(a, b);
        } else {
            assert(layer(groups, r) =~= layer(front, r));
        }
    }
}

proof fn lemma_interleaved_entries(groups: Seq<Seq<usize>>, d: int)
    ensures
        forall|i: int|
            0 <= i < interleaved(groups, d).len() ==> entry_below(
                groups,
                #[trigger] interleaved(groups, d)[i],
                d,
            ),
    decreases d,
{
    if d > 0 {
        lemma_interleaved_entries(groups, d - 1);
        lemma_layer_entries(groups, d - 1);
        let a = interleaved(groups, d - 1);
        let l = interleaved(groups, d);
        assert forall|i: int| 0 <= i < l.len() implies entry_below(groups, #[trigger] l[i], d) by {
            if i < a.len() {
                assert(l[i] == a[i]);
                assert(entry_below(groups, a[i], d - 1));
                let (g, r) = choose|g: int, r: int|
                    is_entry(groups, g, r) && r < d - 1 && #[trigger] groups[g][r] == a[i];
                assert(is_entry(groups, g, r) && r < d && groups[g][r] == l[i]);
            } else {
                let k = i - a.len();
                assert(l[i] == layer(groups, d - 1)[k]);
                assert(entry_at_rank(groups, layer(groups, d - 1)[k], d - 1));
                let g = choose|g: int|
                    is_entry(groups, g, d - 1) && #[trigger] groups[g][d - 1] == layer(groups, d - 1)[k];
                assert(is_entry(groups, g, d - 1) && d - 1 < d && groups[g][d - 1] == l[i]);
            }
        }
    }
}

proof fn lemma_interleaved_distinct(groups: Seq<Seq<usize>>, d: int)
    requires
        entries_distinct(groups),
    ensures
        interleaved(groups, d).no_duplicates(),
    decreases d,
{
    if d > 0 {
        lemma_interleaved_distinct(groups, d - 1);
        lemma_layer_distinct(groups, d - 1);
        lemma_interleaved_entries(groups, d - 1);
        lemma_layer_entries(groups, d - 1);
        let a = interleaved(groups, d - 1);
        let b = layer(groups, d - 1);
        assert forall|i: int, j: int| 0 <= i < a.len() && 0 <= j < b.len() implies a[i]
            != b[j] by {
            assert(entry_below(groups, a[i], d - 1));
            let (g1, r1) = choose|g: int, r: int|
                is_entry(groups, g, r) && r < d - 1 && #[trigger] groups[g][r] == a[i];
            assert(entry_at_rank(groups, b[j], d - 1));
            let g2 = choose|g: int| is_entry(groups, g, d - 1) && #[trigger] groups[g][d - 1] == b[j];
            assert(groups[g1][r1] != groups[g2][d - 1]);
        }
        vstd::seq_lib::lemma_no_dup_in_concat(a, b);
    } else {
        assert(interleaved(groups, d).len() == 0);
    }
}

/// The interleave never takes an entry twice when the groups hold no value
/// twice, and everything it takes is an entry of some group.
pub proof fn law_round_robin_distinct(groups: Seq<Seq<usize>>, cap: nat)
    ensures
        entries_distinct(groups) ==> round_robin(groups, cap).no_duplicates(),
        forall|i: int|
            0 <= i < round_robin(groups, cap).len() ==> entry_below(
                groups,
                #[trigger] round_robin(groups, cap)[i],
                deepest(groups) as int,
            ),
{
    let all = interleaved(groups, deepest(groups) as int);
    let rr = round_robin(groups, cap);
    lemma_interleaved_entries(groups, deepest(groups) as int);
    assert forall|i: int| 0 <= i < rr.len() implies entry_below(
        groups,
        #[trigger] rr[i],
        deepest(groups) as int,
    ) by {
        assert(rr[i] == all[i]);
    }
    if entries_distinct(groups) {
        lemma_interleaved_distinct(groups, deepest(groups) as int);
        assert forall|i: int, j: int| 0 <= i < rr.len() && 0 <= j < rr.len() && i != j implies rr[i]
            != rr[j] by {
            assert(rr[i] == all[i] && rr[j] == all[j]);
        }
    }
}


proof fn lemma_positions_of(seeds: Seq<usize>, k: usize)
    requires
        seeds.len() <= usize::MAX,
    ensures
        forall|i: int|
            0 <= i < positions_of(seeds, k).len() ==> #[trigger] positions_of(seeds, k)[i]
                < seeds.len() && seeds[positions_of(seeds, k)[i] as int] == k,
        forall|i: int, j: int|
            0 <= i < j < positions_of(seeds, k).len() ==> #[trigger] positions_of(seeds, k)[i]
                < #[trigger] positions_of(seeds, k)[j],
    decreases seeds.len(),
{
    if seeds.len() > 0 {
        let front = seeds.drop_last();
        lemma_positions_of(front, k);
        let p = positions_of(seeds, k);
        let q = positions_of(front, k);
        assert forall|i: int| 0 <= i < p.len() implies #[trigger] p[i] < seeds.len() && seeds[p[i]
            as int] == k by {
            if i < q.len() {
                assert(p[i] == q[i]);
                assert(seeds[q[i] as int] == front[q[i] as int]);
            }
        }
        assert forall|i: int, j: int| 0 <= i < j < p.len() implies #[trigger] p[i] < #[trigger] p[j] by {
            if j < q.len() {
                assert(p[i] == q[i] && p[j] == q[j]);
            } else {
                assert(p[i] == q[i]);
            }
        }
    }
}

/// Groups made by [`group_by_seed`] hold every position at most once, and
/// only positions whose seed is their group.
proof fn lemma_seed_groups(seeds: Seq<usize>, groups: Seq<Seq<usize>>)
    requires
        seeds.len() <= usize::MAX,
        groups.len() <= usize::MAX,
        forall|k: int| 0 <= k < groups.len() ==> #[trigger] groups[k] == positions_of(seeds, k as usize),
    ensures
        entries_distinct(groups),
        forall|g: int, r: int|
            is_entry(groups, g, r) ==> #[trigger] groups[g][r] < seeds.len() && seeds[groups[g][r] as int]
                == g,
{
    assert forall|g: int, r: int| is_entry(groups, g, r) implies #[trigger] groups[g][r] < seeds.len()
        && seeds[groups[g][r] as int] == g by {
        lemma_positions_of(seeds, g as usize);
        assert(groups[g] == positions_of(seeds, g as usize));
        assert(positions_of(seeds, g as usize)[r] == groups[g][r]);
    }
    assert forall|g1: int, r1: int, g2: int, r2: int|
        is_entry(groups, g1, r1) && is_entry(groups, g2, r2) && (g1 != g2 || r1 != r2) implies
        #[trigger] groups[g1][r1] != #[trigger] groups[g2][r2] by {
        if g1 == g2 {
            lemma_positions_of(seeds, g1 as usize);
            assert(groups[g1] == positions_of(seeds, g1 as usize));
            if r1 < r2 {
                assert(positions_of(seeds, g1 as usize)[r1] < positions_of(seeds, g1 as usize)[r2]);
            } else {
                assert(positions_of(seeds, g1 as usize)[r2] < positions_of(seeds, g1 as usize)[r1]);
            }
        } else {
            assert(seeds[groups[g1][r1] as int] == g1);
            assert(seeds[groups[g2][r2] as int] == g2);
        }
    }
}

/// Interleaving the seed groups of a tile's quad pool takes no quad twice,
/// and every quad it takes is one of the pool's, filed under its own seed.
pub proof fn law_seed_interleave_distinct(seeds: Seq<usize>, groups: Seq<Seq<usize>>, cap: nat)
    requires
        seeds.len() <= usize::MAX,
        groups.len() <= usize::MAX,
        forall|k: int| 0 <= k < groups.len() ==> #[trigger] groups[k] == positions_of(seeds, k as usize),
    ensures
        round_robin(groups, cap).no_duplicates(),
        forall|i: int|
            0 <= i < round_robin(groups, cap).len() ==> #[trigger] round_robin(groups, cap)[i]
                < seeds.len() && seeds[round_robin(groups, cap)[i] as int] < groups.len(),
{
    lemma_seed_groups(seeds, groups);
    law_round_robin_distinct(groups, cap);
    let rr = round_robin(groups, cap);
    assert forall|i: int| 0 <= i < rr.len() implies #[trigger] rr[i] < seeds.len() && seeds[rr[i]
        as int] < groups.len() by {
        assert(entry_below(groups, rr[i], deepest(groups) as int));
        let (g, r) = choose|g: int, r: int|
            is_entry(groups, g, r) && r < deepest(groups) && #[trigger] groups[g][r] == rr[i];
        assert(groups[g][r] < seeds.len() && seeds[groups[g][r] as int] == g);
    }
}


proof fn lemma_first_layer_leads(groups: Seq<Seq<usize>>, cap: nat)
    ensures
        forall|i: int|
            0 <= i < round_robin(groups, cap).len() && i < layer(groups, 0).len() ==> #[trigger] round_robin(
                groups,
                cap,
            )[i] == layer(groups, 0)[i],
{
    let d = deepest(groups) as int;
    let all = interleaved(groups, d);
    let l0 = layer(groups, 0);
    assert(interleaved(groups, 0).len() == 0);
    assert(interleaved(groups, 1) =~= l0);
    if d >= 1 {
        lemma_interleaved_prefix(groups, 1, d);
    }
}

/// The first round of the interleave takes one quad from each seed that has
/// any, so among the first quads taken, as many as there are such seeds, no
/// two share a seed star.
pub proof fn law_first_round_spread(seeds: Seq<usize>, groups: Seq<Seq<usize>>, cap: nat)
    requires
        seeds.len() <= usize::MAX,
        groups.len() <= usize::MAX,
        forall|k: int| 0 <= k < groups.len() ==> #[trigger] groups[k] == positions_of(seeds, k as usize),
    ensures
        forall|g: int| 0 <= g < groups.len() && groups[g].len() > 0 ==> layer(groups, 0).contains(
            #[trigger] groups[g][0],
        ),
        forall|i: int, j: int|
            0 <= i < j < round_robin(groups, cap).len() && j < layer(groups, 0).len() ==> seeds[#[trigger] round_robin(
                groups,
                cap,
            )[i] as int] != seeds[#[trigger] round_robin(groups, cap)[j] as int],
{
    lemma_seed_groups(seeds, groups);
    lemma_layer_distinct(groups, 0);
    lemma_layer_entries(groups, 0);
    lemma_first_layer_leads(groups, cap);
    lemma_layer_has_every_head(groups);
    let rr = round_robin(groups, cap);
    let l0 = layer(groups, 0);
    assert forall|i: int, j: int|
        0 <= i < j < rr.len() && j < l0.len() implies seeds[#[trigger] rr[i] as int] != seeds[#[trigger] rr[j] as int] by {
        assert(rr[i] == l0[i] && rr[j] == l0[j]);
        assert(entry_at_rank(groups, l0[i], 0));
        assert(entry_at_rank(groups, l0[j], 0));
        let gi = choose|g: int| is_entry(groups, g, 0) && #[trigger] groups[g][0] == l0[i];
        let gj = choose|g: int| is_entry(groups, g, 0) && #[trigger] groups[g][0] == l0[j];
        assert(seeds[l0[i] as int] == gi);
        assert(seeds[l0[j] as int] == gj);
        if gi == gj {
            assert(l0[i] == l0[j]);
        }
    }
}

proof fn lemma_layer_has_every_head(groups: Seq<Seq<usize>>)
    ensures
        forall|g: int| 0 <= g < groups.len() && groups[g].len() > 0 ==> layer(groups, 0).contains(
            #[trigger] groups[g][0],
        ),
    decreases groups.len(),
{
    if groups.len() > 0 {
        let front = groups.drop_last();
        lemma_layer_has_every_head(front);
        let l = layer(groups, 0);
        assert forall|g: int| 0 <= g < groups.len() && groups[g].len() > 0 implies l.contains(
            #[trigger] groups[g][0],
        ) by {
            if g < front.len() {
                assert(front[g] == groups[g]);
                assert(layer(front, 0).contains(front[g][0]));
                let k = choose|k: int| 0 <= k < layer(front, 0).len() && layer(front, 0)[k] == front[g][0];
                assert(l[k] == layer(front, 0)[k]);
            } else {
                assert(l[l.len() - 1] == groups[g][0]);
            }
        }
    }
}


/// How many of `seeds` equal `k`.
pub open spec fn count_eq(seeds: Seq<usize>, k: usize) -> nat
    decreases seeds.len(),
{
    if seeds.len() == 0 {
        0
    } else {
        count_eq(seeds.drop_last(), k) + if seeds.last() == k {
            1nat
        } else {
            0nat
        }
    }
}

/// How many of `seeds` are below `n`.
pub open spec fn count_below(seeds: Seq<usize>, n: nat) -> nat
    decreases seeds.len(),
{
    if seeds.len() == 0 {
        0
    } else {
        count_below(seeds.drop_last(), n) + if seeds.last() < n {
            1nat
        } else {
            0nat
        }
    }
}

proof fn lemma_positions_count(seeds: Seq<usize>, k: usize)
    ensures
        positions_of(seeds, k).len() == count_eq(seeds, k),
    decreases seeds.len(),
{
    if seeds.len() > 0 {
        lemma_positions_count(seeds.drop_last(), k);
    }
}

proof fn lemma_count_below_step(seeds: Seq<usize>, n: nat)
    requires
        n <= usize::MAX,
    ensures
        count_below(seeds, n + 1) == count_below(seeds, n) + count_eq(seeds, n as usize),
    decreases seeds.len(),
{
    if seeds.len() > 0 {
        lemma_count_below_step(seeds.drop_last(), n);
    }
}

proof fn lemma_count_below_all(seeds: Seq<usize>, n: nat)
    requires
        forall|i: int| 0 <= i < seeds.len() ==> #[trigger] seeds[i] < n,
    ensures
        count_below(seeds, n) == seeds.len(),
    decreases seeds.len(),
{
    if seeds.len() > 0 {
        assert forall|i: int| 0 <= i < seeds.drop_last().len() implies #[trigger] seeds.drop_last()[i]
            < n by {
            assert(seeds.drop_last()[i] == seeds[i]);
        }
        lemma_count_below_all(seeds.drop_last(), n);
    }
}

proof fn lemma_groups_total(seeds: Seq<usize>, groups: Seq<Seq<usize>>, m: int)
    requires
        0 <= m <= groups.len(),
        groups.len() <= usize::MAX,
        forall|k: int| 0 <= k < groups.len() ==> #[trigger] groups[k] == positions_of(seeds, k as usize),
    ensures
        total(groups.take(m)) == count_below(seeds, m as nat),
    decreases m,
{
    if m == 0 {
        assert(groups.take(0).len() == 0);
        lemma_count_below_zero(seeds);
    } else {
        lemma_groups_total(seeds, groups, m - 1);
        assert(groups.take(m).drop_last() =~= groups.take(m - 1));
        assert(groups.take(m).last() == groups[m - 1]);
        lemma_positions_count(seeds, (m - 1) as usize);
        lemma_count_below_step(seeds, (m - 1) as nat);
    }
}

proof fn lemma_count_below_zero(seeds: Seq<usize>)
    ensures
        count_below(seeds, 0) == 0,
    decreases seeds.len(),
{
    if seeds.len() > 0 {
        lemma_count_below_zero(seeds.drop_last());
    }
}

/// When every seed names one of the groups, the groups hold every position
/// once, so the interleave takes exactly `cap` quads, or all of them when
/// there are fewer.
pub proof fn law_seed_interleave_len(seeds: Seq<usize>, groups: Seq<Seq<usize>>, cap: nat)
    requires
        groups.len() <= usize::MAX,
        forall|k: int| 0 <= k < groups.len() ==> #[trigger] groups[k] == positions_of(seeds, k as usize),
        forall|i: int| 0 <= i < seeds.len() ==> #[trigger] seeds[i] < groups.len(),
    ensures
        total(groups) == seeds.len(),
        round_robin(groups, cap).len() == if cap < seeds.len() {
            cap
        } else {
            seeds.len()
        },
{
    lemma_groups_total(seeds, groups, groups.len() as int);
    assert(groups.take(groups.len() as int) =~= groups);
    lemma_count_below_all(seeds, groups.len() as nat);
    law_round_robin_len(groups, cap);
}


} // verus!
