//! Laws of the replace-by-key merge. For any solution: cards it neither
//! replaces nor re-marks are kept in order, and once it carries psolve's
//! solve marker exactly one marker is left. For a solution shaped as a solve
//! writes one: a re-solve replaces the cards of the earlier solve in place,
//! the marker ends the cards, and merging the same solution again changes
//! nothing.
use vstd::prelude::*;
use crate::cards::{
    always_appended_key, is_first_key, is_psolve_marker, key_of_bytes, key_position, merge_all,
    merge_one,
};

verus! {

/// The first card carrying keyword `k`, if any.
pub open spec fn first_card(cards: Seq<Seq<u8>>, k: Seq<char>) -> Option<Seq<u8>> {
    match key_position(cards, k) {
        Some(p) => Some(cards[p]),
        None => None,
    }
}

/// A card that is replaced by keyword: not repeatable, not a `COMMENT`.
pub open spec fn keyed_card(c: Seq<u8>) -> bool {
    !always_appended_key(key_of_bytes(c)) && key_of_bytes(c) != "COMMENT"@
}

/// Not psolve's solve marker.
pub open spec fn not_marker(c: Seq<u8>) -> bool {
    !is_psolve_marker(c)
}

/// A solution shaped as every solve writes one: keyed cards (a keyword may
/// come more than once), then psolve's solve marker last; no repeatable
/// card and no other `COMMENT`.
pub open spec fn update_style(s: Seq<Seq<u8>>) -> bool {
    &&& s.len() >= 1
    &&& is_psolve_marker(s.last())
    &&& forall|i: int| 0 <= i < s.len() - 1 ==> keyed_card(#[trigger] s[i])
}

/// The last card among the first `i` of `s` carrying keyword `k`.
pub open spec fn last_with_key(s: Seq<Seq<u8>>, k: Seq<char>, i: int) -> Option<Seq<u8>>
    decreases i,
{
    if i <= 0 {
        None
    } else if key_of_bytes(s[i - 1]) == k {
        Some(s[i - 1])
    } else {
        last_with_key(s, k, i - 1)
    }
}

proof fn lemma_last_with_key(s: Seq<Seq<u8>>, k: Seq<char>, i: int)
    requires
        i <= s.len(),
    ensures
        last_with_key(s, k, i) matches Some(c) ==> exists|j: int|
            0 <= j < i && #[trigger] s[j] == c && key_of_bytes(c) == k,
        forall|j: int| 0 <= j < i && key_of_bytes(#[trigger] s[j]) == k ==> last_with_key(s, k, i) is Some,
    decreases i,
{
    if i > 0 {
        lemma_last_with_key(s, k, i - 1);
        if key_of_bytes(s[i - 1]) == k {
            assert(s[i - 1] == s[i - 1]);
        }
    }
}

/// Some position carries `k` exactly when there is a first such position.
pub proof fn lemma_first_exists(s: Seq<Seq<u8>>, k: Seq<char>, i: int)
    requires
        0 <= i < s.len(),
        key_of_bytes(s[i]) == k,
    ensures
        exists|p: int| is_first_key(s, k, p),
    decreases i,
{
    if exists|j: int| 0 <= j < i && key_of_bytes(s[j]) == k {
        let j = choose|j: int| 0 <= j < i && key_of_bytes(s[j]) == k;
        lemma_first_exists(s, k, j);
    } else {
        assert(is_first_key(s, k, i));
    }
}

/// What `key_position` says, spelled out.
pub proof fn lemma_key_position(s: Seq<Seq<u8>>, k: Seq<char>)
    ensures
        key_position(s, k) matches Some(p) ==> is_first_key(s, k, p),
        key_position(s, k) is None <==> forall|i: int| 0 <= i < s.len() ==> key_of_bytes(#[trigger] s[i]) != k,
{
    if !(forall|i: int| 0 <= i < s.len() ==> key_of_bytes(#[trigger] s[i]) != k) {
        let i = choose|i: int| !(0 <= i < s.len() ==> key_of_bytes(#[trigger] s[i]) != k);
        lemma_first_exists(s, k, i);
    }
}

/// The first card with `k` after appending `y`.
pub proof fn lemma_first_card_push(x: Seq<Seq<u8>>, y: Seq<u8>, k: Seq<char>)
    ensures
        first_card(x.push(y), k) == (match first_card(x, k) {
            Some(c) => Some(c),
            None => if key_of_bytes(y) == k {
                Some(y)
            } else {
                None
            },
        }),
{
    let z = x.push(y);
    lemma_key_position(x, k);
    lemma_key_position(z, k);
    match key_position(x, k) {
        Some(p) => {
            assert(is_first_key(z, k, p));
            let q = key_position(z, k)->0;
            crate::cards::lemma_first_key_unique(z, k, p, q);
        },
        None => {
            if key_of_bytes(y) == k {
                assert(is_first_key(z, k, x.len() as int));
                let q = key_position(z, k)->0;
                crate::cards::lemma_first_key_unique(z, k, x.len() as int, q);
            } else {
                assert forall|i: int| 0 <= i < z.len() implies key_of_bytes(#[trigger] z[i]) != k by {
                    if i < x.len() {
                        assert(z[i] == x[i]);
                    }
                }
            }
        },
    }
}

/// Dropping solve markers keeps the first card of any non-`COMMENT` keyword.
pub proof fn lemma_first_card_filter(a: Seq<Seq<u8>>, k: Seq<char>)
    requires
        k != "COMMENT"@,
    ensures
        first_card(a.filter(|c: Seq<u8>| !is_psolve_marker(c)), k) == first_card(a, k),
    decreases a.len(),
{
    reveal(Seq::filter);
    let pred = |c: Seq<u8>| !is_psolve_marker(c);
    if a.len() == 0 {
        assert(a.filter(pred) =~= a);
    } else {
        let x = a.drop_last();
        let y = a.last();
        assert(a =~= x.push(y));
        lemma_first_card_filter(x, k);
        lemma_first_card_push(x, y, k);
        if pred(y) {
            lemma_first_card_push(x.filter(pred), y, k);
        }
    }
}

/// Filtering by a predicate every card already meets changes nothing.
pub proof fn lemma_filter_all_kept(f: Seq<Seq<u8>>)
    requires
        forall|i: int| 0 <= i < f.len() ==> not_marker(#[trigger] f[i]),
    ensures
        f.filter(|c: Seq<u8>| !is_psolve_marker(c)) == f,
    decreases f.len(),
{
    reveal(Seq::filter);
    if f.len() > 0 {
        lemma_filter_all_kept(f.drop_last());
        assert(f.drop_last().push(f.last()) =~= f);
    } else {
        assert(f.filter(|c: Seq<u8>| !is_psolve_marker(c)) =~= f);
    }
}

/// Merging a keyed card makes it the first card with its keyword and leaves
/// the first card of every other keyword as it was.
pub proof fn lemma_merge_keyed(cards: Seq<Seq<u8>>, c: Seq<u8>, k: Seq<char>)
    requires
        keyed_card(c),
    ensures
        first_card(merge_one(cards, c), key_of_bytes(c)) == Some(c),
        k != key_of_bytes(c) ==> first_card(merge_one(cards, c), k) == first_card(cards, k),
{
    let kc = key_of_bytes(c);
    lemma_key_position(cards, kc);
    match key_position(cards, kc) {
        Some(j) => {
            let n = cards.update(j, c);
            assert(merge_one(cards, c) == n);
            assert forall|i: int| 0 <= i < n.len() implies key_of_bytes(#[trigger] n[i])
                == key_of_bytes(cards[i]) by {
                if i == j {
                } else {
                    assert(n[i] == cards[i]);
                }
            }
            lemma_key_position(n, kc);
            assert(is_first_key(n, kc, j));
            let q = key_position(n, kc)->0;
            crate::cards::lemma_first_key_unique(n, kc, j, q);
            if k != kc {
                lemma_key_position(cards, k);
                lemma_key_position(n, k);
                match key_position(cards, k) {
                    Some(p) => {
                        assert(is_first_key(n, k, p));
                        let q2 = key_position(n, k)->0;
                        crate::cards::lemma_first_key_unique(n, k, p, q2);
                        assert(n[p] == cards[p]);
                    },
                    None => {
                        assert forall|i: int| 0 <= i < n.len() implies key_of_bytes(#[trigger] n[i]) != k by {
                            assert(key_of_bytes(n[i]) == key_of_bytes(cards[i]));
                        }
                    },
                }
            }
        },
        None => {
            assert(merge_one(cards, c) == cards.push(c));
            lemma_first_card_push(cards, c, kc);
            lemma_first_card_push(cards, c, k);
        },
    }
}

/// After merging keyed cards one by one, the first card carrying each of
/// their keywords is the last of them that carries it.
pub proof fn lemma_keyed_prefix_first(o: Seq<Seq<u8>>, s: Seq<Seq<u8>>, i: int)
    requires
        0 <= i <= s.len(),
        forall|j: int| 0 <= j < i ==> keyed_card(#[trigger] s[j]),
    ensures
        forall|j: int|
            0 <= j < i ==> first_card(merge_all(o, s.take(i)), key_of_bytes(#[trigger] s[j]))
                == last_with_key(s, key_of_bytes(s[j]), i),
    decreases i,
{
    if i > 0 {
        lemma_keyed_prefix_first(o, s, i - 1);
        let prev = merge_all(o, s.take(i - 1));
        assert(s.take(i).drop_last() =~= s.take(i - 1));
        assert(s.take(i).last() == s[i - 1]);
        assert(merge_all(o, s.take(i)) == merge_one(prev, s[i - 1]));
        assert forall|j: int| 0 <= j < i implies first_card(
            merge_all(o, s.take(i)),
            key_of_bytes(#[trigger] s[j]),
        ) == last_with_key(s, key_of_bytes(s[j]), i) by {
            lemma_merge_keyed(prev, s[i - 1], key_of_bytes(s[j]));
        }
    }
}

/// `r` after the keyed cards `s.take(i)` are merged into it again: each
/// position that is the first with its keyword holds the last of those cards
/// with that keyword, if any; every other position is as in `r`.
pub open spec fn rekeyed(r: Seq<Seq<u8>>, s: Seq<Seq<u8>>, i: int) -> Seq<Seq<u8>> {
    Seq::new(
        r.len(),
        |q: int|
            match last_with_key(s, key_of_bytes(r[q]), i) {
                Some(c) => if is_first_key(r, key_of_bytes(r[q]), q) {
                    c
                } else {
                    r[q]
                },
                None => r[q],
            },
    )
}

/// Merging keyed cards whose keywords all occur already only rewrites the
/// first card of each of those keywords.
proof fn lemma_remerge(r: Seq<Seq<u8>>, s: Seq<Seq<u8>>, i: int)
    requires
        0 <= i <= s.len(),
        forall|j: int|
            0 <= j < i ==> keyed_card(#[trigger] s[j]) && first_card(r, key_of_bytes(s[j])) is Some,
    ensures
        merge_all(r, s.take(i)) == rekeyed(r, s, i),
    decreases i,
{
    if i == 0 {
        assert(s.take(0) =~= Seq::<Seq<u8>>::empty());
        assert(rekeyed(r, s, 0) =~= r);
    } else {
        lemma_remerge(r, s, i - 1);
        let t = rekeyed(r, s, i - 1);
        let c = s[i - 1];
        let k = key_of_bytes(c);
        assert(s.take(i).drop_last() =~= s.take(i - 1));
        assert(s.take(i).last() == c);
        assert(merge_all(r, s.take(i)) == merge_one(t, c));
        assert(keyed_card(c));
        lemma_key_position(r, k);
        let p = key_position(r, k)->0;
        assert forall|q: int| 0 <= q < t.len() implies key_of_bytes(#[trigger] t[q]) == key_of_bytes(
            r[q],
        ) by {
            lemma_last_with_key(s, key_of_bytes(r[q]), i - 1);
        }
        assert(is_first_key(t, k, p));
        lemma_key_position(t, k);
        let p2 = key_position(t, k)->0;
        crate::cards::lemma_first_key_unique(t, k, p, p2);
        assert(merge_one(t, c) == t.update(p, c));
        let n = rekeyed(r, s, i);
        assert forall|q: int| 0 <= q < r.len() implies #[trigger] t.update(p, c)[q] == n[q] by {
            if q != p && key_of_bytes(r[q]) == k && is_first_key(r, k, q) {
                crate::cards::lemma_first_key_unique(r, k, p, q);
            }
        }
        assert(t.update(p, c) =~= n);
    }
}

/// Merging the same solve twice gives the same cards as merging it once: a
/// re-solve with an unchanged solution leaves the header as it is, with its
/// keyed cards replaced in place and one solve marker at the end. This holds
/// for every update-style solution, also one that repeats a keyword.
pub proof fn law_merge_idempotent(o: Seq<Seq<u8>>, s: Seq<Seq<u8>>)
    requires
        update_style(s),
    ensures
        merge_all(merge_all(o, s), s) == merge_all(o, s),
{
    let n = s.len() - 1;
    let keyed = s.take(n);
    assert(s.drop_last() =~= keyed);
    let m = s.last();
    let a = merge_all(o, keyed);
    let f = a.filter(|c: Seq<u8>| !is_psolve_marker(c));
    let r = merge_all(o, s);
    lemma_comment_not_appended();
    assert(r == f.push(m));
    lemma_keyed_prefix_first(o, s, n);
    assert forall|j: int| 0 <= j < n implies first_card(r, key_of_bytes(#[trigger] s[j]))
        == last_with_key(s, key_of_bytes(s[j]), n) by {
        assert(keyed_card(s[j]));
        lemma_first_card_filter(a, key_of_bytes(s[j]));
        lemma_first_card_push(f, m, key_of_bytes(s[j]));
    }
    assert forall|j: int| 0 <= j < n implies keyed_card(#[trigger] s[j]) && first_card(
        r,
        key_of_bytes(s[j]),
    ) is Some by {
        lemma_last_with_key(s, key_of_bytes(s[j]), n);
    }
    lemma_remerge(r, s, n);
    assert forall|q: int| 0 <= q < r.len() implies #[trigger] rekeyed(r, s, n)[q] == r[q] by {
        let k = key_of_bytes(r[q]);
        lemma_last_with_key(s, k, n);
        if last_with_key(s, k, n) is Some && is_first_key(r, k, q) {
            let j = choose|j: int|
                0 <= j < n && #[trigger] s[j] == last_with_key(s, k, n)->0 && key_of_bytes(
                    last_with_key(s, k, n)->0,
                ) == k;
            assert(first_card(r, key_of_bytes(s[j])) == last_with_key(s, k, n));
            lemma_key_position(r, k);
            let p = key_position(r, k)->0;
            crate::cards::lemma_first_key_unique(r, k, p, q);
        }
    }
    assert(rekeyed(r, s, n) =~= r);
    assert(merge_all(r, s) == merge_one(merge_all(r, keyed), m));
    broadcast use vstd::seq_lib::group_filter_ensures;

    assert forall|i: int| 0 <= i < f.len() implies not_marker(#[trigger] f[i]) by {
        assert((|c: Seq<u8>| !is_psolve_marker(c))(f[i]));
    }
    lemma_filter_all_kept(f);
    reveal(Seq::filter);
    assert(r.drop_last() =~= f);
    assert(r.last() == m);
    assert(r.filter(|c: Seq<u8>| !is_psolve_marker(c)) == f.filter(|c: Seq<u8>| !is_psolve_marker(c)));
}

/// `COMMENT` is not one of the always-appended keywords.
proof fn lemma_comment_not_appended()
    ensures
        !always_appended_key("COMMENT"@),
{
    reveal_strlit("COMMENT");
    reveal_strlit("HISTORY");
    reveal_strlit("END");
    assert("COMMENT"@[0] != "HISTORY"@[0]);
    assert("COMMENT"@.len() != "END"@.len());
}

/// The merged cards of an update-style solution: the merged keyed cards
/// without any earlier solve marker, then the solution's marker.
proof fn lemma_merge_shape(o: Seq<Seq<u8>>, s: Seq<Seq<u8>>)
    requires
        update_style(s),
    ensures
        merge_all(o, s) == merge_all(o, s.take(s.len() - 1)).filter(
            |c: Seq<u8>| !is_psolve_marker(c),
        ).push(s.last()),
{
    let n = s.len() - 1;
    assert(s.drop_last() =~= s.take(n));
    assert(key_of_bytes(s.last()) == "COMMENT"@);
    lemma_comment_not_appended();
}

/// After a solve, psolve's solve marker appears exactly once, as the last
/// card, however many copies the header carried before.
pub proof fn law_single_marker(o: Seq<Seq<u8>>, s: Seq<Seq<u8>>)
    requires
        update_style(s),
    ensures
        merge_all(o, s).len() >= 1,
        merge_all(o, s).last() == s.last(),
        is_psolve_marker(merge_all(o, s).last()),
        forall|i: int| 0 <= i < merge_all(o, s).len() - 1 ==> !is_psolve_marker(#[trigger] merge_all(o, s)[i]),
{
    lemma_merge_shape(o, s);
    let f = merge_all(o, s.take(s.len() - 1)).filter(|c: Seq<u8>| !is_psolve_marker(c));
    broadcast use vstd::seq_lib::group_filter_ensures;

    assert forall|i: int| 0 <= i < merge_all(o, s).len() - 1 implies !is_psolve_marker(#[trigger] merge_all(o, s)[i]) by {
        assert(merge_all(o, s)[i] == f[i]);
        assert((|c: Seq<u8>| !is_psolve_marker(c))(f[i]));
    }
}

/// Appending a card the filter drops leaves the filtered cards unchanged.
proof fn lemma_filter_push_dropped(s: Seq<Seq<u8>>, x: Seq<u8>, p: spec_fn(Seq<u8>) -> bool)
    requires
        !p(x),
    ensures
        s.push(x).filter(p) == s.filter(p),
{
    reveal(Seq::filter);
    assert(s.push(x).drop_last() =~= s);
}

/// Replacing a dropped card by another dropped card leaves the filtered
/// cards unchanged.
proof fn lemma_filter_update_dropped(s: Seq<Seq<u8>>, j: int, c: Seq<u8>, p: spec_fn(Seq<u8>) -> bool)
    requires
        0 <= j < s.len(),
        !p(s[j]),
        !p(c),
    ensures
        s.update(j, c).filter(p) == s.filter(p),
    decreases s.len(),
{
    reveal(Seq::filter);
    let u = s.update(j, c);
    if j == s.len() - 1 {
        assert(u.drop_last() =~= s.drop_last());
    } else {
        assert(u.drop_last() =~= s.drop_last().update(j, c));
        assert(u.last() == s.last());
        lemma_filter_update_dropped(s.drop_last(), j, c, p);
    }
}

/// Filtering by a stricter predicate after a looser one is filtering by the
/// stricter one alone.
proof fn lemma_filter_filter(s: Seq<Seq<u8>>, q: spec_fn(Seq<u8>) -> bool, p: spec_fn(Seq<u8>) -> bool)
    requires
        forall|x: Seq<u8>| #[trigger] p(x) ==> q(x),
    ensures
        s.filter(q).filter(p) == s.filter(p),
    decreases s.len(),
{
    reveal(Seq::filter);
    if s.len() > 0 {
        lemma_filter_filter(s.drop_last(), q, p);
        if q(s.last()) {
            assert(s.drop_last().filter(q).push(s.last()).drop_last() =~= s.drop_last().filter(q));
        }
    }
}

/// `k` is the keyword of one of the solution's keyed cards.
pub open spec fn replaced_key(s: Seq<Seq<u8>>, k: Seq<char>) -> bool {
    exists|i: int| 0 <= i < s.len() && keyed_card(#[trigger] s[i]) && key_of_bytes(s[i]) == k
}

/// A card the solution neither replaces by keyword nor re-marks.
pub open spec fn kept_card(s: Seq<Seq<u8>>, c: Seq<u8>) -> bool {
    !replaced_key(s, key_of_bytes(c)) && !is_psolve_marker(c)
}

proof fn lemma_filter_single(c: Seq<u8>, p: spec_fn(Seq<u8>) -> bool)
    ensures
        seq![c].filter(p) == (if p(c) {
            seq![c]
        } else {
            Seq::<Seq<u8>>::empty()
        }),
{
    reveal(Seq::filter);
    assert(seq![c].drop_last() =~= Seq::<Seq<u8>>::empty());
    assert(Seq::<Seq<u8>>::empty().filter(p) =~= Seq::<Seq<u8>>::empty());
    assert(Seq::<Seq<u8>>::empty().push(c) =~= seq![c]);
}

/// Merging one card either appends it or leaves the cards a predicate
/// keeps as they were, the card itself failing the predicate.
proof fn lemma_merge_one_filter(x: Seq<Seq<u8>>, c: Seq<u8>, p: spec_fn(Seq<u8>) -> bool)
    requires
        forall|y: Seq<u8>| #[trigger] p(y) ==> !is_psolve_marker(y),
        keyed_card(c) ==> !p(c) && forall|y: Seq<u8>|
            key_of_bytes(y) == key_of_bytes(c) ==> !#[trigger] p(y),
    ensures
        merge_one(x, c).filter(p) == x.filter(p) + seq![c].filter(p),
{
    lemma_filter_single(c, p);
    reveal(Seq::filter);
    let k = key_of_bytes(c);
    if always_appended_key(k) || (k == "COMMENT"@ && !is_psolve_marker(c)) {
        assert(merge_one(x, c) == x.push(c));
        assert(x.push(c).drop_last() =~= x);
        if p(c) {
            assert(x.filter(p) + seq![c] =~= x.filter(p).push(c));
        } else {
            assert(x.filter(p) + Seq::<Seq<u8>>::empty() =~= x.filter(p));
        }
    } else if k == "COMMENT"@ {
        assert(merge_one(x, c) == x.filter(|d: Seq<u8>| !is_psolve_marker(d)).push(c));
        lemma_filter_push_dropped(x.filter(|d: Seq<u8>| !is_psolve_marker(d)), c, p);
        lemma_filter_filter(x, |d: Seq<u8>| !is_psolve_marker(d), p);
        assert(x.filter(p) + Seq::<Seq<u8>>::empty() =~= x.filter(p));
    } else {
        assert(keyed_card(c));
        assert(x.filter(p) + Seq::<Seq<u8>>::empty() =~= x.filter(p));
        lemma_key_position(x, k);
        match key_position(x, k) {
            Some(j) => {
                lemma_filter_update_dropped(x, j, c, p);
            },
            None => {
                lemma_filter_push_dropped(x, c, p);
            },
        }
    }
}

proof fn lemma_kept_prefix(o: Seq<Seq<u8>>, s: Seq<Seq<u8>>, i: int)
    requires
        0 <= i <= s.len(),
    ensures
        merge_all(o, s.take(i)).filter(|c: Seq<u8>| kept_card(s, c)) == o.filter(
            |c: Seq<u8>| kept_card(s, c),
        ) + s.take(i).filter(|c: Seq<u8>| kept_card(s, c)),
    decreases i,
{
    let p = |c: Seq<u8>| kept_card(s, c);
    if i == 0 {
        assert(s.take(0) =~= Seq::<Seq<u8>>::empty());
        reveal(Seq::filter);
        assert(o.filter(p) + Seq::<Seq<u8>>::empty().filter(p) =~= o.filter(p));
    } else {
        lemma_kept_prefix(o, s, i - 1);
        let prev = merge_all(o, s.take(i - 1));
        let c = s[i - 1];
        assert(s.take(i).drop_last() =~= s.take(i - 1));
        assert(s.take(i).last() == c);
        assert(merge_all(o, s.take(i)) == merge_one(prev, c));
        if keyed_card(c) {
            assert(replaced_key(s, key_of_bytes(c)));
        }
        lemma_merge_one_filter(prev, c, p);
        assert(s.take(i) =~= s.take(i - 1) + seq![c]);
        vstd::seq::Seq::filter_distributes_over_add(s.take(i - 1), seq![c], p);
        assert(o.filter(p) + s.take(i - 1).filter(p) + seq![c].filter(p) =~= o.filter(p) + (s.take(
            i - 1,
        ).filter(p) + seq![c].filter(p)));
    }
}

/// Every card of the original header that the solution neither replaces by
/// keyword nor re-marks is kept, unchanged and in its order, followed by
/// the solution's own such cards (its `HISTORY`, blank-keyword and other
/// `COMMENT` cards), whatever the solution holds.
pub proof fn law_kept_cards(o: Seq<Seq<u8>>, s: Seq<Seq<u8>>)
    ensures
        merge_all(o, s).filter(|c: Seq<u8>| kept_card(s, c)) == o.filter(|c: Seq<u8>| kept_card(s, c))
            + s.filter(|c: Seq<u8>| kept_card(s, c)),
{
    lemma_kept_prefix(o, s, s.len() as int);
    assert(s.take(s.len() as int) =~= s);
}

/// A `COMMENT` card other than psolve's solve marker.
pub open spec fn other_comment(c: Seq<u8>) -> bool {
    key_of_bytes(c) == "COMMENT"@ && !is_psolve_marker(c)
}

/// Every `COMMENT` card of the original header other than psolve's marker
/// (a capture program's, say) survives any merge, in its order, followed by
/// the solution's own such cards.
pub proof fn law_other_comments_kept(o: Seq<Seq<u8>>, s: Seq<Seq<u8>>)
    ensures
        merge_all(o, s).filter(|c: Seq<u8>| other_comment(c)) == o.filter(|c: Seq<u8>| other_comment(c))
            + s.filter(|c: Seq<u8>| other_comment(c)),
{
    let p = |c: Seq<u8>| kept_card(s, c);
    let q = |c: Seq<u8>| other_comment(c);
    law_kept_cards(o, s);
    assert forall|x: Seq<u8>| #[trigger] q(x) implies p(x) by {
        if replaced_key(s, key_of_bytes(x)) {
            let i = choose|i: int| 0 <= i < s.len() && keyed_card(#[trigger] s[i]) && key_of_bytes(s[i])
                == key_of_bytes(x);
        }
    }
    lemma_filter_filter(merge_all(o, s), p, q);
    lemma_filter_filter(o, p, q);
    lemma_filter_filter(s, p, q);
    vstd::seq::Seq::filter_distributes_over_add(o.filter(p), s.filter(p), q);
}

/// Whatever else the solution holds, once it carries psolve's solve marker
/// the merged cards hold exactly one marker, the last one the solution
/// carries, however many the original header had.
pub proof fn law_one_marker(o: Seq<Seq<u8>>, s: Seq<Seq<u8>>, i: int)
    requires
        0 <= i < s.len(),
        is_psolve_marker(s[i]),
        forall|j: int| i < j < s.len() ==> !is_psolve_marker(#[trigger] s[j]),
    ensures
        merge_all(o, s).filter(|c: Seq<u8>| is_psolve_marker(c)) == seq![s[i]],
    decreases s.len(),
{
    let m = |c: Seq<u8>| is_psolve_marker(c);
    let x = merge_all(o, s.drop_last());
    let c = s.last();
    assert(merge_all(o, s) == merge_one(x, c));
    reveal(Seq::filter);
    if i == s.len() - 1 {
        lemma_comment_not_appended();
        let f = x.filter(|d: Seq<u8>| !is_psolve_marker(d));
        assert(merge_one(x, c) == f.push(c));
        lemma_filter_none(x, m);
        assert(f.push(c).drop_last() =~= f);
        assert(f.filter(m).len() == 0);
        assert(f.push(c).filter(m) =~= seq![c]);
    } else {
        assert forall|j: int| i < j < s.drop_last().len() implies !is_psolve_marker(
            #[trigger] s.drop_last()[j],
        ) by {
            assert(s.drop_last()[j] == s[j]);
        }
        law_one_marker(o, s.drop_last(), i);
        assert(s.drop_last()[i] == s[i]);
        assert(!m(c));
        assert(forall|y: Seq<u8>| #[trigger] m(y) ==> is_psolve_marker(y));
        lemma_marker_untouched(x, c);
    }
}

/// Removing the markers leaves none.
proof fn lemma_filter_none(x: Seq<Seq<u8>>, m: spec_fn(Seq<u8>) -> bool)
    requires
        forall|y: Seq<u8>| #[trigger] m(y) == is_psolve_marker(y),
    ensures
        x.filter(|d: Seq<u8>| !is_psolve_marker(d)).filter(m).len() == 0,
    decreases x.len(),
{
    reveal(Seq::filter);
    if x.len() > 0 {
        lemma_filter_none(x.drop_last(), m);
        let f = x.drop_last().filter(|d: Seq<u8>| !is_psolve_marker(d));
        if !is_psolve_marker(x.last()) {
            assert(f.push(x.last()).drop_last() =~= f);
        }
    }
}

/// Merging a card that is not a marker leaves the markers as they were.
proof fn lemma_marker_untouched(x: Seq<Seq<u8>>, c: Seq<u8>)
    requires
        !is_psolve_marker(c),
    ensures
        merge_one(x, c).filter(|d: Seq<u8>| is_psolve_marker(d)) == x.filter(
            |d: Seq<u8>| is_psolve_marker(d),
        ),
{
    let m = |d: Seq<u8>| is_psolve_marker(d);
    reveal(Seq::filter);
    let k = key_of_bytes(c);
    if always_appended_key(k) || k == "COMMENT"@ {
        lemma_filter_push_dropped(x, c, m);
    } else {
        lemma_key_position(x, k);
        match key_position(x, k) {
            Some(j) => {
                lemma_filter_update_dropped(x, j, c, m);
            },
            None => {
                lemma_filter_push_dropped(x, c, m);
            },
        }
    }
}

} // verus!
