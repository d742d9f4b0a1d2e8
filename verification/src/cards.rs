//! FITS header cards and the single replace-by-key merge policy that both
//! the `.wcs` sidecar writers and the in-place `-update` rewrite use.
use vstd::prelude::*;
use crate::text::{str_eq, trim, trim_end, lossy_decode};
use crate::fits_update::{card_key, card_text};
use crate::sidecar::{card_key_str, card_text_str};

verus! {

/// The exact text of the `COMMENT` card that marks a psolve solve.
pub const PSOLVE_COMMENT_TEXT: &'static str = "COMMENT Astrometric solution by psolve";

/// A card's keyword as read from its bytes: the first (at most) 8 bytes,
/// decoded leniently, white space trimmed.
pub open spec fn key_of_bytes(bytes: Seq<u8>) -> Seq<char> {
    let n = if bytes.len() < 8 { bytes.len() } else { 8 };
    trim(lossy_decode(bytes.take(n as int)))
}

/// A card's text as read from its bytes: decoded leniently, trailing white
/// space trimmed.
pub open spec fn text_of_bytes(bytes: Seq<u8>) -> Seq<char> {
    trim_end(lossy_decode(bytes))
}

/// One header card, in either of the two representations the crate uses.
/// Both are identified by their bytes: the keyword and the text are read
/// from the same byte content whichever way the card is held.
pub trait HeaderCard: Sized {
    /// The card's bytes.
    spec fn content(&self) -> Seq<u8>;

    fn key(&self) -> (k: String)
        ensures
            k@ == key_of_bytes(self.content()),
    ;

    fn text(&self) -> (t: String)
        ensures
            t@ == text_of_bytes(self.content()),
    ;
}

/// The byte content of every card.
pub open spec fn contents<T: HeaderCard>(cards: Seq<T>) -> Seq<Seq<u8>> {
    cards.map_values(|c: T| c.content())
}

/// A byte card (the `-update` path).
impl HeaderCard for Vec<u8> {
    open spec fn content(&self) -> Seq<u8> {
        self@
    }

    fn key(&self) -> (k: String) {
        card_key(self.as_slice())
    }

    fn text(&self) -> (t: String) {
        card_text(self.as_slice())
    }
}

/// A text card (the `.wcs` sidecar path), identified by its UTF-8 bytes.
impl HeaderCard for String {
    open spec fn content(&self) -> Seq<u8> {
        vstd::utf8::encode_utf8(self@)
    }

    fn key(&self) -> (k: String) {
        card_key_str(self.as_str())
    }

    fn text(&self) -> (t: String) {
        card_text_str(self.as_str())
    }
}

/// Keywords whose cards are repeatable and are therefore always appended.
pub open spec fn always_appended_key(k: Seq<char>) -> bool {
    k.len() == 0 || k == "HISTORY"@ || k == "END"@
}

/// psolve's own solve-marker card.
pub open spec fn is_psolve_marker(c: Seq<u8>) -> bool {
    key_of_bytes(c) == "COMMENT"@ && text_of_bytes(c) == PSOLVE_COMMENT_TEXT@
}

/// `i` is the first position in `cards` whose keyword is `key`.
pub open spec fn is_first_key(cards: Seq<Seq<u8>>, key: Seq<char>, i: int) -> bool {
    &&& 0 <= i < cards.len()
    &&& key_of_bytes(cards[i]) == key
    &&& forall|j: int| 0 <= j < i ==> key_of_bytes(cards[j]) != key
}

/// Position of the first card carrying `key`, if any.
pub open spec fn key_position(cards: Seq<Seq<u8>>, key: Seq<char>) -> Option<int> {
    if exists|i: int| is_first_key(cards, key, i) {
        Some(choose|i: int| is_first_key(cards, key, i))
    } else {
        None
    }
}

/// Merge one solution card into `cards`: a repeatable card is appended; the
/// psolve marker replaces every existing copy of itself (one copy, at the
/// end); any other `COMMENT` is appended; a keyed card replaces the first
/// card with the same key in place, or is appended when there is none.
pub open spec fn merge_one(cards: Seq<Seq<u8>>, card: Seq<u8>) -> Seq<Seq<u8>> {
    let k = key_of_bytes(card);
    if always_appended_key(k) {
        cards.push(card)
    } else if k == "COMMENT"@ {
        if text_of_bytes(card) == PSOLVE_COMMENT_TEXT@ {
            cards.filter(|c: Seq<u8>| !is_psolve_marker(c)).push(card)
        } else {
            cards.push(card)
        }
    } else {
        match key_position(cards, k) {
            Some(j) => cards.update(j, card),
            None => cards.push(card),
        }
    }
}

/// Merge every card of `solution`, in order.
pub open spec fn merge_all(cards: Seq<Seq<u8>>, solution: Seq<Seq<u8>>) -> Seq<Seq<u8>>
    decreases solution.len(),
{
    if solution.len() == 0 {
        cards
    } else {
        merge_one(merge_all(cards, solution.drop_last()), solution.last())
    }
}

/// The first position carrying a keyword is unique.
pub proof fn lemma_first_key_unique(cards: Seq<Seq<u8>>, key: Seq<char>, i: int, j: int)
    requires
        is_first_key(cards, key, i),
        is_first_key(cards, key, j),
    ensures
        i == j,
{
}


/// Position of the first card whose keyword equals `key`.
fn find_key<T: HeaderCard>(cards: &Vec<T>, key: &String) -> (r: Option<usize>)
    ensures
        match r {
            Some(i) => key_position(contents(cards@), key@) == Some(i as int),
            None => key_position(contents(cards@), key@) is None,
        },
{
    let ghost cs = contents(cards@);
    let mut i: usize = 0;
    while i < cards.len()
        invariant
            cs == contents(cards@),
            i <= cards.len(),
            forall|j: int| 0 <= j < i ==> key_of_bytes(cs[j]) != key@,
        decreases cards.len() - i,
    {
        let k = cards[i].key();
        if k == *key {
            assert(is_first_key(cs, key@, i as int));
            proof {
                let c = choose|c: int| is_first_key(cs, key@, c);
                lemma_first_key_unique(cs, key@, i as int, c);
            }
            return Some(i);
        }
        i += 1;
    }
    None
}

/// Whether a card is psolve's own solve marker.
fn marker_check<T: HeaderCard>(c: &T) -> (r: bool)
    ensures
        r == is_psolve_marker(c.content()),
{
    let k = c.key();
    if !str_eq(k.as_str(), "COMMENT") {
        return false;
    }
    let t = c.text();
    str_eq(t.as_str(), PSOLVE_COMMENT_TEXT)
}


/// `cards` without any psolve solve marker, order otherwise kept.
fn remove_markers<T: HeaderCard>(cards: Vec<T>) -> (r: Vec<T>)
    ensures
        contents(r@) == contents(cards@).filter(|c: Seq<u8>| !is_psolve_marker(c)),
{
    let ghost orig = contents(cards@);
    let ghost pred = |c: Seq<u8>| !is_psolve_marker(c);
    let mut rest = cards;
    let mut kept: Vec<T> = Vec::new();
    let ghost mut i: int = 0;
    proof {
        reveal(Seq::filter);
        assert(orig.take(0) =~= Seq::<Seq<u8>>::empty());
        assert(contents(kept@) =~= Seq::<Seq<u8>>::empty());
        assert(contents(cards@).skip(0) =~= contents(cards@));
    }
    while rest.len() > 0
        invariant
            0 <= i <= orig.len(),
            contents(rest@) == orig.skip(i),
            contents(kept@) == orig.take(i).filter(pred),
            pred == (|c: Seq<u8>| !is_psolve_marker(c)),
        decreases rest.len(),
    {
        let ghost rest_before = rest@;
        let c = rest.remove(0);
        let is_marker = marker_check(&c);
        let ghost kept_before = kept@;
        proof {
            reveal(Seq::filter);
            assert(contents(rest_before).len() == rest_before.len());
            assert(i < orig.len());
            assert(orig.skip(i)[0] == c.content());
            assert(orig.take(i + 1).drop_last() =~= orig.take(i));
            assert(orig.take(i + 1).last() == c.content());
            assert(contents(rest@) =~= contents(rest_before).drop_first());
            assert(orig.skip(i + 1) =~= orig.skip(i).drop_first());
        }
        if !is_marker {
            kept.push(c);
            assert(contents(kept@) =~= contents(kept_before).push(c.content()));
        }
        proof {
            i = i + 1;
        }
    }
    assert(orig.take(i) =~= orig);
    kept
}

/// Merge one card into `cards` (see [`merge_one`]).
fn merge_step<T: HeaderCard>(cards: Vec<T>, card: T) -> (r: Vec<T>)
    ensures
        contents(r@) == merge_one(contents(cards@), card.content()),
{
    let k = card.key();
    if k.as_str().is_empty() || str_eq(k.as_str(), "HISTORY") || str_eq(k.as_str(), "END") {
        let mut out = cards;
        out.push(card);
        assert(contents(out@) =~= contents(cards@).push(card.content()));
        return out;
    }
    if str_eq(k.as_str(), "COMMENT") {
        let t = card.text();
        if str_eq(t.as_str(), PSOLVE_COMMENT_TEXT) {
            let mut out = remove_markers(cards);
            let ghost before = out@;
            out.push(card);
            assert(contents(out@) =~= contents(before).push(card.content()));
            return out;
        } else {
            let mut out = cards;
            out.push(card);
            assert(contents(out@) =~= contents(cards@).push(card.content()));
            return out;
        }
    }
    match find_key(&cards, &k) {
        Some(pos) => {
            let mut out = cards;
            let _old = out.remove(pos);
            out.insert(pos, card);
            assert(out@ =~= cards@.update(pos as int, card));
            assert(contents(out@) =~= contents(cards@).update(pos as int, card.content()));
            out
        },
        None => {
            let mut out = cards;
            out.push(card);
            assert(contents(out@) =~= contents(cards@).push(card.content()));
            out
        },
    }
}

/// Replace-by-key merge of a solved WCS's cards into an existing card list:
/// a keyed card whose key already exists replaces that card in place,
/// otherwise it is appended; `HISTORY`, blank-keyword and `END` cards are
/// always appended; `COMMENT` cards are appended, except psolve's own solve
/// marker, whose every earlier copy is removed before the one new copy is
/// appended.
pub fn merge_cards_by_key<T: HeaderCard>(original: Vec<T>, solution: Vec<T>) -> (r: Vec<T>)
    ensures
        contents(r@) == merge_all(contents(original@), contents(solution@)),
{
    let ghost sol = contents(solution@);
    let ghost orig = contents(original@);
    let mut out = original;
    let mut rest = solution;
    let ghost mut i: int = 0;
    assert(sol.take(0) =~= Seq::<Seq<u8>>::empty());
    assert(sol.skip(0) =~= sol);
    while rest.len() > 0
        invariant
            0 <= i <= sol.len(),
            contents(rest@) == sol.skip(i),
            contents(out@) == merge_all(orig, sol.take(i)),
        decreases rest.len(),
    {
        let ghost rest_before = rest@;
        let card = rest.remove(0);
        proof {
            assert(contents(rest_before).len() == rest_before.len());
            assert(i < sol.len());
            assert(sol.skip(i)[0] == card.content());
            assert(contents(rest@) =~= contents(rest_before).drop_first());
            assert(sol.take(i + 1).drop_last() =~= sol.take(i));
            assert(sol.take(i + 1).last() == card.content());
            assert(sol.skip(i + 1) =~= sol.skip(i).drop_first());
        }
        out = merge_step(out, card);
        proof {
            i = i + 1;
        }
    }
    assert(sol.take(i) =~= sol);
    out
}

/// Every card of `s` satisfies `p`.
pub open spec fn all_cards(s: Seq<Seq<u8>>, p: spec_fn(Seq<u8>) -> bool) -> bool {
    forall|i: int| 0 <= i < s.len() ==> p(#[trigger] s[i])
}

/// Filtering keeps a property that every card has.
pub proof fn lemma_filter_keeps(s: Seq<Seq<u8>>, pred: spec_fn(Seq<u8>) -> bool, p: spec_fn(Seq<u8>) -> bool)
    requires
        all_cards(s, p),
    ensures
        all_cards(s.filter(pred), p),
        s.filter(pred).len() <= s.len(),
    decreases s.len(),
{
    reveal(Seq::filter);
    if s.len() > 0 {
        lemma_filter_keeps(s.drop_last(), pred, p);
    }
}

/// A merged list holds only cards of the two inputs (so it keeps any
/// property all of them share), and it is no longer than both together.
pub proof fn lemma_merge_all_keeps(cards: Seq<Seq<u8>>, solution: Seq<Seq<u8>>, p: spec_fn(Seq<u8>) -> bool)
    requires
        all_cards(cards, p),
        all_cards(solution, p),
    ensures
        all_cards(merge_all(cards, solution), p),
        merge_all(cards, solution).len() <= cards.len() + solution.len(),
    decreases solution.len(),
{
    if solution.len() > 0 {
        let prefix = solution.drop_last();
        lemma_merge_all_keeps(cards, prefix, p);
        let m = merge_all(cards, prefix);
        lemma_filter_keeps(m, |c: Seq<u8>| !is_psolve_marker(c), p);
    }
}

} // verus!
