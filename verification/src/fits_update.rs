//! The `-update` rewrite of a FITS header: the byte-exact card scan, the
//! merge of the solved WCS into it, and the fixed-length repacking that
//! keeps every pixel byte where it was.
use vstd::prelude::*;
use crate::cards::{all_cards, contents, key_of_bytes, lemma_filter_keeps, lemma_merge_all_keeps, merge_all, merge_cards_by_key};
use crate::sidecar::{fit_card_text, kv_text, lemma_ascii_fit, lemma_ascii_padded, lemma_kv_ascii, pad_card, pad_left, pad_or_truncate_card, pad_right, push_all, solution_card_texts, spaces, string_value_field, texts, wcs_solution_cards, WcsFields};
use crate::cards::{is_psolve_marker, text_of_bytes, PSOLVE_COMMENT_TEXT};
use crate::merge_laws::{keyed_card, update_style};
use crate::text::is_white_space;
use crate::text::{decimal, str_eq, usize_to_decimal};
use crate::text::{trim, trim_end, trim_start, trimmed, trimmed_end, utf8_lossy, lossy_decode};
use vstd::utf8::{encode_utf8, encode_utf8_decode_utf8, encode_utf8_valid_utf8, is_ascii_chars, is_ascii_chars_encode_utf8};

verus! {

/// Bytes in one FITS header card.
pub const CARD: usize = 80;

/// Bytes in one FITS block.
pub const BLOCK: usize = 2880;

/// The first `n` bytes of `b`, copied.
pub fn prefix_bytes(b: &[u8], n: usize) -> (r: Vec<u8>)
    requires
        n <= b.len(),
    ensures
        r@ == b@.take(n as int),
{
    slice_bytes(b, 0, n)
}

/// `b[start..end]`, copied.
pub fn slice_bytes(b: &[u8], start: usize, end: usize) -> (r: Vec<u8>)
    requires
        start <= end <= b.len(),
    ensures
        r@ == b@.subrange(start as int, end as int),
{
    let mut r: Vec<u8> = Vec::new();
    let mut i: usize = start;
    while i < end
        invariant
            start <= i <= end <= b.len(),
            r@ == b@.subrange(start as int, i as int),
        decreases end - i,
    {
        r.push(b[i]);
        assert(b@.subrange(start as int, i + 1) =~= b@.subrange(start as int, i as int).push(
            b@[i as int],
        ));
        i += 1;
    }
    r
}

/// A card's keyword: its first (at most) 8 bytes, decoded leniently and
/// trimmed.
pub fn card_key(card: &[u8]) -> (k: String)
    ensures
        k@ == key_of_bytes(card@),
{
    let n = if card.len() < 8 {
        card.len()
    } else {
        8
    };
    let head = prefix_bytes(card, n);
    let s = utf8_lossy(head.as_slice());
    trimmed(s.as_str())
}

/// A card's full text, decoded leniently, trailing white space trimmed.
pub fn card_text(card: &[u8]) -> (t: String)
    ensures
        t@ == trim_end(lossy_decode(card@)),
{
    let s = utf8_lossy(card);
    trimmed_end(s.as_str())
}

/// The byte contents of each card.
pub open spec fn views(cs: Seq<Vec<u8>>) -> Seq<Seq<u8>> {
    cs.map_values(|c: Vec<u8>| c@)
}

/// The header's cards read from offset `off` on: consecutive 80-byte cards
/// lying wholly inside both `bytes` and its first `limit` bytes, up to (not
/// including) the first one keyed `END`.
pub open spec fn header_cards_from(bytes: Seq<u8>, limit: int, off: int) -> Seq<Seq<u8>>
    decreases limit - off,
{
    if off < 0 || off + 80 > limit || off + 80 > bytes.len() {
        Seq::empty()
    } else if key_of_bytes(bytes.subrange(off, off + 80)) == "END"@ {
        Seq::empty()
    } else {
        seq![bytes.subrange(off, off + 80)] + header_cards_from(bytes, limit, off + 80)
    }
}

/// The cards of the header region `bytes[..data_offset]`, before `END`.
pub open spec fn header_cards(bytes: Seq<u8>, data_offset: int) -> Seq<Seq<u8>> {
    header_cards_from(bytes, data_offset, 0)
}

/// Split the header region `bytes[..data_offset]` into raw 80-byte cards,
/// stopping before `END`, each card reproduced byte for byte.
pub fn raw_header_cards(bytes: &[u8], data_offset: usize) -> (r: Vec<Vec<u8>>)
    ensures
        views(r@) == header_cards(bytes@, data_offset as int),
        forall|i: int| 0 <= i < r.len() ==> (#[trigger] r@[i]).len() == 80,
{
    let mut cards: Vec<Vec<u8>> = Vec::new();
    let mut off: usize = 0;
    assert(views(cards@) + header_cards_from(bytes@, data_offset as int, 0) =~= header_cards(
        bytes@,
        data_offset as int,
    ));
    while off <= data_offset && data_offset - off >= 80 && off <= bytes.len() && bytes.len() - off
        >= 80
        invariant
            views(cards@) + header_cards_from(bytes@, data_offset as int, off as int)
                == header_cards(bytes@, data_offset as int),
            forall|i: int| 0 <= i < cards.len() ==> (#[trigger] cards@[i]).len() == 80,
        decreases bytes.len() - off,
    {
        let c = slice_bytes(bytes, off, off + 80);
        let k = card_key(c.as_slice());
        if crate::text::str_eq(k.as_str(), "END") {
            assert(header_cards_from(bytes@, data_offset as int, off as int) =~= Seq::<Seq<u8>>::empty());
            assert(views(cards@) =~= views(cards@) + Seq::<Seq<u8>>::empty());
            return cards;
        }
        let ghost before = cards@;
        cards.push(c);
        proof {
            let rest = header_cards_from(bytes@, data_offset as int, off + 80);
            assert(views(cards@) =~= views(before).push(bytes@.subrange(off as int, off + 80)));
            assert(views(cards@) + rest =~= views(before) + (seq![bytes@.subrange(off as int, off + 80)] + rest));
        }
        off = off + 80;
    }
    assert(header_cards_from(bytes@, data_offset as int, off as int) =~= Seq::<Seq<u8>>::empty());
    assert(views(cards@) =~= views(cards@) + Seq::<Seq<u8>>::empty());
    cards
}

/// The cards laid end to end.
pub open spec fn concat_cards(cs: Seq<Seq<u8>>) -> Seq<u8>
    decreases cs.len(),
{
    if cs.len() == 0 {
        Seq::empty()
    } else {
        concat_cards(cs.drop_last()) + cs.last()
    }
}

/// The `END` card: `END` padded with spaces to 80 bytes.
pub open spec fn end_card() -> Seq<u8> {
    crate::sidecar::pad_card(vstd::utf8::encode_utf8("END"@))
}

/// The cards followed by the `END` card.
pub open spec fn packed(cs: Seq<Seq<u8>>) -> Seq<u8> {
    concat_cards(cs) + end_card()
}

/// Number of 2880-byte blocks `n` bytes occupy (rounded up).
pub open spec fn blocks_for(n: nat) -> nat {
    n / 2880 + if n % 2880 == 0 {
        0nat
    } else {
        1nat
    }
}

/// `n` space bytes.
pub open spec fn blank_bytes(n: nat) -> Seq<u8> {
    Seq::new(n, |i: int| 32u8)
}

/// Pack `cards` plus a trailing `END` card into exactly `target_len` bytes,
/// padded with spaces. When they do not fit, nothing is built and the number
/// of 2880-byte blocks they would have needed is returned instead; landing on
/// exactly `target_len` is accepted.
pub fn pack_header(cards: &Vec<Vec<u8>>, target_len: usize) -> (r: Result<Vec<u8>, usize>)
    requires
        packed(views(cards@)).len() <= usize::MAX,
    ensures
        match r {
            Ok(h) => packed(views(cards@)).len() <= target_len && h@ == packed(views(cards@))
                + blank_bytes((target_len - packed(views(cards@)).len()) as nat),
            Err(n) => packed(views(cards@)).len() > target_len && n == blocks_for(
                packed(views(cards@)).len(),
            ),
        },
{
    let ghost cs = views(cards@);
    let mut out: Vec<u8> = Vec::new();
    let mut i: usize = 0;
    proof {
        assert(cs.take(0) =~= Seq::<Seq<u8>>::empty());
        lemma_concat_prefix_len(cs, 0);
    }
    while i < cards.len()
        invariant
            cs == views(cards@),
            i <= cards.len(),
            out@ == concat_cards(cs.take(i as int)),
            concat_cards(cs).len() + 80 <= usize::MAX,
        decreases cards.len() - i,
    {
        proof {
            assert(cs.take(i + 1).drop_last() =~= cs.take(i as int));
            lemma_concat_prefix_len(cs, i + 1);
        }
        let c = &cards[i];
        let mut j: usize = 0;
        let ghost start = out@;
        while j < c.len()
            invariant
                j <= c.len(),
                out@ == start + c@.take(j as int),
                start.len() + c.len() <= usize::MAX,
            decreases c.len() - j,
        {
            out.push(c[j]);
            assert(c@.take(j + 1) =~= c@.take(j as int).push(c@[j as int]));
            j += 1;
        }
        assert(c@.take(c.len() as int) =~= c@);
        assert(cs.take(i + 1).last() == c@);
        i += 1;
    }
    assert(cs.take(cards.len() as int) =~= cs);
    let end = crate::sidecar::pad_or_truncate_card("END");
    let mut k: usize = 0;
    let ghost body = out@;
    while k < end.len()
        invariant
            k <= end.len(),
            end.len() == 80,
            out@ == body + end@.take(k as int),
            body.len() + 80 <= usize::MAX,
        decreases end.len() - k,
    {
        out.push(end[k]);
        assert(end@.take(k + 1) =~= end@.take(k as int).push(end@[k as int]));
        k += 1;
    }
    assert(end@.take(80) =~= end@);
    assert(out@ == packed(cs));
    let len = out.len();
    if len > target_len {
        let q = len / BLOCK;
        let extra: usize = if len % BLOCK == 0 { 0 } else { 1 };
        return Err(q + extra);
    }
    let ghost packed_bytes = out@;
    while out.len() < target_len
        invariant
            len <= out.len() <= target_len,
            out@.take(len as int) == packed_bytes,
            packed_bytes.len() == len,
            forall|j: int| len <= j < out.len() ==> out@[j] == 32u8,
        decreases target_len - out.len(),
    {
        out.push(32u8);
    }
    assert(out@ =~= packed_bytes + blank_bytes((target_len - len) as nat));
    Ok(out)
}

/// Length of concatenating a prefix of `cs` is at most that of all of `cs`.
pub proof fn lemma_concat_prefix_len(cs: Seq<Seq<u8>>, i: int)
    requires
        0 <= i <= cs.len(),
    ensures
        concat_cards(cs.take(i)).len() <= concat_cards(cs).len(),
    decreases cs.len() - i,
{
    if i < cs.len() {
        lemma_concat_prefix_len(cs, i + 1);
        assert(cs.take(i + 1).drop_last() =~= cs.take(i));
    } else {
        assert(cs.take(i) =~= cs);
    }
}

/// The `END` card's keyword reads back as `END`.
pub proof fn lemma_end_card_key()
    ensures
        key_of_bytes(end_card()) == "END"@,
        end_card().len() == 80,
{
    reveal_strlit("END");
    let end_chars = "END"@;
    assert(end_chars =~= seq!['E', 'N', 'D']);
    assert(is_ascii_chars(end_chars));
    is_ascii_chars_encode_utf8(end_chars);
    let card = end_card();
    let head = seq!['E', 'N', 'D', ' ', ' ', ' ', ' ', ' '];
    assert(is_ascii_chars(head));
    is_ascii_chars_encode_utf8(head);
    assert(card.take(8) =~= encode_utf8(head));
    encode_utf8_valid_utf8(head);
    encode_utf8_decode_utf8(head);
    assert(lossy_decode(card.take(8)) == head);
    reveal_with_fuel(trim_end, 6);
    reveal_with_fuel(trim_start, 2);
    assert(head.drop_last() =~= seq!['E', 'N', 'D', ' ', ' ', ' ', ' ']);
    assert(head.drop_last().drop_last() =~= seq!['E', 'N', 'D', ' ', ' ', ' ']);
    assert(head.drop_last().drop_last().drop_last() =~= seq!['E', 'N', 'D', ' ', ' ']);
    assert(head.drop_last().drop_last().drop_last().drop_last() =~= seq!['E', 'N', 'D', ' ']);
    assert(head.drop_last().drop_last().drop_last().drop_last().drop_last() =~= seq!['E', 'N', 'D']);
    assert(trim_end(head) =~= seq!['E', 'N', 'D']);
    assert(trim(head) =~= seq!['E', 'N', 'D']);
}

/// A card the header scan reads back as itself: 80 bytes, not keyed `END`.
pub open spec fn plain_card(c: Seq<u8>) -> bool {
    c.len() == 80 && key_of_bytes(c) != "END"@
}

/// 80-byte cards laid end to end sit at consecutive multiples of 80.
pub proof fn lemma_concat_slices(cs: Seq<Seq<u8>>)
    requires
        forall|j: int| 0 <= j < cs.len() ==> (#[trigger] cs[j]).len() == 80,
    ensures
        concat_cards(cs).len() == 80 * cs.len(),
        forall|j: int|
            0 <= j < cs.len() ==> concat_cards(cs).subrange(80 * j, 80 * j + 80) == #[trigger] cs[j],
    decreases cs.len(),
{
    if cs.len() > 0 {
        let front = cs.drop_last();
        lemma_concat_slices(front);
        let all = concat_cards(cs);
        assert forall|j: int| 0 <= j < cs.len() implies all.subrange(80 * j, 80 * j + 80)
            == #[trigger] cs[j] by {
            if j < cs.len() - 1 {
                assert(front[j] == cs[j]);
                assert(all.subrange(80 * j, 80 * j + 80) =~= concat_cards(front).subrange(
                    80 * j,
                    80 * j + 80,
                ));
            } else {
                assert(all.subrange(80 * j, 80 * j + 80) =~= cs.last());
            }
        }
    }
}

/// Scanning bytes that hold `cs` card by card from `off`, then an `END`
/// card, reads back exactly `cs`.
pub proof fn lemma_scan_reads_cards(bytes: Seq<u8>, limit: int, off: int, cs: Seq<Seq<u8>>)
    requires
        0 <= off,
        off + 80 * cs.len() + 80 <= limit <= bytes.len(),
        forall|j: int| 0 <= j < cs.len() ==> plain_card(#[trigger] cs[j]),
        forall|j: int|
            0 <= j < cs.len() ==> bytes.subrange(off + 80 * j, off + 80 * j + 80) == #[trigger] cs[j],
        key_of_bytes(bytes.subrange(off + 80 * cs.len(), off + 80 * cs.len() + 80)) == "END"@,
    ensures
        header_cards_from(bytes, limit, off) == cs,
    decreases cs.len(),
{
    if cs.len() == 0 {
        assert(header_cards_from(bytes, limit, off) =~= cs);
    } else {
        let rest = cs.drop_first();
        assert forall|j: int| 0 <= j < rest.len() implies bytes.subrange(
            off + 80 + 80 * j,
            off + 80 + 80 * j + 80,
        ) == #[trigger] rest[j] by {
            assert(rest[j] == cs[j + 1]);
        }
        assert forall|j: int| 0 <= j < rest.len() implies plain_card(#[trigger] rest[j]) by {
            assert(rest[j] == cs[j + 1]);
        }
        lemma_scan_reads_cards(bytes, limit, off + 80, rest);
        assert(cs[0] == bytes.subrange(off, off + 80));
        assert(header_cards_from(bytes, limit, off) =~= seq![cs[0]] + rest);
    }
}

/// A header packed from plain cards reads back as those cards, whatever
/// follows it.
pub proof fn lemma_packed_reads_back(cs: Seq<Seq<u8>>, target_len: int, tail: Seq<u8>)
    requires
        forall|j: int| 0 <= j < cs.len() ==> plain_card(#[trigger] cs[j]),
        packed(cs).len() <= target_len,
    ensures
        header_cards(
            packed(cs) + blank_bytes((target_len - packed(cs).len()) as nat) + tail,
            target_len,
        ) == cs,
{
    let bytes = packed(cs) + blank_bytes((target_len - packed(cs).len()) as nat) + tail;
    lemma_concat_slices(cs);
    lemma_end_card_key();
    let n = cs.len() as int;
    assert forall|j: int| 0 <= j < n implies bytes.subrange(80 * j, 80 * j + 80) == #[trigger] cs[j] by {
        assert(bytes.subrange(80 * j, 80 * j + 80) =~= concat_cards(cs).subrange(80 * j, 80 * j + 80));
    }
    assert(bytes.subrange(80 * n, 80 * n + 80) =~= end_card());
    lemma_scan_reads_cards(bytes, target_len, 0, cs);
}

/// Why a `-update` write did not happen. Every variant is a refusal or a
/// failure before anything replaced the original file.
#[derive(Debug)]
pub enum FitsUpdateError {
    /// `PSOLVE_READONLY` is set, a `.psolve-readonly` marker sits on one of
    /// the target's ancestor chains, or the target is not writable.
    ReadOnly(String),
    /// The path could not be resolved to its canonical form.
    UnresolvedPath(String),
    /// The file's bytes did not parse as a FITS header.
    NotFits(String),
    /// The new header needs more 2880-byte blocks than the original had.
    HeaderGrew { original_blocks: usize, needed_blocks: usize },
    /// The rewritten file did not verify against the original.
    Verify(String),
    /// Any other filesystem failure before the rename.
    Io(String),
}

/// The one-line description of an error.
pub open spec fn error_message(e: FitsUpdateError) -> Seq<char> {
    match e {
        FitsUpdateError::ReadOnly(msg) => "refusing to write, read-only: "@ + msg@,
        FitsUpdateError::UnresolvedPath(msg) => "refusing to update: could not resolve the real path: "@
            + msg@,
        FitsUpdateError::NotFits(msg) => "refusing to update: not a FITS header: "@ + msg@,
        FitsUpdateError::HeaderGrew { original_blocks, needed_blocks } => "refusing to update: the new header needs "@
            + decimal(needed_blocks as nat) + " 2880-byte block(s) but the original header only has "@
            + decimal(original_blocks as nat)
            + "; writing it would shift the pixel data, so nothing was written"@,
        FitsUpdateError::Verify(msg) => "refusing to update, verification of the rewritten file failed: "@
            + msg@,
        FitsUpdateError::Io(msg) => msg@,
    }
}

impl FitsUpdateError {
    /// The error's description, as shown to the user.
    pub fn message(&self) -> (m: String)
        ensures
            m@ == error_message(*self),
    {
        let mut m = String::new();
        match self {
            FitsUpdateError::ReadOnly(msg) => {
                push_all(&mut m, "refusing to write, read-only: ");
                push_all(&mut m, msg.as_str());
            },
            FitsUpdateError::UnresolvedPath(msg) => {
                push_all(&mut m, "refusing to update: could not resolve the real path: ");
                push_all(&mut m, msg.as_str());
            },
            FitsUpdateError::NotFits(msg) => {
                push_all(&mut m, "refusing to update: not a FITS header: ");
                push_all(&mut m, msg.as_str());
            },
            FitsUpdateError::HeaderGrew { original_blocks, needed_blocks } => {
                push_all(&mut m, "refusing to update: the new header needs ");
                let needed = usize_to_decimal(*needed_blocks);
                push_all(&mut m, needed.as_str());
                push_all(&mut m, " 2880-byte block(s) but the original header only has ");
                let had = usize_to_decimal(*original_blocks);
                push_all(&mut m, had.as_str());
                push_all(
                    &mut m,
                    "; writing it would shift the pixel data, so nothing was written",
                );
            },
            FitsUpdateError::Verify(msg) => {
                push_all(&mut m, "refusing to update, verification of the rewritten file failed: ");
                push_all(&mut m, msg.as_str());
            },
            FitsUpdateError::Io(msg) => {
                push_all(&mut m, msg.as_str());
            },
        }
        m
    }
}

/// The solution's cards as the `-update` path merges them: each fitted to
/// 80 bytes, the `END` card left out (the packing writes its own).
pub open spec fn update_solution_cards(f: WcsFields) -> Seq<Seq<u8>> {
    solution_card_texts(f).map_values(|t: Seq<char>| pad_card(encode_utf8(t))).filter(
        |c: Seq<u8>| key_of_bytes(c) != "END"@,
    )
}

/// Merge the solved WCS's cards into the original header's cards, byte
/// exactly, under the crate's one replace-by-key policy.
pub fn merge_wcs_cards(original: Vec<Vec<u8>>, f: &WcsFields) -> (r: Vec<Vec<u8>>)
    requires
        f.well_formed(),
    ensures
        views(r@) == merge_all(views(original@), update_solution_cards(*f)),
{
    let texts_v = wcs_solution_cards(f);
    let ghost padded = solution_card_texts(*f).map_values(|t: Seq<char>| pad_card(encode_utf8(t)));
    let ghost pred = |c: Seq<u8>| key_of_bytes(c) != "END"@;
    let mut solution: Vec<Vec<u8>> = Vec::new();
    let mut i: usize = 0;
    proof {
        reveal(Seq::filter);
        assert(padded.take(0) =~= Seq::<Seq<u8>>::empty());
    }
    while i < texts_v.len()
        invariant
            texts(texts_v@) == solution_card_texts(*f),
            padded == solution_card_texts(*f).map_values(|t: Seq<char>| pad_card(encode_utf8(t))),
            pred == (|c: Seq<u8>| key_of_bytes(c) != "END"@),
            i <= texts_v.len(),
            views(solution@) == padded.take(i as int).filter(pred),
        decreases texts_v.len() - i,
    {
        let b = pad_or_truncate_card(texts_v[i].as_str());
        let k = card_key(b.as_slice());
        let ghost before = solution@;
        proof {
            reveal(Seq::filter);
            assert(texts(texts_v@)[i as int] == texts_v@[i as int]@);
            assert(padded[i as int] == b@);
            assert(padded.take(i + 1).drop_last() =~= padded.take(i as int));
        }
        if !str_eq(k.as_str(), "END") {
            solution.push(b);
            assert(views(solution@) =~= views(before).push(b@));
        }
        i += 1;
    }
    assert(padded.take(texts_v.len() as int) =~= padded);
    let r = merge_cards_by_key(original, solution);
    assert(contents(original@) =~= views(original@));
    assert(contents(solution@) =~= views(solution@));
    assert(contents(r@) =~= views(r@));
    r
}

/// The header scan reads only plain cards, 80 bytes apiece, from the
/// region it is limited to.
pub proof fn lemma_header_cards_plain(bytes: Seq<u8>, limit: int, off: int)
    requires
        0 <= off,
    ensures
        forall|j: int|
            0 <= j < header_cards_from(bytes, limit, off).len() ==> plain_card(
                #[trigger] header_cards_from(bytes, limit, off)[j],
            ),
        header_cards_from(bytes, limit, off).len() == 0 || off + 80 * header_cards_from(
            bytes,
            limit,
            off,
        ).len() <= limit,
    decreases limit - off,
{
    if off + 80 <= limit && off + 80 <= bytes.len() && key_of_bytes(bytes.subrange(off, off + 80))
        != "END"@ {
        lemma_header_cards_plain(bytes, limit, off + 80);
        let rest = header_cards_from(bytes, limit, off + 80);
        let all = header_cards_from(bytes, limit, off);
        assert(all =~= seq![bytes.subrange(off, off + 80)] + rest);
        assert forall|j: int| 0 <= j < all.len() implies plain_card(#[trigger] all[j]) by {
            if j > 0 {
                assert(all[j] == rest[j - 1]);
            }
        }
    }
}

/// The solution's update cards are plain cards, at most eighteen of them.
pub proof fn lemma_update_solution_cards_plain(f: WcsFields)
    ensures
        all_cards(update_solution_cards(f), |c: Seq<u8>| plain_card(c)),
        update_solution_cards(f).len() <= 18,
{
    let padded = solution_card_texts(f).map_values(|t: Seq<char>| pad_card(encode_utf8(t)));
    let pred = |c: Seq<u8>| key_of_bytes(c) != "END"@;
    broadcast use vstd::seq_lib::group_filter_ensures;

    lemma_filter_keeps(padded, pred, |c: Seq<u8>| c.len() == 80);
    let sol = padded.filter(pred);
    assert forall|i: int| 0 <= i < sol.len() implies (|c: Seq<u8>| plain_card(c))(#[trigger] sol[i]) by {
        assert(pred(sol[i]));
        assert((|c: Seq<u8>| c.len() == 80)(sol[i]));
    }
}

/// The header cards of the rewritten file: the original header's cards
/// with the solution merged in.
pub open spec fn updated_cards(original: Seq<u8>, data_offset: int, f: WcsFields) -> Seq<Seq<u8>> {
    merge_all(header_cards(original, data_offset), update_solution_cards(f))
}

/// The bytes of a FITS file whose header (the first `data_offset` bytes)
/// has the solved WCS merged in. The new header is packed into exactly the
/// original header's length, so every byte from `data_offset` on is kept
/// where it was; when the merged header does not fit, nothing is built and
/// the error reports both block counts.
pub fn rewrite_header(original: &[u8], data_offset: usize, f: &WcsFields) -> (r: Result<
    Vec<u8>,
    FitsUpdateError,
>)
    requires
        data_offset <= original.len(),
        original.len() + BLOCK <= usize::MAX,
        f.well_formed(),
    ensures
        ({
            let cards = updated_cards(original@, data_offset as int, *f);
            match r {
                Ok(new_file) => {
                    &&& packed(cards).len() <= data_offset
                    &&& new_file@ == packed(cards) + blank_bytes(
                        (data_offset - packed(cards).len()) as nat,
                    ) + original@.skip(data_offset as int)
                    &&& new_file.len() == original.len()
                    &&& new_file@.skip(data_offset as int) == original@.skip(data_offset as int)
                    &&& header_cards(new_file@, data_offset as int) == cards
                },
                Err(e) => {
                    &&& packed(cards).len() > data_offset
                    &&& e == FitsUpdateError::HeaderGrew {
                        original_blocks: data_offset / BLOCK,
                        needed_blocks: blocks_for(packed(cards).len()) as usize,
                    }
                },
            }
        }),
{
    let raw = raw_header_cards(original, data_offset);
    let ghost raw_cards = views(raw@);
    let merged = merge_wcs_cards(raw, f);
    let ghost cards = updated_cards(original@, data_offset as int, *f);
    proof {
        let plain = |c: Seq<u8>| plain_card(c);
        lemma_header_cards_plain(original@, data_offset as int, 0);
        assert(all_cards(raw_cards, plain));
        lemma_update_solution_cards_plain(*f);
        lemma_merge_all_keeps(raw_cards, update_solution_cards(*f), plain);
        assert(views(merged@) == cards);
        assert forall|j: int| 0 <= j < cards.len() implies (#[trigger] cards[j]).len() == 80 by {
            assert(plain(cards[j]));
        }
        lemma_concat_slices(cards);
        lemma_end_card_key();
    }
    match pack_header(&merged, data_offset) {
        Err(needed) => Err(FitsUpdateError::HeaderGrew {
            original_blocks: data_offset / BLOCK,
            needed_blocks: needed,
        }),
        Ok(header) => {
            let mut out = header;
            let ghost head = out@;
            let mut i: usize = data_offset;
            while i < original.len()
                invariant
                    data_offset <= i <= original.len(),
                    head.len() == data_offset,
                    out@ == head + original@.subrange(data_offset as int, i as int),
                decreases original.len() - i,
            {
                out.push(original[i]);
                assert(original@.subrange(data_offset as int, i + 1) =~= original@.subrange(
                    data_offset as int,
                    i as int,
                ).push(original@[i as int]));
                i += 1;
            }
            proof {
                assert(original@.subrange(data_offset as int, original.len() as int)
                    =~= original@.skip(data_offset as int));
                assert(out@.skip(data_offset as int) =~= original@.skip(data_offset as int));
                assert forall|j: int| 0 <= j < cards.len() implies plain_card(#[trigger] cards[j]) by {
                    assert((|c: Seq<u8>| plain_card(c))(cards[j]));
                }
                lemma_packed_reads_back(cards, data_offset as int, original@.skip(data_offset as int));
            }
            Ok(out)
        },
    }
}

/// `data unit moved: was at byte {expected}, is now at byte {found}`.
pub open spec fn moved_text(expected: nat, found: nat) -> Seq<char> {
    "data unit moved: was at byte "@ + decimal(expected) + ", is now at byte "@ + decimal(found)
}

fn pixels_changed() -> (e: FitsUpdateError)
    ensures
        e matches FitsUpdateError::Verify(m) && m@ == "pixel bytes changed"@,
{
    let mut m = String::new();
    push_all(&mut m, "pixel bytes changed");
    FitsUpdateError::Verify(m)
}

/// Check a rewritten file as read back from disk, whose header was parsed to
/// end at `data_offset`: its data unit must start where the original's did
/// and hold exactly the original's pixel bytes.
pub fn verify_rewritten(
    bytes: &[u8],
    data_offset: usize,
    expected_offset: usize,
    expected_pixels: &[u8],
) -> (r: Result<(), FitsUpdateError>)
    requires
        data_offset == expected_offset ==> data_offset <= bytes.len(),
    ensures
        match r {
            Ok(()) => data_offset == expected_offset && bytes@.skip(data_offset as int)
                == expected_pixels@,
            Err(FitsUpdateError::Verify(m)) => if data_offset != expected_offset {
                m@ == moved_text(expected_offset as nat, data_offset as nat)
            } else {
                bytes@.skip(data_offset as int) != expected_pixels@ && m@ == "pixel bytes changed"@
            },
            Err(_) => false,
        },
{
    if data_offset != expected_offset {
        let mut m = String::new();
        push_all(&mut m, "data unit moved: was at byte ");
        let e = usize_to_decimal(expected_offset);
        push_all(&mut m, e.as_str());
        push_all(&mut m, ", is now at byte ");
        let f = usize_to_decimal(data_offset);
        push_all(&mut m, f.as_str());
        return Err(FitsUpdateError::Verify(m));
    }
    let n = bytes.len() - data_offset;
    if n != expected_pixels.len() {
        assert(bytes@.skip(data_offset as int).len() != expected_pixels@.len());
        return Err(pixels_changed());
    }
    let mut k: usize = 0;
    while k < n
        invariant
            data_offset == expected_offset,
            data_offset + n == bytes.len(),
            n == expected_pixels.len(),
            k <= n,
            forall|j: int| 0 <= j < k ==> bytes@[data_offset + j] == expected_pixels@[j],
        decreases n - k,
    {
        if bytes[data_offset + k] != expected_pixels[k] {
            assert(bytes@.skip(data_offset as int)[k as int] != expected_pixels@[k as int]);
            return Err(pixels_changed());
        }
        k += 1;
    }
    assert(bytes@.skip(data_offset as int) =~= expected_pixels@);
    Ok(())
}

/// For a header region that is a whole number of blocks, a new header
/// overflows the region exactly when it needs more blocks than the region
/// has: the size refusal and the block counts it reports always agree.
pub proof fn law_overflow_iff_more_blocks(n: nat, region: nat)
    requires
        region % 2880 == 0,
    ensures
        n > region <==> blocks_for(n) > region / 2880,
{
    let k = region / 2880;
    let q = n / 2880;
    let r = n % 2880;
    assert(region == 2880 * k);
    assert(n == 2880 * q + r);
    assert(0 <= r < 2880);
    if n > region {
        assert(q > k || (q == k && r > 0)) by (nonlinear_arith)
            requires
                n == 2880 * q + r,
                region == 2880 * k,
                n > region,
                0 <= r < 2880,
        ;
    }
    if blocks_for(n) > k {
        assert(n > region) by (nonlinear_arith)
            requires
                n == 2880 * q + r,
                region == 2880 * k,
                q + (if r == 0 { 0int } else { 1int }) > k,
                0 <= r < 2880,
        ;
    }
}

/// Holds a temporary file's path and whether the file must be removed when
/// the guard is dropped: unarmed when made, armed once the file exists,
/// disarmed once it has been renamed away.
pub struct TempGuard<P> {
    pub path: P,
    pub armed: bool,
}

impl<P> TempGuard<P> {
    /// A guard for a file that does not exist yet: unarmed.
    pub fn new(path: P) -> (g: Self)
        ensures
            g.path == path,
            !g.armed,
    {
        TempGuard { path, armed: false }
    }

    /// The file now exists: from here on it is to be removed on drop.
    pub fn arm(&mut self)
        ensures
            final(self).armed,
            final(self).path == old(self).path,
    {
        self.armed = true;
    }

    /// The file has been renamed away: nothing is left to remove.
    pub fn disarm(&mut self)
        ensures
            !final(self).armed,
            final(self).path == old(self).path,
    {
        self.armed = false;
    }

    /// Whether dropping the guard must remove the file.
    pub fn is_armed(&self) -> (b: bool)
        ensures
            b == self.armed,
    {
        self.armed
    }
}

/// A keyword padded with spaces trims back to itself.
pub proof fn lemma_trim_padded(k: Seq<char>, n: nat)
    requires
        k.len() >= 1,
        !is_white_space(k[0]),
        !is_white_space(k.last()),
    ensures
        trim(k + spaces(n)) == k,
        trim_end(k + spaces(n)) == k,
    decreases n,
{
    if n == 0 {
        assert(k + spaces(0) =~= k);
        assert(k.drop_first().len() >= 0);
    } else {
        let t = k + spaces(n);
        assert(t.last() == ' ');
        assert(t.drop_last() =~= k + spaces((n - 1) as nat));
        lemma_trim_padded(k, (n - 1) as nat);
    }
}

/// The keyword read from the bytes of an ASCII card whose first eight
/// characters are `k` padded with spaces.
pub proof fn lemma_ascii_card_key(t: Seq<char>, k: Seq<char>)
    requires
        is_ascii_chars(t),
        t.len() >= 8,
        1 <= k.len() <= 8,
        t.take(8) == pad_right(k, 8),
        !is_white_space(k[0]),
        !is_white_space(k.last()),
    ensures
        key_of_bytes(pad_card(encode_utf8(t))) == k,
{
    let b = encode_utf8(t);
    is_ascii_chars_encode_utf8(t);
    let head = t.take(8);
    assert(is_ascii_chars(head));
    is_ascii_chars_encode_utf8(head);
    assert(pad_card(b).take(8) =~= encode_utf8(head));
    encode_utf8_valid_utf8(head);
    encode_utf8_decode_utf8(head);
    assert(pad_right(k, 8) == k + spaces((8 - k.len()) as nat));
    lemma_trim_padded(k, (8 - k.len()) as nat);
}

/// The text read from the bytes of an ASCII card is the card with its
/// trailing spaces dropped.
pub proof fn lemma_ascii_card_text(t: Seq<char>)
    requires
        is_ascii_chars(t),
        1 <= t.len() <= 80,
        !is_white_space(t[0]),
        !is_white_space(t.last()),
    ensures
        text_of_bytes(pad_card(encode_utf8(t))) == t,
{
    let b = encode_utf8(t);
    is_ascii_chars_encode_utf8(t);
    let full = t + spaces((80 - t.len()) as nat);
    assert(is_ascii_chars(full));
    is_ascii_chars_encode_utf8(full);
    assert(pad_card(b) =~= encode_utf8(full));
    encode_utf8_valid_utf8(full);
    encode_utf8_decode_utf8(full);
    lemma_trim_padded(t, (80 - t.len()) as nat);
}

/// The keyword of a fitted key/value card built from ASCII parts.
pub proof fn lemma_kv_card_key(k: Seq<char>, value_field: Seq<char>, comment: Seq<char>)
    requires
        is_ascii_chars(k),
        is_ascii_chars(value_field),
        is_ascii_chars(comment),
        1 <= k.len() <= 8,
        !is_white_space(k[0]),
        !is_white_space(k.last()),
    ensures
        key_of_bytes(pad_card(encode_utf8(fit_card_text(kv_text(k, value_field, comment))))) == k,
        encode_utf8(fit_card_text(kv_text(k, value_field, comment))).len() == 80,
{
    let kv = kv_text(k, value_field, comment);
    lemma_kv_ascii(k, value_field, comment);
    lemma_ascii_fit(kv);
    let t = fit_card_text(kv);
    assert(pad_right(k, 8).len() == 8);
    assert(kv.take(8) =~= pad_right(k, 8));
    assert(t.take(8) =~= pad_right(k, 8));
    assert(is_ascii_chars(t)) by {
        if kv.len() <= 80 {
            assert(is_ascii_chars(spaces((80 - kv.len()) as nat)));
        }
    }
    lemma_ascii_card_key(t, k);
    is_ascii_chars_encode_utf8(t);
}

/// The padded bytes of the solution's card number `i`.
pub open spec fn solution_card_bytes(f: WcsFields, i: int) -> Seq<u8> {
    pad_card(encode_utf8(solution_card_texts(f)[i]))
}

/// The keyword of each keyed card of a solve, in order.
pub open spec fn solve_keys() -> Seq<Seq<char>> {
    seq![
        "CTYPE1"@,
        "CTYPE2"@,
        "CUNIT1"@,
        "CRPIX1"@,
        "CRPIX2"@,
        "CRVAL1"@,
        "CRVAL2"@,
        "CDELT1"@,
        "CDELT2"@,
        "CROTA1"@,
        "CROTA2"@,
        "CD1_1"@,
        "CD1_2"@,
        "CD2_1"@,
        "CD2_2"@,
        "PLTSOLVD"@,
    ]
}

/// The keyed cards of a solve carry the solve's keywords, in order.
pub proof fn lemma_solution_keys(f: WcsFields, i: int)
    requires
        f.well_formed(),
        0 <= i < 16,
    ensures
        key_of_bytes(solution_card_bytes(f, i)) == solve_keys()[i],
        encode_utf8(solution_card_texts(f)[i]).len() == 80,
        solve_keys()[i].len() >= 5,
        solve_keys()[i].len() != 7,
{
    if i == 0 {
        lemma_solution_key_0(f);
    } else if i == 1 {
        lemma_solution_key_1(f);
    } else if i == 2 {
        lemma_solution_key_2(f);
    } else if i == 3 {
        lemma_solution_key_3(f);
    } else if i == 4 {
        lemma_solution_key_4(f);
    } else if i == 5 {
        lemma_solution_key_5(f);
    } else if i == 6 {
        lemma_solution_key_6(f);
    } else if i == 7 {
        lemma_solution_key_7(f);
    } else if i == 8 {
        lemma_solution_key_8(f);
    } else if i == 9 {
        lemma_solution_key_9(f);
    } else if i == 10 {
        lemma_solution_key_10(f);
    } else if i == 11 {
        lemma_solution_key_11(f);
    } else if i == 12 {
        lemma_solution_key_12(f);
    } else if i == 13 {
        lemma_solution_key_13(f);
    } else if i == 14 {
        lemma_solution_key_14(f);
    } else if i == 15 {
        lemma_solution_key_15(f);
    }
}

#[verifier::spinoff_prover]
#[verifier::rlimit(40)]
proof fn lemma_solution_key_0(f: WcsFields)
    requires
        f.well_formed(),
    ensures
        key_of_bytes(solution_card_bytes(f, 0)) == solve_keys()[0],
        encode_utf8(solution_card_texts(f)[0]).len() == 80,
        solve_keys()[0].len() == 6,
{
    reveal_strlit("CTYPE1");
    reveal_strlit("first parameter RA,    projection TANgential");
    reveal_strlit("RA---TAN");
    reveal_strlit("'");
    reveal_strlit(" ");
    lemma_ascii_padded("RA---TAN"@, 8);
    lemma_ascii_padded("'"@ + pad_right("RA---TAN"@, 8) + "'"@, 20);
    assert(is_ascii_chars(string_value_field("RA---TAN"@)));
    lemma_kv_card_key("CTYPE1"@, string_value_field("RA---TAN"@), "first parameter RA,    projection TANgential"@);
}

#[verifier::spinoff_prover]
#[verifier::rlimit(40)]
proof fn lemma_solution_key_1(f: WcsFields)
    requires
        f.well_formed(),
    ensures
        key_of_bytes(solution_card_bytes(f, 1)) == solve_keys()[1],
        encode_utf8(solution_card_texts(f)[1]).len() == 80,
        solve_keys()[1].len() == 6,
{
    reveal_strlit("CTYPE2");
    reveal_strlit("second parameter DEC,  projection TANgential");
    reveal_strlit("DEC--TAN");
    reveal_strlit("'");
    reveal_strlit(" ");
    lemma_ascii_padded("DEC--TAN"@, 8);
    lemma_ascii_padded("'"@ + pad_right("DEC--TAN"@, 8) + "'"@, 20);
    assert(is_ascii_chars(string_value_field("DEC--TAN"@)));
    lemma_kv_card_key("CTYPE2"@, string_value_field("DEC--TAN"@), "second parameter DEC,  projection TANgential"@);
}

#[verifier::spinoff_prover]
#[verifier::rlimit(40)]
proof fn lemma_solution_key_2(f: WcsFields)
    requires
        f.well_formed(),
    ensures
        key_of_bytes(solution_card_bytes(f, 2)) == solve_keys()[2],
        encode_utf8(solution_card_texts(f)[2]).len() == 80,
        solve_keys()[2].len() == 6,
{
    reveal_strlit("CUNIT1");
    reveal_strlit("Unit of coordinates");
    reveal_strlit("deg");
    reveal_strlit("'");
    reveal_strlit(" ");
    lemma_ascii_padded("deg"@, 8);
    lemma_ascii_padded("'"@ + pad_right("deg"@, 8) + "'"@, 20);
    assert(is_ascii_chars(string_value_field("deg"@)));
    lemma_kv_card_key("CUNIT1"@, string_value_field("deg"@), "Unit of coordinates"@);
}

#[verifier::spinoff_prover]
#[verifier::rlimit(40)]
proof fn lemma_solution_key_3(f: WcsFields)
    requires
        f.well_formed(),
    ensures
        key_of_bytes(solution_card_bytes(f, 3)) == solve_keys()[3],
        encode_utf8(solution_card_texts(f)[3]).len() == 80,
        solve_keys()[3].len() == 6,
{
    reveal_strlit("CRPIX1");
    reveal_strlit("X of reference pixel");
    lemma_ascii_padded(f.crpix1@, 21);
    lemma_kv_card_key("CRPIX1"@, pad_left(f.crpix1@, 21), "X of reference pixel"@);
}

#[verifier::spinoff_prover]
#[verifier::rlimit(40)]
proof fn lemma_solution_key_4(f: WcsFields)
    requires
        f.well_formed(),
    ensures
        key_of_bytes(solution_card_bytes(f, 4)) == solve_keys()[4],
        encode_utf8(solution_card_texts(f)[4]).len() == 80,
        solve_keys()[4].len() == 6,
{
    reveal_strlit("CRPIX2");
    reveal_strlit("Y of reference pixel");
    lemma_ascii_padded(f.crpix2@, 21);
    lemma_kv_card_key("CRPIX2"@, pad_left(f.crpix2@, 21), "Y of reference pixel"@);
}

#[verifier::spinoff_prover]
#[verifier::rlimit(40)]
proof fn lemma_solution_key_5(f: WcsFields)
    requires
        f.well_formed(),
    ensures
        key_of_bytes(solution_card_bytes(f, 5)) == solve_keys()[5],
        encode_utf8(solution_card_texts(f)[5]).len() == 80,
        solve_keys()[5].len() == 6,
{
    reveal_strlit("CRVAL1");
    reveal_strlit("RA of reference pixel (deg)");
    lemma_ascii_padded(f.crval1@, 21);
    lemma_kv_card_key("CRVAL1"@, pad_left(f.crval1@, 21), "RA of reference pixel (deg)"@);
}

#[verifier::spinoff_prover]
#[verifier::rlimit(40)]
proof fn lemma_solution_key_6(f: WcsFields)
    requires
        f.well_formed(),
    ensures
        key_of_bytes(solution_card_bytes(f, 6)) == solve_keys()[6],
        encode_utf8(solution_card_texts(f)[6]).len() == 80,
        solve_keys()[6].len() == 6,
{
    reveal_strlit("CRVAL2");
    reveal_strlit("DEC of reference pixel (deg)");
    lemma_ascii_padded(f.crval2@, 21);
    lemma_kv_card_key("CRVAL2"@, pad_left(f.crval2@, 21), "DEC of reference pixel (deg)"@);
}

#[verifier::spinoff_prover]
#[verifier::rlimit(40)]
proof fn lemma_solution_key_7(f: WcsFields)
    requires
        f.well_formed(),
    ensures
        key_of_bytes(solution_card_bytes(f, 7)) == solve_keys()[7],
        encode_utf8(solution_card_texts(f)[7]).len() == 80,
        solve_keys()[7].len() == 6,
{
    reveal_strlit("CDELT1");
    reveal_strlit("X pixel size (deg)");
    lemma_ascii_padded(f.cdelt1@, 21);
    lemma_kv_card_key("CDELT1"@, pad_left(f.cdelt1@, 21), "X pixel size (deg)"@);
}

#[verifier::spinoff_prover]
#[verifier::rlimit(40)]
proof fn lemma_solution_key_8(f: WcsFields)
    requires
        f.well_formed(),
    ensures
        key_of_bytes(solution_card_bytes(f, 8)) == solve_keys()[8],
        encode_utf8(solution_card_texts(f)[8]).len() == 80,
        solve_keys()[8].len() == 6,
{
    reveal_strlit("CDELT2");
    reveal_strlit("Y pixel size (deg)");
    lemma_ascii_padded(f.cdelt2@, 21);
    lemma_kv_card_key("CDELT2"@, pad_left(f.cdelt2@, 21), "Y pixel size (deg)"@);
}

#[verifier::spinoff_prover]
#[verifier::rlimit(40)]
proof fn lemma_solution_key_9(f: WcsFields)
    requires
        f.well_formed(),
    ensures
        key_of_bytes(solution_card_bytes(f, 9)) == solve_keys()[9],
        encode_utf8(solution_card_texts(f)[9]).len() == 80,
        solve_keys()[9].len() == 6,
{
    reveal_strlit("CROTA1");
    reveal_strlit("Image twist of X axis        (deg)");
    lemma_ascii_padded(f.crota1@, 21);
    lemma_kv_card_key("CROTA1"@, pad_left(f.crota1@, 21), "Image twist of X axis        (deg)"@);
}

#[verifier::spinoff_prover]
#[verifier::rlimit(40)]
proof fn lemma_solution_key_10(f: WcsFields)
    requires
        f.well_formed(),
    ensures
        key_of_bytes(solution_card_bytes(f, 10)) == solve_keys()[10],
        encode_utf8(solution_card_texts(f)[10]).len() == 80,
        solve_keys()[10].len() == 6,
{
    reveal_strlit("CROTA2");
    reveal_strlit("Image twist of Y axis        (deg)");
    lemma_ascii_padded(f.crota2@, 21);
    lemma_kv_card_key("CROTA2"@, pad_left(f.crota2@, 21), "Image twist of Y axis        (deg)"@);
}

#[verifier::spinoff_prover]
#[verifier::rlimit(40)]
proof fn lemma_solution_key_11(f: WcsFields)
    requires
        f.well_formed(),
    ensures
        key_of_bytes(solution_card_bytes(f, 11)) == solve_keys()[11],
        encode_utf8(solution_card_texts(f)[11]).len() == 80,
        solve_keys()[11].len() == 5,
{
    reveal_strlit("CD1_1");
    reveal_strlit("CD matrix to convert (x,y) to (Ra, Dec)");
    lemma_ascii_padded(f.cd1_1@, 21);
    lemma_kv_card_key("CD1_1"@, pad_left(f.cd1_1@, 21), "CD matrix to convert (x,y) to (Ra, Dec)"@);
}

#[verifier::spinoff_prover]
#[verifier::rlimit(40)]
proof fn lemma_solution_key_12(f: WcsFields)
    requires
        f.well_formed(),
    ensures
        key_of_bytes(solution_card_bytes(f, 12)) == solve_keys()[12],
        encode_utf8(solution_card_texts(f)[12]).len() == 80,
        solve_keys()[12].len() == 5,
{
    reveal_strlit("CD1_2");
    reveal_strlit("CD matrix to convert (x,y) to (Ra, Dec)");
    lemma_ascii_padded(f.cd1_2@, 21);
    lemma_kv_card_key("CD1_2"@, pad_left(f.cd1_2@, 21), "CD matrix to convert (x,y) to (Ra, Dec)"@);
}

#[verifier::spinoff_prover]
#[verifier::rlimit(40)]
proof fn lemma_solution_key_13(f: WcsFields)
    requires
        f.well_formed(),
    ensures
        key_of_bytes(solution_card_bytes(f, 13)) == solve_keys()[13],
        encode_utf8(solution_card_texts(f)[13]).len() == 80,
        solve_keys()[13].len() == 5,
{
    reveal_strlit("CD2_1");
    reveal_strlit("CD matrix to convert (x,y) to (Ra, Dec)");
    lemma_ascii_padded(f.cd2_1@, 21);
    lemma_kv_card_key("CD2_1"@, pad_left(f.cd2_1@, 21), "CD matrix to convert (x,y) to (Ra, Dec)"@);
}

#[verifier::spinoff_prover]
#[verifier::rlimit(40)]
proof fn lemma_solution_key_14(f: WcsFields)
    requires
        f.well_formed(),
    ensures
        key_of_bytes(solution_card_bytes(f, 14)) == solve_keys()[14],
        encode_utf8(solution_card_texts(f)[14]).len() == 80,
        solve_keys()[14].len() == 5,
{
    reveal_strlit("CD2_2");
    reveal_strlit("CD matrix to convert (x,y) to (Ra, Dec)");
    lemma_ascii_padded(f.cd2_2@, 21);
    lemma_kv_card_key("CD2_2"@, pad_left(f.cd2_2@, 21), "CD matrix to convert (x,y) to (Ra, Dec)"@);
}

#[verifier::spinoff_prover]
#[verifier::rlimit(40)]
proof fn lemma_solution_key_15(f: WcsFields)
    requires
        f.well_formed(),
    ensures
        key_of_bytes(solution_card_bytes(f, 15)) == solve_keys()[15],
        encode_utf8(solution_card_texts(f)[15]).len() == 80,
        solve_keys()[15].len() == 8,
{
    reveal_strlit("PLTSOLVD");
    reveal_strlit("Astrometric solved by psolve");
    reveal_strlit("T");
    lemma_ascii_padded("T"@, 21);
    lemma_kv_card_key("PLTSOLVD"@, pad_left("T"@, 21), "Astrometric solved by psolve"@);
}

/// The solution's seventeenth card is psolve's solve marker.
proof fn lemma_solution_marker(f: WcsFields)
    ensures
        is_psolve_marker(solution_card_bytes(f, 16)),
        key_of_bytes(solution_card_bytes(f, 16)) == "COMMENT"@,
{
    reveal_strlit("COMMENT Astrometric solution by psolve");
    reveal_strlit("COMMENT");
    let m = PSOLVE_COMMENT_TEXT@;
    assert(is_ascii_chars(m));
    assert(m.take(8) =~= pad_right("COMMENT"@, 8));
    lemma_ascii_card_key(m, "COMMENT"@);
    lemma_ascii_card_text(m);
}

/// The solution's last card is keyed `END`.
proof fn lemma_solution_end(f: WcsFields)
    ensures
        key_of_bytes(solution_card_bytes(f, 17)) == "END"@,
{
    reveal_strlit("END");
    let e = pad_right("END"@, 80);
    assert(is_ascii_chars(e));
    assert(e.take(8) =~= pad_right("END"@, 8));
    lemma_ascii_card_key(e, "END"@);
}

/// The solution the `-update` path merges has the shape of every solve:
/// sixteen keyed cards, then the solve marker.
pub proof fn lemma_update_solution_style(f: WcsFields)
    requires
        f.well_formed(),
    ensures
        update_style(update_solution_cards(f)),
{
    let ts = solution_card_texts(f);
    let padded = ts.map_values(|t: Seq<char>| pad_card(encode_utf8(t)));
    let pred = |c: Seq<u8>| key_of_bytes(c) != "END"@;
    assert(padded.len() == 18);
    assert forall|i: int| 0 <= i < 18 implies #[trigger] padded[i] == solution_card_bytes(f, i) by {}
    assert forall|i: int| 0 <= i < 16 implies key_of_bytes(#[trigger] padded[i]) == solve_keys()[i]
        && solve_keys()[i].len() >= 5 && solve_keys()[i].len() != 7 by {
        lemma_solution_keys(f, i);
    }
    lemma_solution_marker(f);
    lemma_solution_end(f);
    assert("END"@.len() == 3 && "COMMENT"@.len() == 7 && "HISTORY"@.len() == 7) by {
        reveal_strlit("END");
        reveal_strlit("COMMENT");
        reveal_strlit("HISTORY");
    }
    let kept = padded.take(17);
    assert forall|i: int| 0 <= i < 17 implies pred(#[trigger] kept[i]) by {
        assert(kept[i] == padded[i]);
        if i < 16 {
            assert(key_of_bytes(padded[i]) == solve_keys()[i]);
        }
    }
    lemma_filter_keeps_all(kept, pred);
    reveal(Seq::filter);
    assert(padded.drop_last() =~= kept);
    assert(update_solution_cards(f) == kept);
    let s = kept;
    assert forall|i: int| 0 <= i < s.len() - 1 implies keyed_card(#[trigger] s[i]) by {
        assert(s[i] == padded[i]);
        assert(key_of_bytes(padded[i]) == solve_keys()[i]);
    }
    assert(is_psolve_marker(s.last()));
}

/// Filtering by a predicate every card meets changes nothing.
pub proof fn lemma_filter_keeps_all(s: Seq<Seq<u8>>, p: spec_fn(Seq<u8>) -> bool)
    requires
        forall|i: int| 0 <= i < s.len() ==> p(#[trigger] s[i]),
    ensures
        s.filter(p) == s,
    decreases s.len(),
{
    reveal(Seq::filter);
    if s.len() > 0 {
        lemma_filter_keeps_all(s.drop_last(), p);
        assert(s.drop_last().push(s.last()) =~= s);
    } else {
        assert(s.filter(p) =~= s);
    }
}

/// The whole rewritten file: the merged cards packed into the original
/// header's length, then every original byte from `data_offset` on.
pub open spec fn rewritten_file(original: Seq<u8>, data_offset: int, f: WcsFields) -> Seq<u8> {
    let cards = updated_cards(original, data_offset, f);
    packed(cards) + blank_bytes((data_offset - packed(cards).len()) as nat) + original.skip(
        data_offset,
    )
}

/// The merged header cards are plain cards.
pub proof fn lemma_updated_cards_plain(original: Seq<u8>, data_offset: int, f: WcsFields)
    requires
        0 <= data_offset,
    ensures
        forall|j: int|
            0 <= j < updated_cards(original, data_offset, f).len() ==> plain_card(
                #[trigger] updated_cards(original, data_offset, f)[j],
            ),
{
    let plain = |c: Seq<u8>| plain_card(c);
    let raw = header_cards(original, data_offset);
    lemma_header_cards_plain(original, data_offset, 0);
    assert(all_cards(raw, plain));
    lemma_update_solution_cards_plain(f);
    lemma_merge_all_keeps(raw, update_solution_cards(f), plain);
    let cards = updated_cards(original, data_offset, f);
    assert forall|j: int| 0 <= j < cards.len() implies plain_card(#[trigger] cards[j]) by {
        assert(plain(cards[j]));
    }
}

/// Running `-update` again on a file it has already rewritten, with the
/// same solution, writes back exactly the same bytes: a re-solve replaces
/// the earlier solution's cards in place instead of piling up copies.
pub proof fn law_rewrite_idempotent(original: Seq<u8>, data_offset: int, f: WcsFields)
    requires
        f.well_formed(),
        0 <= data_offset <= original.len(),
        packed(updated_cards(original, data_offset, f)).len() <= data_offset,
    ensures
        updated_cards(rewritten_file(original, data_offset, f), data_offset, f) == updated_cards(
            original,
            data_offset,
            f,
        ),
        rewritten_file(rewritten_file(original, data_offset, f), data_offset, f) == rewritten_file(
            original,
            data_offset,
            f,
        ),
{
    let cards = updated_cards(original, data_offset, f);
    let n = rewritten_file(original, data_offset, f);
    lemma_updated_cards_plain(original, data_offset, f);
    lemma_packed_reads_back(cards, data_offset, original.skip(data_offset));
    assert(header_cards(n, data_offset) == cards);
    lemma_update_solution_style(f);
    crate::merge_laws::law_merge_idempotent(header_cards(original, data_offset), update_solution_cards(f));
    assert(n.skip(data_offset) =~= original.skip(data_offset));
}

/// A card's keyword is read from its first eight bytes only, so padding a
/// card of at least eight bytes does not change it.
pub proof fn lemma_key_ignores_padding(b: Seq<u8>)
    requires
        b.len() >= 8,
    ensures
        key_of_bytes(pad_card(b)) == key_of_bytes(b),
{
    assert(pad_card(b).take(8) =~= b.take(8));
}

/// The text cards' bytes carry the same keywords as the padded ones.
#[verifier::spinoff_prover]
proof fn lemma_text_solution_keys(f: WcsFields, i: int)
    requires
        f.well_formed(),
        0 <= i < 18,
    ensures
        key_of_bytes(crate::sidecar::encoded(solution_card_texts(f))[i]) == key_of_bytes(
            solution_card_bytes(f, i),
        ),
{
    if i < 16 {
        lemma_text_value_key(f, i);
    } else if i == 16 {
        lemma_text_comment_key(f);
    } else {
        lemma_text_end_key(f);
    }
}

/// The value cards of the text carry the keywords of the padded ones.
#[verifier::spinoff_prover]
proof fn lemma_text_value_key(f: WcsFields, i: int)
    requires
        f.well_formed(),
        0 <= i < 16,
    ensures
        key_of_bytes(crate::sidecar::encoded(solution_card_texts(f))[i]) == key_of_bytes(
            solution_card_bytes(f, i),
        ),
{
    let e = crate::sidecar::encoded(solution_card_texts(f));
    lemma_solution_keys(f, i);
    lemma_key_ignores_padding(e[i]);
}

/// The comment card of the text carries the keyword of the padded one.
#[verifier::spinoff_prover]
proof fn lemma_text_comment_key(f: WcsFields)
    requires
        f.well_formed(),
    ensures
        key_of_bytes(crate::sidecar::encoded(solution_card_texts(f))[16]) == key_of_bytes(
            solution_card_bytes(f, 16),
        ),
{
    let e = crate::sidecar::encoded(solution_card_texts(f));
    reveal_strlit("COMMENT Astrometric solution by psolve");
    is_ascii_chars_encode_utf8(PSOLVE_COMMENT_TEXT@);
    lemma_key_ignores_padding(e[16]);
}

/// The closing card of the text carries the keyword of the padded one.
#[verifier::spinoff_prover]
proof fn lemma_text_end_key(f: WcsFields)
    requires
        f.well_formed(),
    ensures
        key_of_bytes(crate::sidecar::encoded(solution_card_texts(f))[17]) == key_of_bytes(
            solution_card_bytes(f, 17),
        ),
{
    let e = crate::sidecar::encoded(solution_card_texts(f));
    reveal_strlit("END");
    assert(is_ascii_chars(pad_right("END"@, 80)));
    is_ascii_chars_encode_utf8(pad_right("END"@, 80));
    lemma_key_ignores_padding(e[17]);
}

/// The text marker card is psolve's solve marker.
#[verifier::spinoff_prover]
proof fn lemma_text_marker(f: WcsFields)
    ensures
        is_psolve_marker(crate::sidecar::encoded(solution_card_texts(f))[16]),
{
    reveal_strlit("COMMENT Astrometric solution by psolve");
    reveal_strlit("COMMENT");
    let m = PSOLVE_COMMENT_TEXT@;
    let b = crate::sidecar::encoded(solution_card_texts(f))[16];
    assert(b == encode_utf8(m));
    assert(is_ascii_chars(m));
    is_ascii_chars_encode_utf8(m);
    assert(m.take(8) =~= pad_right("COMMENT"@, 8));
    lemma_ascii_card_key(m, "COMMENT"@);
    lemma_key_ignores_padding(b);
    encode_utf8_valid_utf8(m);
    encode_utf8_decode_utf8(m);
    lemma_trim_padded(m, 0);
    assert(m + spaces(0) =~= m);
}

/// The `.wcs` sidecar's solution cards, up to its solve marker, have the
/// shape of every solve.
#[verifier::spinoff_prover]
pub proof fn lemma_text_solution_style(f: WcsFields)
    requires
        f.well_formed(),
    ensures
        update_style(crate::sidecar::encoded(solution_card_texts(f)).take(17)),
        key_of_bytes(crate::sidecar::encoded(solution_card_texts(f))[17]) == "END"@,
        crate::sidecar::encoded(solution_card_texts(f)).len() == 18,
{
    let e = crate::sidecar::encoded(solution_card_texts(f));
    let s = e.take(17);
    assert forall|i: int| 0 <= i < 16 implies key_of_bytes(#[trigger] s[i]) == solve_keys()[i]
        && solve_keys()[i].len() >= 5 && solve_keys()[i].len() != 7 by {
        assert(s[i] == e[i]);
        lemma_text_solution_keys(f, i);
        lemma_solution_keys(f, i);
    }
    lemma_text_solution_keys(f, 17);
    lemma_solution_end(f);
    lemma_text_marker(f);
    assert("END"@.len() == 3 && "COMMENT"@.len() == 7 && "HISTORY"@.len() == 7) by {
        reveal_strlit("END");
        reveal_strlit("COMMENT");
        reveal_strlit("HISTORY");
    }
    assert forall|i: int| 0 <= i < s.len() - 1 implies keyed_card(#[trigger] s[i]) by {
        assert(key_of_bytes(s[i]) == solve_keys()[i]);
    }
    assert(s[16] == e[16]);
}

/// In a `.wcs` sidecar's cards psolve's solve marker appears exactly once,
/// right before the closing `END` card, however many copies the
/// pass-through header carried.
pub proof fn law_wcs_single_marker(f: WcsFields, original_header: Seq<char>)
    requires
        f.well_formed(),
    ensures
        ({
            let cards = crate::sidecar::wcs_card_bytes(f, original_header);
            &&& cards.len() >= 2
            &&& key_of_bytes(cards.last()) == "END"@
            &&& is_psolve_marker(cards[cards.len() - 2])
            &&& forall|i: int| 0 <= i < cards.len() - 2 ==> !is_psolve_marker(#[trigger] cards[i])
            &&& !is_psolve_marker(cards.last())
        }),
{
    let o = crate::sidecar::encoded(crate::sidecar::lines_of(original_header));
    let e = crate::sidecar::encoded(solution_card_texts(f));
    lemma_text_solution_style(f);
    let head = e.take(17);
    assert(e.drop_last() =~= head);
    crate::merge_laws::law_single_marker(o, head);
    let m = merge_all(o, head);
    assert(crate::cards::always_appended_key("END"@));
    assert(merge_all(o, e) == m.push(e[17]));
    assert("END"@ != "COMMENT"@) by {
        reveal_strlit("END");
        reveal_strlit("COMMENT");
    }
}

} // verus!
