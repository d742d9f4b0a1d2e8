//! ASTAP-compatible `.ini` and `.wcs` sidecar text, and the fixed-width
//! FITS card formatting both sidecars and the `-update` rewrite share.
use vstd::prelude::*;
use vstd::utf8::{decode_utf8, encode_scalar, encode_utf8};
use crate::text::{decimal, push_char, trim_end, trimmed_end};
use crate::astap::{all_digits, digits_value, parse_unsigned, unsigned_digits};
use crate::cards::{contents, key_of_bytes, merge_all, merge_cards_by_key, PSOLVE_COMMENT_TEXT};
use vstd::utf8::is_ascii_chars;
use crate::fits_update::card_key;

verus! {

/// `n` spaces.
pub open spec fn spaces(n: nat) -> Seq<char> {
    Seq::new(n, |i: int| ' ')
}

/// `{s:<w}`: `s` left-justified in a field of at least `w` characters.
pub open spec fn pad_right(s: Seq<char>, w: nat) -> Seq<char> {
    if s.len() >= w {
        s
    } else {
        s + spaces((w - s.len()) as nat)
    }
}

/// `{s:>w}`: `s` right-justified in a field of at least `w` characters.
pub open spec fn pad_left(s: Seq<char>, w: nat) -> Seq<char> {
    if s.len() >= w {
        s
    } else {
        spaces((w - s.len()) as nat) + s
    }
}

/// Number of bytes `c` takes in UTF-8.
pub open spec fn utf8_width(c: char) -> nat {
    encode_scalar(c as u32).len()
}

/// Number of bytes `s` takes in UTF-8.
pub open spec fn byte_len(s: Seq<char>) -> nat {
    encode_utf8(s).len()
}

/// The longest prefix of `s` whose UTF-8 encoding takes at most `n` bytes.
pub open spec fn utf8_prefix(s: Seq<char>, n: int) -> Seq<char>
    decreases s.len(),
{
    if s.len() == 0 || utf8_width(s[0]) > n {
        Seq::empty()
    } else {
        seq![s[0]] + utf8_prefix(s.drop_first(), n - utf8_width(s[0]))
    }
}

/// UTF-8 encoding distributes over concatenation.
pub proof fn lemma_encode_utf8_concat(a: Seq<char>, b: Seq<char>)
    ensures
        encode_utf8(a + b) == encode_utf8(a) + encode_utf8(b),
    decreases a.len(),
{
    if a.len() == 0 {
        assert(a + b =~= b);
        assert(encode_utf8(a) + encode_utf8(b) =~= encode_utf8(b));
    } else {
        assert((a + b).drop_first() =~= a.drop_first() + b);
        assert((a + b)[0] == a[0]);
        lemma_encode_utf8_concat(a.drop_first(), b);
        assert(encode_utf8(a + b) =~= encode_utf8(a) + encode_utf8(b));
    }
}

/// A run of spaces takes one byte per space.
pub proof fn lemma_byte_len_spaces(n: nat)
    ensures
        byte_len(spaces(n)) == n,
    decreases n,
{
    if n > 0 {
        assert(spaces(n).drop_first() =~= spaces((n - 1) as nat));
        lemma_byte_len_spaces((n - 1) as nat);
    } else {
        assert(spaces(n) =~= Seq::<char>::empty());
    }
}

/// `byte_len` of a prefix grows by the width of the next character.
pub proof fn lemma_byte_len_take_next(s: Seq<char>, i: int)
    requires
        0 <= i < s.len(),
    ensures
        byte_len(s.take(i + 1)) == byte_len(s.take(i)) + utf8_width(s[i]),
{
    assert(s.take(i + 1) =~= s.take(i) + seq![s[i]]);
    lemma_encode_utf8_concat(s.take(i), seq![s[i]]);
    let one = seq![s[i]];
    assert(one.drop_first() =~= Seq::<char>::empty());
    assert(encode_utf8(Seq::<char>::empty()) =~= Seq::<u8>::empty());
    assert(encode_utf8(one) =~= encode_scalar(s[i] as u32) + encode_utf8(one.drop_first()));
}

/// UTF-8 width of one character, from its scalar value.
pub fn char_width(c: char) -> (w: usize)
    ensures
        w == utf8_width(c),
        1 <= w <= 4,
{
    proof {
        vstd::utf8::char_is_scalar(c);
    }
    let u = c as u32;
    if u < 0x80 {
        1
    } else if u < 0x800 {
        2
    } else if u < 0x10000 {
        3
    } else {
        4
    }
}

/// Append `n` spaces.
pub fn push_spaces(s: &mut String, n: usize)
    ensures
        final(s)@ == old(s)@ + spaces(n as nat),
{
    let mut i: usize = 0;
    while i < n
        invariant
            i <= n,
            s@ == old(s)@ + spaces(i as nat),
        decreases n - i,
    {
        push_char(s, ' ');
        assert(old(s)@ + spaces((i + 1) as nat) =~= (old(s)@ + spaces(i as nat)).push(' '));
        i += 1;
    }
}

/// Append every character of `t`.
pub fn push_all(s: &mut String, t: &str)
    ensures
        final(s)@ == old(s)@ + t@,
{
    s.append(t);
}

/// `{s:<w}`.
pub fn left_justify(s: &str, w: usize) -> (r: String)
    ensures
        r@ == pad_right(s@, w as nat),
{
    let n = s.unicode_len();
    let mut r = String::new();
    push_all(&mut r, s);
    assert(r@ =~= s@);
    if n < w {
        push_spaces(&mut r, w - n);
    }
    r
}

/// `{s:>w}`.
pub fn right_justify(s: &str, w: usize) -> (r: String)
    ensures
        r@ == pad_left(s@, w as nat),
{
    let n = s.unicode_len();
    let mut r = String::new();
    if n < w {
        push_spaces(&mut r, w - n);
    }
    push_all(&mut r, s);
    assert(n >= w ==> r@ =~= s@);
    assert(n < w ==> r@ =~= spaces((w - n) as nat) + s@);
    r
}

/// A card's text forced to exactly 80 bytes: padded with spaces, or cut
/// after its 80th byte.
pub open spec fn fit_card_text(c: Seq<char>) -> Seq<char> {
    if byte_len(c) <= 80 {
        c + spaces((80 - byte_len(c)) as nat)
    } else {
        utf8_prefix(c, 80)
    }
}

/// Cutting `c` after its 80th byte does not split a character (the
/// condition under which `String::truncate(80)` succeeds).
pub open spec fn cuts_at_char_boundary(c: Seq<char>) -> bool {
    byte_len(c) <= 80 || byte_len(utf8_prefix(c, 80)) == 80
}

/// Force a card's text to exactly 80 bytes (see [`fit_card_text`]).
pub fn fit_card(c: String) -> (r: String)
    requires
        cuts_at_char_boundary(c@),
    ensures
        r@ == fit_card_text(c@),
        byte_len(r@) == 80,
{
    let cs = c.as_str();
    let n = cs.as_bytes().len();
    if n <= 80 {
        let mut r = c;
        push_spaces(&mut r, 80 - n);
        proof {
            lemma_encode_utf8_concat(c@, spaces((80 - n) as nat));
            lemma_byte_len_spaces((80 - n) as nat);
        }
        r
    } else {
        let v = crate::text::chars_of(c.as_str());
        let mut out: Vec<char> = Vec::new();
        let mut acc: usize = 0;
        let mut i: usize = 0;
        assert(v@.take(0) =~= Seq::<char>::empty());
        assert(v@.skip(0) =~= v@);
        while i < v.len() && acc + char_width(v[i]) <= 80
            invariant
                v@ == c@,
                i <= v.len(),
                acc <= 80,
                acc == byte_len(v@.take(i as int)),
                out@ == v@.take(i as int),
                utf8_prefix(v@, 80) == v@.take(i as int) + utf8_prefix(v@.skip(i as int), 80 - acc),
            decreases v.len() - i,
        {
            let w = char_width(v[i]);
            proof {
                lemma_byte_len_take_next(v@, i as int);
                let rest = v@.skip(i as int);
                assert(rest[0] == v@[i as int]);
                assert(rest.drop_first() =~= v@.skip(i + 1));
                assert(v@.take(i + 1) =~= v@.take(i as int) + seq![v@[i as int]]);
                assert(v@.take(i as int) + (seq![v@[i as int]] + utf8_prefix(v@.skip(i + 1), 80 - acc - w))
                    =~= v@.take(i + 1) + utf8_prefix(v@.skip(i + 1), 80 - acc - w));
            }
            out.push(v[i]);
            acc = acc + w;
            i = i + 1;
        }
        proof {
            let rest = v@.skip(i as int);
            if i < v.len() {
                assert(rest[0] == v@[i as int]);
            } else {
                assert(rest.len() == 0);
            }
            assert(utf8_prefix(rest, 80 - acc) =~= Seq::<char>::empty());
            assert(utf8_prefix(v@, 80) =~= v@.take(i as int));
        }
        crate::text::string_from_chars(out.as_slice())
    }
}

/// The text of a `KEY     =<value field> / <comment>` card before it is
/// fitted to 80 bytes.
pub open spec fn kv_text(key: Seq<char>, value_field: Seq<char>, comment: Seq<char>) -> Seq<char> {
    pad_right(key, 8) + "="@ + value_field + " / "@ + comment
}

/// One `KEY     =<value field> / <comment>` FITS card, padded or cut to
/// exactly 80 bytes.
pub fn kv_card(key: &str, value_field: &str, comment: &str) -> (r: String)
    requires
        cuts_at_char_boundary(kv_text(key@, value_field@, comment@)),
    ensures
        r@ == fit_card_text(kv_text(key@, value_field@, comment@)),
        byte_len(r@) == 80,
{
    let mut c = left_justify(key, 8);
    push_all(&mut c, "=");
    push_all(&mut c, value_field);
    push_all(&mut c, " / ");
    push_all(&mut c, comment);
    assert(c@ =~= kv_text(key@, value_field@, comment@));
    fit_card(c)
}

/// Right-justify a numeric or boolean value in FITS's 21-column value field.
pub fn value_field_right(v: &str) -> (r: String)
    ensures
        r@ == pad_left(v@, 21),
{
    right_justify(v, 21)
}

/// A FITS string value in the same field: a space, then `'content'` with
/// the content padded to at least 8 characters, the quoted value padded to
/// at least 20.
pub open spec fn string_value_field(content: Seq<char>) -> Seq<char> {
    " "@ + pad_right("'"@ + pad_right(content, 8) + "'"@, 20)
}

/// Left-justify a FITS string value in the value field.
pub fn value_field_string(content: &str) -> (r: String)
    ensures
        r@ == string_value_field(content@),
{
    let mut quoted = String::new();
    push_all(&mut quoted, "'");
    let padded = left_justify(content, 8);
    push_all(&mut quoted, padded.as_str());
    push_all(&mut quoted, "'");
    let field = left_justify(quoted.as_str(), 20);
    let mut r = String::new();
    push_all(&mut r, " ");
    push_all(&mut r, field.as_str());
    r
}

/// A text card's keyword: the first (at most) 8 bytes of its UTF-8
/// encoding, decoded leniently and trimmed.
pub fn card_key_str(card: &str) -> (k: String)
    ensures
        k@ == key_of_bytes(encode_utf8(card@)),
{
    card_key(card.as_bytes())
}

/// A text card's full content with trailing white space trimmed (its
/// lenient decoding is the text itself, being valid UTF-8).
pub fn card_text_str(card: &str) -> (t: String)
    ensures
        t@ == trim_end(card@),
        t@ == crate::cards::text_of_bytes(encode_utf8(card@)),
{
    let decoded = crate::text::utf8_lossy(card.as_bytes());
    proof {
        vstd::utf8::encode_utf8_valid_utf8(card@);
        vstd::utf8::encode_utf8_decode_utf8(card@);
    }
    trimmed_end(decoded.as_str())
}

/// Exactly 80 bytes: `b` padded with spaces, or cut after its 80th byte.
pub open spec fn pad_card(b: Seq<u8>) -> Seq<u8> {
    if b.len() >= 80 {
        b.take(80)
    } else {
        b + Seq::new((80 - b.len()) as nat, |i: int| 32u8)
    }
}

/// [`pad_card`] over a byte slice.
pub fn pad_bytes(src: &[u8]) -> (r: Vec<u8>)
    ensures
        r@ == pad_card(src@),
        r.len() == 80,
{
    let n = if src.len() < 80 {
        src.len()
    } else {
        80
    };
    let mut r: Vec<u8> = Vec::new();
    let mut i: usize = 0;
    while i < n
        invariant
            i <= n <= src.len(),
            n <= 80,
            r@ == src@.take(i as int),
        decreases n - i,
    {
        r.push(src[i]);
        assert(src@.take(i + 1) =~= src@.take(i as int).push(src@[i as int]));
        i += 1;
    }
    while r.len() < 80
        invariant
            n <= r.len() <= 80,
            n <= src.len(),
            n == src.len() || n == 80,
            r@.take(n as int) == src@.take(n as int),
            forall|j: int| n <= j < r.len() ==> r@[j] == 32u8,
        decreases 80 - r.len(),
    {
        r.push(32u8);
    }
    proof {
        if src.len() >= 80 {
            assert(r@ =~= r@.take(80));
            assert(r@ =~= pad_card(src@));
        } else {
            assert(src@.take(n as int) =~= src@);
            assert(r@ =~= src@ + Seq::new((80 - src.len()) as nat, |i: int| 32u8));
        }
    }
    r
}

/// Force one card's text to exactly 80 bytes, byte-wise: pad a short one
/// with spaces, cut a long one after its 80th byte (which may split a
/// multi-byte character).
pub fn pad_or_truncate_card(card: &str) -> (r: Vec<u8>)
    ensures
        r@ == pad_card(encode_utf8(card@)),
        r.len() == 80,
{
    pad_bytes(card.as_bytes())
}


/// The texts of a list of text cards.
pub open spec fn texts(v: Seq<String>) -> Seq<Seq<char>> {
    v.map_values(|c: String| c@)
}

/// A character sequence of plain ASCII takes one byte per character.
pub proof fn lemma_ascii_byte_len(c: Seq<char>)
    requires
        is_ascii_chars(c),
    ensures
        byte_len(c) == c.len(),
{
    vstd::utf8::is_ascii_chars_encode_utf8(c);
}

/// On ASCII text the byte-bounded prefix is the character prefix.
pub proof fn lemma_ascii_utf8_prefix(c: Seq<char>, n: int)
    requires
        is_ascii_chars(c),
        0 <= n,
    ensures
        utf8_prefix(c, n) == c.take(if n < c.len() { n } else { c.len() as int }),
    decreases c.len(),
{
    if c.len() == 0 {
        assert(c.take(0) =~= Seq::<char>::empty());
    } else {
        let first = c[0];
        assert(is_ascii_chars(seq![first]));
        assert(seq![first].drop_first() =~= Seq::<char>::empty());
        assert(vstd::utf8::encode_utf8(Seq::<char>::empty()) =~= Seq::<u8>::empty());
        lemma_ascii_byte_len(seq![first]);
        assert(vstd::utf8::encode_utf8(seq![first]) =~= encode_scalar(first as u32)
            + vstd::utf8::encode_utf8(seq![first].drop_first()));
        assert(utf8_width(first) == 1);
        if n == 0 {
            assert(c.take(0) =~= Seq::<char>::empty());
        } else {
            assert(is_ascii_chars(c.drop_first()));
            lemma_ascii_utf8_prefix(c.drop_first(), n - 1);
            let m = if n < c.len() { n } else { c.len() as int };
            assert(c.take(m) =~= seq![first] + c.drop_first().take(m - 1));
        }
    }
}

/// ASCII card text is fitted to 80 bytes by padding or by cutting after its
/// 80th character, never inside a character.
pub proof fn lemma_ascii_fit(c: Seq<char>)
    requires
        is_ascii_chars(c),
    ensures
        cuts_at_char_boundary(c),
        fit_card_text(c) == if c.len() <= 80 {
            c + spaces((80 - c.len()) as nat)
        } else {
            c.take(80)
        },
{
    lemma_ascii_byte_len(c);
    lemma_ascii_utf8_prefix(c, 80);
    if c.len() > 80 {
        assert(is_ascii_chars(c.take(80)));
        lemma_ascii_byte_len(c.take(80));
    }
}

/// Padding ASCII text with spaces keeps it ASCII.
pub proof fn lemma_ascii_padded(s: Seq<char>, w: nat)
    requires
        is_ascii_chars(s),
    ensures
        is_ascii_chars(pad_right(s, w)),
        is_ascii_chars(pad_left(s, w)),
{
}

/// A key/value card built from ASCII parts is ASCII.
pub proof fn lemma_kv_ascii(key: Seq<char>, value_field: Seq<char>, comment: Seq<char>)
    requires
        is_ascii_chars(key),
        is_ascii_chars(value_field),
        is_ascii_chars(comment),
    ensures
        is_ascii_chars(kv_text(key, value_field, comment)),
{
    lemma_ascii_padded(key, 8);
    let k = pad_right(key, 8);
    assert(is_ascii_chars("="@)) by {
        reveal_strlit("=");
    }
    assert(is_ascii_chars(" / "@)) by {
        reveal_strlit(" / ");
    }
    assert(is_ascii_chars(k + "="@));
    assert(is_ascii_chars(k + "="@ + value_field));
    assert(is_ascii_chars(k + "="@ + value_field + " / "@));
}

/// A card from ASCII parts.
fn ascii_card(key: &str, value_field: &str, comment: &str) -> (r: String)
    requires
        is_ascii_chars(key@),
        is_ascii_chars(value_field@),
        is_ascii_chars(comment@),
    ensures
        r@ == fit_card_text(kv_text(key@, value_field@, comment@)),
{
    proof {
        lemma_kv_ascii(key@, value_field@, comment@);
        lemma_ascii_fit(kv_text(key@, value_field@, comment@));
    }
    kv_card(key, value_field, comment)
}

/// The solved WCS as the `.wcs` writer prints it: each number already in
/// ASTAP's 12-digit `.wcs` number format, CRPIX already in FITS's 1-based
/// convention.
#[derive(Debug, Clone)]
pub struct WcsFields {
    pub crpix1: String,
    pub crpix2: String,
    pub crval1: String,
    pub crval2: String,
    pub cdelt1: String,
    pub cdelt2: String,
    pub crota1: String,
    pub crota2: String,
    pub cd1_1: String,
    pub cd1_2: String,
    pub cd2_1: String,
    pub cd2_2: String,
}

impl WcsFields {
    /// Every number text is plain ASCII, as a formatted number always is.
    pub open spec fn well_formed(&self) -> bool {
        is_ascii_chars(self.crpix1@)
        && is_ascii_chars(self.crpix2@)
        && is_ascii_chars(self.crval1@)
        && is_ascii_chars(self.crval2@)
        && is_ascii_chars(self.cdelt1@)
        && is_ascii_chars(self.cdelt2@)
        && is_ascii_chars(self.crota1@)
        && is_ascii_chars(self.crota2@)
        && is_ascii_chars(self.cd1_1@)
        && is_ascii_chars(self.cd1_2@)
        && is_ascii_chars(self.cd2_1@)
        && is_ascii_chars(self.cd2_2@)
    }
}

/// The cards [`wcs_solution_cards`] produces, in order: CTYPE/CUNIT, the WCS
/// solution, `PLTSOLVD`, psolve's solve-marker `COMMENT`, and `END`.
pub open spec fn solution_card_texts(f: WcsFields) -> Seq<Seq<char>> {
    seq![
        fit_card_text(kv_text("CTYPE1"@, string_value_field("RA---TAN"@), "first parameter RA,    projection TANgential"@)),
        fit_card_text(kv_text("CTYPE2"@, string_value_field("DEC--TAN"@), "second parameter DEC,  projection TANgential"@)),
        fit_card_text(kv_text("CUNIT1"@, string_value_field("deg"@), "Unit of coordinates"@)),
        fit_card_text(kv_text("CRPIX1"@, pad_left(f.crpix1@, 21), "X of reference pixel"@)),
        fit_card_text(kv_text("CRPIX2"@, pad_left(f.crpix2@, 21), "Y of reference pixel"@)),
        fit_card_text(kv_text("CRVAL1"@, pad_left(f.crval1@, 21), "RA of reference pixel (deg)"@)),
        fit_card_text(kv_text("CRVAL2"@, pad_left(f.crval2@, 21), "DEC of reference pixel (deg)"@)),
        fit_card_text(kv_text("CDELT1"@, pad_left(f.cdelt1@, 21), "X pixel size (deg)"@)),
        fit_card_text(kv_text("CDELT2"@, pad_left(f.cdelt2@, 21), "Y pixel size (deg)"@)),
        fit_card_text(kv_text("CROTA1"@, pad_left(f.crota1@, 21), "Image twist of X axis        (deg)"@)),
        fit_card_text(kv_text("CROTA2"@, pad_left(f.crota2@, 21), "Image twist of Y axis        (deg)"@)),
        fit_card_text(kv_text("CD1_1"@, pad_left(f.cd1_1@, 21), "CD matrix to convert (x,y) to (Ra, Dec)"@)),
        fit_card_text(kv_text("CD1_2"@, pad_left(f.cd1_2@, 21), "CD matrix to convert (x,y) to (Ra, Dec)"@)),
        fit_card_text(kv_text("CD2_1"@, pad_left(f.cd2_1@, 21), "CD matrix to convert (x,y) to (Ra, Dec)"@)),
        fit_card_text(kv_text("CD2_2"@, pad_left(f.cd2_2@, 21), "CD matrix to convert (x,y) to (Ra, Dec)"@)),
        fit_card_text(kv_text("PLTSOLVD"@, pad_left("T"@, 21), "Astrometric solved by psolve"@)),
        PSOLVE_COMMENT_TEXT@,
        pad_right("END"@, 80),
    ]
}

/// `cards` holds a card keyed `k` whose value field carries `v`, right
/// justified in the 21 columns after `=`.
pub open spec fn card_carries(cards: Seq<Seq<char>>, k: Seq<char>, v: Seq<char>) -> bool {
    exists|j: int|
        0 <= j < cards.len() && #[trigger] cards[j].take(8) == pad_right(k, 8) && cards[j].subrange(
            9,
            9 + pad_left(v, 21).len() as int,
        ) == pad_left(v, 21)
}

/// Where a key/value card built from ASCII parts puts its keyword and value.
proof fn lemma_kv_layout(key: Seq<char>, v: Seq<char>, comment: Seq<char>)
    requires
        is_ascii_chars(key),
        is_ascii_chars(v),
        is_ascii_chars(comment),
        key.len() <= 8,
        v.len() <= 29,
        comment.len() <= 39,
    ensures
        fit_card_text(kv_text(key, pad_left(v, 21), comment)).take(8) == pad_right(key, 8),
        fit_card_text(kv_text(key, pad_left(v, 21), comment)).subrange(9, 9 + pad_left(v, 21).len() as int)
            == pad_left(v, 21),
{
    reveal_strlit("=");
    reveal_strlit(" / ");
    lemma_ascii_padded(v, 21);
    lemma_kv_ascii(key, pad_left(v, 21), comment);
    let kv = kv_text(key, pad_left(v, 21), comment);
    lemma_ascii_fit(kv);
    assert(kv.len() <= 80);
    let t = fit_card_text(kv);
    assert(t.take(8) =~= pad_right(key, 8));
    assert(t.subrange(9, 9 + pad_left(v, 21).len() as int) =~= pad_left(v, 21));
}

/// Each keyed card of a solve carries the field it names: the `CRVAL1`
/// card the `crval1` text, the `CRVAL2` card the `crval2` text, and so on
/// for every WCS key, each value right-justified after `=`.
pub proof fn law_solution_cards_carry_their_fields(f: WcsFields)
    requires
        f.well_formed(),
        f.crpix1@.len() <= 29,
        f.crpix2@.len() <= 29,
        f.crval1@.len() <= 29,
        f.crval2@.len() <= 29,
        f.cdelt1@.len() <= 29,
        f.cdelt2@.len() <= 29,
        f.crota1@.len() <= 29,
        f.crota2@.len() <= 29,
        f.cd1_1@.len() <= 29,
        f.cd1_2@.len() <= 29,
        f.cd2_1@.len() <= 29,
        f.cd2_2@.len() <= 29,
    ensures
        card_carries(solution_card_texts(f), "PLTSOLVD"@, "T"@),
        solution_card_texts(f).len() == 18,
        solution_card_texts(f)[16] == PSOLVE_COMMENT_TEXT@,
        solution_card_texts(f)[17] == pad_right("END"@, 80),
        card_carries(solution_card_texts(f), "CRPIX1"@, f.crpix1@),
        card_carries(solution_card_texts(f), "CRPIX2"@, f.crpix2@),
        card_carries(solution_card_texts(f), "CRVAL1"@, f.crval1@),
        card_carries(solution_card_texts(f), "CRVAL2"@, f.crval2@),
        card_carries(solution_card_texts(f), "CDELT1"@, f.cdelt1@),
        card_carries(solution_card_texts(f), "CDELT2"@, f.cdelt2@),
        card_carries(solution_card_texts(f), "CROTA1"@, f.crota1@),
        card_carries(solution_card_texts(f), "CROTA2"@, f.crota2@),
        card_carries(solution_card_texts(f), "CD1_1"@, f.cd1_1@),
        card_carries(solution_card_texts(f), "CD1_2"@, f.cd1_2@),
        card_carries(solution_card_texts(f), "CD2_1"@, f.cd2_1@),
        card_carries(solution_card_texts(f), "CD2_2"@, f.cd2_2@),
{
    lemma_card_pltsolvd(f);
    lemma_card_crpix1(f);
    lemma_card_crpix2(f);
    lemma_card_crval1(f);
    lemma_card_crval2(f);
    lemma_card_cdelt1(f);
    lemma_card_cdelt2(f);
    lemma_card_crota1(f);
    lemma_card_crota2(f);
    lemma_card_cd1_1(f);
    lemma_card_cd1_2(f);
    lemma_card_cd2_1(f);
    lemma_card_cd2_2(f);
}

#[verifier::spinoff_prover]
#[verifier::rlimit(100)]
proof fn lemma_card_pltsolvd(f: WcsFields)
    ensures
        card_carries(solution_card_texts(f), "PLTSOLVD"@, "T"@),
{
    reveal_strlit("PLTSOLVD");
    reveal_strlit("T");
    reveal_strlit("Astrometric solved by psolve");
    lemma_kv_layout("PLTSOLVD"@, "T"@, "Astrometric solved by psolve"@);
    let t = solution_card_texts(f)[15];
    assert(t.take(8) == pad_right("PLTSOLVD"@, 8));
}

#[verifier::spinoff_prover]
#[verifier::rlimit(100)]
proof fn lemma_card_crpix1(f: WcsFields)
    requires
        f.well_formed(),
        f.crpix1@.len() <= 29,
    ensures
        card_carries(solution_card_texts(f), "CRPIX1"@, f.crpix1@),
{
    reveal_strlit("CRPIX1");
    reveal_strlit("X of reference pixel");
    lemma_kv_layout("CRPIX1"@, f.crpix1@, "X of reference pixel"@);
    let t = solution_card_texts(f)[3];
    assert(t.take(8) == pad_right("CRPIX1"@, 8));
}

#[verifier::spinoff_prover]
#[verifier::rlimit(100)]
proof fn lemma_card_crpix2(f: WcsFields)
    requires
        f.well_formed(),
        f.crpix2@.len() <= 29,
    ensures
        card_carries(solution_card_texts(f), "CRPIX2"@, f.crpix2@),
{
    reveal_strlit("CRPIX2");
    reveal_strlit("Y of reference pixel");
    lemma_kv_layout("CRPIX2"@, f.crpix2@, "Y of reference pixel"@);
    let t = solution_card_texts(f)[4];
    assert(t.take(8) == pad_right("CRPIX2"@, 8));
}

#[verifier::spinoff_prover]
#[verifier::rlimit(100)]
proof fn lemma_card_crval1(f: WcsFields)
    requires
        f.well_formed(),
        f.crval1@.len() <= 29,
    ensures
        card_carries(solution_card_texts(f), "CRVAL1"@, f.crval1@),
{
    reveal_strlit("CRVAL1");
    reveal_strlit("RA of reference pixel (deg)");
    lemma_kv_layout("CRVAL1"@, f.crval1@, "RA of reference pixel (deg)"@);
    let t = solution_card_texts(f)[5];
    assert(t.take(8) == pad_right("CRVAL1"@, 8));
}

#[verifier::spinoff_prover]
#[verifier::rlimit(100)]
proof fn lemma_card_crval2(f: WcsFields)
    requires
        f.well_formed(),
        f.crval2@.len() <= 29,
    ensures
        card_carries(solution_card_texts(f), "CRVAL2"@, f.crval2@),
{
    reveal_strlit("CRVAL2");
    reveal_strlit("DEC of reference pixel (deg)");
    lemma_kv_layout("CRVAL2"@, f.crval2@, "DEC of reference pixel (deg)"@);
    let t = solution_card_texts(f)[6];
    assert(t.take(8) == pad_right("CRVAL2"@, 8));
}

#[verifier::spinoff_prover]
#[verifier::rlimit(100)]
proof fn lemma_card_cdelt1(f: WcsFields)
    requires
        f.well_formed(),
        f.cdelt1@.len() <= 29,
    ensures
        card_carries(solution_card_texts(f), "CDELT1"@, f.cdelt1@),
{
    reveal_strlit("CDELT1");
    reveal_strlit("X pixel size (deg)");
    lemma_kv_layout("CDELT1"@, f.cdelt1@, "X pixel size (deg)"@);
    let t = solution_card_texts(f)[7];
    assert(t.take(8) == pad_right("CDELT1"@, 8));
}

#[verifier::spinoff_prover]
#[verifier::rlimit(100)]
proof fn lemma_card_cdelt2(f: WcsFields)
    requires
        f.well_formed(),
        f.cdelt2@.len() <= 29,
    ensures
        card_carries(solution_card_texts(f), "CDELT2"@, f.cdelt2@),
{
    reveal_strlit("CDELT2");
    reveal_strlit("Y pixel size (deg)");
    lemma_kv_layout("CDELT2"@, f.cdelt2@, "Y pixel size (deg)"@);
    let t = solution_card_texts(f)[8];
    assert(t.take(8) == pad_right("CDELT2"@, 8));
}

#[verifier::spinoff_prover]
#[verifier::rlimit(100)]
proof fn lemma_card_crota1(f: WcsFields)
    requires
        f.well_formed(),
        f.crota1@.len() <= 29,
    ensures
        card_carries(solution_card_texts(f), "CROTA1"@, f.crota1@),
{
    reveal_strlit("CROTA1");
    reveal_strlit("Image twist of X axis        (deg)");
    lemma_kv_layout("CROTA1"@, f.crota1@, "Image twist of X axis        (deg)"@);
    let t = solution_card_texts(f)[9];
    assert(t.take(8) == pad_right("CROTA1"@, 8));
}

#[verifier::spinoff_prover]
#[verifier::rlimit(100)]
proof fn lemma_card_crota2(f: WcsFields)
    requires
        f.well_formed(),
        f.crota2@.len() <= 29,
    ensures
        card_carries(solution_card_texts(f), "CROTA2"@, f.crota2@),
{
    reveal_strlit("CROTA2");
    reveal_strlit("Image twist of Y axis        (deg)");
    lemma_kv_layout("CROTA2"@, f.crota2@, "Image twist of Y axis        (deg)"@);
    let t = solution_card_texts(f)[10];
    assert(t.take(8) == pad_right("CROTA2"@, 8));
}

#[verifier::spinoff_prover]
#[verifier::rlimit(100)]
proof fn lemma_card_cd1_1(f: WcsFields)
    requires
        f.well_formed(),
        f.cd1_1@.len() <= 29,
    ensures
        card_carries(solution_card_texts(f), "CD1_1"@, f.cd1_1@),
{
    reveal_strlit("CD1_1");
    reveal_strlit("CD matrix to convert (x,y) to (Ra, Dec)");
    lemma_kv_layout("CD1_1"@, f.cd1_1@, "CD matrix to convert (x,y) to (Ra, Dec)"@);
    let t = solution_card_texts(f)[11];
    assert(t.take(8) == pad_right("CD1_1"@, 8));
}

#[verifier::spinoff_prover]
#[verifier::rlimit(100)]
proof fn lemma_card_cd1_2(f: WcsFields)
    requires
        f.well_formed(),
        f.cd1_2@.len() <= 29,
    ensures
        card_carries(solution_card_texts(f), "CD1_2"@, f.cd1_2@),
{
    reveal_strlit("CD1_2");
    reveal_strlit("CD matrix to convert (x,y) to (Ra, Dec)");
    lemma_kv_layout("CD1_2"@, f.cd1_2@, "CD matrix to convert (x,y) to (Ra, Dec)"@);
    let t = solution_card_texts(f)[12];
    assert(t.take(8) == pad_right("CD1_2"@, 8));
}

#[verifier::spinoff_prover]
#[verifier::rlimit(100)]
proof fn lemma_card_cd2_1(f: WcsFields)
    requires
        f.well_formed(),
        f.cd2_1@.len() <= 29,
    ensures
        card_carries(solution_card_texts(f), "CD2_1"@, f.cd2_1@),
{
    reveal_strlit("CD2_1");
    reveal_strlit("CD matrix to convert (x,y) to (Ra, Dec)");
    lemma_kv_layout("CD2_1"@, f.cd2_1@, "CD matrix to convert (x,y) to (Ra, Dec)"@);
    let t = solution_card_texts(f)[13];
    assert(t.take(8) == pad_right("CD2_1"@, 8));
}

#[verifier::spinoff_prover]
#[verifier::rlimit(100)]
proof fn lemma_card_cd2_2(f: WcsFields)
    requires
        f.well_formed(),
        f.cd2_2@.len() <= 29,
    ensures
        card_carries(solution_card_texts(f), "CD2_2"@, f.cd2_2@),
{
    reveal_strlit("CD2_2");
    reveal_strlit("CD matrix to convert (x,y) to (Ra, Dec)");
    lemma_kv_layout("CD2_2"@, f.cd2_2@, "CD matrix to convert (x,y) to (Ra, Dec)"@);
    let t = solution_card_texts(f)[14];
    assert(t.take(8) == pad_right("CD2_2"@, 8));
}

/// The ordered list of cards generated for a solved WCS (see
/// [`solution_card_texts`]); the pass-through original header is not part
/// of it.
pub fn wcs_solution_cards(f: &WcsFields) -> (r: Vec<String>)
    requires
        f.well_formed(),
    ensures
        texts(r@) == solution_card_texts(*f),
{
    let mut v: Vec<String> = Vec::new();
    proof {
        reveal_strlit("CTYPE1");
        reveal_strlit("RA---TAN");
        reveal_strlit("first parameter RA,    projection TANgential");
    }
    let vf = value_field_string("RA---TAN");
    proof {
        lemma_ascii_padded("RA---TAN"@, 8);
        assert(is_ascii_chars("'"@)) by {
            reveal_strlit("'");
        }
        lemma_ascii_padded("'"@ + pad_right("RA---TAN"@, 8) + "'"@, 20);
        assert(is_ascii_chars(" "@)) by {
            reveal_strlit(" ");
        }
    }
    v.push(ascii_card("CTYPE1", vf.as_str(), "first parameter RA,    projection TANgential"));
    proof {
        reveal_strlit("CTYPE2");
        reveal_strlit("DEC--TAN");
        reveal_strlit("second parameter DEC,  projection TANgential");
    }
    let vf = value_field_string("DEC--TAN");
    proof {
        lemma_ascii_padded("DEC--TAN"@, 8);
        assert(is_ascii_chars("'"@)) by {
            reveal_strlit("'");
        }
        lemma_ascii_padded("'"@ + pad_right("DEC--TAN"@, 8) + "'"@, 20);
        assert(is_ascii_chars(" "@)) by {
            reveal_strlit(" ");
        }
    }
    v.push(ascii_card("CTYPE2", vf.as_str(), "second parameter DEC,  projection TANgential"));
    proof {
        reveal_strlit("CUNIT1");
        reveal_strlit("deg");
        reveal_strlit("Unit of coordinates");
    }
    let vf = value_field_string("deg");
    proof {
        lemma_ascii_padded("deg"@, 8);
        assert(is_ascii_chars("'"@)) by {
            reveal_strlit("'");
        }
        lemma_ascii_padded("'"@ + pad_right("deg"@, 8) + "'"@, 20);
        assert(is_ascii_chars(" "@)) by {
            reveal_strlit(" ");
        }
    }
    v.push(ascii_card("CUNIT1", vf.as_str(), "Unit of coordinates"));
    proof {
        reveal_strlit("CRPIX1");
        reveal_strlit("X of reference pixel");
        lemma_ascii_padded(f.crpix1@, 21);
    }
    let vf = value_field_right(f.crpix1.as_str());
    v.push(ascii_card("CRPIX1", vf.as_str(), "X of reference pixel"));
    proof {
        reveal_strlit("CRPIX2");
        reveal_strlit("Y of reference pixel");
        lemma_ascii_padded(f.crpix2@, 21);
    }
    let vf = value_field_right(f.crpix2.as_str());
    v.push(ascii_card("CRPIX2", vf.as_str(), "Y of reference pixel"));
    proof {
        reveal_strlit("CRVAL1");
        reveal_strlit("RA of reference pixel (deg)");
        lemma_ascii_padded(f.crval1@, 21);
    }
    let vf = value_field_right(f.crval1.as_str());
    v.push(ascii_card("CRVAL1", vf.as_str(), "RA of reference pixel (deg)"));
    proof {
        reveal_strlit("CRVAL2");
        reveal_strlit("DEC of reference pixel (deg)");
        lemma_ascii_padded(f.crval2@, 21);
    }
    let vf = value_field_right(f.crval2.as_str());
    v.push(ascii_card("CRVAL2", vf.as_str(), "DEC of reference pixel (deg)"));
    proof {
        reveal_strlit("CDELT1");
        reveal_strlit("X pixel size (deg)");
        lemma_ascii_padded(f.cdelt1@, 21);
    }
    let vf = value_field_right(f.cdelt1.as_str());
    v.push(ascii_card("CDELT1", vf.as_str(), "X pixel size (deg)"));
    proof {
        reveal_strlit("CDELT2");
        reveal_strlit("Y pixel size (deg)");
        lemma_ascii_padded(f.cdelt2@, 21);
    }
    let vf = value_field_right(f.cdelt2.as_str());
    v.push(ascii_card("CDELT2", vf.as_str(), "Y pixel size (deg)"));
    proof {
        reveal_strlit("CROTA1");
        reveal_strlit("Image twist of X axis        (deg)");
        lemma_ascii_padded(f.crota1@, 21);
    }
    let vf = value_field_right(f.crota1.as_str());
    v.push(ascii_card("CROTA1", vf.as_str(), "Image twist of X axis        (deg)"));
    proof {
        reveal_strlit("CROTA2");
        reveal_strlit("Image twist of Y axis        (deg)");
        lemma_ascii_padded(f.crota2@, 21);
    }
    let vf = value_field_right(f.crota2.as_str());
    v.push(ascii_card("CROTA2", vf.as_str(), "Image twist of Y axis        (deg)"));
    proof {
        reveal_strlit("CD1_1");
        reveal_strlit("CD matrix to convert (x,y) to (Ra, Dec)");
        lemma_ascii_padded(f.cd1_1@, 21);
    }
    let vf = value_field_right(f.cd1_1.as_str());
    v.push(ascii_card("CD1_1", vf.as_str(), "CD matrix to convert (x,y) to (Ra, Dec)"));
    proof {
        reveal_strlit("CD1_2");
        reveal_strlit("CD matrix to convert (x,y) to (Ra, Dec)");
        lemma_ascii_padded(f.cd1_2@, 21);
    }
    let vf = value_field_right(f.cd1_2.as_str());
    v.push(ascii_card("CD1_2", vf.as_str(), "CD matrix to convert (x,y) to (Ra, Dec)"));
    proof {
        reveal_strlit("CD2_1");
        reveal_strlit("CD matrix to convert (x,y) to (Ra, Dec)");
        lemma_ascii_padded(f.cd2_1@, 21);
    }
    let vf = value_field_right(f.cd2_1.as_str());
    v.push(ascii_card("CD2_1", vf.as_str(), "CD matrix to convert (x,y) to (Ra, Dec)"));
    proof {
        reveal_strlit("CD2_2");
        reveal_strlit("CD matrix to convert (x,y) to (Ra, Dec)");
        lemma_ascii_padded(f.cd2_2@, 21);
    }
    let vf = value_field_right(f.cd2_2.as_str());
    v.push(ascii_card("CD2_2", vf.as_str(), "CD matrix to convert (x,y) to (Ra, Dec)"));
    proof {
        reveal_strlit("PLTSOLVD");
        reveal_strlit("T");
        reveal_strlit("Astrometric solved by psolve");
        lemma_ascii_padded("T"@, 21);
    }
    let vf = value_field_right("T");
    v.push(ascii_card("PLTSOLVD", vf.as_str(), "Astrometric solved by psolve"));
    let mut marker = String::new();
    push_all(&mut marker, PSOLVE_COMMENT_TEXT);
    assert(marker@ =~= PSOLVE_COMMENT_TEXT@);
    v.push(marker);
    v.push(left_justify("END", 80));
    assert(texts(v@) =~= solution_card_texts(*f));
    v
}

/// `s` cut at every `'\n'`: the text before the first, between each pair,
/// and after the last (possibly empty).
pub open spec fn split_newlines(s: Seq<char>) -> Seq<Seq<char>>
    decreases s.len(),
{
    if s.len() == 0 {
        seq![Seq::empty()]
    } else {
        let p = split_newlines(s.drop_last());
        if s.last() == '\n' {
            p.push(Seq::empty())
        } else {
            p.update(p.len() - 1, p.last().push(s.last()))
        }
    }
}

/// A line that ended in `"\r\n"` loses its `'\r'`.
pub open spec fn strip_cr(l: Seq<char>) -> Seq<char> {
    if l.len() > 0 && l.last() == '\r' {
        l.drop_last()
    } else {
        l
    }
}

/// `str::lines`: the pieces between newlines, a `'\r'` before a newline
/// dropped, and no final empty piece after a trailing newline.
pub open spec fn lines_of(s: Seq<char>) -> Seq<Seq<char>> {
    let p = split_newlines(s);
    let done = p.drop_last().map_values(|l: Seq<char>| strip_cr(l));
    if p.last().len() == 0 {
        done
    } else {
        done.push(p.last())
    }
}

proof fn lemma_split_newlines_nonempty(s: Seq<char>)
    ensures
        split_newlines(s).len() >= 1,
    decreases s.len(),
{
    if s.len() > 0 {
        lemma_split_newlines_nonempty(s.drop_last());
    }
}

/// The lines of `s` (`str::lines`).
pub fn lines(s: &str) -> (r: Vec<String>)
    ensures
        texts(r@) == lines_of(s@),
{
    let v = crate::text::chars_of(s);
    let mut done: Vec<String> = Vec::new();
    let mut cur: Vec<char> = Vec::new();
    let mut i: usize = 0;
    proof {
        assert(v@.take(0) =~= Seq::<char>::empty());
        assert(split_newlines(v@.take(0)).drop_last() =~= Seq::<Seq<char>>::empty());
        assert(cur@ =~= split_newlines(v@.take(0)).last());
    }
    while i < v.len()
        invariant
            v@ == s@,
            i <= v.len(),
            split_newlines(v@.take(i as int)).len() >= 1,
            cur@ == split_newlines(v@.take(i as int)).last(),
            texts(done@) == split_newlines(v@.take(i as int)).drop_last().map_values(
                |l: Seq<char>| strip_cr(l),
            ),
        decreases v.len() - i,
    {
        let c = v[i];
        let ghost p = split_newlines(v@.take(i as int));
        let ghost done_before = done@;
        proof {
            assert(v@.take(i + 1).drop_last() =~= v@.take(i as int));
            assert(v@.take(i + 1).last() == c);
        }
        if c == '\n' {
            let mut line = cur;
            if line.len() > 0 && line[line.len() - 1] == '\r' {
                line.pop();
            }
            assert(line@ == strip_cr(p.last()));
            done.push(crate::text::string_from_chars(line.as_slice()));
            cur = Vec::new();
            proof {
                let q = split_newlines(v@.take(i + 1));
                assert(q == p.push(Seq::<char>::empty()));
                assert(q.drop_last() =~= p);
                assert(p =~= p.drop_last().push(p.last()));
                assert(texts(done@) =~= texts(done_before).push(strip_cr(p.last())));
                assert(texts(done@) =~= q.drop_last().map_values(|l: Seq<char>| strip_cr(l)));
                assert(cur@ =~= q.last());
            }
        } else {
            cur.push(c);
            proof {
                let q = split_newlines(v@.take(i + 1));
                assert(q == p.update(p.len() - 1, p.last().push(c)));
                assert(q.drop_last() =~= p.drop_last());
            }
        }
        i += 1;
    }
    proof {
        assert(v@.take(v.len() as int) =~= v@);
    }
    if cur.len() > 0 {
        let ghost done_before = done@;
        done.push(crate::text::string_from_chars(cur.as_slice()));
        assert(texts(done@) =~= texts(done_before).push(cur@));
    }
    done
}

/// The UTF-8 bytes of each text.
pub open spec fn encoded(ts: Seq<Seq<char>>) -> Seq<Seq<u8>> {
    ts.map_values(|t: Seq<char>| encode_utf8(t))
}

/// The `.wcs` sidecar's cards, as bytes: the pass-through header's lines
/// with the solution merged in by key.
pub open spec fn wcs_card_bytes(f: WcsFields, original_header: Seq<char>) -> Seq<Seq<u8>> {
    merge_all(encoded(lines_of(original_header)), encoded(solution_card_texts(f)))
}

/// The texts of a list of text cards are recovered from their bytes.
proof fn lemma_texts_from_contents(v: Seq<String>)
    ensures
        contents(v) == encoded(texts(v)),
        texts(v) == contents(v).map_values(|b: Seq<u8>| decode_utf8(b)),
{
    assert(contents(v) =~= encoded(texts(v)));
    assert forall|i: int| 0 <= i < v.len() implies decode_utf8(#[trigger] contents(v)[i]) == texts(v)[i] by {
        vstd::utf8::encode_utf8_decode_utf8(v[i]@);
    }
    assert(texts(v) =~= contents(v).map_values(|b: Seq<u8>| decode_utf8(b)));
}

/// The complete ordered card list of a `.wcs` sidecar: the pass-through
/// header's lines with this solve's WCS cards merged in by key (not
/// appended after them), each card at its natural length.
pub fn merged_wcs_cards(f: &WcsFields, original_header: &str) -> (r: Vec<String>)
    requires
        f.well_formed(),
    ensures
        contents(r@) == wcs_card_bytes(*f, original_header@),
        texts(r@) == wcs_card_bytes(*f, original_header@).map_values(|b: Seq<u8>| decode_utf8(b)),
{
    let original = lines(original_header);
    let solution = wcs_solution_cards(f);
    proof {
        lemma_texts_from_contents(original@);
        lemma_texts_from_contents(solution@);
    }
    let r = merge_cards_by_key(original, solution);
    proof {
        lemma_texts_from_contents(r@);
    }
    r
}

/// Each text followed by a newline, all run together.
pub open spec fn newline_terminated(ts: Seq<Seq<char>>) -> Seq<char>
    decreases ts.len(),
{
    if ts.len() == 0 {
        Seq::empty()
    } else {
        newline_terminated(ts.drop_last()) + ts.last().push('\n')
    }
}

/// The default `.wcs` sidecar: every merged card at its natural length,
/// each followed by a newline, not padded to a block.
pub fn format_wcs_text(f: &WcsFields, original_header: &str) -> (r: String)
    requires
        f.well_formed(),
    ensures
        r@ == newline_terminated(
            wcs_card_bytes(*f, original_header@).map_values(|b: Seq<u8>| decode_utf8(b)),
        ),
{
    let cards = merged_wcs_cards(f, original_header);
    let ghost ts = texts(cards@);
    let mut out = String::new();
    let mut i: usize = 0;
    assert(ts.take(0) =~= Seq::<Seq<char>>::empty());
    while i < cards.len()
        invariant
            ts == texts(cards@),
            i <= cards.len(),
            out@ == newline_terminated(ts.take(i as int)),
        decreases cards.len() - i,
    {
        push_all(&mut out, cards[i].as_str());
        push_char(&mut out, '\n');
        proof {
            assert(ts.take(i + 1).drop_last() =~= ts.take(i as int));
            assert(ts.take(i + 1).last() == cards@[i as int]@);
        }
        i += 1;
    }
    assert(ts.take(cards.len() as int) =~= ts);
    out
}

/// Number of blank 80-byte cards that bring `n` cards to a whole number of
/// 2880-byte blocks (36 cards per block).
pub open spec fn blank_cards_needed(n: nat) -> nat {
    if n % 36 == 0 {
        0
    } else {
        (36 - n % 36) as nat
    }
}

/// The `-wcs` block-style `.wcs` sidecar: every merged card forced to 80
/// bytes, then blank cards up to a whole number of 2880-byte blocks.
pub open spec fn wcs_fits_block(f: WcsFields, original_header: Seq<char>) -> Seq<u8> {
    let cards = wcs_card_bytes(f, original_header).map_values(|b: Seq<u8>| pad_card(b));
    crate::fits_update::concat_cards(cards) + crate::fits_update::blank_bytes(
        80 * blank_cards_needed(cards.len()),
    )
}

/// The `-wcs` FITS-block `.wcs` sidecar: no newlines, every card exactly 80
/// bytes, padded with all-space cards to a multiple of 2880 bytes.
pub fn format_wcs_fits_block(f: &WcsFields, original_header: &str) -> (r: Vec<u8>)
    requires
        f.well_formed(),
        80 * wcs_card_bytes(*f, original_header@).len() + 2880 <= usize::MAX,
    ensures
        r@ == wcs_fits_block(*f, original_header@),
        r.len() % 2880 == 0,
{
    let cards = merged_wcs_cards(f, original_header);
    let ghost padded = contents(cards@).map_values(|b: Seq<u8>| pad_card(b));
    let mut out: Vec<u8> = Vec::new();
    let mut i: usize = 0;
    assert(padded.take(0) =~= Seq::<Seq<u8>>::empty());
    while i < cards.len()
        invariant
            padded == contents(cards@).map_values(|b: Seq<u8>| pad_card(b)),
            i <= cards.len(),
            out@ == crate::fits_update::concat_cards(padded.take(i as int)),
            out.len() == 80 * i,
            80 * cards.len() + 2880 <= usize::MAX,
        decreases cards.len() - i,
    {
        let c = pad_or_truncate_card(cards[i].as_str());
        let mut j: usize = 0;
        let ghost start = out@;
        while j < 80
            invariant
                j <= 80,
                c.len() == 80,
                out@ == start + c@.take(j as int),
                start.len() + 80 <= usize::MAX,
            decreases 80 - j,
        {
            out.push(c[j]);
            assert(c@.take(j + 1) =~= c@.take(j as int).push(c@[j as int]));
            j += 1;
        }
        proof {
            assert(c@.take(80) =~= c@);
            assert(padded.take(i + 1).drop_last() =~= padded.take(i as int));
            assert(padded.take(i + 1).last() == c@);
        }
        i += 1;
    }
    assert(padded.take(cards.len() as int) =~= padded);
    let ghost body = out@;
    let n = cards.len();
    let blanks: usize = if n % 36 == 0 {
        0
    } else {
        36 - n % 36
    };
    let mut k: usize = 0;
    while k < 80 * blanks
        invariant
            blanks <= 36,
            k <= 80 * blanks,
            body.len() == 80 * n,
            out@.take(80 * n) == body,
            out.len() == 80 * n + k,
            80 * n + 2880 <= usize::MAX,
            forall|j: int| 80 * n <= j < out.len() ==> out@[j] == 32u8,
        decreases 80 * blanks - k,
    {
        out.push(32u8);
        k += 1;
    }
    proof {
        assert(out@ =~= body + crate::fits_update::blank_bytes(80 * blank_cards_needed(n as nat)));
        assert((80 * n + 80 * blanks) % 2880 == 0) by (nonlinear_arith)
            requires
                blanks == (if n % 36 == 0 { 0 } else { 36 - n % 36 }),
        ;
    }
    out
}

/// ASTAP's success `.ini`: `PLTSOLVD=T`, then twelve `KEY=value` lines in a
/// fixed order, then `CMDLINE=`; LF after every line.
pub open spec fn ini_success_text(v: WcsFields, cmdline: Seq<char>) -> Seq<char> {
    "PLTSOLVD=T\n"@
        + "CRPIX1="@ + v.crpix1@ + "\n"@
        + "CRPIX2="@ + v.crpix2@ + "\n"@
        + "CRVAL1="@ + v.crval1@ + "\n"@
        + "CRVAL2="@ + v.crval2@ + "\n"@
        + "CDELT1="@ + v.cdelt1@ + "\n"@
        + "CDELT2="@ + v.cdelt2@ + "\n"@
        + "CROTA1="@ + v.crota1@ + "\n"@
        + "CROTA2="@ + v.crota2@ + "\n"@
        + "CD1_1="@ + v.cd1_1@ + "\n"@
        + "CD1_2="@ + v.cd1_2@ + "\n"@
        + "CD2_1="@ + v.cd2_1@ + "\n"@
        + "CD2_2="@ + v.cd2_2@ + "\n"@
        + "CMDLINE="@ + cmdline + "\n"@
}

/// `t` holds `line` as one of its lines: right after the start or a newline,
/// and followed by a newline.
pub open spec fn has_line(t: Seq<char>, line: Seq<char>) -> bool {
    exists|i: int|
        0 <= i && i + line.len() < t.len() && #[trigger] t.subrange(i, i + line.len()) == line && t[i
            + line.len()] == '\n' && (i == 0 || t[i - 1] == '\n')
}

proof fn lemma_line_at(t: Seq<char>, before: Seq<char>, line: Seq<char>, after: Seq<char>)
    requires
        t =~= before + line + "\n"@ + after,
        before.len() > 0 && before.last() == '\n',
    ensures
        has_line(t, line),
{
    reveal_strlit("\n");
    let i = before.len() as int;
    assert(t.subrange(i, i + line.len()) =~= line);
    assert(t[i + line.len()] == '\n');
    assert(t[i - 1] == before.last());
}

/// The success `.ini` gives each WCS key its own field and `CMDLINE` the
/// command line: for every field, its text follows `KEY=` on a line of
/// its own.
pub proof fn law_ini_success_lines(v: WcsFields, cmdline: Seq<char>)
    ensures
        ini_success_text(v, cmdline).take(11) == "PLTSOLVD=T\n"@,
        has_line(ini_success_text(v, cmdline), "CRPIX1="@ + v.crpix1@),
        has_line(ini_success_text(v, cmdline), "CRPIX2="@ + v.crpix2@),
        has_line(ini_success_text(v, cmdline), "CRVAL1="@ + v.crval1@),
        has_line(ini_success_text(v, cmdline), "CRVAL2="@ + v.crval2@),
        has_line(ini_success_text(v, cmdline), "CDELT1="@ + v.cdelt1@),
        has_line(ini_success_text(v, cmdline), "CDELT2="@ + v.cdelt2@),
        has_line(ini_success_text(v, cmdline), "CROTA1="@ + v.crota1@),
        has_line(ini_success_text(v, cmdline), "CROTA2="@ + v.crota2@),
        has_line(ini_success_text(v, cmdline), "CD1_1="@ + v.cd1_1@),
        has_line(ini_success_text(v, cmdline), "CD1_2="@ + v.cd1_2@),
        has_line(ini_success_text(v, cmdline), "CD2_1="@ + v.cd2_1@),
        has_line(ini_success_text(v, cmdline), "CD2_2="@ + v.cd2_2@),
        has_line(ini_success_text(v, cmdline), "CMDLINE="@ + cmdline),
{
    reveal_strlit("PLTSOLVD=T\n");
    assert(ini_success_text(v, cmdline).take(11) =~= "PLTSOLVD=T\n"@);
    lemma_ini_line_crpix1(v, cmdline);
    lemma_ini_line_crpix2(v, cmdline);
    lemma_ini_line_crval1(v, cmdline);
    lemma_ini_line_crval2(v, cmdline);
    lemma_ini_line_cdelt1(v, cmdline);
    lemma_ini_line_cdelt2(v, cmdline);
    lemma_ini_line_crota1(v, cmdline);
    lemma_ini_line_crota2(v, cmdline);
    lemma_ini_line_cd1_1(v, cmdline);
    lemma_ini_line_cd1_2(v, cmdline);
    lemma_ini_line_cd2_1(v, cmdline);
    lemma_ini_line_cd2_2(v, cmdline);
    lemma_ini_line_cmdline(v, cmdline);
}

#[verifier::spinoff_prover]
proof fn lemma_ini_line_crpix1(v: WcsFields, cmdline: Seq<char>)
    ensures
        has_line(ini_success_text(v, cmdline), "CRPIX1="@ + v.crpix1@),
{
    reveal_strlit("\n");
    reveal_strlit("PLTSOLVD=T\n");
    let before = "PLTSOLVD=T\n"@;
    let after = "CRPIX2="@ + v.crpix2@ + "\n"@ + "CRVAL1="@ + v.crval1@ + "\n"@ + "CRVAL2="@ + v.crval2@ + "\n"@ + "CDELT1="@ + v.cdelt1@ + "\n"@ + "CDELT2="@ + v.cdelt2@ + "\n"@ + "CROTA1="@ + v.crota1@ + "\n"@ + "CROTA2="@ + v.crota2@ + "\n"@ + "CD1_1="@ + v.cd1_1@ + "\n"@ + "CD1_2="@ + v.cd1_2@ + "\n"@ + "CD2_1="@ + v.cd2_1@ + "\n"@ + "CD2_2="@ + v.cd2_2@ + "\n"@ + "CMDLINE="@ + cmdline + "\n"@;
    assert(before.last() == '\n');
    assert(ini_success_text(v, cmdline) =~= before + ("CRPIX1="@ + v.crpix1@) + "\n"@ + after);
    lemma_line_at(ini_success_text(v, cmdline), before, "CRPIX1="@ + v.crpix1@, after);
}

#[verifier::spinoff_prover]
proof fn lemma_ini_line_crpix2(v: WcsFields, cmdline: Seq<char>)
    ensures
        has_line(ini_success_text(v, cmdline), "CRPIX2="@ + v.crpix2@),
{
    reveal_strlit("\n");
    reveal_strlit("PLTSOLVD=T\n");
    let before = "PLTSOLVD=T\n"@ + "CRPIX1="@ + v.crpix1@ + "\n"@;
    let after = "CRVAL1="@ + v.crval1@ + "\n"@ + "CRVAL2="@ + v.crval2@ + "\n"@ + "CDELT1="@ + v.cdelt1@ + "\n"@ + "CDELT2="@ + v.cdelt2@ + "\n"@ + "CROTA1="@ + v.crota1@ + "\n"@ + "CROTA2="@ + v.crota2@ + "\n"@ + "CD1_1="@ + v.cd1_1@ + "\n"@ + "CD1_2="@ + v.cd1_2@ + "\n"@ + "CD2_1="@ + v.cd2_1@ + "\n"@ + "CD2_2="@ + v.cd2_2@ + "\n"@ + "CMDLINE="@ + cmdline + "\n"@;
    assert(before.last() == '\n');
    assert(ini_success_text(v, cmdline) =~= before + ("CRPIX2="@ + v.crpix2@) + "\n"@ + after);
    lemma_line_at(ini_success_text(v, cmdline), before, "CRPIX2="@ + v.crpix2@, after);
}

#[verifier::spinoff_prover]
proof fn lemma_ini_line_crval1(v: WcsFields, cmdline: Seq<char>)
    ensures
        has_line(ini_success_text(v, cmdline), "CRVAL1="@ + v.crval1@),
{
    reveal_strlit("\n");
    reveal_strlit("PLTSOLVD=T\n");
    let before = "PLTSOLVD=T\n"@ + "CRPIX1="@ + v.crpix1@ + "\n"@ + "CRPIX2="@ + v.crpix2@ + "\n"@;
    let after = "CRVAL2="@ + v.crval2@ + "\n"@ + "CDELT1="@ + v.cdelt1@ + "\n"@ + "CDELT2="@ + v.cdelt2@ + "\n"@ + "CROTA1="@ + v.crota1@ + "\n"@ + "CROTA2="@ + v.crota2@ + "\n"@ + "CD1_1="@ + v.cd1_1@ + "\n"@ + "CD1_2="@ + v.cd1_2@ + "\n"@ + "CD2_1="@ + v.cd2_1@ + "\n"@ + "CD2_2="@ + v.cd2_2@ + "\n"@ + "CMDLINE="@ + cmdline + "\n"@;
    assert(before.last() == '\n');
    assert(ini_success_text(v, cmdline) =~= before + ("CRVAL1="@ + v.crval1@) + "\n"@ + after);
    lemma_line_at(ini_success_text(v, cmdline), before, "CRVAL1="@ + v.crval1@, after);
}

#[verifier::spinoff_prover]
proof fn lemma_ini_line_crval2(v: WcsFields, cmdline: Seq<char>)
    ensures
        has_line(ini_success_text(v, cmdline), "CRVAL2="@ + v.crval2@),
{
    reveal_strlit("\n");
    reveal_strlit("PLTSOLVD=T\n");
    let before = "PLTSOLVD=T\n"@ + "CRPIX1="@ + v.crpix1@ + "\n"@ + "CRPIX2="@ + v.crpix2@ + "\n"@ + "CRVAL1="@ + v.crval1@ + "\n"@;
    let after = "CDELT1="@ + v.cdelt1@ + "\n"@ + "CDELT2="@ + v.cdelt2@ + "\n"@ + "CROTA1="@ + v.crota1@ + "\n"@ + "CROTA2="@ + v.crota2@ + "\n"@ + "CD1_1="@ + v.cd1_1@ + "\n"@ + "CD1_2="@ + v.cd1_2@ + "\n"@ + "CD2_1="@ + v.cd2_1@ + "\n"@ + "CD2_2="@ + v.cd2_2@ + "\n"@ + "CMDLINE="@ + cmdline + "\n"@;
    assert(before.last() == '\n');
    assert(ini_success_text(v, cmdline) =~= before + ("CRVAL2="@ + v.crval2@) + "\n"@ + after);
    lemma_line_at(ini_success_text(v, cmdline), before, "CRVAL2="@ + v.crval2@, after);
}

#[verifier::spinoff_prover]
proof fn lemma_ini_line_cdelt1(v: WcsFields, cmdline: Seq<char>)
    ensures
        has_line(ini_success_text(v, cmdline), "CDELT1="@ + v.cdelt1@),
{
    reveal_strlit("\n");
    reveal_strlit("PLTSOLVD=T\n");
    let before = "PLTSOLVD=T\n"@ + "CRPIX1="@ + v.crpix1@ + "\n"@ + "CRPIX2="@ + v.crpix2@ + "\n"@ + "CRVAL1="@ + v.crval1@ + "\n"@ + "CRVAL2="@ + v.crval2@ + "\n"@;
    let after = "CDELT2="@ + v.cdelt2@ + "\n"@ + "CROTA1="@ + v.crota1@ + "\n"@ + "CROTA2="@ + v.crota2@ + "\n"@ + "CD1_1="@ + v.cd1_1@ + "\n"@ + "CD1_2="@ + v.cd1_2@ + "\n"@ + "CD2_1="@ + v.cd2_1@ + "\n"@ + "CD2_2="@ + v.cd2_2@ + "\n"@ + "CMDLINE="@ + cmdline + "\n"@;
    assert(before.last() == '\n');
    assert(ini_success_text(v, cmdline) =~= before + ("CDELT1="@ + v.cdelt1@) + "\n"@ + after);
    lemma_line_at(ini_success_text(v, cmdline), before, "CDELT1="@ + v.cdelt1@, after);
}

#[verifier::spinoff_prover]
proof fn lemma_ini_line_cdelt2(v: WcsFields, cmdline: Seq<char>)
    ensures
        has_line(ini_success_text(v, cmdline), "CDELT2="@ + v.cdelt2@),
{
    reveal_strlit("\n");
    reveal_strlit("PLTSOLVD=T\n");
    let before = "PLTSOLVD=T\n"@ + "CRPIX1="@ + v.crpix1@ + "\n"@ + "CRPIX2="@ + v.crpix2@ + "\n"@ + "CRVAL1="@ + v.crval1@ + "\n"@ + "CRVAL2="@ + v.crval2@ + "\n"@ + "CDELT1="@ + v.cdelt1@ + "\n"@;
    let after = "CROTA1="@ + v.crota1@ + "\n"@ + "CROTA2="@ + v.crota2@ + "\n"@ + "CD1_1="@ + v.cd1_1@ + "\n"@ + "CD1_2="@ + v.cd1_2@ + "\n"@ + "CD2_1="@ + v.cd2_1@ + "\n"@ + "CD2_2="@ + v.cd2_2@ + "\n"@ + "CMDLINE="@ + cmdline + "\n"@;
    assert(before.last() == '\n');
    assert(ini_success_text(v, cmdline) =~= before + ("CDELT2="@ + v.cdelt2@) + "\n"@ + after);
    lemma_line_at(ini_success_text(v, cmdline), before, "CDELT2="@ + v.cdelt2@, after);
}

#[verifier::spinoff_prover]
proof fn lemma_ini_line_crota1(v: WcsFields, cmdline: Seq<char>)
    ensures
        has_line(ini_success_text(v, cmdline), "CROTA1="@ + v.crota1@),
{
    reveal_strlit("\n");
    reveal_strlit("PLTSOLVD=T\n");
    let before = "PLTSOLVD=T\n"@ + "CRPIX1="@ + v.crpix1@ + "\n"@ + "CRPIX2="@ + v.crpix2@ + "\n"@ + "CRVAL1="@ + v.crval1@ + "\n"@ + "CRVAL2="@ + v.crval2@ + "\n"@ + "CDELT1="@ + v.cdelt1@ + "\n"@ + "CDELT2="@ + v.cdelt2@ + "\n"@;
    let after = "CROTA2="@ + v.crota2@ + "\n"@ + "CD1_1="@ + v.cd1_1@ + "\n"@ + "CD1_2="@ + v.cd1_2@ + "\n"@ + "CD2_1="@ + v.cd2_1@ + "\n"@ + "CD2_2="@ + v.cd2_2@ + "\n"@ + "CMDLINE="@ + cmdline + "\n"@;
    assert(before.last() == '\n');
    assert(ini_success_text(v, cmdline) =~= before + ("CROTA1="@ + v.crota1@) + "\n"@ + after);
    lemma_line_at(ini_success_text(v, cmdline), before, "CROTA1="@ + v.crota1@, after);
}

#[verifier::spinoff_prover]
proof fn lemma_ini_line_crota2(v: WcsFields, cmdline: Seq<char>)
    ensures
        has_line(ini_success_text(v, cmdline), "CROTA2="@ + v.crota2@),
{
    reveal_strlit("\n");
    reveal_strlit("PLTSOLVD=T\n");
    let before = "PLTSOLVD=T\n"@ + "CRPIX1="@ + v.crpix1@ + "\n"@ + "CRPIX2="@ + v.crpix2@ + "\n"@ + "CRVAL1="@ + v.crval1@ + "\n"@ + "CRVAL2="@ + v.crval2@ + "\n"@ + "CDELT1="@ + v.cdelt1@ + "\n"@ + "CDELT2="@ + v.cdelt2@ + "\n"@ + "CROTA1="@ + v.crota1@ + "\n"@;
    let after = "CD1_1="@ + v.cd1_1@ + "\n"@ + "CD1_2="@ + v.cd1_2@ + "\n"@ + "CD2_1="@ + v.cd2_1@ + "\n"@ + "CD2_2="@ + v.cd2_2@ + "\n"@ + "CMDLINE="@ + cmdline + "\n"@;
    assert(before.last() == '\n');
    assert(ini_success_text(v, cmdline) =~= before + ("CROTA2="@ + v.crota2@) + "\n"@ + after);
    lemma_line_at(ini_success_text(v, cmdline), before, "CROTA2="@ + v.crota2@, after);
}

#[verifier::spinoff_prover]
proof fn lemma_ini_line_cd1_1(v: WcsFields, cmdline: Seq<char>)
    ensures
        has_line(ini_success_text(v, cmdline), "CD1_1="@ + v.cd1_1@),
{
    reveal_strlit("\n");
    reveal_strlit("PLTSOLVD=T\n");
    let before = "PLTSOLVD=T\n"@ + "CRPIX1="@ + v.crpix1@ + "\n"@ + "CRPIX2="@ + v.crpix2@ + "\n"@ + "CRVAL1="@ + v.crval1@ + "\n"@ + "CRVAL2="@ + v.crval2@ + "\n"@ + "CDELT1="@ + v.cdelt1@ + "\n"@ + "CDELT2="@ + v.cdelt2@ + "\n"@ + "CROTA1="@ + v.crota1@ + "\n"@ + "CROTA2="@ + v.crota2@ + "\n"@;
    let after = "CD1_2="@ + v.cd1_2@ + "\n"@ + "CD2_1="@ + v.cd2_1@ + "\n"@ + "CD2_2="@ + v.cd2_2@ + "\n"@ + "CMDLINE="@ + cmdline + "\n"@;
    assert(before.last() == '\n');
    assert(ini_success_text(v, cmdline) =~= before + ("CD1_1="@ + v.cd1_1@) + "\n"@ + after);
    lemma_line_at(ini_success_text(v, cmdline), before, "CD1_1="@ + v.cd1_1@, after);
}

#[verifier::spinoff_prover]
proof fn lemma_ini_line_cd1_2(v: WcsFields, cmdline: Seq<char>)
    ensures
        has_line(ini_success_text(v, cmdline), "CD1_2="@ + v.cd1_2@),
{
    reveal_strlit("\n");
    reveal_strlit("PLTSOLVD=T\n");
    let before = "PLTSOLVD=T\n"@ + "CRPIX1="@ + v.crpix1@ + "\n"@ + "CRPIX2="@ + v.crpix2@ + "\n"@ + "CRVAL1="@ + v.crval1@ + "\n"@ + "CRVAL2="@ + v.crval2@ + "\n"@ + "CDELT1="@ + v.cdelt1@ + "\n"@ + "CDELT2="@ + v.cdelt2@ + "\n"@ + "CROTA1="@ + v.crota1@ + "\n"@ + "CROTA2="@ + v.crota2@ + "\n"@ + "CD1_1="@ + v.cd1_1@ + "\n"@;
    let after = "CD2_1="@ + v.cd2_1@ + "\n"@ + "CD2_2="@ + v.cd2_2@ + "\n"@ + "CMDLINE="@ + cmdline + "\n"@;
    assert(before.last() == '\n');
    assert(ini_success_text(v, cmdline) =~= before + ("CD1_2="@ + v.cd1_2@) + "\n"@ + after);
    lemma_line_at(ini_success_text(v, cmdline), before, "CD1_2="@ + v.cd1_2@, after);
}

#[verifier::spinoff_prover]
proof fn lemma_ini_line_cd2_1(v: WcsFields, cmdline: Seq<char>)
    ensures
        has_line(ini_success_text(v, cmdline), "CD2_1="@ + v.cd2_1@),
{
    reveal_strlit("\n");
    reveal_strlit("PLTSOLVD=T\n");
    let before = "PLTSOLVD=T\n"@ + "CRPIX1="@ + v.crpix1@ + "\n"@ + "CRPIX2="@ + v.crpix2@ + "\n"@ + "CRVAL1="@ + v.crval1@ + "\n"@ + "CRVAL2="@ + v.crval2@ + "\n"@ + "CDELT1="@ + v.cdelt1@ + "\n"@ + "CDELT2="@ + v.cdelt2@ + "\n"@ + "CROTA1="@ + v.crota1@ + "\n"@ + "CROTA2="@ + v.crota2@ + "\n"@ + "CD1_1="@ + v.cd1_1@ + "\n"@ + "CD1_2="@ + v.cd1_2@ + "\n"@;
    let after = "CD2_2="@ + v.cd2_2@ + "\n"@ + "CMDLINE="@ + cmdline + "\n"@;
    assert(before.last() == '\n');
    assert(ini_success_text(v, cmdline) =~= before + ("CD2_1="@ + v.cd2_1@) + "\n"@ + after);
    lemma_line_at(ini_success_text(v, cmdline), before, "CD2_1="@ + v.cd2_1@, after);
}

#[verifier::spinoff_prover]
proof fn lemma_ini_line_cd2_2(v: WcsFields, cmdline: Seq<char>)
    ensures
        has_line(ini_success_text(v, cmdline), "CD2_2="@ + v.cd2_2@),
{
    reveal_strlit("\n");
    reveal_strlit("PLTSOLVD=T\n");
    let before = "PLTSOLVD=T\n"@ + "CRPIX1="@ + v.crpix1@ + "\n"@ + "CRPIX2="@ + v.crpix2@ + "\n"@ + "CRVAL1="@ + v.crval1@ + "\n"@ + "CRVAL2="@ + v.crval2@ + "\n"@ + "CDELT1="@ + v.cdelt1@ + "\n"@ + "CDELT2="@ + v.cdelt2@ + "\n"@ + "CROTA1="@ + v.crota1@ + "\n"@ + "CROTA2="@ + v.crota2@ + "\n"@ + "CD1_1="@ + v.cd1_1@ + "\n"@ + "CD1_2="@ + v.cd1_2@ + "\n"@ + "CD2_1="@ + v.cd2_1@ + "\n"@;
    let after = "CMDLINE="@ + cmdline + "\n"@;
    assert(before.last() == '\n');
    assert(ini_success_text(v, cmdline) =~= before + ("CD2_2="@ + v.cd2_2@) + "\n"@ + after);
    lemma_line_at(ini_success_text(v, cmdline), before, "CD2_2="@ + v.cd2_2@, after);
}

#[verifier::spinoff_prover]
proof fn lemma_ini_line_cmdline(v: WcsFields, cmdline: Seq<char>)
    ensures
        has_line(ini_success_text(v, cmdline), "CMDLINE="@ + cmdline),
{
    reveal_strlit("\n");
    reveal_strlit("PLTSOLVD=T\n");
    let before = "PLTSOLVD=T\n"@ + "CRPIX1="@ + v.crpix1@ + "\n"@ + "CRPIX2="@ + v.crpix2@ + "\n"@ + "CRVAL1="@ + v.crval1@ + "\n"@ + "CRVAL2="@ + v.crval2@ + "\n"@ + "CDELT1="@ + v.cdelt1@ + "\n"@ + "CDELT2="@ + v.cdelt2@ + "\n"@ + "CROTA1="@ + v.crota1@ + "\n"@ + "CROTA2="@ + v.crota2@ + "\n"@ + "CD1_1="@ + v.cd1_1@ + "\n"@ + "CD1_2="@ + v.cd1_2@ + "\n"@ + "CD2_1="@ + v.cd2_1@ + "\n"@ + "CD2_2="@ + v.cd2_2@ + "\n"@;
    let after = Seq::<char>::empty();
    assert(before.last() == '\n');
    assert(ini_success_text(v, cmdline) =~= before + ("CMDLINE="@ + cmdline) + "\n"@ + after);
    lemma_line_at(ini_success_text(v, cmdline), before, "CMDLINE="@ + cmdline, after);
}

/// Format a solved WCS as ASTAP's success-case `.ini` (the values already
/// in ASTAP's 16-digit number format).
pub fn format_ini_success(v: &WcsFields, cmdline: &str) -> (r: String)
    ensures
        r@ == ini_success_text(*v, cmdline@),
{
    let mut out = String::new();
    push_all(&mut out, "PLTSOLVD=T\n");
    push_all(&mut out, "CRPIX1=");
    push_all(&mut out, v.crpix1.as_str());
    push_char(&mut out, '\n');
    push_all(&mut out, "CRPIX2=");
    push_all(&mut out, v.crpix2.as_str());
    push_char(&mut out, '\n');
    push_all(&mut out, "CRVAL1=");
    push_all(&mut out, v.crval1.as_str());
    push_char(&mut out, '\n');
    push_all(&mut out, "CRVAL2=");
    push_all(&mut out, v.crval2.as_str());
    push_char(&mut out, '\n');
    push_all(&mut out, "CDELT1=");
    push_all(&mut out, v.cdelt1.as_str());
    push_char(&mut out, '\n');
    push_all(&mut out, "CDELT2=");
    push_all(&mut out, v.cdelt2.as_str());
    push_char(&mut out, '\n');
    push_all(&mut out, "CROTA1=");
    push_all(&mut out, v.crota1.as_str());
    push_char(&mut out, '\n');
    push_all(&mut out, "CROTA2=");
    push_all(&mut out, v.crota2.as_str());
    push_char(&mut out, '\n');
    push_all(&mut out, "CD1_1=");
    push_all(&mut out, v.cd1_1.as_str());
    push_char(&mut out, '\n');
    push_all(&mut out, "CD1_2=");
    push_all(&mut out, v.cd1_2.as_str());
    push_char(&mut out, '\n');
    push_all(&mut out, "CD2_1=");
    push_all(&mut out, v.cd2_1.as_str());
    push_char(&mut out, '\n');
    push_all(&mut out, "CD2_2=");
    push_all(&mut out, v.cd2_2.as_str());
    push_char(&mut out, '\n');
    push_all(&mut out, "CMDLINE=");
    push_all(&mut out, cmdline);
    push_char(&mut out, '\n');
    proof {
        reveal_strlit("\n");
    }
    assert(out@ =~= ini_success_text(*v, cmdline@));
    out
}

/// ASTAP's failure `.ini`: a blank first line, then `PLTSOLVD=F`, then
/// `CMDLINE=` before `ERROR=`.
pub open spec fn ini_failure_text(cmdline: Seq<char>, error: Seq<char>) -> Seq<char> {
    "\nPLTSOLVD=F\nCMDLINE="@ + cmdline + "\nERROR="@ + error + "\n"@
}

/// The failure `.ini` starts with a blank line and `PLTSOLVD=F`, and gives
/// `CMDLINE` the command line and `ERROR` the error, each on a line of its
/// own.
pub proof fn law_ini_failure_lines(cmdline: Seq<char>, error: Seq<char>)
    ensures
        ini_failure_text(cmdline, error).take(12) == "\nPLTSOLVD=F\n"@,
        has_line(ini_failure_text(cmdline, error), "CMDLINE="@ + cmdline),
        has_line(ini_failure_text(cmdline, error), "ERROR="@ + error),
{
    reveal_strlit("\nPLTSOLVD=F\nCMDLINE=");
    reveal_strlit("\nPLTSOLVD=F\n");
    reveal_strlit("CMDLINE=");
    reveal_strlit("\nERROR=");
    reveal_strlit("ERROR=");
    reveal_strlit("\n");
    let t = ini_failure_text(cmdline, error);
    assert(t.take(12) =~= "\nPLTSOLVD=F\n"@);
    let b1 = "\nPLTSOLVD=F\n"@;
    assert(b1.last() == '\n');
    assert(t =~= b1 + ("CMDLINE="@ + cmdline) + "\n"@ + ("ERROR="@ + error + "\n"@));
    lemma_line_at(t, b1, "CMDLINE="@ + cmdline, "ERROR="@ + error + "\n"@);
    let b2 = b1 + ("CMDLINE="@ + cmdline) + "\n"@;
    assert(b2.last() == '\n');
    assert(t =~= b2 + ("ERROR="@ + error) + "\n"@ + Seq::<char>::empty());
    lemma_line_at(t, b2, "ERROR="@ + error, Seq::<char>::empty());
}

/// Format ASTAP's failure-case `.ini`.
pub fn format_ini_failure(cmdline: &str, error: &str) -> (r: String)
    ensures
        r@ == ini_failure_text(cmdline@, error@),
{
    let mut out = String::new();
    push_all(&mut out, "\nPLTSOLVD=F\nCMDLINE=");
    push_all(&mut out, cmdline);
    push_all(&mut out, "\nERROR=");
    push_all(&mut out, error);
    push_all(&mut out, "\n");
    out
}

/// The value of an `i32` written as `s` (`str::parse::<i32>`), if it is one.
pub open spec fn i32_value(s: Seq<char>) -> Option<int> {
    if s.len() > 0 && s[0] == '-' {
        let d = s.drop_first();
        if all_digits(d) && digits_value(d) <= 2147483648 {
            Some(-(digits_value(d) as int))
        } else {
            None
        }
    } else {
        let d = unsigned_digits(s);
        if all_digits(d) && digits_value(d) <= 2147483647 {
            Some(digits_value(d) as int)
        } else {
            None
        }
    }
}

/// The mantissa and exponent texts of a `{:e}`-formatted number: split at
/// the first `e`; without one, the whole text and `0`.
pub open spec fn split_exponent(f: Seq<char>) -> (Seq<char>, Seq<char>) {
    match crate::catalog::find_char_from(f, 'e', 0) {
        Some(i) => (f.take(i), f.skip(i + 1)),
        None => (f, seq!['0']),
    }
}

/// The exponent's value: its text read as an `i32`, or 0 when it is not one.
pub open spec fn exponent_value(f: Seq<char>) -> int {
    match i32_value(split_exponent(f).1) {
        Some(v) => v,
        None => 0,
    }
}

/// `n` in decimal, zero-padded to at least three digits (`{:03}`).
pub open spec fn three_digits(n: nat) -> Seq<char> {
    let d = decimal(n);
    if d.len() >= 3 {
        d
    } else {
        Seq::new((3 - d.len()) as nat, |i: int| '0') + d
    }
}

/// ASTAP's number layout from a `{:.Ne}` text: a leading space where a
/// negative mantissa's `-` would sit, `E`, an explicit exponent sign, and a
/// three-digit exponent.
pub open spec fn astap_number_text(f: Seq<char>) -> Seq<char> {
    let mantissa = split_exponent(f).0;
    let e = exponent_value(f);
    (if mantissa.len() > 0 && mantissa[0] == '-' {
        mantissa
    } else {
        seq![' '] + mantissa
    }) + seq!['E', if e < 0 { '-' } else { '+' }] + three_digits(if e < 0 { (-e) as nat } else { e as nat })
}

/// The mantissa and exponent texts of `formatted` (see [`split_exponent`]).
fn split_exponent_exec(formatted: &str) -> (r: (Vec<char>, Vec<char>))
    ensures
        (r.0@, r.1@) == split_exponent(formatted@),
{
    let v = crate::text::chars_of(formatted);
    let mut e_at: usize = 0;
    while e_at < v.len() && v[e_at] != 'e'
        invariant
            v@ == formatted@,
            e_at <= v.len(),
            crate::catalog::find_char_from(v@, 'e', 0) == crate::catalog::find_char_from(v@, 'e', e_at as int),
        decreases v.len() - e_at,
    {
        e_at += 1;
    }
    let mut mantissa: Vec<char> = Vec::new();
    let mut k: usize = 0;
    while k < e_at
        invariant
            e_at <= v.len(),
            k <= e_at,
            mantissa@ == v@.take(k as int),
        decreases e_at - k,
    {
        mantissa.push(v[k]);
        assert(v@.take(k + 1) =~= v@.take(k as int).push(v@[k as int]));
        k += 1;
    }
    let mut exp: Vec<char> = Vec::new();
    if e_at < v.len() {
        let mut j: usize = e_at + 1;
        while j < v.len()
            invariant
                e_at < v.len(),
                e_at + 1 <= j <= v.len(),
                exp@ == v@.subrange(e_at + 1, j as int),
            decreases v.len() - j,
        {
            exp.push(v[j]);
            assert(v@.subrange(e_at + 1, j + 1) =~= v@.subrange(e_at + 1, j as int).push(v@[j as int]));
            j += 1;
        }
        assert(v@.subrange(e_at + 1, v.len() as int) =~= v@.skip(e_at + 1));
    } else {
        exp.push('0');
        assert(exp@ =~= seq!['0']);
        assert(v@.take(e_at as int) =~= v@);
    }
    (mantissa, exp)
}

/// The sign and magnitude of the exponent text read as an `i32` (zero when
/// it is not one).
fn exponent_parts(x: &Vec<char>) -> (r: (bool, u64))
    ensures
        ({
            let e = match i32_value(x@) {
                Some(v) => v,
                None => 0,
            };
            r.0 == (e < 0) && r.1 == (if e < 0 { -e } else { e }) && r.1 <= 2147483648
        }),
{
    if x.len() > 0 && x[0] == '-' {
        if x.len() > 1 && x[1] == '+' {
            assert(x@.drop_first()[0] == '+');
            assert(!all_digits(x@.drop_first()));
            return (false, 0);
        }
        let digits = chars_after_first(x);
        proof {
            if digits@.len() > 0 {
                assert(digits@[0] == x@[1]);
            }
            assert(unsigned_digits(digits@) == digits@);
        }
        match parse_unsigned(digits.as_str(), 2147483648) {
            Some(m) => (m > 0, m),
            None => (false, 0),
        }
    } else {
        let text = crate::text::string_from_chars(x.as_slice());
        match parse_unsigned(text.as_str(), 2147483647) {
            Some(m) => (false, m),
            None => (false, 0),
        }
    }
}

/// `n` in at least three digits, zero-padded (`{:03}`).
fn three_digit_text(n: u64) -> (r: String)
    requires
        n <= 2147483648,
    ensures
        r@ == three_digits(n as nat),
{
    let digits = crate::text::usize_to_decimal(n as usize);
    let len: usize = digits.unicode_len();
    let mut out = String::new();
    let mut pad: usize = len;
    while pad < 3
        invariant
            len <= pad,
            pad <= 3 || pad == len,
            out@ == Seq::new((pad - len) as nat, |i: int| '0'),
        decreases 3 - pad,
    {
        push_char(&mut out, '0');
        assert(Seq::new((pad + 1 - len) as nat, |i: int| '0') =~= Seq::new(
            (pad - len) as nat,
            |i: int| '0',
        ).push('0'));
        pad += 1;
    }
    push_all(&mut out, digits.as_str());
    proof {
        if len >= 3 {
            assert(out@ =~= digits@);
        }
    }
    out
}

/// Lay a `{:.Ne}`-formatted number out the way ASTAP prints it (see
/// [`astap_number_text`]).
pub fn astap_number(formatted: &str) -> (r: String)
    requires
        exponent_value(formatted@) != -2147483648,
    ensures
        r@ == astap_number_text(formatted@),
{
    let (mantissa, exp) = split_exponent_exec(formatted);
    let (negative, magnitude) = exponent_parts(&exp);
    let mut out = String::new();
    let m = crate::text::string_from_chars(mantissa.as_slice());
    if mantissa.len() > 0 && mantissa[0] == '-' {
        push_all(&mut out, m.as_str());
    } else {
        push_char(&mut out, ' ');
        push_all(&mut out, m.as_str());
        assert(out@ =~= seq![' '] + mantissa@);
    }
    push_char(&mut out, 'E');
    if negative {
        push_char(&mut out, '-');
    } else {
        push_char(&mut out, '+');
    }
    let d = three_digit_text(magnitude);
    push_all(&mut out, d.as_str());
    assert(out@ =~= astap_number_text(formatted@));
    out
}

/// Every character of `v` but the first.
fn chars_after_first(v: &Vec<char>) -> (r: String)
    requires
        v.len() > 0,
    ensures
        r@ == v@.drop_first(),
{
    let mut out: Vec<char> = Vec::new();
    let mut i: usize = 1;
    while i < v.len()
        invariant
            1 <= i <= v.len(),
            out@ == v@.subrange(1, i as int),
        decreases v.len() - i,
    {
        out.push(v[i]);
        assert(v@.subrange(1, i + 1) =~= v@.subrange(1, i as int).push(v@[i as int]));
        i += 1;
    }
    assert(v@.subrange(1, v.len() as int) =~= v@.drop_first());
    crate::text::string_from_chars(out.as_slice())
}

} // verus!
