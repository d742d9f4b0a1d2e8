//! JSON string escaping, hexadecimal digests, and the float-free `NO_HINT`
//! result, for the JSON the subcommands print.
use vstd::prelude::*;
use crate::text::push_char;

verus! {

/// The lowercase hexadecimal digit for `d` (`0..16`).
pub open spec fn hex_digit(d: nat) -> char {
    if d < 10 {
        ((d + 48) as u8) as char
    } else {
        ((d + 87) as u8) as char
    }
}

/// One character as it appears inside a JSON string literal.
pub open spec fn escape_char(c: char) -> Seq<char> {
    if c == '"' {
        seq!['\\', '"']
    } else if c == '\\' {
        seq!['\\', '\\']
    } else if c == '\n' {
        seq!['\\', 'n']
    } else if c == '\r' {
        seq!['\\', 'r']
    } else if c == '\t' {
        seq!['\\', 't']
    } else if (c as u32) < 0x20 {
        seq!['\\', 'u', '0', '0', hex_digit((c as u32 / 16) as nat), hex_digit((c as u32 % 16) as nat)]
    } else {
        seq![c]
    }
}

/// `s` escaped for a JSON string literal, character by character.
pub open spec fn json_escaped(s: Seq<char>) -> Seq<char>
    decreases s.len(),
{
    if s.len() == 0 {
        Seq::empty()
    } else {
        json_escaped(s.drop_last()) + escape_char(s.last())
    }
}

/// The hexadecimal digit for `d`.
pub fn hex_char(d: u8) -> (c: char)
    requires
        d < 16,
    ensures
        c == hex_digit(d as nat),
{
    if d < 10 {
        (d + 48) as char
    } else {
        (d + 87) as char
    }
}

/// Escape a string for embedding in a JSON string literal: quote,
/// backslash and the control characters are escaped, everything else is
/// kept.
pub fn json_escape(s: &str) -> (r: String)
    ensures
        r@ == json_escaped(s@),
{
    let v = crate::text::chars_of(s);
    let mut out = String::new();
    let mut i: usize = 0;
    assert(v@.take(0) =~= Seq::<char>::empty());
    while i < v.len()
        invariant
            v@ == s@,
            i <= v.len(),
            out@ == json_escaped(v@.take(i as int)),
        decreases v.len() - i,
    {
        let c = v[i];
        let ghost before = out@;
        if c == '"' {
            push_char(&mut out, '\\');
            push_char(&mut out, '"');
        } else if c == '\\' {
            push_char(&mut out, '\\');
            push_char(&mut out, '\\');
        } else if c == '\n' {
            push_char(&mut out, '\\');
            push_char(&mut out, 'n');
        } else if c == '\r' {
            push_char(&mut out, '\\');
            push_char(&mut out, 'r');
        } else if c == '\t' {
            push_char(&mut out, '\\');
            push_char(&mut out, 't');
        } else if (c as u32) < 0x20 {
            let u = c as u32;
            push_char(&mut out, '\\');
            push_char(&mut out, 'u');
            push_char(&mut out, '0');
            push_char(&mut out, '0');
            push_char(&mut out, hex_char((u / 16) as u8));
            push_char(&mut out, hex_char((u % 16) as u8));
        } else {
            push_char(&mut out, c);
        }
        proof {
            assert(v@.take(i + 1).drop_last() =~= v@.take(i as int));
            assert(v@.take(i + 1).last() == c);
            assert(out@ =~= before + escape_char(c));
        }
        i += 1;
    }
    assert(v@.take(v.len() as int) =~= v@);
    out
}

/// The bytes as lowercase hexadecimal, two digits each.
pub open spec fn hex_text(d: Seq<u8>) -> Seq<char>
    decreases d.len(),
{
    if d.len() == 0 {
        Seq::empty()
    } else {
        hex_text(d.drop_last()) + seq![
            hex_digit((d.last() / 16) as nat),
            hex_digit((d.last() % 16) as nat),
        ]
    }
}

/// A digest as lowercase hexadecimal.
pub fn hex_bytes(d: &[u8]) -> (r: String)
    ensures
        r@ == hex_text(d@),
{
    let mut out = String::new();
    let mut i: usize = 0;
    assert(d@.take(0) =~= Seq::<u8>::empty());
    while i < d.len()
        invariant
            i <= d.len(),
            out@ == hex_text(d@.take(i as int)),
        decreases d.len() - i,
    {
        let b = d[i];
        let ghost before = out@;
        push_char(&mut out, hex_char(b / 16));
        push_char(&mut out, hex_char(b % 16));
        proof {
            assert(d@.take(i + 1).drop_last() =~= d@.take(i as int));
            assert(d@.take(i + 1).last() == b);
            assert(out@ =~= hex_text(d@.take(i + 1)));
        }
        i += 1;
    }
    assert(d@.take(d.len() as int) =~= d@);
    out
}

/// The result `psolve solve` prints when no pointing hint can be had and no
/// quad index was given: build and index name escaped.
pub open spec fn no_hint_text(build: Seq<char>, index_name: Seq<char>) -> Seq<char> {
    "{\"psolve\":\"0.1.0\",\"build\":\""@ + json_escaped(build)
        + "\",\"solved\":false,\"reason\":\"NO_HINT\",\"detail\":\"no pointing hint: pass --hint or supply OBJCTRA/OBJCTDEC or RA/DEC\",\"index\":{\"name\":\""@
        + json_escaped(index_name) + "\"}}"@
}

/// The `NO_HINT` result of `psolve solve`.
pub fn no_hint_json(build: &str, index_name: &str) -> (r: String)
    ensures
        r@ == no_hint_text(build@, index_name@),
{
    let mut r = String::new();
    r.append("{\"psolve\":\"0.1.0\",\"build\":\"");
    let b = json_escape(build);
    r.append(b.as_str());
    r.append(
        "\",\"solved\":false,\"reason\":\"NO_HINT\",\"detail\":\"no pointing hint: pass --hint or supply OBJCTRA/OBJCTDEC or RA/DEC\",\"index\":{\"name\":\"",
    );
    let n = json_escape(index_name);
    r.append(n.as_str());
    r.append("\"}}");
    assert(r@ =~= no_hint_text(build@, index_name@));
    r
}


/// The value of a hexadecimal digit, either case.
pub open spec fn hex_value(c: char) -> Option<nat> {
    if '0' <= c && c <= '9' {
        Some((c as nat - 48) as nat)
    } else if 'a' <= c && c <= 'f' {
        Some((c as nat - 87) as nat)
    } else if 'A' <= c && c <= 'F' {
        Some((c as nat - 55) as nat)
    } else {
        None
    }
}

/// The character a one-letter JSON escape `\x` stands for.
pub open spec fn simple_escape(x: char) -> Option<char> {
    if x == '"' {
        Some('"')
    } else if x == '\\' {
        Some('\\')
    } else if x == '/' {
        Some('/')
    } else if x == 'b' {
        Some('\x08')
    } else if x == 'f' {
        Some('\x0c')
    } else if x == 'n' {
        Some('\n')
    } else if x == 'r' {
        Some('\r')
    } else if x == 't' {
        Some('\t')
    } else {
        None
    }
}

/// The code of a `\uXXXX` escape whose four digits start at `t[2]`.
pub open spec fn u_escape_code(t: Seq<char>) -> Option<nat> {
    match (hex_value(t[2]), hex_value(t[3]), hex_value(t[4]), hex_value(t[5])) {
        (Some(a), Some(b), Some(c), Some(d)) => Some(4096 * a + 256 * b + 16 * c + d),
        _ => None,
    }
}

/// `c` in front of a decoding, if there is one.
pub open spec fn prepend(c: char, rest: Option<Seq<char>>) -> Option<Seq<char>> {
    match rest {
        Some(r) => Some(seq![c] + r),
        None => None,
    }
}

/// The characters the body of a JSON string literal stands for, read from
/// the front; `None` when the body holds a bare double quote, a raw control
/// character, or a backslash that begins no escape (a `\u` escape is read
/// here only for codes outside the surrogate range).
pub open spec fn json_unescaped(t: Seq<char>) -> Option<Seq<char>>
    decreases t.len(),
{
    if t.len() == 0 {
        Some(Seq::empty())
    } else if t[0] == '"' || (t[0] as u32) < 0x20 {
        None
    } else if t[0] == '\\' {
        if t.len() >= 2 && simple_escape(t[1]) is Some {
            prepend(simple_escape(t[1])->0, json_unescaped(t.skip(2)))
        } else if t.len() >= 6 && t[1] == 'u' && u_escape_code(t) is Some && (u_escape_code(t)->0
            < 0xD800 || 0xE000 <= u_escape_code(t)->0) {
            prepend(u_escape_code(t)->0 as char, json_unescaped(t.skip(6)))
        } else {
            None
        }
    } else {
        prepend(t[0], json_unescaped(t.skip(1)))
    }
}

proof fn lemma_escaped_front(s: Seq<char>)
    requires
        s.len() > 0,
    ensures
        json_escaped(s) == escape_char(s[0]) + json_escaped(s.skip(1)),
    decreases s.len(),
{
    if s.len() == 1 {
        assert(s.drop_last() =~= Seq::<char>::empty());
        assert(s.skip(1) =~= Seq::<char>::empty());
        assert(escape_char(s[0]) + Seq::<char>::empty() =~= escape_char(s[0]));
    } else {
        let f = s.drop_last();
        lemma_escaped_front(f);
        assert(f.skip(1) =~= s.skip(1).drop_last());
        assert(s.skip(1).last() == s.last());
        assert(escape_char(s[0]) + json_escaped(f.skip(1)) + escape_char(s.last()) =~= escape_char(
            s[0],
        ) + (json_escaped(f.skip(1)) + escape_char(s.last())));
    }
}

proof fn lemma_hex_round_trip(d: nat)
    requires
        d < 16,
    ensures
        hex_value(hex_digit(d)) == Some(d),
{
    if d < 10 {
        assert(((d + 48) as u8) as char as nat == d + 48);
    } else {
        assert(((d + 87) as u8) as char as nat == d + 87);
    }
}

proof fn lemma_unescape_one(c: char, rest: Seq<char>)
    ensures
        json_unescaped(escape_char(c) + rest) == prepend(c, json_unescaped(rest)),
{
    let t = escape_char(c) + rest;
    if c == '"' || c == '\\' || c == '\n' || c == '\r' || c == '\t' {
        assert(t.skip(2) =~= rest);
    } else if (c as u32) < 0x20 {
        let u = c as u32;
        lemma_hex_round_trip((u / 16) as nat);
        lemma_hex_round_trip((u % 16) as nat);
        assert(t[2] == '0' && t[3] == '0');
        assert(hex_value('0') == Some(0nat));
        assert(u_escape_code(t) == Some(((u / 16) * 16 + u % 16) as nat));
        assert((u / 16) * 16 + u % 16 == u);
        assert(t.skip(6) =~= rest);
        assert((u as nat) as char == c);
    } else {
        assert(t.skip(1) =~= rest);
    }
}

/// Reading back the escaped text gives the original characters: every
/// quote and backslash in it belongs to an escape, and nothing is lost or
/// changed.
pub proof fn law_json_escape_round_trip(s: Seq<char>)
    ensures
        json_unescaped(json_escaped(s)) == Some(s),
    decreases s.len(),
{
    if s.len() == 0 {
    } else {
        lemma_escaped_front(s);
        law_json_escape_round_trip(s.skip(1));
        lemma_unescape_one(s[0], json_escaped(s.skip(1)));
        assert(seq![s[0]] + s.skip(1) =~= s);
    }
}

/// The escaped text holds no raw control character.
pub proof fn law_json_escape_no_control(s: Seq<char>)
    ensures
        forall|i: int| 0 <= i < json_escaped(s).len() ==> (#[trigger] json_escaped(s)[i] as u32) >= 0x20,
    decreases s.len(),
{
    if s.len() > 0 {
        law_json_escape_no_control(s.drop_last());
        let a = json_escaped(s.drop_last());
        let e = escape_char(s.last());
        let c = s.last();
        if (c as u32) < 0x20 && c != '\n' && c != '\r' && c != '\t' {
            let u = c as u32;
            assert((u / 16) < 16 && (u % 16) < 16);
            assert(((((u / 16) + 48) as u8) as char as u32) >= 0x20);
            assert(((((u % 16) + 48) as u8) as char as u32) >= 0x20);
        }
        assert forall|i: int| 0 <= i < (a + e).len() implies ((a + e)[i] as u32) >= 0x20 by {
            if i >= a.len() {
                assert((a + e)[i] == e[i - a.len()]);
            }
        }
    }
}


} // verus!
