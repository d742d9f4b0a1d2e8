//! Argument checks and `mirror.json` reading for `psolve index`: the index
//! name guard, `--jobs`, `--format`, which input files are catalogue files,
//! and the mirror manifest's fields.
use vstd::prelude::*;
use crate::astap::{debug_quoted, debug_str, digits_value, parse_unsigned, parses_unsigned, unsigned_digits};
use crate::sidecar::push_all;
use crate::text::{chars_of, is_white_space, is_white_space_char, string_from_chars, trim_start};

verus! {

/// A printable ASCII character other than space (`char::is_ascii_graphic`).
pub open spec fn ascii_graphic(c: char) -> bool {
    0x21 <= (c as u32) <= 0x7E
}

/// An index name that fits the 32-byte header field and can be written
/// unescaped into JSON: 1 to 32 bytes of printable ASCII, no quote, no
/// backslash.
pub open spec fn valid_name(name: Seq<char>) -> bool {
    &&& name.len() >= 1
    &&& vstd::utf8::encode_utf8(name).len() <= 32
    &&& forall|i: int| 0 <= i < name.len() ==> ascii_graphic(#[trigger] name[i]) && name[i] != '"' && name[i] != '\\'
}

/// Whether `--name` is acceptable (see [`valid_name`]).
pub fn valid_index_name(name: &str) -> (b: bool)
    ensures
        b == valid_name(name@),
{
    let v = chars_of(name);
    if v.len() == 0 || name.as_bytes().len() > 32 {
        return false;
    }
    let mut i: usize = 0;
    while i < v.len()
        invariant
            v@ == name@,
            i <= v.len(),
            forall|j: int| 0 <= j < i ==> ascii_graphic(#[trigger] v@[j]) && v@[j] != '"' && v@[j] != '\\',
        decreases v.len() - i,
    {
        let c = v[i];
        let u = c as u32;
        if u < 0x21 || u > 0x7E || c == '"' || c == '\\' {
            return false;
        }
        i += 1;
    }
    true
}

/// `"psolve index build: --jobs must be at least 1"`.
pub open spec fn jobs_zero_message() -> Seq<char> {
    "psolve index build: --jobs must be at least 1"@
}

/// `"psolve index build: --jobs must be a non-negative integer"`.
pub open spec fn jobs_invalid_message() -> Seq<char> {
    "psolve index build: --jobs must be a non-negative integer"@
}

/// The thread count `--jobs` asks for: a positive integer; zero and
/// anything that is not an integer are refused rather than silently
/// becoming the default.
pub fn jobs_setting(v: &str) -> (r: Result<usize, String>)
    ensures
        match r {
            Ok(n) => parses_unsigned(v@, usize::MAX as nat) && n == digits_value(unsigned_digits(v@))
                && n >= 1,
            Err(e) => (parses_unsigned(v@, usize::MAX as nat) && digits_value(unsigned_digits(v@))
                == 0 && e@ == jobs_zero_message()) || (!parses_unsigned(v@, usize::MAX as nat) && e@
                == jobs_invalid_message()),
        },
{
    match parse_unsigned(v, usize::MAX as u64) {
        Some(0) => {
            let mut e = String::new();
            push_all(&mut e, "psolve index build: --jobs must be at least 1");
            Err(e)
        },
        Some(n) => Ok(n as usize),
        None => {
            let mut e = String::new();
            push_all(&mut e, "psolve index build: --jobs must be a non-negative integer");
            Err(e)
        },
    }
}

/// `psolve index query`'s output format.
#[derive(Clone, Copy, PartialEq, Eq, Debug)]
pub enum QueryFormat {
    Csv,
    Ndjson,
}

/// `"psolve index query: --format must be csv or ndjson, got {v:?}"`.
pub open spec fn format_message(v: Seq<char>) -> Seq<char> {
    "psolve index query: --format must be csv or ndjson, got "@ + debug_quoted(v)
}

/// The output format `--format` names: CSV when absent or `csv`, NDJSON for
/// `ndjson`, anything else refused.
pub fn query_format(v: Option<&str>) -> (r: Result<QueryFormat, String>)
    ensures
        match v {
            None => r == Ok::<QueryFormat, String>(QueryFormat::Csv),
            Some(t) => if t@ == "csv"@ {
                r == Ok::<QueryFormat, String>(QueryFormat::Csv)
            } else if t@ == "ndjson"@ {
                r == Ok::<QueryFormat, String>(QueryFormat::Ndjson)
            } else {
                r matches Err(e) && e@ == format_message(t@)
            },
        },
{
    match v {
        None => Ok(QueryFormat::Csv),
        Some(t) => {
            if crate::text::str_eq(t, "csv") {
                Ok(QueryFormat::Csv)
            } else if crate::text::str_eq(t, "ndjson") {
                Ok(QueryFormat::Ndjson)
            } else {
                let mut e = String::new();
                push_all(&mut e, "psolve index query: --format must be csv or ndjson, got ");
                let q = debug_str(t);
                push_all(&mut e, q.as_str());
                Err(e)
            }
        },
    }
}

/// What an input directory entry is to the index builder.
#[derive(Clone, Copy, PartialEq, Eq, Debug)]
pub enum CatalogFileKind {
    /// `.gz`, `.bz2` or `.zst`: refused, there is no decoder for it.
    Compressed,
    /// A plain `.csv` catalogue file.
    Csv,
    /// Anything else: not part of the catalogue.
    Other,
}

/// `s` ends with `suffix`.
pub open spec fn ends_with(s: Seq<char>, suffix: Seq<char>) -> bool {
    suffix.len() <= s.len() && s.subrange(s.len() - suffix.len(), s.len() as int) == suffix
}

/// Whether `s` ends with `suffix`.
pub fn str_ends_with(s: &str, suffix: &str) -> (b: bool)
    ensures
        b == ends_with(s@, suffix@),
{
    let v = chars_of(s);
    let w = chars_of(suffix);
    if w.len() > v.len() {
        return false;
    }
    let off = v.len() - w.len();
    let mut i: usize = 0;
    while i < w.len()
        invariant
            v@ == s@,
            w@ == suffix@,
            off == v.len() - w.len(),
            i <= w.len(),
            forall|j: int| 0 <= j < i ==> v@[off + j] == w@[j],
        decreases w.len() - i,
    {
        if v[off + i] != w[i] {
            assert(s@.subrange(s@.len() - suffix@.len(), s@.len() as int)[i as int] != suffix@[i as int]);
            return false;
        }
        i += 1;
    }
    assert(s@.subrange(s@.len() - suffix@.len(), s@.len() as int) =~= suffix@);
    true
}

/// The kind of an entry by its file name.
pub open spec fn catalog_file_kind(name: Seq<char>) -> CatalogFileKind {
    if ends_with(name, ".gz"@) || ends_with(name, ".bz2"@) || ends_with(name, ".zst"@) {
        CatalogFileKind::Compressed
    } else if ends_with(name, ".csv"@) {
        CatalogFileKind::Csv
    } else {
        CatalogFileKind::Other
    }
}

/// Classify an input file by name: compressed files are counted (and
/// refused), `.csv` files are read, the rest ignored.
pub fn classify_catalog_file(name: &str) -> (k: CatalogFileKind)
    ensures
        k == catalog_file_kind(name@),
{
    if str_ends_with(name, ".gz") || str_ends_with(name, ".bz2") || str_ends_with(name, ".zst") {
        CatalogFileKind::Compressed
    } else if str_ends_with(name, ".csv") {
        CatalogFileKind::Csv
    } else {
        CatalogFileKind::Other
    }
}

/// `p` occurs in `t` starting at `i`.
pub open spec fn occurs_at(t: Seq<char>, p: Seq<char>, i: int) -> bool {
    0 <= i && i + p.len() <= t.len() && t.subrange(i, i + p.len()) == p
}

/// `i` is the first position where `p` occurs in `t`.
pub open spec fn is_first_match(t: Seq<char>, p: Seq<char>, i: int) -> bool {
    occurs_at(t, p, i) && forall|j: int| 0 <= j < i ==> !occurs_at(t, p, j)
}

/// The first position where `p` occurs in `t` (`str::find`).
pub open spec fn find_first(t: Seq<char>, p: Seq<char>) -> Option<int> {
    if exists|i: int| is_first_match(t, p, i) {
        Some(choose|i: int| is_first_match(t, p, i))
    } else {
        None
    }
}

/// The first position at or after `from` holding `c`.
pub open spec fn find_char_from(t: Seq<char>, c: char, from: int) -> Option<int>
    decreases t.len() - from,
{
    if from < 0 || from >= t.len() {
        None
    } else if t[from] == c {
        Some(from)
    } else {
        find_char_from(t, c, from + 1)
    }
}

/// `"key"`, quoted as a JSON member name.
pub open spec fn quoted_key(key: Seq<char>) -> Seq<char> {
    seq!['"'] + key + seq!['"']
}

/// Where a member's value text starts: just past the first `:` after the
/// first occurrence of the quoted key.
pub open spec fn value_start(t: Seq<char>, key: Seq<char>) -> Option<int> {
    match find_first(t, quoted_key(key)) {
        None => None,
        Some(at) => match find_char_from(t, ':', at) {
            None => None,
            Some(colon) => Some(colon + 1),
        },
    }
}

/// A character that may be part of a number's text.
pub open spec fn number_char(c: char) -> bool {
    ('0' <= c <= '9') || c == '-' || c == '+' || c == '.' || c == 'e' || c == 'E'
}

/// The longest prefix of `s` made of number characters.
pub open spec fn number_prefix(s: Seq<char>) -> Seq<char>
    decreases s.len(),
{
    if s.len() > 0 && number_char(s[0]) {
        seq![s[0]] + number_prefix(s.drop_first())
    } else {
        Seq::empty()
    }
}

/// The text of a numeric member's value: after the colon, white space
/// skipped, then the run of number characters.
pub open spec fn member_number_text(t: Seq<char>, key: Seq<char>) -> Option<Seq<char>> {
    match value_start(t, key) {
        None => None,
        Some(s) => Some(number_prefix(trim_start(t.skip(s)))),
    }
}

/// `t` begins with `p`.
pub open spec fn starts_with(t: Seq<char>, p: Seq<char>) -> bool {
    p.len() <= t.len() && t.take(p.len() as int) == p
}

/// A boolean member's value: `true` or `false` right after the colon and
/// any white space; anything else is unreadable.
pub open spec fn member_bool(t: Seq<char>, key: Seq<char>) -> Option<bool> {
    match value_start(t, key) {
        None => None,
        Some(s) => {
            let rest = trim_start(t.skip(s));
            if starts_with(rest, "true"@) {
                Some(true)
            } else if starts_with(rest, "false"@) {
                Some(false)
            } else {
                None
            }
        },
    }
}

proof fn lemma_first_match_unique(t: Seq<char>, p: Seq<char>, i: int, j: int)
    requires
        is_first_match(t, p, i),
        is_first_match(t, p, j),
    ensures
        i == j,
{
}

/// Whether `p` occurs in `t` at `i`.
fn occurs_at_exec(t: &Vec<char>, p: &Vec<char>, i: usize) -> (b: bool)
    ensures
        b == occurs_at(t@, p@, i as int),
{
    if i > t.len() || t.len() - i < p.len() {
        return false;
    }
    let mut k: usize = 0;
    while k < p.len()
        invariant
            i + p.len() <= t.len(),
            k <= p.len(),
            forall|m: int| 0 <= m < k ==> t@[i + m] == p@[m],
        decreases p.len() - k,
    {
        if t[i + k] != p[k] {
            assert(t@.subrange(i as int, i + p.len())[k as int] != p@[k as int]);
            return false;
        }
        k += 1;
    }
    assert(t@.subrange(i as int, i + p.len()) =~= p@);
    true
}

/// The first position where `p` occurs in `t`.
fn find_first_exec(t: &Vec<char>, p: &Vec<char>) -> (r: Option<usize>)
    ensures
        match r {
            Some(i) => find_first(t@, p@) == Some(i as int),
            None => find_first(t@, p@) is None,
        },
{
    let mut i: usize = 0;
    while i < t.len()
        invariant
            i <= t.len(),
            forall|j: int| 0 <= j < i ==> !occurs_at(t@, p@, j),
        decreases t.len() - i,
    {
        if occurs_at_exec(t, p, i) {
            assert(is_first_match(t@, p@, i as int));
            proof {
                let c = choose|c: int| is_first_match(t@, p@, c);
                lemma_first_match_unique(t@, p@, i as int, c);
            }
            return Some(i);
        }
        i += 1;
    }
    if occurs_at_exec(t, p, t.len()) {
        assert(is_first_match(t@, p@, t.len() as int));
        proof {
            let c = choose|c: int| is_first_match(t@, p@, c);
            lemma_first_match_unique(t@, p@, t.len() as int, c);
        }
        return Some(t.len());
    }
    assert forall|j: int| !is_first_match(t@, p@, j) by {
        if 0 <= j && j <= t.len() {
        } else {
            assert(!occurs_at(t@, p@, j));
        }
    }
    None
}

/// The first position at or after `from` holding `c`.
fn find_char_from_exec(t: &Vec<char>, c: char, from: usize) -> (r: Option<usize>)
    ensures
        match r {
            Some(i) => find_char_from(t@, c, from as int) == Some(i as int) && i < t.len(),
            None => find_char_from(t@, c, from as int) is None,
        },
{
    let mut i: usize = from;
    while i < t.len()
        invariant
            from <= i,
            find_char_from(t@, c, from as int) == find_char_from(t@, c, i as int),
        decreases t.len() - i,
    {
        if t[i] == c {
            return Some(i);
        }
        i += 1;
    }
    None
}

/// Where `key`'s value text starts in `t`.
fn value_start_exec(t: &Vec<char>, key: &str) -> (r: Option<usize>)
    ensures
        match r {
            Some(s) => value_start(t@, key@) == Some(s as int) && s <= t.len(),
            None => value_start(t@, key@) is None,
        },
{
    let mut p: Vec<char> = Vec::new();
    p.push('"');
    let k = chars_of(key);
    let mut i: usize = 0;
    while i < k.len()
        invariant
            i <= k.len(),
            p@ == seq!['"'] + k@.take(i as int),
        decreases k.len() - i,
    {
        p.push(k[i]);
        assert(k@.take(i + 1) =~= k@.take(i as int).push(k@[i as int]));
        i += 1;
    }
    p.push('"');
    assert(k@.take(k.len() as int) =~= k@);
    assert(p@ =~= quoted_key(key@));
    match find_first_exec(t, &p) {
        None => None,
        Some(at) => match find_char_from_exec(t, ':', at) {
            None => None,
            Some(colon) => Some(colon + 1),
        },
    }
}

/// Number of leading white-space characters of `t` from `s` on.
fn skip_white_space(t: &Vec<char>, s: usize) -> (i: usize)
    requires
        s <= t.len(),
    ensures
        s <= i <= t.len(),
        trim_start(t@.skip(s as int)) == t@.skip(i as int),
{
    let mut i: usize = s;
    while i < t.len() && is_white_space_char(t[i])
        invariant
            s <= i <= t.len(),
            trim_start(t@.skip(s as int)) == trim_start(t@.skip(i as int)),
        decreases t.len() - i,
    {
        assert(t@.skip(i as int).drop_first() =~= t@.skip(i + 1));
        i += 1;
    }
    i
}

/// The text of the numeric member `key` in `txt`, to be read as a number.
pub fn member_number(txt: &str, key: &str) -> (r: Option<String>)
    ensures
        match r {
            Some(v) => member_number_text(txt@, key@) == Some(v@),
            None => member_number_text(txt@, key@) is None,
        },
{
    let t = chars_of(txt);
    match value_start_exec(&t, key) {
        None => None,
        Some(s) => {
            let start = skip_white_space(&t, s);
            let mut out: Vec<char> = Vec::new();
            let mut i: usize = start;
            assert(t@.skip(start as int).take(0) =~= Seq::<char>::empty());
            while i < t.len() && (('0' <= t[i] && t[i] <= '9') || t[i] == '-' || t[i] == '+'
                || t[i] == '.' || t[i] == 'e' || t[i] == 'E')
                invariant
                    start <= i <= t.len(),
                    out@ == t@.subrange(start as int, i as int),
                    number_prefix(t@.skip(start as int)) == t@.subrange(start as int, i as int)
                        + number_prefix(t@.skip(i as int)),
                decreases t.len() - i,
            {
                proof {
                    let rest = t@.skip(i as int);
                    assert(rest[0] == t@[i as int]);
                    assert(rest.drop_first() =~= t@.skip(i + 1));
                    assert(t@.subrange(start as int, i + 1) =~= t@.subrange(start as int, i as int)
                        + seq![t@[i as int]]);
                }
                out.push(t[i]);
                i += 1;
            }
            proof {
                let rest = t@.skip(i as int);
                if i < t.len() {
                    assert(rest[0] == t@[i as int]);
                }
                assert(number_prefix(rest) =~= Seq::<char>::empty());
                assert(t@.subrange(start as int, i as int) + Seq::<char>::empty() =~= t@.subrange(
                    start as int,
                    i as int,
                ));
            }
            Some(string_from_chars(out.as_slice()))
        },
    }
}

/// Whether `t` from `s` on begins with `p`.
fn starts_with_at(t: &Vec<char>, s: usize, p: &str) -> (b: bool)
    requires
        s <= t.len(),
    ensures
        b == starts_with(t@.skip(s as int), p@),
{
    let w = chars_of(p);
    if w.len() > t.len() - s {
        return false;
    }
    let mut i: usize = 0;
    while i < w.len()
        invariant
            w@ == p@,
            s + w.len() <= t.len(),
            i <= w.len(),
            forall|j: int| 0 <= j < i ==> t@[s + j] == w@[j],
        decreases w.len() - i,
    {
        if t[s + i] != w[i] {
            assert(t@.skip(s as int).take(w.len() as int)[i as int] != p@[i as int]);
            return false;
        }
        i += 1;
    }
    assert(t@.skip(s as int).take(w.len() as int) =~= p@);
    true
}

/// The boolean member `key` in `txt`.
pub fn member_flag(txt: &str, key: &str) -> (r: Option<bool>)
    ensures
        r == member_bool(txt@, key@),
{
    let t = chars_of(txt);
    match value_start_exec(&t, key) {
        None => None,
        Some(s) => {
            let start = skip_white_space(&t, s);
            if starts_with_at(&t, start, "true") {
                Some(true)
            } else if starts_with_at(&t, start, "false") {
                Some(false)
            } else {
                None
            }
        },
    }
}

/// Why a catalogue mirror is known to be short.
#[derive(Clone, Copy, PartialEq, Eq, Debug)]
pub enum MirrorShortfall {
    /// The manifest records a fetch that never finished.
    IncompleteFetch,
    /// Fewer `.csv` files are present than the manifest recorded.
    MissingFiles { actual: u64, expected: u64 },
}

/// The completeness guard over a mirror manifest: an unfinished fetch, or
/// fewer files than it recorded, refuses the build unless the caller
/// accepts a partial index.
pub fn mirror_shortfall(complete: bool, expected_files: Option<u64>, actual_files: u64, allow_partial: bool) -> (r: Option<MirrorShortfall>)
    ensures
        r == (if allow_partial {
            None
        } else if !complete {
            Some(MirrorShortfall::IncompleteFetch)
        } else {
            match expected_files {
                Some(e) => if actual_files < e {
                    Some(MirrorShortfall::MissingFiles { actual: actual_files, expected: e })
                } else {
                    None
                },
                None => None,
            }
        }),
{
    if !complete && !allow_partial {
        return Some(MirrorShortfall::IncompleteFetch);
    }
    if let Some(expected) = expected_files {
        if actual_files < expected && !allow_partial {
            return Some(MirrorShortfall::MissingFiles { actual: actual_files, expected });
        }
    }
    None
}

} // verus!
