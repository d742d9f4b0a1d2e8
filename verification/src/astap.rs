//! The ASTAP-compatible command-line grammar: single-dash flags, their
//! values, and the command line echoed back into the `.ini`.
use vstd::prelude::*;
use crate::sidecar::{push_all, texts};
use crate::text::{lossy_decode, push_char, str_eq, utf8_lossy};
use crate::cards::key_of_bytes;
use crate::fits_update::{card_key, header_cards, raw_header_cards, views};
use crate::sidecar::pad_right;

verus! {

/// The Rust `Debug` rendering of a string (`{:?}`): quoted, with escapes.
pub uninterp spec fn debug_quoted(s: Seq<char>) -> Seq<char>;

/// `format!("{s:?}")`: the string's `Debug` rendering.
#[verifier::external_body]
pub(crate) fn debug_str(s: &str) -> (r: String)
    ensures
        r@ == debug_quoted(s@),
{
    format!("{s:?}")
}

/// Every character of `d` is an ASCII decimal digit, and there is one.
pub open spec fn all_digits(d: Seq<char>) -> bool {
    d.len() > 0 && forall|i: int| 0 <= i < d.len() ==> '0' <= #[trigger] d[i] <= '9'
}

/// The number a run of decimal digits spells.
pub open spec fn digits_value(d: Seq<char>) -> nat
    decreases d.len(),
{
    if d.len() == 0 {
        0
    } else {
        digits_value(d.drop_last()) * 10 + ((d.last() as nat) - 48) as nat
    }
}

/// The digits of an unsigned integer's text: a leading `+` is allowed.
pub open spec fn unsigned_digits(s: Seq<char>) -> Seq<char> {
    if s.len() > 0 && s[0] == '+' {
        s.drop_first()
    } else {
        s
    }
}

/// `s` is what `str::parse` accepts for an unsigned integer type whose
/// largest value is `max`.
pub open spec fn parses_unsigned(s: Seq<char>, max: nat) -> bool {
    all_digits(unsigned_digits(s)) && digits_value(unsigned_digits(s)) <= max
}

/// A digit run spells at least what any of its prefixes spells.
pub proof fn lemma_digits_value_prefix(d: Seq<char>, i: int)
    requires
        0 <= i <= d.len(),
        forall|j: int| 0 <= j < d.len() ==> '0' <= #[trigger] d[j] <= '9',
    ensures
        digits_value(d.take(i)) <= digits_value(d),
    decreases d.len() - i,
{
    if i < d.len() {
        lemma_digits_value_prefix(d, i + 1);
        assert(d.take(i + 1).drop_last() =~= d.take(i));
    } else {
        assert(d.take(i) =~= d);
    }
}

/// `str::parse::<u64>` bounded by `max`: the value when `s` is an unsigned
/// integer no larger than `max`, `None` otherwise.
pub fn parse_unsigned(s: &str, max: u64) -> (r: Option<u64>)
    ensures
        match r {
            Some(v) => parses_unsigned(s@, max as nat) && v == digits_value(unsigned_digits(s@)),
            None => !parses_unsigned(s@, max as nat),
        },
{
    let v = crate::text::chars_of(s);
    let start: usize = if v.len() > 0 && v[0] == '+' {
        1
    } else {
        0
    };
    let ghost d = unsigned_digits(s@);
    assert(d =~= v@.skip(start as int));
    if start >= v.len() {
        assert(d.len() == 0);
        assert(!all_digits(d));
        return None;
    }
    let mut value: u64 = 0;
    let mut i: usize = start;
    while i < v.len()
        invariant
            d == v@.skip(start as int),
            d == unsigned_digits(s@),
            start <= i <= v.len(),
            start < v.len(),
            forall|j: int| 0 <= j < i - start ==> '0' <= #[trigger] d[j] <= '9',
            value == digits_value(d.take(i - start)),
            value <= max,
        decreases v.len() - i,
    {
        let c = v[i];
        if c < '0' || c > '9' {
            assert(d[i - start] == c);
            assert(!('0' <= d[i - start] <= '9'));
            assert(!all_digits(d));
            return None;
        }
        let digit: u64 = (c as u32 - 48) as u64;
        proof {
            assert(d.take(i - start + 1).drop_last() =~= d.take(i - start));
            assert(d.take(i - start + 1).last() == c);
        }
        if digit > max || value > (max - digit) / 10 {
            proof {
                if digit <= max {
                    assert(value * 10 + digit > max) by (nonlinear_arith)
                        requires
                            value > (max - digit) / 10,
                            digit <= max,
                    ;
                }
                if all_digits(d) {
                    lemma_digits_value_prefix(d, i - start + 1);
                }
            }
            return None;
        }
        value = value * 10 + digit;
        i += 1;
    }
    assert(d.take(v.len() - start) =~= d);
    Some(value)
}

/// `"psolve: {flag} must be a non-negative integer, got {v:?}"`.
pub open spec fn not_u32_message(v: Seq<char>, flag: Seq<char>) -> Seq<char> {
    "psolve: "@ + flag + " must be a non-negative integer, got "@ + debug_quoted(v)
}

/// `"psolve: {flag} must be a positive integer, got {v:?}"`.
pub open spec fn not_usize_message(v: Seq<char>, flag: Seq<char>) -> Seq<char> {
    "psolve: "@ + flag + " must be a positive integer, got "@ + debug_quoted(v)
}

/// `"psolve: {flag} must be a finite number, got {v:?}"`.
pub open spec fn not_finite_message(v: Seq<char>, flag: Seq<char>) -> Seq<char> {
    "psolve: "@ + flag + " must be a finite number, got "@ + debug_quoted(v)
}

/// `"psolve: {flag} requires a value"`.
pub open spec fn missing_value_message(flag: Seq<char>) -> Seq<char> {
    "psolve: "@ + flag + " requires a value"@
}

/// Parse a `u32` flag value.
pub fn parse_u32(v: &str, flag: &str) -> (r: Result<u32, String>)
    ensures
        match r {
            Ok(n) => parses_unsigned(v@, u32::MAX as nat) && n == digits_value(unsigned_digits(v@)),
            Err(e) => !parses_unsigned(v@, u32::MAX as nat) && e@ == not_u32_message(v@, flag@),
        },
{
    match parse_unsigned(v, u32::MAX as u64) {
        Some(n) => Ok(n as u32),
        None => {
            let mut e = String::new();
            push_all(&mut e, "psolve: ");
            push_all(&mut e, flag);
            push_all(&mut e, " must be a non-negative integer, got ");
            let q = debug_str(v);
            push_all(&mut e, q.as_str());
            Err(e)
        },
    }
}

/// Parse a `usize` flag value.
pub fn parse_usize(v: &str, flag: &str) -> (r: Result<usize, String>)
    ensures
        match r {
            Ok(n) => parses_unsigned(v@, usize::MAX as nat) && n == digits_value(unsigned_digits(v@)),
            Err(e) => !parses_unsigned(v@, usize::MAX as nat) && e@ == not_usize_message(v@, flag@),
        },
{
    match parse_unsigned(v, usize::MAX as u64) {
        Some(n) => Ok(n as usize),
        None => {
            let mut e = String::new();
            push_all(&mut e, "psolve: ");
            push_all(&mut e, flag);
            push_all(&mut e, " must be a positive integer, got ");
            let q = debug_str(v);
            push_all(&mut e, q.as_str());
            Err(e)
        },
    }
}

/// Consume `args[*i]` (the flag) and the value after it, advancing `*i`
/// past both; a flag with nothing after it is an error and consumes
/// nothing.
pub fn take_value(args: &[String], i: &mut usize, flag: &str) -> (r: Result<String, String>)
    requires
        *old(i) < usize::MAX,
    ensures
        match r {
            Ok(v) => *old(i) + 1 < args.len() && v@ == args@[*old(i) + 1]@ && *final(i) == *old(i)
                + 2,
            Err(e) => *old(i) + 1 >= args.len() && e@ == missing_value_message(flag@) && *final(i)
                == *old(i),
        },
{
    if *i + 1 < args.len() {
        let v = args[*i + 1].clone();
        *i = *i + 2;
        Ok(v)
    } else {
        let mut e = String::new();
        push_all(&mut e, "psolve: ");
        push_all(&mut e, flag);
        push_all(&mut e, " requires a value");
        Err(e)
    }
}

/// What the ASTAP flags seen so far have set.
pub struct AstapScan {
    pub file: Option<Seq<char>>,
    pub radius: Option<Seq<char>>,
    pub ra_hours: Option<Seq<char>>,
    pub spd: Option<Seq<char>>,
    pub fov: Option<Seq<char>>,
    pub db_dir: Option<Seq<char>>,
    pub out_base: Option<Seq<char>>,
    pub tolerance: Option<Seq<char>>,
    pub min_star: Option<Seq<char>>,
    pub update: bool,
    pub wcs_fits_block: bool,
    pub downsample: Option<u32>,
    pub max_stars: Option<usize>,
}

/// Nothing set yet.
pub open spec fn empty_scan() -> AstapScan {
    AstapScan {
        file: None,
        radius: None,
        ra_hours: None,
        spd: None,
        fov: None,
        db_dir: None,
        out_base: None,
        tolerance: None,
        min_star: None,
        update: false,
        wcs_fits_block: false,
        downsample: None,
        max_stars: None,
    }
}

/// Analysis-only flags that take no value: accepted and ignored.
pub open spec fn ignored_no_value(t: Seq<char>) -> bool {
    t == "-log"@ || t == "-sip"@ || t == "-check"@ || t == "-progress"@
}

/// Analysis-only flags that take a value: the value is consumed and ignored.
pub open spec fn ignored_with_value(t: Seq<char>) -> bool {
    t == "-speed"@ || t == "-analyse"@ || t == "-extract"@ || t == "-extract2"@
}

/// Flags that consume the following token.
pub open spec fn astap_value_flag(t: Seq<char>) -> bool {
    t == "-f"@ || t == "-r"@ || t == "-fov"@ || t == "-ra"@ || t == "-spd"@ || t == "-s"@ || t == "-t"@ || t == "-m"@ || t == "-z"@ || t == "-d"@ || t == "-D"@ || t == "-o"@ || ignored_with_value(t)
}

/// The effect of one value-taking flag and its value `v` (`finite`: whether
/// `v` reads as a finite floating-point number).
pub open spec fn apply_value(st: AstapScan, tok: Seq<char>, v: Seq<char>, finite: bool) -> Result<AstapScan, Seq<char>> {
    if tok == "-f"@ {
        Ok(AstapScan { file: Some(v), radius: st.radius, ra_hours: st.ra_hours, spd: st.spd, fov: st.fov, db_dir: st.db_dir, out_base: st.out_base, tolerance: st.tolerance, min_star: st.min_star, update: st.update, wcs_fits_block: st.wcs_fits_block, downsample: st.downsample, max_stars: st.max_stars })
    } else if tok == "-r"@ {
        if finite { Ok(AstapScan { file: st.file, radius: Some(v), ra_hours: st.ra_hours, spd: st.spd, fov: st.fov, db_dir: st.db_dir, out_base: st.out_base, tolerance: st.tolerance, min_star: st.min_star, update: st.update, wcs_fits_block: st.wcs_fits_block, downsample: st.downsample, max_stars: st.max_stars }) } else { Err(not_finite_message(v, tok)) }
    } else if tok == "-fov"@ {
        if finite { Ok(AstapScan { file: st.file, radius: st.radius, ra_hours: st.ra_hours, spd: st.spd, fov: Some(v), db_dir: st.db_dir, out_base: st.out_base, tolerance: st.tolerance, min_star: st.min_star, update: st.update, wcs_fits_block: st.wcs_fits_block, downsample: st.downsample, max_stars: st.max_stars }) } else { Err(not_finite_message(v, tok)) }
    } else if tok == "-ra"@ {
        if finite { Ok(AstapScan { file: st.file, radius: st.radius, ra_hours: Some(v), spd: st.spd, fov: st.fov, db_dir: st.db_dir, out_base: st.out_base, tolerance: st.tolerance, min_star: st.min_star, update: st.update, wcs_fits_block: st.wcs_fits_block, downsample: st.downsample, max_stars: st.max_stars }) } else { Err(not_finite_message(v, tok)) }
    } else if tok == "-spd"@ {
        if finite { Ok(AstapScan { file: st.file, radius: st.radius, ra_hours: st.ra_hours, spd: Some(v), fov: st.fov, db_dir: st.db_dir, out_base: st.out_base, tolerance: st.tolerance, min_star: st.min_star, update: st.update, wcs_fits_block: st.wcs_fits_block, downsample: st.downsample, max_stars: st.max_stars }) } else { Err(not_finite_message(v, tok)) }
    } else if tok == "-s"@ {
        if parses_unsigned(v, usize::MAX as nat) { Ok(AstapScan { file: st.file, radius: st.radius, ra_hours: st.ra_hours, spd: st.spd, fov: st.fov, db_dir: st.db_dir, out_base: st.out_base, tolerance: st.tolerance, min_star: st.min_star, update: st.update, wcs_fits_block: st.wcs_fits_block, downsample: st.downsample, max_stars: Some(digits_value(unsigned_digits(v)) as usize) }) } else { Err(not_usize_message(v, tok)) }
    } else if tok == "-t"@ {
        if finite { Ok(AstapScan { file: st.file, radius: st.radius, ra_hours: st.ra_hours, spd: st.spd, fov: st.fov, db_dir: st.db_dir, out_base: st.out_base, tolerance: Some(v), min_star: st.min_star, update: st.update, wcs_fits_block: st.wcs_fits_block, downsample: st.downsample, max_stars: st.max_stars }) } else { Err(not_finite_message(v, tok)) }
    } else if tok == "-m"@ {
        if finite { Ok(AstapScan { file: st.file, radius: st.radius, ra_hours: st.ra_hours, spd: st.spd, fov: st.fov, db_dir: st.db_dir, out_base: st.out_base, tolerance: st.tolerance, min_star: Some(v), update: st.update, wcs_fits_block: st.wcs_fits_block, downsample: st.downsample, max_stars: st.max_stars }) } else { Err(not_finite_message(v, tok)) }
    } else if tok == "-z"@ {
        if parses_unsigned(v, u32::MAX as nat) { Ok(AstapScan { file: st.file, radius: st.radius, ra_hours: st.ra_hours, spd: st.spd, fov: st.fov, db_dir: st.db_dir, out_base: st.out_base, tolerance: st.tolerance, min_star: st.min_star, update: st.update, wcs_fits_block: st.wcs_fits_block, downsample: Some(digits_value(unsigned_digits(v)) as u32), max_stars: st.max_stars }) } else { Err(not_u32_message(v, tok)) }
    } else if tok == "-d"@ {
        Ok(AstapScan { file: st.file, radius: st.radius, ra_hours: st.ra_hours, spd: st.spd, fov: st.fov, db_dir: Some(v), out_base: st.out_base, tolerance: st.tolerance, min_star: st.min_star, update: st.update, wcs_fits_block: st.wcs_fits_block, downsample: st.downsample, max_stars: st.max_stars })
    } else if tok == "-D"@ {
        Ok(AstapScan { file: st.file, radius: st.radius, ra_hours: st.ra_hours, spd: st.spd, fov: st.fov, db_dir: Some(v), out_base: st.out_base, tolerance: st.tolerance, min_star: st.min_star, update: st.update, wcs_fits_block: st.wcs_fits_block, downsample: st.downsample, max_stars: st.max_stars })
    } else if tok == "-o"@ {
        Ok(AstapScan { file: st.file, radius: st.radius, ra_hours: st.ra_hours, spd: st.spd, fov: st.fov, db_dir: st.db_dir, out_base: Some(v), tolerance: st.tolerance, min_star: st.min_star, update: st.update, wcs_fits_block: st.wcs_fits_block, downsample: st.downsample, max_stars: st.max_stars })
    } else {
        Ok(st)
    }
}

/// The ASTAP argv scanned from position `i` on, in state `st`: the final
/// state, or the first error met.
pub open spec fn scan_astap(args: Seq<Seq<char>>, finite: Seq<bool>, i: int, st: AstapScan) -> Result<AstapScan, Seq<char>>
    decreases args.len() - i,
{
    if i < 0 || i >= args.len() {
        Ok(st)
    } else if astap_value_flag(args[i]) {
        if i + 1 >= args.len() {
            Err(missing_value_message(args[i]))
        } else {
            match apply_value(st, args[i], args[i + 1], finite[i + 1]) {
                Ok(next) => scan_astap(args, finite, i + 2, next),
                Err(e) => Err(e),
            }
        }
    } else if args[i] == "-update"@ {
        scan_astap(args, finite, i + 1, AstapScan { file: st.file, radius: st.radius, ra_hours: st.ra_hours, spd: st.spd, fov: st.fov, db_dir: st.db_dir, out_base: st.out_base, tolerance: st.tolerance, min_star: st.min_star, update: true, wcs_fits_block: st.wcs_fits_block, downsample: st.downsample, max_stars: st.max_stars })
    } else if args[i] == "-wcs"@ {
        scan_astap(args, finite, i + 1, AstapScan { file: st.file, radius: st.radius, ra_hours: st.ra_hours, spd: st.spd, fov: st.fov, db_dir: st.db_dir, out_base: st.out_base, tolerance: st.tolerance, min_star: st.min_star, update: st.update, wcs_fits_block: true, downsample: st.downsample, max_stars: st.max_stars })
    } else if ignored_no_value(args[i]) {
        scan_astap(args, finite, i + 1, st)
    } else {
        Err("psolve: unknown ASTAP flag "@ + debug_quoted(args[i]))
    }
}

/// A scan that succeeds reads its arguments to the very end, so what is
/// appended after them is read from where it begins, in the final state.
proof fn lemma_scan_then(
    args: Seq<Seq<char>>,
    finite: Seq<bool>,
    tail: Seq<Seq<char>>,
    ftail: Seq<bool>,
    i: int,
    st: AstapScan,
)
    requires
        finite.len() == args.len(),
        0 <= i <= args.len(),
        scan_astap(args, finite, i, st) is Ok,
    ensures
        scan_astap(args + tail, finite + ftail, i, st) == scan_astap(
            args + tail,
            finite + ftail,
            args.len() as int,
            scan_astap(args, finite, i, st)->Ok_0,
        ),
    decreases args.len() - i,
{
    let a = args + tail;
    let f = finite + ftail;
    if i < args.len() {
        assert(a[i] == args[i]);
        if astap_value_flag(args[i]) {
            assert(a[i + 1] == args[i + 1]);
            assert(f[i + 1] == finite[i + 1]);
            let next = apply_value(st, args[i], args[i + 1], finite[i + 1])->Ok_0;
            lemma_scan_then(args, finite, tail, ftail, i + 2, next);
        } else if args[i] == "-update"@ || args[i] == "-wcs"@ || ignored_no_value(args[i]) {
            let next = if args[i] == "-update"@ {
                AstapScan { update: true, ..st }
            } else if args[i] == "-wcs"@ {
                AstapScan { wcs_fits_block: true, ..st }
            } else {
                st
            };
            assert(scan_astap(args, finite, i, st) == scan_astap(args, finite, i + 1, next));
            assert(scan_astap(a, f, i, st) == scan_astap(a, f, i + 1, next));
            lemma_scan_then(args, finite, tail, ftail, i + 1, next);
        }
    }
}

/// After any arguments that scan without error, a further `-ra <v>` sets the
/// right ascension hint to `v` and a further `-spd <v>` sets the south-pole
/// distance to `v`, each leaving every other setting, the other of the two
/// among them, as it was: the value after the last `-ra` is the right
/// ascension, the value after the last `-spd` the south-pole distance.
pub proof fn law_ra_and_spd_fill_their_own_fields(
    args: Seq<Seq<char>>,
    finite: Seq<bool>,
    st: AstapScan,
    v: Seq<char>,
)
    requires
        finite.len() == args.len(),
        scan_astap(args, finite, 0, st) is Ok,
    ensures
        scan_astap(args + seq!["-ra"@, v], finite + seq![true, true], 0, st) == Ok::<AstapScan, Seq<char>>(
            AstapScan { ra_hours: Some(v), ..scan_astap(args, finite, 0, st)->Ok_0 },
        ),
        scan_astap(args + seq!["-spd"@, v], finite + seq![true, true], 0, st) == Ok::<AstapScan, Seq<char>>(
            AstapScan { spd: Some(v), ..scan_astap(args, finite, 0, st)->Ok_0 },
        ),
{
    reveal_strlit("-f");
    reveal_strlit("-r");
    reveal_strlit("-fov");
    reveal_strlit("-ra");
    reveal_strlit("-spd");
    let s1 = scan_astap(args, finite, 0, st)->Ok_0;
    let n = args.len() as int;
    lemma_scan_then(args, finite, seq!["-ra"@, v], seq![true, true], 0, st);
    lemma_scan_then(args, finite, seq!["-spd"@, v], seq![true, true], 0, st);
    let a = args + seq!["-ra"@, v];
    let f = finite + seq![true, true];
    assert(a[n] == "-ra"@ && a[n + 1] == v && f[n + 1]);
    assert("-ra"@ != "-f"@ && "-ra"@ != "-r"@ && "-ra"@[1] != "-fov"@[1]);
    assert(scan_astap(a, f, n + 2, AstapScan { ra_hours: Some(v), ..s1 }) == Ok::<AstapScan, Seq<char>>(
        AstapScan { ra_hours: Some(v), ..s1 },
    ));
    let b = args + seq!["-spd"@, v];
    assert(b[n] == "-spd"@ && b[n + 1] == v && f[n + 1]);
    assert("-spd"@ != "-f"@ && "-spd"@ != "-r"@ && "-spd"@[1] != "-fov"@[1] && "-spd"@ != "-ra"@);
    assert(scan_astap(b, f, n + 2, AstapScan { spd: Some(v), ..s1 }) == Ok::<AstapScan, Seq<char>>(
        AstapScan { spd: Some(v), ..s1 },
    ));
}

/// After any arguments that scan without error, each further value flag
/// fills its own setting with the value that follows it and leaves every
/// other setting as it was: `-f` the file, `-r` the radius, `-fov` the field
/// of view, `-t` the tolerance, `-m` the minimum star size, `-d`/`-D` the
/// database directory, `-o` the output base.
pub proof fn law_value_flags_fill_their_own_fields(
    args: Seq<Seq<char>>,
    finite: Seq<bool>,
    st: AstapScan,
    v: Seq<char>,
)
    requires
        finite.len() == args.len(),
        scan_astap(args, finite, 0, st) is Ok,
    ensures
        scan_astap(args + seq!["-f"@, v], finite + seq![true, true], 0, st) == Ok::<AstapScan, Seq<char>>(
            AstapScan { file: Some(v), ..scan_astap(args, finite, 0, st)->Ok_0 },
        ),
        scan_astap(args + seq!["-r"@, v], finite + seq![true, true], 0, st) == Ok::<AstapScan, Seq<char>>(
            AstapScan { radius: Some(v), ..scan_astap(args, finite, 0, st)->Ok_0 },
        ),
        scan_astap(args + seq!["-fov"@, v], finite + seq![true, true], 0, st) == Ok::<AstapScan, Seq<char>>(
            AstapScan { fov: Some(v), ..scan_astap(args, finite, 0, st)->Ok_0 },
        ),
        scan_astap(args + seq!["-t"@, v], finite + seq![true, true], 0, st) == Ok::<AstapScan, Seq<char>>(
            AstapScan { tolerance: Some(v), ..scan_astap(args, finite, 0, st)->Ok_0 },
        ),
        scan_astap(args + seq!["-m"@, v], finite + seq![true, true], 0, st) == Ok::<AstapScan, Seq<char>>(
            AstapScan { min_star: Some(v), ..scan_astap(args, finite, 0, st)->Ok_0 },
        ),
        scan_astap(args + seq!["-d"@, v], finite + seq![true, true], 0, st) == Ok::<AstapScan, Seq<char>>(
            AstapScan { db_dir: Some(v), ..scan_astap(args, finite, 0, st)->Ok_0 },
        ),
        scan_astap(args + seq!["-D"@, v], finite + seq![true, true], 0, st) == Ok::<AstapScan, Seq<char>>(
            AstapScan { db_dir: Some(v), ..scan_astap(args, finite, 0, st)->Ok_0 },
        ),
        scan_astap(args + seq!["-o"@, v], finite + seq![true, true], 0, st) == Ok::<AstapScan, Seq<char>>(
            AstapScan { out_base: Some(v), ..scan_astap(args, finite, 0, st)->Ok_0 },
        ),
{
    reveal_strlit("-f");
    reveal_strlit("-r");
    reveal_strlit("-fov");
    reveal_strlit("-ra");
    reveal_strlit("-spd");
    reveal_strlit("-s");
    reveal_strlit("-t");
    reveal_strlit("-m");
    reveal_strlit("-z");
    reveal_strlit("-d");
    reveal_strlit("-D");
    reveal_strlit("-o");
    let s1 = scan_astap(args, finite, 0, st)->Ok_0;
    let n = args.len() as int;
    let f2 = finite + seq![true, true];
    assert(f2[n + 1]);
    lemma_scan_then(args, finite, seq!["-f"@, v], seq![true, true], 0, st);
    assert(true);
    assert((args + seq!["-f"@, v])[n] == "-f"@ && (args + seq!["-f"@, v])[n + 1] == v);
    assert(scan_astap(args + seq!["-f"@, v], f2, n + 2, AstapScan { file: Some(v), ..s1 }) == Ok::<AstapScan, Seq<char>>(
        AstapScan { file: Some(v), ..s1 },
    ));
    lemma_scan_then(args, finite, seq!["-r"@, v], seq![true, true], 0, st);
    assert(("-r"@.len() != "-f"@.len() || "-r"@[1] != "-f"@[1]));
    assert((args + seq!["-r"@, v])[n] == "-r"@ && (args + seq!["-r"@, v])[n + 1] == v);
    assert(scan_astap(args + seq!["-r"@, v], f2, n + 2, AstapScan { radius: Some(v), ..s1 }) == Ok::<AstapScan, Seq<char>>(
        AstapScan { radius: Some(v), ..s1 },
    ));
    lemma_scan_then(args, finite, seq!["-fov"@, v], seq![true, true], 0, st);
    assert(("-fov"@.len() != "-f"@.len() || "-fov"@[1] != "-f"@[1]) && ("-fov"@.len() != "-r"@.len() || "-fov"@[1] != "-r"@[1]));
    assert((args + seq!["-fov"@, v])[n] == "-fov"@ && (args + seq!["-fov"@, v])[n + 1] == v);
    assert(scan_astap(args + seq!["-fov"@, v], f2, n + 2, AstapScan { fov: Some(v), ..s1 }) == Ok::<AstapScan, Seq<char>>(
        AstapScan { fov: Some(v), ..s1 },
    ));
    lemma_scan_then(args, finite, seq!["-t"@, v], seq![true, true], 0, st);
    assert(("-t"@.len() != "-f"@.len() || "-t"@[1] != "-f"@[1]) && ("-t"@.len() != "-r"@.len() || "-t"@[1] != "-r"@[1]) && ("-t"@.len() != "-fov"@.len() || "-t"@[1] != "-fov"@[1]) && ("-t"@.len() != "-ra"@.len() || "-t"@[1] != "-ra"@[1]) && ("-t"@.len() != "-spd"@.len() || "-t"@[1] != "-spd"@[1]) && ("-t"@.len() != "-s"@.len() || "-t"@[1] != "-s"@[1]));
    assert((args + seq!["-t"@, v])[n] == "-t"@ && (args + seq!["-t"@, v])[n + 1] == v);
    assert(scan_astap(args + seq!["-t"@, v], f2, n + 2, AstapScan { tolerance: Some(v), ..s1 }) == Ok::<AstapScan, Seq<char>>(
        AstapScan { tolerance: Some(v), ..s1 },
    ));
    lemma_scan_then(args, finite, seq!["-m"@, v], seq![true, true], 0, st);
    assert(("-m"@.len() != "-f"@.len() || "-m"@[1] != "-f"@[1]) && ("-m"@.len() != "-r"@.len() || "-m"@[1] != "-r"@[1]) && ("-m"@.len() != "-fov"@.len() || "-m"@[1] != "-fov"@[1]) && ("-m"@.len() != "-ra"@.len() || "-m"@[1] != "-ra"@[1]) && ("-m"@.len() != "-spd"@.len() || "-m"@[1] != "-spd"@[1]) && ("-m"@.len() != "-s"@.len() || "-m"@[1] != "-s"@[1]) && ("-m"@.len() != "-t"@.len() || "-m"@[1] != "-t"@[1]));
    assert((args + seq!["-m"@, v])[n] == "-m"@ && (args + seq!["-m"@, v])[n + 1] == v);
    assert(scan_astap(args + seq!["-m"@, v], f2, n + 2, AstapScan { min_star: Some(v), ..s1 }) == Ok::<AstapScan, Seq<char>>(
        AstapScan { min_star: Some(v), ..s1 },
    ));
    lemma_scan_then(args, finite, seq!["-d"@, v], seq![true, true], 0, st);
    assert(("-d"@.len() != "-f"@.len() || "-d"@[1] != "-f"@[1]) && ("-d"@.len() != "-r"@.len() || "-d"@[1] != "-r"@[1]) && ("-d"@.len() != "-fov"@.len() || "-d"@[1] != "-fov"@[1]) && ("-d"@.len() != "-ra"@.len() || "-d"@[1] != "-ra"@[1]) && ("-d"@.len() != "-spd"@.len() || "-d"@[1] != "-spd"@[1]) && ("-d"@.len() != "-s"@.len() || "-d"@[1] != "-s"@[1]) && ("-d"@.len() != "-t"@.len() || "-d"@[1] != "-t"@[1]) && ("-d"@.len() != "-m"@.len() || "-d"@[1] != "-m"@[1]) && ("-d"@.len() != "-z"@.len() || "-d"@[1] != "-z"@[1]));
    assert((args + seq!["-d"@, v])[n] == "-d"@ && (args + seq!["-d"@, v])[n + 1] == v);
    assert(scan_astap(args + seq!["-d"@, v], f2, n + 2, AstapScan { db_dir: Some(v), ..s1 }) == Ok::<AstapScan, Seq<char>>(
        AstapScan { db_dir: Some(v), ..s1 },
    ));
    lemma_scan_then(args, finite, seq!["-D"@, v], seq![true, true], 0, st);
    assert(("-D"@.len() != "-f"@.len() || "-D"@[1] != "-f"@[1]) && ("-D"@.len() != "-r"@.len() || "-D"@[1] != "-r"@[1]) && ("-D"@.len() != "-fov"@.len() || "-D"@[1] != "-fov"@[1]) && ("-D"@.len() != "-ra"@.len() || "-D"@[1] != "-ra"@[1]) && ("-D"@.len() != "-spd"@.len() || "-D"@[1] != "-spd"@[1]) && ("-D"@.len() != "-s"@.len() || "-D"@[1] != "-s"@[1]) && ("-D"@.len() != "-t"@.len() || "-D"@[1] != "-t"@[1]) && ("-D"@.len() != "-m"@.len() || "-D"@[1] != "-m"@[1]) && ("-D"@.len() != "-z"@.len() || "-D"@[1] != "-z"@[1]) && ("-D"@.len() != "-d"@.len() || "-D"@[1] != "-d"@[1]));
    assert((args + seq!["-D"@, v])[n] == "-D"@ && (args + seq!["-D"@, v])[n + 1] == v);
    assert(scan_astap(args + seq!["-D"@, v], f2, n + 2, AstapScan { db_dir: Some(v), ..s1 }) == Ok::<AstapScan, Seq<char>>(
        AstapScan { db_dir: Some(v), ..s1 },
    ));
    lemma_scan_then(args, finite, seq!["-o"@, v], seq![true, true], 0, st);
    assert(("-o"@.len() != "-f"@.len() || "-o"@[1] != "-f"@[1]) && ("-o"@.len() != "-r"@.len() || "-o"@[1] != "-r"@[1]) && ("-o"@.len() != "-fov"@.len() || "-o"@[1] != "-fov"@[1]) && ("-o"@.len() != "-ra"@.len() || "-o"@[1] != "-ra"@[1]) && ("-o"@.len() != "-spd"@.len() || "-o"@[1] != "-spd"@[1]) && ("-o"@.len() != "-s"@.len() || "-o"@[1] != "-s"@[1]) && ("-o"@.len() != "-t"@.len() || "-o"@[1] != "-t"@[1]) && ("-o"@.len() != "-m"@.len() || "-o"@[1] != "-m"@[1]) && ("-o"@.len() != "-z"@.len() || "-o"@[1] != "-z"@[1]) && ("-o"@.len() != "-d"@.len() || "-o"@[1] != "-d"@[1]) && ("-o"@.len() != "-D"@.len() || "-o"@[1] != "-D"@[1]));
    assert((args + seq!["-o"@, v])[n] == "-o"@ && (args + seq!["-o"@, v])[n + 1] == v);
    assert(scan_astap(args + seq!["-o"@, v], f2, n + 2, AstapScan { out_base: Some(v), ..s1 }) == Ok::<AstapScan, Seq<char>>(
        AstapScan { out_base: Some(v), ..s1 },
    ));
}

/// The texts joined with single spaces.
pub open spec fn joined(parts: Seq<Seq<char>>) -> Seq<char>
    decreases parts.len(),
{
    if parts.len() == 0 {
        Seq::empty()
    } else if parts.len() == 1 {
        parts[0]
    } else {
        joined(parts.drop_last()) + " "@ + parts.last()
    }
}

/// The program path as `CMDLINE=` shows it: `psolve` when it is empty.
pub open spec fn program_name(p: Seq<char>) -> Seq<char> {
    if p.len() == 0 {
        "psolve"@
    } else {
        p
    }
}

/// The text of an optional string.
pub open spec fn opt_text(o: Option<String>) -> Option<Seq<char>> {
    match o {
        Some(s) => Some(s@),
        None => None,
    }
}

/// A parsed ASTAP-mode invocation. Numeric flags whose values are
/// floating-point are kept as their (validated) text.
#[derive(Debug, Clone)]
pub struct AstapArgs {
    pub file: String,
    /// `-r`'s text; `180` (all sky) when absent.
    pub radius_deg: String,
    pub ra_hours: Option<String>,
    pub spd_deg: Option<String>,
    pub fov_deg: Option<String>,
    pub db_dir: Option<String>,
    pub out_base: Option<String>,
    pub update: bool,
    pub wcs_fits_block: bool,
    pub downsample: Option<u32>,
    pub max_stars: Option<usize>,
    pub tolerance: Option<String>,
    pub min_star_arcsec: Option<String>,
    /// The program path followed by the argv, joined with single spaces.
    pub cmdline: String,
}

/// The scan's state while it runs.
struct ScanState {
    file: Option<String>,
    radius: Option<String>,
    ra_hours: Option<String>,
    spd: Option<String>,
    fov: Option<String>,
    db_dir: Option<String>,
    out_base: Option<String>,
    tolerance: Option<String>,
    min_star: Option<String>,
    update: bool,
    wcs_fits_block: bool,
    downsample: Option<u32>,
    max_stars: Option<usize>,
}

impl ScanState {
    spec fn view_scan(&self) -> AstapScan {
        AstapScan {
            file: opt_text(self.file),
            radius: opt_text(self.radius),
            ra_hours: opt_text(self.ra_hours),
            spd: opt_text(self.spd),
            fov: opt_text(self.fov),
            db_dir: opt_text(self.db_dir),
            out_base: opt_text(self.out_base),
            tolerance: opt_text(self.tolerance),
            min_star: opt_text(self.min_star),
            update: self.update,
            wcs_fits_block: self.wcs_fits_block,
            downsample: self.downsample,
            max_stars: self.max_stars,
        }
    }
}

/// Whether `t` is one of the flags that consume the following token.
fn is_astap_value_flag(t: &str) -> (b: bool)
    ensures
        b == astap_value_flag(t@),
{
    str_eq(t, "-f") || str_eq(t, "-r") || str_eq(t, "-fov") || str_eq(t, "-ra") || str_eq(t, "-spd") || str_eq(t, "-s") || str_eq(t, "-t") || str_eq(t, "-m") || str_eq(t, "-z") || str_eq(t, "-d") || str_eq(t, "-D") || str_eq(t, "-o") || str_eq(t, "-speed") || str_eq(t, "-analyse") || str_eq(t, "-extract") || str_eq(t, "-extract2")
}

/// Apply one value-taking flag and its value to the scan state.
fn apply_value_exec(st: &mut ScanState, tok: &str, v: String, finite: bool) -> (r: Result<(), String>)
    ensures
        match apply_value(old(st).view_scan(), tok@, v@, finite) {
            Ok(next) => r is Ok && final(st).view_scan() == next,
            Err(e) => r matches Err(m) && m@ == e,
        },
{
    if str_eq(tok, "-f") {
        st.file = Some(v);
        Ok(())
    } else if str_eq(tok, "-r") {
        if finite {
            st.radius = Some(v);
            Ok(())
        } else {
            Err(not_finite(v.as_str(), tok))
        }
    } else if str_eq(tok, "-fov") {
        if finite {
            st.fov = Some(v);
            Ok(())
        } else {
            Err(not_finite(v.as_str(), tok))
        }
    } else if str_eq(tok, "-ra") {
        if finite {
            st.ra_hours = Some(v);
            Ok(())
        } else {
            Err(not_finite(v.as_str(), tok))
        }
    } else if str_eq(tok, "-spd") {
        if finite {
            st.spd = Some(v);
            Ok(())
        } else {
            Err(not_finite(v.as_str(), tok))
        }
    } else if str_eq(tok, "-s") {
        match parse_usize(v.as_str(), tok) {
            Ok(n) => {
                st.max_stars = Some(n);
                Ok(())
            },
            Err(e) => Err(e),
        }
    } else if str_eq(tok, "-t") {
        if finite {
            st.tolerance = Some(v);
            Ok(())
        } else {
            Err(not_finite(v.as_str(), tok))
        }
    } else if str_eq(tok, "-m") {
        if finite {
            st.min_star = Some(v);
            Ok(())
        } else {
            Err(not_finite(v.as_str(), tok))
        }
    } else if str_eq(tok, "-z") {
        match parse_u32(v.as_str(), tok) {
            Ok(n) => {
                st.downsample = Some(n);
                Ok(())
            },
            Err(e) => Err(e),
        }
    } else if str_eq(tok, "-d") {
        st.db_dir = Some(v);
        Ok(())
    } else if str_eq(tok, "-D") {
        st.db_dir = Some(v);
        Ok(())
    } else if str_eq(tok, "-o") {
        st.out_base = Some(v);
        Ok(())
    } else {
        Ok(())
    }
}

/// The error for a value that is not a finite number.
fn not_finite(v: &str, flag: &str) -> (e: String)
    ensures
        e@ == not_finite_message(v@, flag@),
{
    let mut e = String::new();
    push_all(&mut e, "psolve: ");
    push_all(&mut e, flag);
    push_all(&mut e, " must be a finite number, got ");
    let q = debug_str(v);
    push_all(&mut e, q.as_str());
    e
}

/// The command line: the program path (or `psolve` when it is empty) and
/// the argv, joined with single spaces.
pub fn astap_cmdline(program: &str, args: &[String]) -> (c: String)
    ensures
        c@ == joined(seq![program_name(program@)] + texts(args@)),
{
    let mut c = String::new();
    if program.is_empty() {
        push_all(&mut c, "psolve");
    } else {
        push_all(&mut c, program);
    }
    let ghost parts = seq![program_name(program@)] + texts(args@);
    proof {
        reveal_strlit("psolve");
        assert(parts.take(1) =~= seq![program_name(program@)]);
    }
    let mut i: usize = 0;
    while i < args.len()
        invariant
            parts == seq![program_name(program@)] + texts(args@),
            i <= args.len(),
            c@ == joined(parts.take(i + 1)),
        decreases args.len() - i,
    {
        push_all(&mut c, " ");
        push_all(&mut c, args[i].as_str());
        proof {
            assert(parts.take(i + 2).drop_last() =~= parts.take(i + 1));
            assert(parts.take(i + 2).last() == args@[i as int]@);
        }
        i += 1;
    }
    assert(parts.take(args.len() + 1) =~= parts);
    c
}

/// The error when no `-f` was given.
pub open spec fn missing_file_message() -> Seq<char> {
    "psolve: -f <FILE> is required in ASTAP mode"@
}

/// Parse an ASTAP-mode argv (`args`, the tail after the program path
/// `program`). `finite[k]` says whether `args[k]` reads as a finite
/// floating-point number, the check `-r`/`-fov`/`-ra`/`-spd`/`-t`/`-m`
/// values must pass. Unknown flags, psolve's own `--long` flags among them,
/// are an error; so is a missing `-f`; `-r` defaults to `180`.
pub fn parse_astap(program: &str, args: &[String], finite: &[bool]) -> (r: Result<AstapArgs, String>)
    requires
        finite.len() == args.len(),
    ensures
        ({
            let scan = scan_astap(texts(args@), finite@, 0, empty_scan());
            match r {
                Ok(a) => scan matches Ok(st) && st.file == Some(a.file@) && a.radius_deg@ == (
                match st.radius {
                    Some(t) => t,
                    None => "180"@,
                }) && opt_text(a.ra_hours) == st.ra_hours && opt_text(a.spd_deg) == st.spd
                    && opt_text(a.fov_deg) == st.fov && opt_text(a.db_dir) == st.db_dir && opt_text(
                    a.out_base,
                ) == st.out_base && a.update == st.update && a.wcs_fits_block == st.wcs_fits_block
                    && a.downsample == st.downsample && a.max_stars == st.max_stars && opt_text(
                    a.tolerance,
                ) == st.tolerance && opt_text(a.min_star_arcsec) == st.min_star && a.cmdline@
                    == joined(seq![program_name(program@)] + texts(args@)),
                Err(e) => (scan matches Err(m) && e@ == m) || (scan matches Ok(st) && st.file is None
                    && e@ == missing_file_message()),
            }
        }),
{
    let cmdline = astap_cmdline(program, args);
    let ghost ts = texts(args@);
    let mut st = ScanState {
        file: None,
        radius: None,
        ra_hours: None,
        spd: None,
        fov: None,
        db_dir: None,
        out_base: None,
        tolerance: None,
        min_star: None,
        update: false,
        wcs_fits_block: false,
        downsample: None,
        max_stars: None,
    };
    let mut i: usize = 0;
    assert(st.view_scan() == empty_scan());
    while i < args.len()
        invariant
            ts == texts(args@),
            finite.len() == args.len(),
            scan_astap(ts, finite@, 0, empty_scan()) == scan_astap(ts, finite@, i as int, st.view_scan()),
        decreases args.len() - i,
    {
        let tok = args[i].as_str();
        assert(ts[i as int] == tok@);
        if is_astap_value_flag(tok) {
            let at = i;
            match take_value(args, &mut i, tok) {
                Err(e) => return Err(e),
                Ok(v) => {
                    assert(ts[at + 1] == v@);
                    let fin = finite[at + 1];
                    match apply_value_exec(&mut st, tok, v, fin) {
                        Err(e) => return Err(e),
                        Ok(()) => {},
                    }
                },
            }
        } else if str_eq(tok, "-update") {
            st.update = true;
            i += 1;
        } else if str_eq(tok, "-wcs") {
            st.wcs_fits_block = true;
            i += 1;
        } else if str_eq(tok, "-log") || str_eq(tok, "-sip") || str_eq(tok, "-check") || str_eq(
            tok,
            "-progress",
        ) {
            i += 1;
        } else {
            let mut e = String::new();
            push_all(&mut e, "psolve: unknown ASTAP flag ");
            let q = debug_str(tok);
            push_all(&mut e, q.as_str());
            return Err(e);
        }
    }
    let file = match st.file {
        Some(f) => f,
        None => {
            let mut e = String::new();
            push_all(&mut e, "psolve: -f <FILE> is required in ASTAP mode");
            return Err(e);
        },
    };
    let radius_deg = match st.radius {
        Some(t) => t,
        None => {
            let mut t = String::new();
            push_all(&mut t, "180");
            t
        },
    };
    Ok(AstapArgs {
        file,
        radius_deg,
        ra_hours: st.ra_hours,
        spd_deg: st.spd,
        fov_deg: st.fov,
        db_dir: st.db_dir,
        out_base: st.out_base,
        update: st.update,
        wcs_fits_block: st.wcs_fits_block,
        downsample: st.downsample,
        max_stars: st.max_stars,
        tolerance: st.tolerance,
        min_star_arcsec: st.min_star,
        cmdline,
    })
}

/// The path `file` names, with its extension taken off (what
/// `Path::with_extension("")` makes of it).
pub uninterp spec fn path_without_extension(file: Seq<char>) -> Seq<char>;

/// `Path::new(file).with_extension("")`, as text. Stated: the result is the
/// named function of `file`; which suffix counts as the extension is
/// `Path`'s rule and is left unsaid.
#[verifier::external_body]
pub(crate) fn strip_extension(file: &str) -> (r: String)
    ensures
        r@ == path_without_extension(file@),
{
    std::path::Path::new(file).with_extension("").to_string_lossy().into_owned()
}

/// The base path of the `.ini`/`.wcs` sidecars: `-o`'s value when given,
/// else the input file's path without its extension.
pub fn astap_sidecar_base(a: &AstapArgs) -> (r: String)
    ensures
        r@ == match a.out_base {
            Some(o) => o@,
            None => path_without_extension(a.file@),
        },
{
    match &a.out_base {
        Some(o) => o.clone(),
        None => strip_extension(a.file.as_str()),
    }
}

/// The accepted-but-unapplied flags present, by their ASTAP names.
pub open spec fn unwired_flags(a: AstapArgs) -> Seq<Seq<char>> {
    (if a.downsample is Some { seq!["-z"@] } else { Seq::empty() })
        + (if a.max_stars is Some { seq!["-s"@] } else { Seq::empty() })
        + (if a.tolerance is Some { seq!["-t"@] } else { Seq::empty() })
        + (if a.min_star_arcsec is Some { seq!["-m"@] } else { Seq::empty() })
}

/// The texts joined with `", "`.
pub open spec fn comma_joined(parts: Seq<Seq<char>>) -> Seq<char>
    decreases parts.len(),
{
    if parts.len() == 0 {
        Seq::empty()
    } else if parts.len() == 1 {
        parts[0]
    } else {
        comma_joined(parts.drop_last()) + ", "@ + parts.last()
    }
}

/// The warning naming the ASTAP flags that were accepted but are not
/// applied to the solve (`-z`, `-s`, `-t`, `-m`), when any was given.
pub open spec fn unwired_warning_text(a: AstapArgs) -> Option<Seq<char>> {
    let flags = unwired_flags(a);
    if flags.len() == 0 {
        None
    } else {
        Some("psolve: warning: "@ + comma_joined(flags)
            + " accepted but not applied to the solve (no verified psolve equivalent for "@ + (if flags.len()
            == 1 {
            "it"@
        } else {
            "them"@
        }) + " yet)"@)
    }
}

/// The warning about accepted-but-unapplied flags, if any was given.
pub fn unwired_flags_warning(a: &AstapArgs) -> (r: Option<String>)
    ensures
        match unwired_warning_text(*a) {
            Some(t) => r matches Some(w) && w@ == t,
            None => r is None,
        },
{
    let mut names: Vec<&str> = Vec::new();
    let ghost mut parts: Seq<Seq<char>> = Seq::empty();
    if a.downsample.is_some() {
        names.push("-z");
        proof { parts = parts.push("-z"@); }
    }
    if a.max_stars.is_some() {
        names.push("-s");
        proof { parts = parts.push("-s"@); }
    }
    if a.tolerance.is_some() {
        names.push("-t");
        proof { parts = parts.push("-t"@); }
    }
    if a.min_star_arcsec.is_some() {
        names.push("-m");
        proof { parts = parts.push("-m"@); }
    }
    assert(parts =~= unwired_flags(*a));
    assert(names@.map_values(|n: &str| n@) =~= parts);
    if names.len() == 0 {
        return None;
    }
    let mut joined_names = String::new();
    let mut i: usize = 0;
    while i < names.len()
        invariant
            0 < names.len() <= 4,
            names@.map_values(|n: &str| n@) == parts,
            i <= names.len(),
            i == 0 ==> joined_names@ == Seq::<char>::empty(),
            i > 0 ==> joined_names@ == comma_joined(parts.take(i as int)),
        decreases names.len() - i,
    {
        if i > 0 {
            push_all(&mut joined_names, ", ");
        }
        push_all(&mut joined_names, names[i]);
        proof {
            assert(parts.take(i + 1).drop_last() =~= parts.take(i as int));
            assert(parts.take(i + 1).last() == names@[i as int]@);
            if i == 0 {
                assert(parts.take(1).len() == 1);
                assert(joined_names@ =~= parts.take(1)[0]);
            }
        }
        i += 1;
    }
    assert(parts.take(names.len() as int) =~= parts);
    let mut w = String::new();
    push_all(&mut w, "psolve: warning: ");
    push_all(&mut w, joined_names.as_str());
    push_all(&mut w, " accepted but not applied to the solve (no verified psolve equivalent for ");
    if names.len() == 1 {
        push_all(&mut w, "it");
    } else {
        push_all(&mut w, "them");
    }
    push_all(&mut w, " yet)");
    Some(w)
}

/// How one original header card is carried into the `.wcs` sidecar:
/// `BITPIX` becomes `8`, `NAXIS` becomes `0`, `NAXIS1`/`NAXIS2` are dropped,
/// every other card is kept as it was.
pub open spec fn passthrough_line(card: Seq<u8>) -> Option<Seq<char>> {
    let k = key_of_bytes(card);
    if k == "BITPIX"@ {
        Some(pad_right("BITPIX  =                    8"@, 80))
    } else if k == "NAXIS"@ {
        Some(pad_right("NAXIS   =                    0 / Dimensionality"@, 80))
    } else if k == "NAXIS1"@ || k == "NAXIS2"@ {
        None
    } else {
        Some(lossy_decode(card))
    }
}

/// The axis cards describe no pixel data in the `.wcs` sidecar: `BITPIX`
/// is written as `8`, `NAXIS` as `0`, and `NAXIS1`/`NAXIS2` are left out.
pub proof fn lemma_passthrough_axis_cards(card: Seq<u8>)
    ensures
        key_of_bytes(card) == "BITPIX"@ ==> passthrough_line(card) == Some(
            pad_right("BITPIX  =                    8"@, 80),
        ),
        key_of_bytes(card) == "NAXIS"@ ==> passthrough_line(card) == Some(
            pad_right("NAXIS   =                    0 / Dimensionality"@, 80),
        ),
        key_of_bytes(card) == "NAXIS1"@ || key_of_bytes(card) == "NAXIS2"@ ==> passthrough_line(card)
            is None,
{
    reveal_strlit("BITPIX");
    reveal_strlit("NAXIS");
    reveal_strlit("NAXIS1");
    reveal_strlit("NAXIS2");
    assert("NAXIS"@.len() != "BITPIX"@.len());
    assert("NAXIS1"@[0] != "BITPIX"@[0] && "NAXIS2"@[0] != "BITPIX"@[0]);
    assert("NAXIS1"@.len() != "NAXIS"@.len() && "NAXIS2"@.len() != "NAXIS"@.len());
}

/// Every source card whose keyword is not `BITPIX`, `NAXIS`, `NAXIS1` or
/// `NAXIS2` (a `COMMENT`, `HISTORY`, `OBJECT`, ... card) is carried into the
/// `.wcs` sidecar as it was, and after the cards before it.
pub proof fn law_passthrough_keeps_other_cards(cards: Seq<Seq<u8>>, card: Seq<u8>)
    requires
        key_of_bytes(card) != "BITPIX"@,
        key_of_bytes(card) != "NAXIS"@,
        key_of_bytes(card) != "NAXIS1"@,
        key_of_bytes(card) != "NAXIS2"@,
    ensures
        passthrough_line(card) == Some(lossy_decode(card)),
        passthrough_lines(cards.push(card)) == passthrough_lines(cards).push(lossy_decode(card)),
{
    lemma_passthrough_axis_cards(card);
    assert(cards.push(card).drop_last() =~= cards);
    assert(passthrough_lines(cards) + seq![lossy_decode(card)] =~= passthrough_lines(cards).push(
        lossy_decode(card),
    ));
}

/// The carried lines of all the cards, in order.
pub open spec fn passthrough_lines(cards: Seq<Seq<u8>>) -> Seq<Seq<char>>
    decreases cards.len(),
{
    if cards.len() == 0 {
        Seq::empty()
    } else {
        passthrough_lines(cards.drop_last()) + match passthrough_line(cards.last()) {
            Some(l) => seq![l],
            None => Seq::empty(),
        }
    }
}

/// The texts joined with newlines.
pub open spec fn newline_joined(parts: Seq<Seq<char>>) -> Seq<char>
    decreases parts.len(),
{
    if parts.len() == 0 {
        Seq::empty()
    } else if parts.len() == 1 {
        parts[0]
    } else {
        newline_joined(parts.drop_last()) + seq!['\n'] + parts.last()
    }
}

/// The `.wcs` sidecar's pass-through of the source file's own header: every
/// card before `END`, byte for byte and in order, except that `BITPIX` and
/// `NAXIS` describe no pixel data and `NAXIS1`/`NAXIS2` are left out.
/// Empty when the source header could not be parsed (`data_offset` absent).
pub fn astap_wcs_original_header(bytes: &[u8], data_offset: Option<usize>) -> (r: String)
    ensures
        r@ == match data_offset {
            None => Seq::<char>::empty(),
            Some(off) => newline_joined(passthrough_lines(header_cards(bytes@, off as int))),
        },
{
    let off = match data_offset {
        None => return String::new(),
        Some(o) => o,
    };
    let cards = raw_header_cards(bytes, off);
    let ghost cs = views(cards@);
    let mut lines: Vec<String> = Vec::new();
    let mut i: usize = 0;
    assert(cs.take(0) =~= Seq::<Seq<u8>>::empty());
    while i < cards.len()
        invariant
            cs == views(cards@),
            cs == header_cards(bytes@, off as int),
            i <= cards.len(),
            texts(lines@) == passthrough_lines(cs.take(i as int)),
        decreases cards.len() - i,
    {
        let card = &cards[i];
        let k = card_key(card.as_slice());
        let ghost before = lines@;
        proof {
            assert(cs.take(i + 1).drop_last() =~= cs.take(i as int));
            assert(cs.take(i + 1).last() == card@);
        }
        if str_eq(k.as_str(), "BITPIX") {
            lines.push(crate::sidecar::left_justify("BITPIX  =                    8", 80));
            assert(texts(lines@) =~= texts(before).push(pad_right("BITPIX  =                    8"@, 80)));
        } else if str_eq(k.as_str(), "NAXIS") {
            lines.push(crate::sidecar::left_justify("NAXIS   =                    0 / Dimensionality", 80));
            assert(texts(lines@) =~= texts(before).push(pad_right("NAXIS   =                    0 / Dimensionality"@, 80)));
        } else if str_eq(k.as_str(), "NAXIS1") || str_eq(k.as_str(), "NAXIS2") {
            assert(texts(lines@) =~= texts(before));
        } else {
            lines.push(utf8_lossy(card.as_slice()));
            assert(texts(lines@) =~= texts(before).push(lossy_decode(card@)));
        }
        i += 1;
    }
    assert(cs.take(cards.len() as int) =~= cs);
    let ghost ls = texts(lines@);
    let mut out = String::new();
    let mut j: usize = 0;
    while j < lines.len()
        invariant
            ls == texts(lines@),
            j <= lines.len(),
            j == 0 ==> out@ == Seq::<char>::empty(),
            j > 0 ==> out@ == newline_joined(ls.take(j as int)),
        decreases lines.len() - j,
    {
        if j > 0 {
            push_char(&mut out, '\n');
        }
        push_all(&mut out, lines[j].as_str());
        proof {
            assert(ls.take(j + 1).drop_last() =~= ls.take(j as int));
            assert(ls.take(j + 1).last() == lines@[j as int]@);
            if j == 0 {
                assert(out@ =~= ls.take(1)[0]);
            }
        }
        j += 1;
    }
    proof {
        assert(ls.take(lines.len() as int) =~= ls);
        if lines.len() == 0 {
            assert(ls.len() == 0);
        }
    }
    out
}

/// `a` sorts strictly before `b`, byte by byte (shorter first on a tie).
pub open spec fn bytes_lt(a: Seq<u8>, b: Seq<u8>) -> bool
    decreases a.len(),
{
    if a.len() == 0 {
        b.len() > 0
    } else if b.len() == 0 {
        false
    } else if a[0] != b[0] {
        a[0] < b[0]
    } else {
        bytes_lt(a.drop_first(), b.drop_first())
    }
}

/// Position of the last `.` in `n`.
pub open spec fn last_dot(n: Seq<u8>) -> Option<int>
    decreases n.len(),
{
    if n.len() == 0 {
        None
    } else if n.last() == 46u8 {
        Some(n.len() - 1)
    } else {
        last_dot(n.drop_last())
    }
}

/// A file name's extension (`Path::extension` of a plain file name): what
/// follows the last `.`, unless there is none or the only one starts the
/// name.
pub open spec fn name_extension(n: Seq<u8>) -> Option<Seq<u8>> {
    match last_dot(n) {
        None => None,
        Some(i) => if i == 0 {
            None
        } else {
            Some(n.skip(i + 1))
        },
    }
}

fn bytes_less(a: &[u8], b: &[u8]) -> (r: bool)
    ensures
        r == bytes_lt(a@, b@),
{
    let mut i: usize = 0;
    assert(a@.skip(0) =~= a@);
    assert(b@.skip(0) =~= b@);
    while i < a.len() && i < b.len() && a[i] == b[i]
        invariant
            i <= a.len(),
            i <= b.len(),
            bytes_lt(a@, b@) == bytes_lt(a@.skip(i as int), b@.skip(i as int)),
        decreases a.len() - i,
    {
        assert(a@.skip(i as int).drop_first() =~= a@.skip(i + 1));
        assert(b@.skip(i as int).drop_first() =~= b@.skip(i + 1));
        i += 1;
    }
    if i == a.len() {
        assert(a@.skip(i as int).len() == 0);
        i < b.len()
    } else if i == b.len() {
        assert(b@.skip(i as int).len() == 0);
        false
    } else {
        assert(a@.skip(i as int)[0] == a[i as int]);
        assert(b@.skip(i as int)[0] == b[i as int]);
        a[i] < b[i]
    }
}

fn extension_is(n: &[u8], ext: &[u8]) -> (r: bool)
    ensures
        r == (name_extension(n@) == Some(ext@)),
{
    let mut j: usize = n.len();
    assert(n@.take(n.len() as int) =~= n@);
    while j > 0 && n[j - 1] != 46u8
        invariant
            j <= n.len(),
            last_dot(n@) == last_dot(n@.take(j as int)),
        decreases j,
    {
        assert(n@.take(j as int).drop_last() =~= n@.take(j - 1));
        j -= 1;
    }
    if j == 0 {
        assert(n@.take(0) =~= Seq::<u8>::empty());
        return false;
    }
    assert(last_dot(n@) == Some(j - 1));
    if j == 1 {
        return false;
    }
    let rest = n.len() - j;
    if rest != ext.len() {
        assert(n@.skip(j as int).len() != ext@.len());
        return false;
    }
    let mut k: usize = 0;
    assert(name_extension(n@) == Some(n@.skip(j as int)));
    while k < rest
        invariant
            name_extension(n@) == Some(n@.skip(j as int)),
            j + rest == n.len(),
            rest == ext.len(),
            k <= rest,
            forall|m: int| 0 <= m < k ==> n@[j + m] == ext@[m],
        decreases rest - k,
    {
        if n[j + k] != ext[k] {
            assert(n@.skip(j as int)[k as int] != ext@[k as int]);
            return false;
        }
        k += 1;
    }
    assert(n@.skip(j as int) =~= ext@);
    true
}

/// The entry an ASTAP `-d` directory resolves to: among the file names with
/// extension `ext`, the one that sorts first (the first of equal ones);
/// `None` when no name has that extension.
pub fn pick_by_extension(names: &Vec<Vec<u8>>, ext: &[u8]) -> (r: Option<usize>)
    ensures
        match r {
            Some(i) => i < names.len() && name_extension(names@[i as int]@) == Some(ext@) && (forall|j: int|
                0 <= j < i && name_extension(names@[j]@) == Some(ext@) ==> bytes_lt(
                    names@[i as int]@,
                    names@[j]@,
                )) && (forall|j: int|
                i < j < names.len() && name_extension(names@[j]@) == Some(ext@) ==> !bytes_lt(
                    names@[j]@,
                    names@[i as int]@,
                )),
            None => forall|j: int| 0 <= j < names.len() ==> name_extension(names@[j]@) != Some(ext@),
        },
{
    let mut best: Option<usize> = None;
    let mut i: usize = 0;
    while i < names.len()
        invariant
            i <= names.len(),
            match best {
                Some(b) => b < i && name_extension(names@[b as int]@) == Some(ext@) && (forall|j: int|
                    0 <= j < b && name_extension(names@[j]@) == Some(ext@) ==> bytes_lt(
                        names@[b as int]@,
                        names@[j]@,
                    )) && (forall|j: int|
                    b < j < i && name_extension(names@[j]@) == Some(ext@) ==> !bytes_lt(
                        names@[j]@,
                        names@[b as int]@,
                    )),
                None => forall|j: int| 0 <= j < i ==> name_extension(names@[j]@) != Some(ext@),
            },
        decreases names.len() - i,
    {
        if extension_is(names[i].as_slice(), ext) {
            match best {
                None => {
                    best = Some(i);
                },
                Some(b) => {
                    if bytes_less(names[i].as_slice(), names[b].as_slice()) {
                        proof {
                            assert forall|j: int|
                                0 <= j < i && name_extension(names@[j]@) == Some(ext@) implies bytes_lt(
                                names@[i as int]@,
                                names@[j]@,
                            ) by {
                                if j < b {
                                    lemma_bytes_lt_trans(names@[i as int]@, names@[b as int]@, names@[j]@);
                                } else if j > b {
                                    lemma_bytes_lt_total(names@[j]@, names@[b as int]@);
                                    if names@[j]@ != names@[b as int]@ {
                                        lemma_bytes_lt_trans(names@[i as int]@, names@[b as int]@, names@[j]@);
                                    }
                                }
                            }
                        }
                        best = Some(i);
                    }
                },
            }
        }
        i += 1;
    }
    best
}

/// Byte order is transitive.
pub proof fn lemma_bytes_lt_trans(a: Seq<u8>, b: Seq<u8>, c: Seq<u8>)
    requires
        bytes_lt(a, b),
        bytes_lt(b, c),
    ensures
        bytes_lt(a, c),
    decreases a.len(),
{
    if a.len() > 0 && b.len() > 0 && c.len() > 0 && a[0] == b[0] && b[0] == c[0] {
        lemma_bytes_lt_trans(a.drop_first(), b.drop_first(), c.drop_first());
    }
}

/// Byte order is total.
pub proof fn lemma_bytes_lt_total(a: Seq<u8>, b: Seq<u8>)
    ensures
        bytes_lt(a, b) || bytes_lt(b, a) || a == b,
    decreases a.len(),
{
    if a.len() == 0 && b.len() == 0 {
        assert(a =~= b);
    } else if a.len() > 0 && b.len() > 0 && a[0] == b[0] {
        lemma_bytes_lt_total(a.drop_first(), b.drop_first());
        if a.drop_first() == b.drop_first() {
            assert(a.drop_first().len() == a.len() - 1);
            assert(b.drop_first().len() == b.len() - 1);
            assert(a.len() == b.len());
            assert forall|i: int| 0 <= i < a.len() implies a[i] == b[i] by {
                if i > 0 {
                    assert(a[i] == a.drop_first()[i - 1]);
                    assert(b[i] == b.drop_first()[i - 1]);
                }
            }
            assert(a =~= b);
        }
    }
}

/// Texts joined with spaces begin with the first text, followed by a space
/// when there are more.
proof fn lemma_joined_starts_with_first(parts: Seq<Seq<char>>)
    requires
        parts.len() >= 1,
    ensures
        joined(parts).len() >= parts[0].len(),
        joined(parts).take(parts[0].len() as int) == parts[0],
        parts.len() >= 2 ==> joined(parts).len() > parts[0].len() && joined(parts)[parts[0].len() as int] == ' ',
    decreases parts.len(),
{
    reveal_strlit(" ");
    if parts.len() == 1 {
        assert(joined(parts).take(parts[0].len() as int) =~= parts[0]);
    } else {
        let front = parts.drop_last();
        lemma_joined_starts_with_first(front);
        assert(front[0] == parts[0]);
        let j = joined(parts);
        assert(j == joined(front) + " "@ + parts.last());
        assert(j.take(parts[0].len() as int) =~= joined(front).take(parts[0].len() as int));
        if front.len() == 1 {
            assert(joined(front) == parts[0]);
            assert(j[parts[0].len() as int] == ' ');
        } else {
            assert(j[parts[0].len() as int] == joined(front)[parts[0].len() as int]);
        }
    }
}

/// The recorded command line begins with the program path (or `psolve`
/// when it is empty), then a space before the first argument.
pub proof fn law_cmdline_starts_with_program(program: Seq<char>, args: Seq<Seq<char>>)
    ensures
        ({
            let c = joined(seq![program_name(program)] + args);
            let p = program_name(program);
            &&& c.take(p.len() as int) == p
            &&& p.len() > 0
            &&& args.len() > 0 ==> c.len() > p.len() && c[p.len() as int] == ' '
        }),
{
    reveal_strlit("psolve");
    let parts = seq![program_name(program)] + args;
    assert(parts[0] == program_name(program));
    lemma_joined_starts_with_first(parts);
}

} // verus!
