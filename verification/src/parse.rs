//! Parsing the probing tool's output.
//!
//! The tool prints a single line holding a decimal number of seconds,
//! such as `125.346000`, or nothing on failure. The parser trims
//! surrounding whitespace and reads the number as a whole count of
//! microseconds: integer digits, optionally a dot and fraction digits,
//! at least one digit in all. Fraction digits beyond the sixth are
//! read but do not contribute (the value is truncated to whole
//! microseconds). Anything else — empty output, a stray character, a
//! second dot, or a value too large for a `u64` of microseconds — is a
//! parse failure.

use vstd::prelude::*;

use crate::probe::ProbeError;

verus! {

pub open spec fn is_ascii_space(c: char) -> bool {
    c == ' ' || c == '\t' || c == '\n' || c == '\r'
}

pub open spec fn trim_front(s: Seq<char>) -> Seq<char>
    decreases s.len(),
{
    if s.len() > 0 && is_ascii_space(s.first()) {
        trim_front(s.drop_first())
    } else {
        s
    }
}

pub open spec fn trim_back(s: Seq<char>) -> Seq<char>
    decreases s.len(),
{
    if s.len() > 0 && is_ascii_space(s.last()) {
        trim_back(s.drop_last())
    } else {
        s
    }
}

/// The characters of `s` with surrounding whitespace removed.
pub open spec fn trimmed(s: Seq<char>) -> Seq<char> {
    trim_back(trim_front(s))
}

pub open spec fn is_digit(c: char) -> bool {
    48 <= c as u32 <= 57
}

pub open spec fn digit_val(c: char) -> int {
    c as u32 - 48
}

pub open spec fn all_digits(s: Seq<char>) -> bool {
    forall|i: int| 0 <= i < s.len() ==> is_digit(s[i])
}

/// Value of a digit string read in base ten.
pub open spec fn digits_val(s: Seq<char>) -> int
    decreases s.len(),
{
    if s.len() == 0 {
        0
    } else {
        digits_val(s.drop_last()) * 10 + digit_val(s.last())
    }
}

pub open spec fn pow10(n: nat) -> int
    decreases n,
{
    if n == 0 {
        1
    } else {
        10 * pow10((n - 1) as nat)
    }
}

/// Index of the first `.` in `t`, if any.
pub open spec fn first_dot_index(t: Seq<char>) -> Option<int>
    decreases t.len(),
{
    if t.len() == 0 {
        None
    } else if t[0] == '.' {
        Some(0int)
    } else {
        match first_dot_index(t.drop_first()) {
            None => None,
            Some(j) => Some(j + 1),
        }
    }
}

/// The accepted shape of a (trimmed) duration: digits, or digits with
/// one dot between them, with at least one digit in all. Examples:
/// `125`, `125.346000`, `.5`, `61.`; not ``, `.`, `1.2.3`, `-1`, `1e3`.
pub open spec fn is_duration_literal(t: Seq<char>) -> bool {
    match first_dot_index(t) {
        None => t.len() >= 1 && all_digits(t),
        Some(i) => t.len() >= 2 && all_digits(t.subrange(0, i)) && all_digits(
            t.subrange(i + 1, t.len() as int),
        ),
    }
}

/// Microseconds contributed by the fraction digits: the first six
/// digits, scaled so that one digit counts tenths of a second, two
/// count hundredths, and so on; digits beyond the sixth are truncated.
pub open spec fn frac_micros(fp: Seq<char>) -> int {
    if fp.len() >= 6 {
        digits_val(fp.subrange(0, 6))
    } else {
        digits_val(fp) * pow10((6 - fp.len()) as nat)
    }
}

/// The whole count of microseconds a duration literal denotes.
pub open spec fn literal_micros(t: Seq<char>) -> int {
    match first_dot_index(t) {
        None => digits_val(t) * 1_000_000,
        Some(i) => digits_val(t.subrange(0, i)) * 1_000_000 + frac_micros(
            t.subrange(i + 1, t.len() as int),
        ),
    }
}

proof fn lemma_trim_front_exact(u: Seq<char>, f: int)
    requires
        0 <= f <= u.len(),
        forall|k: int| 0 <= k < f ==> is_ascii_space(u[k]),
        f < u.len() ==> !is_ascii_space(u[f]),
    ensures
        trim_front(u) == u.subrange(f, u.len() as int),
    decreases f,
{
    if f == 0 {
        assert(u.subrange(0, u.len() as int) =~= u);
    } else {
        let v = u.drop_first();
        assert forall|k: int| 0 <= k < f - 1 implies is_ascii_space(v[k]) by {
            assert(v[k] == u[k + 1]);
        }
        lemma_trim_front_exact(v, f - 1);
        assert(v.subrange(f - 1, v.len() as int) =~= u.subrange(f, u.len() as int));
    }
}

proof fn lemma_trim_back_exact(u: Seq<char>, h: int)
    requires
        0 <= h <= u.len(),
        forall|k: int| h <= k < u.len() ==> is_ascii_space(u[k]),
        h > 0 ==> !is_ascii_space(u[h - 1]),
    ensures
        trim_back(u) == u.subrange(0, h),
    decreases u.len(),
{
    if h == u.len() {
        if u.len() > 0 {
            assert(!is_ascii_space(u.last()));
        }
        assert(u.subrange(0, u.len() as int) =~= u);
    } else {
        assert(is_ascii_space(u.last()));
        let v = u.drop_last();
        lemma_trim_back_exact(v, h);
        assert(v.subrange(0, h) =~= u.subrange(0, h));
    }
}

proof fn lemma_pow10_pos(n: nat)
    ensures
        pow10(n) >= 1,
    decreases n,
{
    if n > 0 {
        lemma_pow10_pos((n - 1) as nat);
    }
}

proof fn lemma_pow10_vals()
    ensures
        pow10(0) == 1,
        pow10(1) == 10,
        pow10(2) == 100,
        pow10(3) == 1000,
        pow10(4) == 10000,
        pow10(5) == 100000,
        pow10(6) == 1000000,
{
    reveal_with_fuel(pow10, 7);
}

/// A string of digits has a value in `[0, 10^len)`.
proof fn lemma_digits_val_bounds(u: Seq<char>)
    requires
        all_digits(u),
    ensures
        0 <= digits_val(u) < pow10(u.len()),
    decreases u.len(),
{
    if u.len() == 0 {
    } else {
        let v = u.drop_last();
        assert(all_digits(v));
        lemma_digits_val_bounds(v);
        assert(is_digit(u.last()));
        assert(0 <= digit_val(u.last()) <= 9);
    }
}

proof fn lemma_digits_val_step(u: Seq<char>, k: int)
    requires
        0 <= k < u.len(),
    ensures
        digits_val(u.subrange(0, k + 1)) == digits_val(u.subrange(0, k)) * 10 + digit_val(u[k]),
{
    let a = u.subrange(0, k + 1);
    assert(a.drop_last() =~= u.subrange(0, k));
    assert(a.last() == u[k]);
}

/// Reading more digits never shrinks the value.
proof fn lemma_digits_val_prefix_le(u: Seq<char>, k: int)
    requires
        all_digits(u),
        0 <= k <= u.len(),
    ensures
        digits_val(u.subrange(0, k)) <= digits_val(u),
    decreases u.len() - k,
{
    if k < u.len() {
        lemma_digits_val_step(u, k);
        assert(all_digits(u.subrange(0, k)));
        lemma_digits_val_bounds(u.subrange(0, k));
        lemma_digits_val_prefix_le(u, k + 1);
    } else {
        assert(u.subrange(0, k) =~= u);
    }
}

proof fn lemma_first_dot_at(t: Seq<char>, j: int)
    requires
        0 <= j < t.len(),
        t[j] == '.',
        forall|k: int| 0 <= k < j ==> t[k] != '.',
    ensures
        first_dot_index(t) == Some(j),
    decreases j,
{
    if j > 0 {
        let v = t.drop_first();
        assert forall|k: int| 0 <= k < j - 1 implies v[k] != '.' by {
            assert(v[k] == t[k + 1]);
        }
        assert(v[j - 1] == t[j]);
        lemma_first_dot_at(v, j - 1);
    }
}

proof fn lemma_first_dot_none(t: Seq<char>)
    requires
        forall|k: int| 0 <= k < t.len() ==> t[k] != '.',
    ensures
        first_dot_index(t) == None::<int>,
    decreases t.len(),
{
    if t.len() > 0 {
        let v = t.drop_first();
        assert forall|k: int| 0 <= k < v.len() implies v[k] != '.' by {
            assert(v[k] == t[k + 1]);
        }
        lemma_first_dot_none(v);
    }
}

proof fn lemma_first_dot_props(t: Seq<char>, j: int)
    requires
        first_dot_index(t) == Some(j),
    ensures
        0 <= j < t.len(),
        t[j] == '.',
        forall|k: int| 0 <= k < j ==> t[k] != '.',
    decreases t.len(),
{
    if t.len() > 0 && t[0] != '.' {
        let v = t.drop_first();
        lemma_first_dot_props(v, j - 1);
        assert forall|k: int| 0 <= k < j implies t[k] != '.' by {
            if k > 0 {
                assert(v[k - 1] == t[k]);
            }
        }
        assert(t[j] == v[j - 1]);
    }
}

/// A character that is neither a digit nor the first dot refutes the
/// whole literal.
proof fn lemma_bad_char_rejects(t: Seq<char>, m: int)
    requires
        0 <= m < t.len(),
        forall|k: int| 0 <= k < m ==> is_digit(t[k]),
        !is_digit(t[m]),
        t[m] != '.',
    ensures
        !is_duration_literal(t),
{
    if is_duration_literal(t) {
        match first_dot_index(t) {
            None => {
                assert(is_digit(t[m]));
            },
            Some(j) => {
                lemma_first_dot_props(t, j);
                if j <= m {
                    assert(!is_digit(t[j]));
                    assert(j < m ==> is_digit(t[j]));
                    assert(j == m ==> t[m] == '.');
                    assert(false);
                } else {
                    let ip = t.subrange(0, j);
                    assert(ip[m] == t[m]);
                    assert(is_digit(ip[m]));
                    assert(false);
                }
            },
        }
    }
}

/// Once the digits already read exceed `u64::MAX`, no continuation of
/// the literal can denote a value that fits.
proof fn lemma_big_prefix_rejects(t: Seq<char>, m: int)
    requires
        0 <= m < t.len(),
        forall|k: int| 0 <= k <= m ==> is_digit(t[k]),
        digits_val(t.subrange(0, m + 1)) > u64::MAX as int,
    ensures
        is_duration_literal(t) ==> literal_micros(t) > u64::MAX as int,
{
    if is_duration_literal(t) {
        match first_dot_index(t) {
            None => {
                lemma_digits_val_prefix_le(t, m + 1);
                let v = digits_val(t);
                assert(v > u64::MAX as int);
                assert(v * 1_000_000 >= v) by (nonlinear_arith)
                    requires
                        v >= 0,
                ;
            },
            Some(j) => {
                lemma_first_dot_props(t, j);
                assert(t[m] != '.') by {
                    assert(is_digit(t[m]));
                }
                assert(j > m);
                let ip = t.subrange(0, j);
                assert(ip.subrange(0, m + 1) =~= t.subrange(0, m + 1));
                lemma_digits_val_prefix_le(ip, m + 1);
                let v = digits_val(ip);
                assert(v > u64::MAX as int);
                assert(v * 1_000_000 >= v) by (nonlinear_arith)
                    requires
                        v >= 0,
                ;
                let fp = t.subrange(j + 1, t.len() as int);
                assert(frac_micros(fp) >= 0) by {
                    lemma_frac_micros_bounds(fp);
                }
            },
        }
    }
}

/// Fraction microseconds always lie in `[0, 1_000_000)`.
proof fn lemma_frac_micros_bounds(fp: Seq<char>)
    requires
        all_digits(fp),
    ensures
        0 <= frac_micros(fp) < 1_000_000,
{
    lemma_pow10_vals();
    if fp.len() >= 6 {
        assert(all_digits(fp.subrange(0, 6)));
        lemma_digits_val_bounds(fp.subrange(0, 6));
    } else {
        lemma_digits_val_bounds(fp);
        lemma_pow10_pos((6 - fp.len()) as nat);
        let v = digits_val(fp);
        let p = pow10((6 - fp.len()) as nat);
        let q = pow10(fp.len());
        assert(v * p <= (q - 1) * p) by (nonlinear_arith)
            requires
                v <= q - 1,
                p >= 0,
        ;
        assert(q * p == 1_000_000) by {
            lemma_pow10_mul(fp.len(), (6 - fp.len()) as nat);
        }
        assert(v * p >= 0) by (nonlinear_arith)
            requires
                v >= 0,
                p >= 0,
        ;
    }
}

fn is_space_char(c: char) -> (r: bool)
    ensures
        r == is_ascii_space(c),
{
    c == ' ' || c == '\t' || c == '\n' || c == '\r'
}

fn digit_of(c: char) -> (r: Option<u64>)
    ensures
        match r {
            Some(d) => is_digit(c) && d == digit_val(c) && d <= 9,
            None => !is_digit(c),
        },
{
    let cu = c as u32;
    if 48 <= cu && cu <= 57 {
        Some((cu - 48) as u64)
    } else {
        None
    }
}

/// Parse the probing tool's captured output into whole microseconds.
///
/// Succeeds exactly when the output, trimmed of surrounding
/// whitespace, is a duration literal whose microsecond value fits in a
/// `u64`; every other output is a parse failure.
pub fn parse_duration_output(s: &str) -> (r: Result<u64, ProbeError>)
    ensures
        match r {
            Result::Ok(micros) => is_duration_literal(trimmed(s@)) && literal_micros(trimmed(s@))
                <= u64::MAX as int && micros as int == literal_micros(trimmed(s@)),
            Result::Err(e) => e == ProbeError::ParseFailure && !(is_duration_literal(trimmed(s@))
                && literal_micros(trimmed(s@)) <= u64::MAX as int),
        },
{
    let n = s.unicode_len();
    let mut lo: usize = 0;
    while lo < n
        invariant
            lo <= n,
            n == s@.len(),
            forall|k: int| 0 <= k < lo ==> is_ascii_space(s@[k]),
        ensures
            lo <= n,
            n == s@.len(),
            forall|k: int| 0 <= k < lo ==> is_ascii_space(s@[k]),
            lo < n ==> !is_ascii_space(s@[lo as int]),
        decreases n - lo,
    {
        let c = s.get_char(lo);
        if is_space_char(c) {
            lo = lo + 1;
        } else {
            break ;
        }
    }
    let mut hi: usize = n;
    while hi > lo
        invariant
            lo <= hi <= n,
            n == s@.len(),
            forall|k: int| hi <= k < n ==> is_ascii_space(s@[k]),
        ensures
            lo <= hi <= n,
            n == s@.len(),
            forall|k: int| hi <= k < n ==> is_ascii_space(s@[k]),
            hi > lo ==> !is_ascii_space(s@[hi - 1]),
        decreases hi,
    {
        let c = s.get_char(hi - 1);
        if is_space_char(c) {
            hi = hi - 1;
        } else {
            break ;
        }
    }
    let ghost t = s@.subrange(lo as int, hi as int);
    proof {
        lemma_trim_front_exact(s@, lo as int);
        let u = s@.subrange(lo as int, n as int);
        assert forall|k: int| (hi - lo) <= k < u.len() implies is_ascii_space(u[k]) by {
            assert(u[k] == s@[k + lo]);
        }
        if hi > lo {
            assert(u[hi - lo - 1] == s@[hi - 1]);
        }
        lemma_trim_back_exact(u, hi - lo);
        assert(u.subrange(0, hi - lo) =~= t);
        assert(trimmed(s@) == t);
    }
    if lo == hi {
        proof {
            assert(t.len() == 0);
            assert(first_dot_index(t) == None::<int>);
        }
        return Err(ProbeError::ParseFailure);
    }
    // integer part: digits until a dot or the end
    let mut i: usize = lo;
    let mut intval: u64 = 0;
    while i < hi
        invariant
            lo <= i <= hi <= n,
            n == s@.len(),
            t == s@.subrange(lo as int, hi as int),
            t == trimmed(s@),
            forall|k: int| lo <= k < i ==> is_digit(s@[k]),
            intval as int == digits_val(t.subrange(0, i - lo)),
        ensures
            lo <= i <= hi <= n,
            n == s@.len(),
            forall|k: int| lo <= k < i ==> is_digit(s@[k]),
            intval as int == digits_val(t.subrange(0, i - lo)),
            i < hi ==> s@[i as int] == '.',
        decreases hi - i,
    {
        let c = s.get_char(i);
        proof {
            assert(t[i - lo] == s@[i as int]);
        }
        if c == '.' {
            break ;
        }
        match digit_of(c) {
            Some(d) => {
                proof {
                    assert forall|k: int| 0 <= k < (i - lo) + 1 implies is_digit(t[k]) by {
                        assert(t[k] == s@[k + lo]);
                    }
                    lemma_digits_val_step(t, i - lo);
                }
                if intval > u64::MAX / 10 || (intval == u64::MAX / 10 && d > u64::MAX % 10) {
                    proof {
                        assert(digits_val(t.subrange(0, (i - lo) + 1)) > u64::MAX as int);
                        lemma_big_prefix_rejects(t, i - lo);
                    }
                    return Err(ProbeError::ParseFailure);
                }
                intval = intval * 10 + d;
            },
            None => {
                proof {
                    assert forall|k: int| 0 <= k < i - lo implies is_digit(t[k]) by {
                        assert(t[k] == s@[k + lo]);
                    }
                    lemma_bad_char_rejects(t, i - lo);
                }
                return Err(ProbeError::ParseFailure);
            },
        }
        i = i + 1;
    }
    let million: u64 = 1_000_000;
    if i == hi {
        // no dot: the whole literal is its integer part
        proof {
            assert forall|k: int| 0 <= k < t.len() implies is_digit(t[k]) && t[k] != '.' by {
                assert(t[k] == s@[k + lo]);
            }
            lemma_first_dot_none(t);
            assert(t.subrange(0, i - lo) =~= t);
        }
        if intval > u64::MAX / million {
            return Err(ProbeError::ParseFailure);
        }
        return Ok(intval * million);
    }
    // a dot at i: fraction digits follow
    proof {
        assert forall|k: int| 0 <= k < i - lo implies t[k] != '.' by {
            assert(t[k] == s@[k + lo]);
            assert(is_digit(t[k]));
        }
        lemma_first_dot_at(t, i - lo);
    }
    if hi - lo < 2 {
        // the dot alone is not a duration
        return Err(ProbeError::ParseFailure);
    }
    let ghost m = i - lo;
    let ghost fp = t.subrange(m + 1, t.len() as int);
    let mut j: usize = i + 1;
    let mut facc: u64 = 0;
    let mut fcount: usize = 0;
    proof {
        lemma_pow10_vals();
        assert(fp.subrange(0, 0) =~= Seq::<char>::empty());
    }
    while j < hi
        invariant
            lo <= i < hi <= n,
            i + 1 <= j <= hi,
            n == s@.len(),
            t == s@.subrange(lo as int, hi as int),
            t == trimmed(s@),
            m == i - lo,
            fp == t.subrange(m + 1, t.len() as int),
            first_dot_index(t) == Some(m),
            forall|k: int| i + 1 <= k < j ==> is_digit(s@[k]),
            if j - i - 1 <= 6 {
                fcount == j - i - 1
            } else {
                fcount == 6
            },
            facc as int == digits_val(fp.subrange(0, fcount as int)),
            facc < pow10(fcount as nat),
            pow10(6) == 1000000,
        decreases hi - j,
    {
        let c = s.get_char(j);
        proof {
            assert(fp[j - i - 1] == t[j - lo]);
            assert(t[j - lo] == s@[j as int]);
        }
        match digit_of(c) {
            Some(d) => {
                if fcount < 6 {
                    proof {
                        lemma_pow10_vals();
                        assert(pow10(fcount as nat) <= pow10(5)) by {
                            lemma_pow10_mono(fcount as nat, 5);
                        }
                        lemma_digits_val_step(fp, fcount as int);
                        assert(fp[fcount as int] == s@[j as int]);
                    }
                    facc = facc * 10 + d;
                    fcount = fcount + 1;
                }
            },
            None => {
                proof {
                    assert(!is_digit(fp[j - i - 1]));
                    assert(first_dot_index(t) == Some(m));
                    assert(!is_duration_literal(t));
                }
                return Err(ProbeError::ParseFailure);
            },
        }
        j = j + 1;
    }
    // all fraction digits read; scale a short fraction up to microseconds
    proof {
        assert forall|k: int| 0 <= k < fp.len() implies is_digit(fp[k]) by {
            assert(fp[k] == t[k + m + 1]);
            assert(t[k + m + 1] == s@[k + i + 1]);
        }
        assert(fp.len() == hi - i - 1);
        if fp.len() >= 6 {
            assert(fcount == 6);
            assert(facc as int == frac_micros(fp));
        } else {
            assert(fcount == fp.len());
            assert(fp.subrange(0, fp.len() as int) =~= fp);
        }
        lemma_frac_micros_bounds(fp);
        lemma_pow10_vals();
    }
    let ghost flen = fp.len();
    proof {
        if flen < 6 {
            assert(fcount == flen);
            assert(facc as int == digits_val(fp));
            assert((fcount - flen) as nat == 0);
            assert(facc as int == digits_val(fp) * pow10((fcount - flen) as nat));
        }
    }
    while fcount < 6
        invariant
            fcount <= 6,
            flen == fp.len(),
            all_digits(fp),
            flen < 6 ==> flen <= fcount && facc as int == digits_val(fp) * pow10(
                (fcount - flen) as nat,
            ),
            flen >= 6 ==> fcount == 6 && facc as int == frac_micros(fp),
            facc < pow10(fcount as nat),
            pow10(6) == 1000000,
        decreases 6 - fcount,
    {
        proof {
            lemma_pow10_vals();
            lemma_pow10_mono(fcount as nat, 5);
            let dv = digits_val(fp);
            let p = pow10((fcount - flen) as nat);
            assert((dv * p) * 10 == dv * (10 * p)) by (nonlinear_arith);
            assert(10 * p == pow10((fcount + 1 - flen) as nat));
        }
        facc = facc * 10;
        fcount = fcount + 1;
    }
    proof {
        if flen < 6 {
            assert(facc as int == digits_val(fp) * pow10((6 - flen) as nat));
            assert(facc as int == frac_micros(fp));
        } else {
            assert(facc as int == frac_micros(fp));
        }
        assert(literal_micros(t) == digits_val(t.subrange(0, m)) * 1_000_000 + frac_micros(fp));
        assert(t.subrange(0, i - lo) == t.subrange(0, m));
        assert(is_duration_literal(t) <==> (t.len() >= 2 && all_digits(t.subrange(0, m))
            && all_digits(fp)));
        assert forall|k: int| 0 <= k < m implies is_digit(t.subrange(0, m)[k]) by {
            assert(t.subrange(0, m)[k] == t[k]);
            assert(t[k] == s@[k + lo]);
        }
        assert(is_duration_literal(t));
    }
    if intval > u64::MAX / million {
        proof {
            let v = intval as int;
            assert(v * 1_000_000 > u64::MAX as int);
        }
        return Err(ProbeError::ParseFailure);
    }
    let base = intval * million;
    if facc > u64::MAX - base {
        return Err(ProbeError::ParseFailure);
    }
    Ok(base + facc)
}

proof fn lemma_pow10_mono(a: nat, b: nat)
    requires
        a <= b,
    ensures
        pow10(a) <= pow10(b),
    decreases b,
{
    if a < b {
        lemma_pow10_mono(a, (b - 1) as nat);
        lemma_pow10_pos((b - 1) as nat);
    }
}

proof fn lemma_pow10_mul(a: nat, b: nat)
    ensures
        pow10(a) * pow10(b) == pow10(a + b),
    decreases a,
{
    if a == 0 {
    } else {
        lemma_pow10_mul((a - 1) as nat, b);
        assert(pow10(a) * pow10(b) == (10 * pow10((a - 1) as nat)) * pow10(b));
        assert((10 * pow10((a - 1) as nat)) * pow10(b) == 10 * (pow10((a - 1) as nat) * pow10(b)))
            by (nonlinear_arith);
    }
}

} // verus!
