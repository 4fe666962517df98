//! Command-line options, and the byte sizes they are written in.
use vstd::prelude::*;
use vstd::arithmetic::power2::{pow2, lemma2_to64, lemma2_to64_rest, lemma_pow2_unfold, lemma_pow2_pos, lemma_pow2_adds};
use crate::text::{
    chars_of, char_is_space, digit_value, is_ascii_digit, is_ascii_letter, is_space, lower_chars, lower_char,
    lowered, slice_chars, trim_chars, trimmed, decimal, decimal_chars, decimal_padded,
    decimal_padded_chars, string_of, extend_chars,
};

verus! {

/// The options of one run of the tool.
#[derive(Debug, Clone)]
pub struct Cli {
    /// Root folder to search for duplicates.
    pub root: String,
    /// Target folder where non-kept duplicates get moved. Preserves full relative path.
    pub target: String,
    /// Minimum file size (e.g. 1, 1KB, 5MB, 100B). Default: no minimum.
    pub min_size: Option<String>,
    /// Include only files matching these glob patterns (e.g. '*.jpg'). Default: all.
    pub include_patterns: Vec<String>,
    /// Ignore files whose names match any of these glob patterns.
    pub ignore_names: Vec<String>,
    /// Ignore files with any of these extensions. Leading dot optional.
    pub ignore_exts: Vec<String>,
    /// Directory paths to skip (matched by prefix).
    pub exclude_dirs: Vec<String>,
    /// Directory names to always skip (matched against any path component).
    pub exclude_components: Vec<String>,
    /// Address to serve the web UI on.
    pub bind: Option<String>,
    /// Do not open a browser automatically.
    pub no_browser: bool,
    /// Launch the native window instead of the web UI.
    pub gui: bool,
    /// Save the current flags to the user prefs file and exit.
    pub save_prefs: bool,
    /// Ignore the user prefs file entirely for this run.
    pub no_prefs: bool,
    /// Print what would be moved and exit.
    pub dry_run: bool,
    /// Hash algorithm: "md5" (default), "xxhash" or "sha256".
    pub hash: String,
}

// ---------------------------------------------------------------------------
// Byte sizes: "1", "1KB", "5MB", "100B", "1.5GB"
// ---------------------------------------------------------------------------

/// `10^n`.
pub open spec fn pow10(n: nat) -> nat
    decreases n,
{
    if n == 0 {
        1
    } else {
        10 * pow10((n - 1) as nat)
    }
}

/// The number written by a string of decimal digits.
pub open spec fn digits_value(s: Seq<char>) -> nat
    decreases s.len(),
{
    if s.len() == 0 {
        0
    } else {
        digits_value(s.drop_last()) * 10 + digit_value(s.last())
    }
}

/// All characters are ASCII digits.
pub open spec fn all_digits(s: Seq<char>) -> bool {
    forall|i: int| 0 <= i < s.len() ==> is_ascii_digit(#[trigger] s[i])
}

/// A character that starts the unit of a size: an ASCII letter, or any
/// non-ASCII character other than whitespace. (The amount never holds a
/// letter; a non-ASCII character other than whitespace makes the size
/// invalid wherever it stands, which this split preserves.)
pub open spec fn is_unit_char(c: char) -> bool {
    is_ascii_letter(c) || ((c as u32) >= 0x80 && !is_space(c))
}

/// Index of the first unit character of `t` (its length if none).
pub open spec fn unit_start(t: Seq<char>) -> nat
    decreases t.len(),
{
    if t.len() == 0 {
        0
    } else if is_unit_char(t[0]) {
        0
    } else {
        1 + unit_start(t.drop_first())
    }
}

/// The multiplier a (lower-cased) unit stands for.
pub open spec fn unit_multiplier(u: Seq<char>) -> Option<nat> {
    if u == Seq::<char>::empty() || u == seq!['b'] {
        Some(1)
    } else if u == seq!['k'] || u == seq!['k', 'b'] {
        Some(1024)
    } else if u == seq!['m'] || u == seq!['m', 'b'] {
        Some(1048576)
    } else if u == seq!['g'] || u == seq!['g', 'b'] {
        Some(1073741824)
    } else {
        None
    }
}

/// Index of the first `.` of `s` (its length if none).
pub open spec fn first_dot(s: Seq<char>) -> nat
    decreases s.len(),
{
    if s.len() == 0 {
        0
    } else if s[0] == '.' {
        0
    } else {
        1 + first_dot(s.drop_first())
    }
}

/// A decimal amount: an optional sign, digits, optionally a `.` and more
/// digits, with at least one digit in all. Gives (negative, integer
/// digits, fraction digits).
pub open spec fn amount_parts(n: Seq<char>) -> Option<(bool, Seq<char>, Seq<char>)> {
    let neg = n.len() > 0 && n[0] == '-';
    let body = if n.len() > 0 && (n[0] == '-' || n[0] == '+') {
        n.drop_first()
    } else {
        n
    };
    let d = first_dot(body);
    let ip = body.take(d as int);
    let fp = if d < body.len() {
        body.skip(d as int + 1)
    } else {
        Seq::<char>::empty()
    };
    if all_digits(ip) && all_digits(fp) && ip.len() + fp.len() > 0 {
        Some((neg, ip, fp))
    } else {
        None
    }
}

/// `x` capped at `u64::MAX`.
pub open spec fn saturate(x: int) -> u64 {
    if x > u64::MAX {
        u64::MAX
    } else if x < 0 {
        0
    } else {
        x as u64
    }
}

/// The byte count a size string stands for: the amount times the unit's
/// multiplier, rounded down, with negative amounts giving 0 and amounts
/// beyond `u64::MAX` giving `u64::MAX`; `None` for a malformed amount or an
/// unknown unit. Whitespace around the size and between amount and unit is
/// ignored, and the unit's ASCII case does not matter.
pub open spec fn parse_bytes_spec(s: Seq<char>) -> Option<u64> {
    let t = trimmed(s);
    let i = unit_start(t);
    let num = trimmed(t.take(i as int));
    let unit = lowered(t.skip(i as int));
    match (unit_multiplier(unit), amount_parts(num)) {
        (Some(m), Some((neg, ip, fp))) => Some(
            if neg {
                0
            } else {
                saturate((digits_value(ip) * m) as int + (digits_value(fp) * m) as int / pow10(fp.len()) as int)
            },
        ),
        _ => None,
    }
}

proof fn lemma_unit_char_lowered(c: char)
    ensures
        is_unit_char(lower_char(c)) == is_unit_char(c),
        !is_unit_char(c) ==> lower_char(c) == c,
{
    if 'A' <= c && c <= 'Z' {
        assert('a' <= lower_char(c) && lower_char(c) <= 'z');
    }
}

proof fn lemma_unit_start_lowered(t: Seq<char>)
    ensures
        unit_start(lowered(t)) == unit_start(t),
        unit_start(t) <= t.len(),
        forall|j: int| 0 <= j < unit_start(t) ==> !is_unit_char(#[trigger] t[j]),
    decreases t.len(),
{
    if t.len() > 0 {
        lemma_unit_char_lowered(t[0]);
        assert(lowered(t).drop_first() =~= lowered(t.drop_first()));
        lemma_unit_start_lowered(t.drop_first());
        assert forall|j: int| 0 <= j < unit_start(t) implies !is_unit_char(#[trigger] t[j]) by {
            if j > 0 {
                assert(t[j] == t.drop_first()[j - 1]);
            }
        }
    }
}

proof fn lemma_parse_bytes_lowered(s: Seq<char>)
    ensures
        parse_bytes_spec(lowered(s)) == parse_bytes_spec(s),
{
    let t = trimmed(s);
    crate::text::lemma_lowered_trimmed(s);
    lemma_unit_start_lowered(t);
    let i = unit_start(t) as int;
    assert(lowered(t).take(i) =~= t.take(i)) by {
        assert forall|j: int| 0 <= j < i implies #[trigger] lowered(t).take(i)[j] == t.take(i)[j] by {
            lemma_unit_char_lowered(t[j]);
        }
    }
    assert(lowered(t).skip(i) =~= lowered(t.skip(i)));
    crate::text::lemma_lowered_idempotent(t.skip(i));
}

/// The case of the letters of a size does not matter: sizes that differ
/// only in ASCII case stand for the same number of bytes.
pub proof fn law_size_case_insensitive(s1: Seq<char>, s2: Seq<char>)
    requires
        lowered(s1) == lowered(s2),
    ensures
        parse_bytes_spec(s1) == parse_bytes_spec(s2),
{
    lemma_parse_bytes_lowered(s1);
    lemma_parse_bytes_lowered(s2);
}

/// A sequence that neither starts nor ends with whitespace is its own trim.
proof fn lemma_trimmed_unpadded(t: Seq<char>)
    requires
        t.len() > 0,
        !is_space(t[0]),
        !is_space(t.last()),
    ensures
        trimmed(t) == t,
{
    assert(crate::text::leading_space(t) == 0);
    assert(t.skip(0) =~= t);
    assert(crate::text::trailing_space(t) == 0);
    assert(t.take(t.len() as int) =~= t);
}

proof fn lemma_digits_tail(n: Seq<char>)
    requires
        all_digits(n),
        n.len() > 0,
    ensures
        all_digits(n.drop_first()),
{
    assert forall|i: int| 0 <= i < n.drop_first().len() implies is_ascii_digit(#[trigger] n.drop_first()[i]) by {
        assert(n.drop_first()[i] == n[i + 1]);
    }
}

/// In digits followed by a unit, the unit starts right after the digits.
proof fn lemma_unit_start_after_digits(n: Seq<char>, u: Seq<char>)
    requires
        all_digits(n),
        u.len() > 0 ==> is_unit_char(u[0]),
    ensures
        unit_start(n + u) == n.len(),
    decreases n.len(),
{
    if n.len() == 0 {
        assert(n + u =~= u);
    } else {
        let t = n + u;
        assert(t[0] == n[0]);
        assert(is_ascii_digit(n[0]));
        assert(!is_unit_char(t[0]));
        assert(t.drop_first() =~= n.drop_first() + u);
        lemma_digits_tail(n);
        lemma_unit_start_after_digits(n.drop_first(), u);
    }
}

/// A digit string holds no `.`.
proof fn lemma_first_dot_digits(n: Seq<char>)
    requires
        all_digits(n),
    ensures
        first_dot(n) == n.len(),
    decreases n.len(),
{
    if n.len() > 0 {
        assert(is_ascii_digit(n[0]));
        lemma_digits_tail(n);
        lemma_first_dot_digits(n.drop_first());
    }
}

/// A whole number of bytes followed by a lower-case unit: the number times
/// the unit's multiplier.
proof fn lemma_parse_whole_amount(n: Seq<char>, u: Seq<char>)
    requires
        all_digits(n),
        n.len() > 0,
        forall|i: int| 0 <= i < u.len() ==> 'a' <= #[trigger] u[i] && u[i] <= 'z',
    ensures
        parse_bytes_spec(n + u) == match unit_multiplier(u) {
            Some(m) => Some(saturate((digits_value(n) * m) as int)),
            None => None::<u64>,
        },
{
    let t = n + u;
    assert(is_ascii_digit(n[0]));
    assert(t[0] == n[0]);
    if u.len() > 0 {
        assert(t.last() == u.last());
        assert('a' <= u[u.len() - 1] && u[u.len() - 1] <= 'z');
        assert(is_unit_char(u[0]));
    } else {
        assert(t =~= n);
        assert(is_ascii_digit(n[n.len() - 1]));
    }
    lemma_trimmed_unpadded(t);
    lemma_unit_start_after_digits(n, u);
    assert(t.take(n.len() as int) =~= n);
    assert(is_ascii_digit(n[n.len() - 1]));
    lemma_trimmed_unpadded(n);
    assert(t.skip(n.len() as int) =~= u);
    assert(lowered(u) =~= u);
    lemma_first_dot_digits(n);
    assert(n.take(n.len() as int) =~= n);
    assert(all_digits(Seq::<char>::empty()));
    assert(amount_parts(n) == Some((false, n, Seq::<char>::empty())));
    assert(digits_value(Seq::<char>::empty()) == 0);
    assert(pow10(0) == 1);
}

/// The units: none or `b` is one byte, `k`/`kb` 2^10 bytes, `m`/`mb` 2^20
/// bytes, `g`/`gb` 2^30 bytes; a unit letter alone and followed by `b`
/// mean the same. For every whole number `n` of bytes, written in digits.
pub proof fn law_size_units(n: Seq<char>)
    requires
        all_digits(n),
        n.len() > 0,
    ensures
        parse_bytes_spec(n) == Some(saturate(digits_value(n) as int)),
        parse_bytes_spec(n + seq!['b']) == Some(saturate(digits_value(n) as int)),
        parse_bytes_spec(n + seq!['k']) == Some(saturate((digits_value(n) * 1024) as int)),
        parse_bytes_spec(n + seq!['k', 'b']) == Some(saturate((digits_value(n) * 1024) as int)),
        parse_bytes_spec(n + seq!['m']) == Some(saturate((digits_value(n) * 1048576) as int)),
        parse_bytes_spec(n + seq!['m', 'b']) == Some(saturate((digits_value(n) * 1048576) as int)),
        parse_bytes_spec(n + seq!['g']) == Some(saturate((digits_value(n) * 1073741824) as int)),
        parse_bytes_spec(n + seq!['g', 'b']) == Some(saturate((digits_value(n) * 1073741824) as int)),
        parse_bytes_spec(n + seq!['t', 'b']) is None,
{
    assert(n + Seq::<char>::empty() =~= n);
    lemma_parse_whole_amount(n, Seq::<char>::empty());
    lemma_parse_whole_amount(n, seq!['b']);
    lemma_parse_whole_amount(n, seq!['k']);
    lemma_parse_whole_amount(n, seq!['k', 'b']);
    lemma_parse_whole_amount(n, seq!['m']);
    lemma_parse_whole_amount(n, seq!['m', 'b']);
    lemma_parse_whole_amount(n, seq!['g']);
    lemma_parse_whole_amount(n, seq!['g', 'b']);
    lemma_parse_whole_amount(n, seq!['t', 'b']);
    assert(seq!['b'] != Seq::<char>::empty());
    assert(seq!['k'] != seq!['b']);
    assert(seq!['k'] != Seq::<char>::empty());
    assert(seq!['k', 'b'] != seq!['b']);
    assert(seq!['k', 'b'] != Seq::<char>::empty());
    assert(seq!['m'] != seq!['b'] && seq!['m'] != seq!['k'] && seq!['m'] != Seq::<char>::empty());
    assert(seq!['m', 'b'] != seq!['k', 'b'] && seq!['m', 'b'] != seq!['b'] && seq!['m', 'b'] != seq!['k']);
    assert(seq!['m', 'b'] != Seq::<char>::empty());
    assert(seq!['g'] != seq!['b'] && seq!['g'] != seq!['k'] && seq!['g'] != seq!['m'] && seq!['g'] != Seq::<char>::empty());
    assert(seq!['g', 'b'] != seq!['k', 'b'] && seq!['g', 'b'] != seq!['m', 'b'] && seq!['g', 'b'] != seq!['b']);
    assert(seq!['g', 'b'] != seq!['k'] && seq!['g', 'b'] != seq!['m'] && seq!['g', 'b'] != Seq::<char>::empty());
    let tb = seq!['t', 'b'];
    assert(tb != seq!['k', 'b'] && tb != seq!['m', 'b'] && tb != seq!['g', 'b'] && tb != seq!['b']);
    assert(tb != seq!['k'] && tb != seq!['m'] && tb != seq!['g'] && tb != Seq::<char>::empty());
}

/// The share of the multiplier `m` that the fraction digits `f` stand for,
/// rounded down, computed from the last digit to the first.
pub open spec fn fraction_share(f: Seq<char>, m: nat) -> nat
    decreases f.len(),
{
    if f.len() == 0 {
        0
    } else {
        (m * digit_value(f[0]) + fraction_share(f.drop_first(), m)) / 10
    }
}

proof fn lemma_pow10_pos(n: nat)
    ensures
        pow10(n) >= 1,
    decreases n,
{
    if n > 0 {
        lemma_pow10_pos((n - 1) as nat);
    }
}

/// The first digit of a digit string counts `10^(len-1)` times.
proof fn lemma_digits_value_first(s: Seq<char>)
    requires
        s.len() > 0,
    ensures
        digits_value(s) == digit_value(s[0]) * pow10((s.len() - 1) as nat) + digits_value(s.drop_first()),
    decreases s.len(),
{
    if s.len() == 1 {
        assert(s.drop_last() =~= Seq::<char>::empty());
        assert(s.drop_first() =~= Seq::<char>::empty());
        assert(digits_value(s.drop_last()) == 0);
        assert(digits_value(s.drop_first()) == 0);
        assert(s.last() == s[0]);
        assert(digits_value(s) == digit_value(s[0]));
        assert(pow10(0) == 1);
        assert(digit_value(s[0]) * 1 == digit_value(s[0]));
    } else {
        let init = s.drop_last();
        lemma_digits_value_first(init);
        assert(init.drop_first() =~= s.drop_first().drop_last());
        assert(s.drop_first().last() == s.last());
        let a = digit_value(s[0]);
        let p = pow10((init.len() - 1) as nat);
        let b = digits_value(init.drop_first());
        assert((a * p + b) * 10 == a * (10 * p) + b * 10) by (nonlinear_arith);
        assert(s.drop_first().drop_last() =~= init.drop_first());
        assert(digits_value(s.drop_first()) == b * 10 + digit_value(s.last()));
        assert(pow10((s.len() - 1) as nat) == 10 * p);
        assert(digits_value(s) == digits_value(init) * 10 + digit_value(s.last()));
    }
}

/// Dropping `r < q` below a multiple of `q` does not change the quotient
/// by `10q` (`floor((q*a + r) / (10q)) == floor(a / 10)`).
proof fn lemma_div_scaled(q: int, a: int, r: int)
    requires
        q > 0,
        a >= 0,
        0 <= r < q,
    ensures
        (q * a + r) / (10 * q) == a / 10,
{
    let b = a / 10;
    let t = a % 10;
    assert(a == 10 * b + t && 0 <= t < 10) by {
        vstd::arithmetic::div_mod::lemma_fundamental_div_mod(a, 10);
    }
    assert(q * a + r == b * (10 * q) + (q * t + r)) by (nonlinear_arith)
        requires
            a == 10 * b + t,
    ;
    assert(0 <= q * t + r < 10 * q) by (nonlinear_arith)
        requires
            0 <= t < 10,
            0 <= r < q,
            q > 0,
    ;
    vstd::arithmetic::div_mod::lemma_fundamental_div_mod_converse(q * a + r, 10 * q, b, q * t + r);
}

/// The share computed digit by digit is the rounded-down share.
proof fn lemma_fraction_share(f: Seq<char>, m: nat)
    requires
        all_digits(f),
    ensures
        fraction_share(f, m) == (digits_value(f) * m) as int / pow10(f.len()) as int,
    decreases f.len(),
{
    if f.len() == 0 {
        assert(digits_value(f) == 0);
        assert(pow10(0) == 1);
    } else {
        let g = f.drop_first();
        assert(all_digits(g)) by {
            assert forall|i: int| 0 <= i < g.len() implies is_ascii_digit(#[trigger] g[i]) by {
                assert(g[i] == f[i + 1]);
            }
        }
        lemma_fraction_share(g, m);
        lemma_digits_value_first(f);
        lemma_pow10_pos(g.len());
        let q = pow10(g.len()) as int;
        let d = digit_value(f[0]) as int;
        let x: int = (digits_value(g) * m) as int;
        let y: int = x / q;
        let r: int = x % q;
        assert(x == q * y + r && 0 <= r < q) by {
            vstd::arithmetic::div_mod::lemma_fundamental_div_mod(x, q);
        }
        assert(y >= 0) by {
            vstd::arithmetic::div_mod::lemma_div_pos_is_pos(x, q);
        }
        assert((d * q + digits_value(g)) * m == q * (m * d + y) + r) by (nonlinear_arith)
            requires
                x == digits_value(g) * m,
                x == q * y + r,
        ;
        assert(m * d + y >= 0) by (nonlinear_arith)
            requires
                m >= 0,
                d >= 0,
                y >= 0,
        ;
        lemma_div_scaled(q, (m * d + y) as int, r);
        assert(pow10(f.len()) == 10 * q);
        assert(digits_value(f) == d * q + digits_value(g));
        assert((digits_value(f) * m) as int == q * (m * d + y) + r);
        assert(fraction_share(g, m) == y);
        assert(fraction_share(f, m) == (m * d + y) / 10);
        let big: int = (digits_value(f) * m) as int;
        assert(big == q * (m * d + y) + r);
        assert(big / pow10(f.len()) as int == (q * (m * d + y) + r) / (10 * q));
        assert(fraction_share(f, m) == big / pow10(f.len()) as int);
    }
}

/// Index of the first unit character.
fn find_unit(t: &Vec<char>) -> (r: usize)
    ensures
        r == unit_start(t@),
        r <= t.len(),
{
    let mut i: usize = 0;
    assert(t@.skip(0) =~= t@);
    while i < t.len()
        invariant
            i <= t.len(),
            unit_start(t@) == i + unit_start(t@.skip(i as int)),
        decreases t.len() - i,
    {
        let c = t[i];
        let unit = ('a' <= c && c <= 'z') || ('A' <= c && c <= 'Z') || ((c as u32) >= 0x80 && !char_is_space(c));
        assert(t@.skip(i as int)[0] == c);
        if unit {
            return i;
        }
        assert(t@.skip(i as int).drop_first() =~= t@.skip(i + 1));
        i = i + 1;
    }
    assert(t@.skip(i as int) =~= Seq::<char>::empty());
    i
}

/// Index of the first `.`.
fn find_dot(s: &Vec<char>) -> (r: usize)
    ensures
        r == first_dot(s@),
        r <= s.len(),
        r < s.len() ==> s@[r as int] == '.',
        forall|j: int| 0 <= j < r ==> s@[j] != '.',
{
    let mut i: usize = 0;
    assert(s@.skip(0) =~= s@);
    while i < s.len()
        invariant
            i <= s.len(),
            first_dot(s@) == i + first_dot(s@.skip(i as int)),
            forall|j: int| 0 <= j < i ==> s@[j] != '.',
        decreases s.len() - i,
    {
        assert(s@.skip(i as int)[0] == s@[i as int]);
        if s[i] == '.' {
            return i;
        }
        assert(s@.skip(i as int).drop_first() =~= s@.skip(i + 1));
        i = i + 1;
    }
    assert(s@.skip(i as int) =~= Seq::<char>::empty());
    i
}

fn all_ascii_digits(s: &Vec<char>) -> (r: bool)
    ensures
        r == all_digits(s@),
{
    for i in 0..s.len()
        invariant
            forall|j: int| 0 <= j < i ==> is_ascii_digit(#[trigger] s@[j]),
    {
        if !('0' <= s[i] && s[i] <= '9') {
            return false;
        }
    }
    true
}

pub(crate) fn digit_of(c: char) -> (r: u64)
    requires
        is_ascii_digit(c),
    ensures
        r == digit_value(c),
        r < 10,
{
    ((c as u32) - 48) as u64
}

fn unit_is(u: &Vec<char>, a: char, b: Option<char>) -> (r: bool)
    ensures
        r == (match b {
            Some(x) => u@ == seq![a, x],
            None => u@ == seq![a],
        }),
{
    match b {
        Some(x) => {
            if u.len() == 2 && u[0] == a && u[1] == x {
                assert(u@ =~= seq![a, x]);
                true
            } else {
                assert(u@ != seq![a, x] || (u.len() == 2 && u@[0] == a && u@[1] == x));
                false
            }
        },
        None => {
            if u.len() == 1 && u[0] == a {
                assert(u@ =~= seq![a]);
                true
            } else {
                assert(u@ != seq![a] || (u.len() == 1 && u@[0] == a));
                false
            }
        },
    }
}

/// The multiplier of a lower-cased unit.
fn multiplier_of(u: &Vec<char>) -> (r: Option<u64>)
    ensures
        r matches Some(m) ==> unit_multiplier(u@) == Some(m as nat) && 1 <= m <= 1073741824,
        r is None ==> unit_multiplier(u@) is None,
{
    if u.len() == 0 || unit_is(u, 'b', None) {
        assert(u.len() == 0 ==> u@ =~= Seq::<char>::empty());
        Some(1)
    } else if unit_is(u, 'k', None) || unit_is(u, 'k', Some('b')) {
        Some(1024)
    } else if unit_is(u, 'm', None) || unit_is(u, 'm', Some('b')) {
        Some(1048576)
    } else if unit_is(u, 'g', None) || unit_is(u, 'g', Some('b')) {
        Some(1073741824)
    } else {
        None
    }
}

/// Parse a human byte size: "1", "1KB", "5MB", "100B", "1.5GB". Returns
/// `None` on unparseable input or unsupported suffixes.
pub fn parse_bytes(s: &str) -> (r: Option<u64>)
    ensures
        r == parse_bytes_spec(s@),
{
    let raw = chars_of(s);
    let t = trim_chars(&raw);
    let i = find_unit(&t);
    let head = slice_chars(&t, 0, i);
    let num = trim_chars(&head);
    let tail = slice_chars(&t, i, t.len());
    let unit = lower_chars(&tail);
    assert(head@ =~= t@.take(i as int));
    assert(tail@ =~= t@.skip(i as int));
    let mult = match multiplier_of(&unit) {
        Some(m) => m,
        None => return None,
    };
    // The amount: sign, integer digits, fraction digits.
    let neg = num.len() > 0 && num[0] == '-';
    let body = if num.len() > 0 && (num[0] == '-' || num[0] == '+') {
        let b = slice_chars(&num, 1, num.len());
        assert(b@ =~= num@.drop_first());
        b
    } else {
        num
    };
    let d = find_dot(&body);
    let ip = slice_chars(&body, 0, d);
    assert(ip@ =~= body@.take(d as int));
    let fp = if d < body.len() {
        let f = slice_chars(&body, d + 1, body.len());
        assert(f@ =~= body@.skip(d + 1));
        f
    } else {
        Vec::new()
    };
    if !(all_ascii_digits(&ip) && all_ascii_digits(&fp) && ip.len() + fp.len() > 0) {
        return None;
    }
    if neg {
        return Some(0);
    }
    // Integer part, saturating.
    let mut acc: u64 = 0;
    let mut big = false;
    for k in 0..ip.len()
        invariant
            all_digits(ip@),
            !big ==> acc == digits_value(ip@.take(k as int)),
            big ==> digits_value(ip@.take(k as int)) > u64::MAX,
    {
        let dg = digit_of(ip[k]);
        assert(ip@.take(k + 1).drop_last() =~= ip@.take(k as int));
        if !big {
            let next: u128 = (acc as u128) * 10 + (dg as u128);
            if next > u64::MAX as u128 {
                big = true;
            } else {
                acc = next as u64;
            }
        }
    }
    assert(ip@.take(ip.len() as int) =~= ip@);
    // Fraction part, from the last digit to the first.
    let mut share: u64 = 0;
    let mut k = fp.len();
    assert(fp@.skip(fp.len() as int) =~= Seq::<char>::empty());
    while k > 0
        invariant
            k <= fp.len(),
            all_digits(fp@),
            1 <= mult <= 1073741824,
            share == fraction_share(fp@.skip(k as int), mult as nat),
            share < mult,
        decreases k,
    {
        let dg = digit_of(fp[k - 1]);
        assert(fp@.skip(k - 1).drop_first() =~= fp@.skip(k as int));
        assert(fp@.skip(k - 1)[0] == fp@[k - 1]);
        assert(mult * dg + share < 10 * mult) by (nonlinear_arith)
            requires
                dg < 10,
                share < mult,
        ;
        share = (mult * dg + share) / 10;
        k = k - 1;
    }
    assert(fp@.skip(0) =~= fp@);
    proof {
        lemma_fraction_share(fp@, mult as nat);
    }
    if big {
        proof {
            assert(digits_value(ip@) * mult >= digits_value(ip@)) by (nonlinear_arith)
                requires
                    mult >= 1,
            ;
            lemma_pow10_pos(fp@.len());
            vstd::arithmetic::div_mod::lemma_div_pos_is_pos((digits_value(fp@) * mult) as int, pow10(fp@.len()) as int);
        }
        return Some(u64::MAX);
    }
    assert((acc as u128) * (mult as u128) <= 0xffff_ffff_ffff_ffffu128 * 1073741824u128) by (nonlinear_arith)
        requires
            acc <= 0xffff_ffff_ffff_ffffu64,
            mult <= 1073741824,
    ;
    let total: u128 = (acc as u128) * (mult as u128) + (share as u128);
    if total > u64::MAX as u128 {
        Some(u64::MAX)
    } else {
        Some(total as u64)
    }
}


// ---------------------------------------------------------------------------
// Human-readable byte counts
// ---------------------------------------------------------------------------

/// The spacing `2^k` of the doubles around `b`, starting the search at `k`:
/// the doubles in `[2^(52+k), 2^(53+k))` are the multiples of `2^k`.
pub open spec fn grain_from(b: nat, k: nat) -> nat
    decreases 11 - k,
{
    if k >= 11 || b < pow2(53 + k) {
        pow2(k)
    } else {
        grain_from(b, k + 1)
    }
}

/// `x / d` rounded to the nearest integer, an exact half going to the even
/// neighbour.
pub open spec fn div_round_even(x: nat, d: nat) -> nat {
    let q = x / d;
    let r = x % d;
    if 2 * r > d || (2 * r == d && q % 2 == 1) {
        q + 1
    } else {
        q
    }
}

/// `b as f64`: `b` rounded to the nearest double, ties to even.
pub open spec fn as_double(b: nat) -> nat {
    let g = grain_from(b, 0);
    div_round_even(b, g) * g
}

/// `x / d` written with `p` digits after the point, rounded to the nearest,
/// ties to even (`format!("{:.p$}", x / d)`).
pub open spec fn fixed_point(x: nat, d: nat, p: nat) -> Seq<char> {
    let scaled = div_round_even(x * pow10(p), d);
    decimal(scaled / pow10(p)) + seq!['.'] + decimal_padded(scaled % pow10(p), p)
}

/// Human-readable byte count: bytes below 1 KB, then KB with one decimal,
/// MB and GB with two (1 KB = 1024 bytes).
pub open spec fn human_bytes_spec(b: u64) -> Seq<char> {
    if b >= 1073741824 {
        fixed_point(as_double(b as nat), 1073741824, 2) + seq![' ', 'G', 'B']
    } else if b >= 1048576 {
        fixed_point(b as nat, 1048576, 2) + seq![' ', 'M', 'B']
    } else if b >= 1024 {
        fixed_point(b as nat, 1024, 1) + seq![' ', 'K', 'B']
    } else {
        decimal(b as nat) + seq![' ', 'B']
    }
}

fn round_even(x: u128, d: u128) -> (r: u128)
    requires
        d > 0,
        d <= 0x1_0000_0000_0000_0000,
        x <= 0x1_0000_0000_0000_0000_0000,
    ensures
        r == div_round_even(x as nat, d as nat),
        r <= x / d + 1,
{
    let q = x / d;
    let rem = x % d;
    if 2 * rem > d || (2 * rem == d && q % 2 == 1) {
        q + 1
    } else {
        q
    }
}

/// `b` rounded to the nearest double.
fn double_of(b: u64) -> (r: u128)
    ensures
        r == as_double(b as nat),
        r <= 0x1_0000_0000_0000_0000,
{
    let mut k: u64 = 0;
    let mut lim: u128 = 0x20_0000_0000_0000;
    let mut g: u128 = 1;
    proof {
        lemma2_to64();
        lemma2_to64_rest();
    }
    while k < 11 && (b as u128) >= lim
        invariant
            k <= 11,
            lim == pow2((53 + k) as nat),
            g == pow2(k as nat),
            grain_from(b as nat, 0) == grain_from(b as nat, k as nat),
            lim <= 0x1_0000_0000_0000_0000,
            lim == g * 0x20_0000_0000_0000,
            pow2(64) == 0x1_0000_0000_0000_0000,
        decreases 11 - k,
    {
        proof {
            lemma_pow2_unfold((53 + k + 1) as nat);
            lemma_pow2_unfold((k + 1) as nat);
            lemma_pow2_adds((53 + k) as nat, (11 - k) as nat);
            lemma_pow2_pos((11 - k) as nat);
            lemma_pow2_unfold((11 - k) as nat);
            lemma_pow2_pos((10 - k) as nat);
            let l = lim as int;
            let w = pow2((11 - k) as nat) as int;
            assert(l * w == 0x1_0000_0000_0000_0000int);
            assert(l * 2 <= 0x1_0000_0000_0000_0000int) by (nonlinear_arith)
                requires
                    l * w == 0x1_0000_0000_0000_0000int,
                    w >= 2,
                    l >= 0,
            ;
        }
        lim = lim * 2;
        g = g * 2;
        k = k + 1;
    }
    assert(grain_from(b as nat, k as nat) == g);
    proof {
        lemma_pow2_pos(k as nat);
        lemma_pow2_adds(k as nat, (64 - k) as nat);
    }
    let q = round_even(b as u128, g);
    proof {
        let m = pow2((64 - k) as nat) as int;
        let y = (b as int) / (g as int);
        vstd::arithmetic::div_mod::lemma_fundamental_div_mod(b as int, g as int);
        vstd::arithmetic::div_mod::lemma_mod_pos_bound(b as int, g as int);
        assert((g as int) * m == 0x1_0000_0000_0000_0000);
        assert(y < m) by (nonlinear_arith)
            requires
                (g as int) * y <= b as int,
                (b as int) < (g as int) * m,
                g > 0,
        ;
        assert((q as int) * (g as int) <= 0x1_0000_0000_0000_0000) by (nonlinear_arith)
            requires
                q <= y + 1,
                y + 1 <= m,
                (g as int) * m == 0x1_0000_0000_0000_0000,
                g > 0,
        ;
    }
    q * g
}

/// `x / d` with `p` digits after the point.
fn fixed_chars(x: u128, d: u128, p: u64) -> (r: Vec<char>)
    requires
        1 <= p <= 2,
        1024 <= d <= 1073741824,
        x <= 0x1_0000_0000_0000_0000,
    ensures
        r@ == fixed_point(x as nat, d as nat, p as nat),
{
    let scale: u128 = if p == 1 { 10 } else { 100 };
    assert(pow10(0) == 1);
    assert(pow10(1) == 10);
    assert(pow10(2) == 100);
    assert(pow10(p as nat) == scale);
    assert(x * scale <= 0x64_0000_0000_0000_0000) by (nonlinear_arith)
        requires
            x <= 0x1_0000_0000_0000_0000,
            scale <= 100,
    ;
    let scaled = round_even(x * scale, d);
    let ip = scaled / scale;
    let fp = scaled % scale;
    proof {
        let big: int = 0x64_0000_0000_0000_0000int;
        vstd::arithmetic::div_mod::lemma_div_is_ordered((x * scale) as int, big, d as int);
        vstd::arithmetic::div_mod::lemma_div_is_ordered_by_denominator(big, 1024, d as int);
        assert(big / 1024 == 0x1900_0000_0000_0000int);
        vstd::arithmetic::div_mod::lemma_div_is_ordered_by_denominator(scaled as int, 1, scale as int);
        assert(scaled as int / 1 == scaled as int);
    }
    let mut r = decimal_chars(ip as u64);
    r.push('.');
    let f = decimal_padded_chars(fp as u64, p as usize);
    extend_chars(&mut r, &f);
    r
}

/// Human-readable byte count for terminal output.
pub fn human_bytes(b: u64) -> (r: String)
    ensures
        r@ == human_bytes_spec(b),
{
    let mut v: Vec<char>;
    if b >= 1073741824 {
        v = fixed_chars(double_of(b), 1073741824, 2);
        v.push(' ');
        v.push('G');
        v.push('B');
    } else if b >= 1048576 {
        v = fixed_chars(b as u128, 1048576, 2);
        v.push(' ');
        v.push('M');
        v.push('B');
    } else if b >= 1024 {
        v = fixed_chars(b as u128, 1024, 1);
        v.push(' ');
        v.push('K');
        v.push('B');
    } else {
        v = decimal_chars(b);
        v.push(' ');
        v.push('B');
    }
    string_of(&v)
}

} // verus!
