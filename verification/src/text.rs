//! Character-level helpers shared by the rest of the library: whitespace
//! trimming, ASCII case folding, decimal and hexadecimal rendering and the
//! lexicographic order of strings.
use vstd::prelude::*;

verus! {

// ---------------------------------------------------------------------------
// Whitespace and case
// ---------------------------------------------------------------------------

/// `char::is_whitespace`: the characters with the Unicode `White_Space`
/// property.
pub open spec fn is_space(c: char) -> bool {
    ||| ('\u{9}' <= c && c <= '\u{d}')
    ||| c == ' '
    ||| c == '\u{85}'
    ||| c == '\u{a0}'
    ||| c == '\u{1680}'
    ||| ('\u{2000}' <= c && c <= '\u{200a}')
    ||| c == '\u{2028}'
    ||| c == '\u{2029}'
    ||| c == '\u{202f}'
    ||| c == '\u{205f}'
    ||| c == '\u{3000}'
}

/// Number of leading whitespace characters of `s`.
pub open spec fn leading_space(s: Seq<char>) -> nat
    decreases s.len(),
{
    if s.len() > 0 && is_space(s[0]) {
        1 + leading_space(s.drop_first())
    } else {
        0
    }
}

/// Number of trailing whitespace characters of `s`.
pub open spec fn trailing_space(s: Seq<char>) -> nat
    decreases s.len(),
{
    if s.len() > 0 && is_space(s.last()) {
        1 + trailing_space(s.drop_last())
    } else {
        0
    }
}

/// `str::trim`: `s` without its leading and trailing whitespace.
pub open spec fn trimmed(s: Seq<char>) -> Seq<char> {
    let t = s.skip(leading_space(s) as int);
    t.take(t.len() - trailing_space(t))
}

/// `char::to_ascii_lowercase`.
pub open spec fn lower_char(c: char) -> char {
    if 'A' <= c && c <= 'Z' {
        ((c as u32) + 32) as char
    } else {
        c
    }
}

/// `str::to_ascii_lowercase`.
pub open spec fn lowered(s: Seq<char>) -> Seq<char> {
    s.map_values(|c: char| lower_char(c))
}

pub open spec fn is_ascii_digit(c: char) -> bool {
    '0' <= c && c <= '9'
}

pub open spec fn is_ascii_letter(c: char) -> bool {
    ('a' <= c && c <= 'z') || ('A' <= c && c <= 'Z')
}

pub open spec fn digit_value(c: char) -> nat {
    ((c as u32) - ('0' as u32)) as nat
}

proof fn lemma_leading_space_bound(s: Seq<char>)
    ensures
        leading_space(s) <= s.len(),
        forall|i: int| 0 <= i < leading_space(s) ==> is_space(#[trigger] s[i]),
        leading_space(s) < s.len() ==> !is_space(s[leading_space(s) as int]),
    decreases s.len(),
{
    if s.len() > 0 && is_space(s[0]) {
        lemma_leading_space_bound(s.drop_first());
        assert forall|i: int| 0 <= i < leading_space(s) implies is_space(#[trigger] s[i]) by {
            if i > 0 {
                assert(s[i] == s.drop_first()[i - 1]);
            }
        }
    }
}

proof fn lemma_trailing_space_bound(s: Seq<char>)
    ensures
        trailing_space(s) <= s.len(),
        forall|i: int| s.len() - trailing_space(s) <= i < s.len() ==> is_space(#[trigger] s[i]),
        trailing_space(s) < s.len() ==> !is_space(s[s.len() - trailing_space(s) - 1]),
    decreases s.len(),
{
    if s.len() > 0 && is_space(s.last()) {
        lemma_trailing_space_bound(s.drop_last());
        assert forall|i: int| s.len() - trailing_space(s) <= i < s.len() implies is_space(
            #[trigger] s[i],
        ) by {
            if i < s.len() - 1 {
                assert(s[i] == s.drop_last()[i]);
            }
        }
    }
}

/// Lower-casing keeps whitespace whitespace and other characters not.
proof fn lemma_lower_char_space(c: char)
    ensures
        is_space(lower_char(c)) == is_space(c),
        lower_char(lower_char(c)) == lower_char(c),
{
    if 'A' <= c && c <= 'Z' {
        assert('a' <= lower_char(c) && lower_char(c) <= 'z');
    }
}

proof fn lemma_lowered_leading_space(s: Seq<char>)
    ensures
        leading_space(lowered(s)) == leading_space(s),
    decreases s.len(),
{
    if s.len() > 0 {
        lemma_lower_char_space(s[0]);
        assert(lowered(s).drop_first() =~= lowered(s.drop_first()));
        lemma_lowered_leading_space(s.drop_first());
    }
}

proof fn lemma_lowered_trailing_space(s: Seq<char>)
    ensures
        trailing_space(lowered(s)) == trailing_space(s),
    decreases s.len(),
{
    if s.len() > 0 {
        lemma_lower_char_space(s.last());
        assert(lowered(s).drop_last() =~= lowered(s.drop_last()));
        lemma_lowered_trailing_space(s.drop_last());
    }
}

/// Trimming and ASCII lower-casing commute.
pub proof fn lemma_lowered_trimmed(s: Seq<char>)
    ensures
        trimmed(lowered(s)) == lowered(trimmed(s)),
{
    lemma_lowered_leading_space(s);
    lemma_leading_space_bound(s);
    let t = s.skip(leading_space(s) as int);
    assert(lowered(s).skip(leading_space(s) as int) =~= lowered(t));
    lemma_lowered_trailing_space(t);
    lemma_trailing_space_bound(t);
    assert(lowered(t).take(t.len() - trailing_space(t)) =~= lowered(t.take(t.len() - trailing_space(t))));
}

/// Lower-casing twice is lower-casing once.
pub proof fn lemma_lowered_idempotent(s: Seq<char>)
    ensures
        lowered(lowered(s)) == lowered(s),
{
    assert forall|i: int| 0 <= i < s.len() implies #[trigger] lowered(lowered(s))[i] == lowered(s)[i] by {
        lemma_lower_char_space(s[i]);
    }
    assert(lowered(lowered(s)) =~= lowered(s));
}

/// Whether `c` is whitespace.
pub fn char_is_space(c: char) -> (r: bool)
    ensures
        r == is_space(c),
{
    ('\u{9}' <= c && c <= '\u{d}') || c == ' ' || c == '\u{85}' || c == '\u{a0}' || c
        == '\u{1680}' || ('\u{2000}' <= c && c <= '\u{200a}') || c == '\u{2028}' || c
        == '\u{2029}' || c == '\u{202f}' || c == '\u{205f}' || c == '\u{3000}'
}

/// ASCII lower-case of one character.
pub fn char_lower(c: char) -> (r: char)
    ensures
        r == lower_char(c),
{
    if 'A' <= c && c <= 'Z' {
        let v: u32 = (c as u32) + 32;
        assert(v <= 0x7f);
        char_from_ascii(v)
    } else {
        c
    }
}

/// The character whose code is `v`, for an ASCII code.
fn char_from_ascii(v: u32) -> (r: char)
    requires
        v <= 0x7f,
    ensures
        r == v as char,
{
    let b: u8 = v as u8;
    b as char
}

/// `s` without leading and trailing whitespace.
pub fn trim_chars(s: &Vec<char>) -> (r: Vec<char>)
    ensures
        r@ == trimmed(s@),
{
    proof {
        lemma_leading_space_bound(s@);
    }
    let mut start: usize = 0;
    while start < s.len() && char_is_space(s[start])
        invariant
            start <= s.len(),
            start <= leading_space(s@),
            forall|i: int| 0 <= i < leading_space(s@) ==> is_space(#[trigger] s@[i]),
            leading_space(s@) < s.len() ==> !is_space(s@[leading_space(s@) as int]),
            leading_space(s@) <= s.len(),
        decreases s.len() - start,
    {
        start = start + 1;
    }
    assert(start == leading_space(s@));
    let ghost t = s@.skip(start as int);
    proof {
        lemma_trailing_space_bound(t);
    }
    let mut end: usize = s.len();
    while end > start && char_is_space(s[end - 1])
        invariant
            start <= end <= s.len(),
            s.len() - end <= trailing_space(t),
            t == s@.skip(start as int),
            trailing_space(t) <= t.len(),
            forall|i: int| t.len() - trailing_space(t) <= i < t.len() ==> is_space(#[trigger] t[i]),
            trailing_space(t) < t.len() ==> !is_space(t[t.len() - trailing_space(t) - 1]),
        decreases end,
    {
        assert(t[end - 1 - start] == s@[end - 1]);
        end = end - 1;
    }
    proof {
        if end > start {
            assert(t[end - 1 - start] == s@[end - 1]);
        }
    }
    assert(s.len() - end == trailing_space(t));
    let r = slice_chars(s, start, end);
    assert(r@ =~= trimmed(s@));
    r
}

/// ASCII lower-case of a character sequence.
pub fn lower_chars(s: &Vec<char>) -> (r: Vec<char>)
    ensures
        r@ == lowered(s@),
{
    let mut r: Vec<char> = Vec::new();
    for i in 0..s.len()
        invariant
            r@ =~= lowered(s@.take(i as int)),
    {
        r.push(char_lower(s[i]));
        assert(lowered(s@.take(i + 1)) =~= lowered(s@.take(i as int)).push(lower_char(s@[i as int])));
    }
    assert(s@.take(s.len() as int) =~= s@);
    r
}

/// The characters `s[from..to]`.
pub fn slice_chars(s: &Vec<char>, from: usize, to: usize) -> (r: Vec<char>)
    requires
        from <= to <= s.len(),
    ensures
        r@ == s@.subrange(from as int, to as int),
{
    let mut r: Vec<char> = Vec::new();
    let mut i = from;
    while i < to
        invariant
            from <= i <= to <= s.len(),
            r@ =~= s@.subrange(from as int, i as int),
        decreases to - i,
    {
        r.push(s[i]);
        i = i + 1;
    }
    r
}

/// Whether two character sequences are equal.
pub fn chars_eq(a: &Vec<char>, b: &Vec<char>) -> (r: bool)
    ensures
        r == (a@ == b@),
{
    if a.len() != b.len() {
        return false;
    }
    let mut i: usize = 0;
    while i < a.len()
        invariant
            a.len() == b.len(),
            i <= a.len(),
            forall|j: int| 0 <= j < i ==> a@[j] == b@[j],
        decreases a.len() - i,
    {
        if a[i] != b[i] {
            return false;
        }
        i = i + 1;
    }
    assert(a@ =~= b@);
    true
}

/// Whether `a` and the literal-backed `b` hold the same characters.
pub fn chars_eq_str(a: &Vec<char>, b: &str) -> (r: bool)
    ensures
        r == (a@ == b@),
{
    let bv = chars_of(b);
    chars_eq(a, &bv)
}

// ---------------------------------------------------------------------------
// Conversions between `str`/`String` and character vectors
// ---------------------------------------------------------------------------

/// The characters of `s`, in order.
pub fn chars_of(s: &str) -> (r: Vec<char>)
    ensures
        r@ == s@,
{
    let mut r: Vec<char> = Vec::new();
    for c in it: s.chars()
        invariant
            r@ == it.seq().take(it.index() as int),
            it.seq() == s@,
    {
        r.push(c);
    }
    r
}

/// `String::push`. Claimed: afterwards the string holds its old
/// characters followed by `c`.
#[verifier::external_body]
pub(crate) fn push_char(s: &mut String, c: char)
    ensures
        final(s)@ == old(s)@.push(c),
{
    s.push(c);
}

/// The string made of the characters of `v`.
pub fn string_of(v: &Vec<char>) -> (r: String)
    ensures
        r@ == v@,
{
    let mut r = String::new();
    for i in 0..v.len()
        invariant
            r@ =~= v@.take(i as int),
    {
        push_char(&mut r, v[i]);
    }
    assert(v@.take(v.len() as int) =~= v@);
    r
}

/// `a` followed by the characters of `b`.
pub fn concat_str(a: &str, b: &str) -> (r: String)
    ensures
        r@ == a@ + b@,
{
    let mut r = String::from_str(a);
    r.append(b);
    r
}

/// Appends `b` to the vector `a`.
pub fn extend_chars(a: &mut Vec<char>, b: &Vec<char>)
    ensures
        final(a)@ == old(a)@ + b@,
{
    for i in 0..b.len()
        invariant
            a@ =~= old(a)@ + b@.take(i as int),
    {
        a.push(b[i]);
    }
    assert(b@.take(b.len() as int) =~= b@);
}

// ---------------------------------------------------------------------------
// Decimal and hexadecimal rendering
// ---------------------------------------------------------------------------

/// The ASCII digit for `d < 10` (or `d < 16`, lower-case hex).
pub open spec fn digit_char(d: nat) -> char {
    if d < 10 {
        (('0' as u32) + d) as char
    } else {
        (('a' as u32) + d - 10) as char
    }
}

/// `n` written in decimal, without leading zeros (`"0"` for zero).
pub open spec fn decimal(n: nat) -> Seq<char>
    decreases n,
{
    if n < 10 {
        seq![digit_char(n)]
    } else {
        decimal(n / 10).push(digit_char(n % 10))
    }
}

/// `n` written in decimal with at least `width` digits (zero-padded).
pub open spec fn decimal_padded(n: nat, width: nat) -> Seq<char>
    decreases width,
{
    if width == 0 {
        seq![]
    } else {
        decimal_padded(n / 10, (width - 1) as nat).push(digit_char(n % 10))
    }
}

/// Two lower-case hex digits of a byte.
pub open spec fn hex_byte(b: u8) -> Seq<char> {
    seq![digit_char((b / 16) as nat), digit_char((b % 16) as nat)]
}

/// Lower-case hex of a byte sequence, two digits per byte.
pub open spec fn hex_bytes(bs: Seq<u8>) -> Seq<char>
    decreases bs.len(),
{
    if bs.len() == 0 {
        seq![]
    } else {
        hex_bytes(bs.drop_last()) + hex_byte(bs.last())
    }
}

/// `v` as 16 lower-case hex digits (`{:016x}`).
pub open spec fn hex_u64(v: u64) -> Seq<char> {
    hex_padded(v as nat, 16)
}

/// `n` in lower-case hex, exactly `width` digits (high digits dropped).
pub open spec fn hex_padded(n: nat, width: nat) -> Seq<char>
    decreases width,
{
    if width == 0 {
        seq![]
    } else {
        hex_padded(n / 16, (width - 1) as nat).push(digit_char(n % 16))
    }
}

/// Two hex digits per byte.
pub proof fn lemma_hex_bytes_len(bs: Seq<u8>)
    ensures
        hex_bytes(bs).len() == 2 * bs.len(),
    decreases bs.len(),
{
    if bs.len() > 0 {
        lemma_hex_bytes_len(bs.drop_last());
    }
}

/// Exactly `width` hex digits.
pub proof fn lemma_hex_padded_len(n: nat, width: nat)
    ensures
        hex_padded(n, width).len() == width,
    decreases width,
{
    if width > 0 {
        lemma_hex_padded_len(n / 16, (width - 1) as nat);
    }
}

/// `16^n`.
pub open spec fn pow16(n: nat) -> nat
    decreases n,
{
    if n == 0 {
        1
    } else {
        16 * pow16((n - 1) as nat)
    }
}

/// Different hex digit values are written differently.
pub proof fn lemma_digit_char_injective(a: nat, b: nat)
    requires
        a < 16,
        b < 16,
        digit_char(a) == digit_char(b),
    ensures
        a == b,
{
    let ca = digit_char(a);
    let cb = digit_char(b);
    assert(ca as u32 == cb as u32);
    if a < 10 {
        assert(ca as u32 == 48 + a);
    } else {
        assert(ca as u32 == 87 + a);
    }
    if b < 10 {
        assert(cb as u32 == 48 + b);
    } else {
        assert(cb as u32 == 87 + b);
    }
}

/// Numbers below `16^width` with the same `width` hex digits are equal.
pub proof fn lemma_hex_padded_injective(n: nat, m: nat, width: nat)
    requires
        n < pow16(width),
        m < pow16(width),
        hex_padded(n, width) == hex_padded(m, width),
    ensures
        n == m,
    decreases width,
{
    if width > 0 {
        let w1 = (width - 1) as nat;
        let p = pow16(w1);
        assert(hex_padded(n, width).last() == digit_char(n % 16));
        assert(hex_padded(m, width).last() == digit_char(m % 16));
        assert(hex_padded(n, width).drop_last() =~= hex_padded(n / 16, w1));
        assert(hex_padded(m, width).drop_last() =~= hex_padded(m / 16, w1));
        lemma_digit_char_injective(n % 16, m % 16);
        assert(n / 16 < p) by (nonlinear_arith)
            requires
                n < 16 * p,
        ;
        assert(m / 16 < p) by (nonlinear_arith)
            requires
                m < 16 * p,
        ;
        lemma_hex_padded_injective(n / 16, m / 16, w1);
        assert(n == 16 * (n / 16) + n % 16);
        assert(m == 16 * (m / 16) + m % 16);
    }
}

/// Different 64-bit values are written differently in 16 hex digits.
pub proof fn lemma_hex_u64_injective(a: u64, b: u64)
    requires
        hex_u64(a) == hex_u64(b),
    ensures
        a == b,
{
    assert(pow16(16) == 0x1_0000_0000_0000_0000) by {
        reveal_with_fuel(pow16, 17);
    }
    lemma_hex_padded_injective(a as nat, b as nat, 16);
}

/// Different bytes are written differently in two hex digits.
proof fn lemma_hex_byte_injective(a: u8, b: u8)
    requires
        hex_byte(a) == hex_byte(b),
    ensures
        a == b,
{
    assert(hex_byte(a)[0] == hex_byte(b)[0]);
    assert(hex_byte(a)[1] == hex_byte(b)[1]);
    lemma_digit_char_injective((a / 16) as nat, (b / 16) as nat);
    lemma_digit_char_injective((a % 16) as nat, (b % 16) as nat);
}

/// Different byte sequences are written differently in hex.
pub proof fn lemma_hex_bytes_injective(a: Seq<u8>, b: Seq<u8>)
    requires
        hex_bytes(a) == hex_bytes(b),
    ensures
        a == b,
    decreases a.len(),
{
    lemma_hex_bytes_len(a);
    lemma_hex_bytes_len(b);
    if a.len() > 0 {
        let ha = hex_bytes(a.drop_last());
        let hb = hex_bytes(b.drop_last());
        lemma_hex_bytes_len(a.drop_last());
        lemma_hex_bytes_len(b.drop_last());
        let x = hex_bytes(a);
        assert(x.take(ha.len() as int) =~= ha);
        assert(x.take(hb.len() as int) =~= hb);
        assert(x.skip(ha.len() as int) =~= hex_byte(a.last()));
        assert(x.skip(hb.len() as int) =~= hex_byte(b.last()));
        lemma_hex_bytes_injective(a.drop_last(), b.drop_last());
        lemma_hex_byte_injective(a.last(), b.last());
        assert(a =~= a.drop_last().push(a.last()));
        assert(b =~= b.drop_last().push(b.last()));
    } else {
        assert(a =~= b);
    }
}

/// The character for a digit value.
pub fn digit_to_char(d: u64) -> (r: char)
    requires
        d < 16,
    ensures
        r == digit_char(d as nat),
{
    if d < 10 {
        char_from_ascii((48 + d) as u32)
    } else {
        char_from_ascii((87 + d) as u32)
    }
}

/// `n` in decimal.
pub fn decimal_chars(n: u64) -> (r: Vec<char>)
    ensures
        r@ == decimal(n as nat),
    decreases n,
{
    if n < 10 {
        let mut r: Vec<char> = Vec::new();
        r.push(digit_to_char(n));
        assert(r@ =~= decimal(n as nat));
        r
    } else {
        let mut r = decimal_chars(n / 10);
        r.push(digit_to_char(n % 10));
        r
    }
}

/// `n` in decimal, zero-padded to `width` digits.
pub fn decimal_padded_chars(n: u64, width: usize) -> (r: Vec<char>)
    ensures
        r@ == decimal_padded(n as nat, width as nat),
    decreases width,
{
    if width == 0 {
        let r: Vec<char> = Vec::new();
        assert(r@ =~= decimal_padded(n as nat, 0));
        r
    } else {
        let mut r = decimal_padded_chars(n / 10, width - 1);
        r.push(digit_to_char(n % 10));
        r
    }
}

/// Lower-case hex of `bytes`.
pub fn hex_of_bytes(bytes: &[u8]) -> (r: Vec<char>)
    ensures
        r@ == hex_bytes(bytes@),
{
    let mut r: Vec<char> = Vec::new();
    for i in 0..bytes.len()
        invariant
            r@ == hex_bytes(bytes@.take(i as int)),
    {
        let b = bytes[i];
        r.push(digit_to_char((b / 16) as u64));
        r.push(digit_to_char((b % 16) as u64));
        assert(bytes@.take(i + 1).drop_last() =~= bytes@.take(i as int));
        assert(r@ =~= hex_bytes(bytes@.take(i + 1)));
    }
    assert(bytes@.take(bytes.len() as int) =~= bytes@);
    r
}

/// `v` as 16 lower-case hex digits.
pub fn hex_of_u64(v: u64) -> (r: Vec<char>)
    ensures
        r@ == hex_u64(v),
{
    hex_padded_chars(v, 16)
}

fn hex_padded_chars(n: u64, width: usize) -> (r: Vec<char>)
    ensures
        r@ == hex_padded(n as nat, width as nat),
    decreases width,
{
    if width == 0 {
        let r: Vec<char> = Vec::new();
        assert(r@ =~= hex_padded(n as nat, 0));
        r
    } else {
        let mut r = hex_padded_chars(n / 16, width - 1);
        r.push(digit_to_char(n % 16));
        r
    }
}

// ---------------------------------------------------------------------------
// Lexicographic order
// ---------------------------------------------------------------------------

/// `a` sorts strictly before `b` in lexicographic character order, which is
/// also the byte order of their UTF-8 encodings (the order of `String`).
pub open spec fn text_lt(a: Seq<char>, b: Seq<char>) -> bool
    decreases a.len(),
{
    if b.len() == 0 {
        false
    } else if a.len() == 0 {
        true
    } else if a[0] != b[0] {
        a[0] < b[0]
    } else {
        text_lt(a.drop_first(), b.drop_first())
    }
}

/// `a <= b` in that order.
pub open spec fn text_le(a: Seq<char>, b: Seq<char>) -> bool {
    a == b || text_lt(a, b)
}

pub proof fn lemma_text_lt_irreflexive(a: Seq<char>)
    ensures
        !text_lt(a, a),
    decreases a.len(),
{
    if a.len() > 0 {
        lemma_text_lt_irreflexive(a.drop_first());
    }
}

pub proof fn lemma_text_lt_total(a: Seq<char>, b: Seq<char>)
    ensures
        a == b || text_lt(a, b) || text_lt(b, a),
        !(text_lt(a, b) && text_lt(b, a)),
    decreases a.len(),
{
    if a.len() > 0 && b.len() > 0 && a[0] == b[0] {
        lemma_text_lt_total(a.drop_first(), b.drop_first());
        if a.drop_first() == b.drop_first() {
            assert(a =~= seq![a[0]] + a.drop_first());
            assert(b =~= seq![b[0]] + b.drop_first());
        }
    } else if a.len() == 0 && b.len() == 0 {
        assert(a =~= b);
    }
}

pub proof fn lemma_text_lt_transitive(a: Seq<char>, b: Seq<char>, c: Seq<char>)
    requires
        text_lt(a, b),
        text_lt(b, c),
    ensures
        text_lt(a, c),
    decreases a.len(),
{
    if a.len() > 0 && b.len() > 0 && c.len() > 0 && a[0] == b[0] && b[0] == c[0] {
        lemma_text_lt_transitive(a.drop_first(), b.drop_first(), c.drop_first());
    }
}

/// `a < b` in lexicographic character order.
pub fn chars_lt(a: &Vec<char>, b: &Vec<char>) -> (r: bool)
    ensures
        r == text_lt(a@, b@),
{
    let mut i: usize = 0;
    assert(a@.skip(0) =~= a@);
    assert(b@.skip(0) =~= b@);
    while i < a.len() && i < b.len()
        invariant
            i <= a.len(),
            i <= b.len(),
            forall|j: int| 0 <= j < i ==> a@[j] == b@[j],
            text_lt(a@, b@) == text_lt(a@.skip(i as int), b@.skip(i as int)),
        decreases a.len() - i,
    {
        if a[i] != b[i] {
            return a[i] < b[i];
        }
        assert(a@.skip(i as int).drop_first() =~= a@.skip(i + 1));
        assert(b@.skip(i as int).drop_first() =~= b@.skip(i + 1));
        i = i + 1;
    }
    i < b.len()
}

} // verus!
