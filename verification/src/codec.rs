//! Index codec: the canonical textual encoding of a rotation index.
//!
//! A rotation index `idx` is encoded as the infix `"r"` followed by the
//! decimal digits of `idx`, zero-padded on the left to at least five digits.
//! Values above `99999` keep all their digits (and round-trip), but lose
//! lexical ordering against shorter encodings; that is an accepted
//! limitation, not repaired here.

use vstd::prelude::*;

verus! {

/// The character for a single decimal digit value.
pub open spec fn digit_char(d: int) -> char {
    if d == 0 {
        '0'
    } else if d == 1 {
        '1'
    } else if d == 2 {
        '2'
    } else if d == 3 {
        '3'
    } else if d == 4 {
        '4'
    } else if d == 5 {
        '5'
    } else if d == 6 {
        '6'
    } else if d == 7 {
        '7'
    } else if d == 8 {
        '8'
    } else {
        '9'
    }
}

/// Whether a character is a decimal digit.
pub open spec fn is_digit(c: char) -> bool {
    48 <= c as int && c as int <= 57
}

/// The numeric value of a decimal digit character.
pub open spec fn digit_val(c: char) -> int {
    c as int - 48
}

/// The decimal digits of `n`, most significant first, with no leading zeros
/// (a single `'0'` for zero itself).
pub open spec fn dec_digits(n: nat) -> Seq<char>
    decreases n,
{
    if n < 10 {
        seq![digit_char(n as int)]
    } else {
        dec_digits(n / 10).push(digit_char((n % 10) as int))
    }
}

/// A run of `n` zero characters.
pub open spec fn zeroes(n: nat) -> Seq<char>
    decreases n,
{
    if n == 0 {
        Seq::empty()
    } else {
        zeroes((n - 1) as nat).push('0')
    }
}

/// The digits of `n` zero-padded on the left to at least `width` digits.
pub open spec fn padded_digits(n: nat, width: nat) -> Seq<char> {
    let ds = dec_digits(n);
    if ds.len() >= width {
        ds
    } else {
        zeroes((width - ds.len()) as nat) + ds
    }
}

/// The canonical infix for rotation index `idx`: `'r'` then the decimal
/// digits of `idx`, zero-padded to at least five digits.
pub open spec fn infix_chars(idx: u32) -> Seq<char> {
    seq!['r'] + padded_digits(idx as nat, 5)
}

/// Appends the digit character for `d` to `s`.
fn push_digit(s: &mut String, d: u32)
    requires
        d < 10,
    ensures
        final(s)@ == old(s)@.push(digit_char(d as int)),
{
    proof {
        reveal_strlit("0");
        reveal_strlit("1");
        reveal_strlit("2");
        reveal_strlit("3");
        reveal_strlit("4");
        reveal_strlit("5");
        reveal_strlit("6");
        reveal_strlit("7");
        reveal_strlit("8");
        reveal_strlit("9");
    }
    match d {
        0 => s.append("0"),
        1 => s.append("1"),
        2 => s.append("2"),
        3 => s.append("3"),
        4 => s.append("4"),
        5 => s.append("5"),
        6 => s.append("6"),
        7 => s.append("7"),
        8 => s.append("8"),
        _ => s.append("9"),
    }
    proof {
        assert(s@ =~= old(s)@.push(digit_char(d as int)));
    }
}

/// Appends the decimal digits of `n`, most significant first, to `s`.
fn append_decimal(s: &mut String, n: u32)
    ensures
        final(s)@ == old(s)@ + dec_digits(n as nat),
    decreases n,
{
    if n < 10 {
        push_digit(s, n);
        proof {
            assert(s@ =~= old(s)@ + dec_digits(n as nat));
        }
    } else {
        append_decimal(s, n / 10);
        push_digit(s, n % 10);
        proof {
            assert(s@ =~= old(s)@ + dec_digits(n as nat));
        }
    }
}

/// The number of decimal digits of `n`.
spec fn dec_len(n: nat) -> nat
    decreases n,
{
    if n < 10 {
        1
    } else {
        dec_len(n / 10) + 1
    }
}

proof fn lemma_dec_digits_len(n: nat)
    ensures
        dec_digits(n).len() == dec_len(n),
    decreases n,
{
    if n >= 10 {
        lemma_dec_digits_len(n / 10);
    }
}

/// Counts the decimal digits of `n`.
fn decimal_len(n: u32) -> (r: usize)
    ensures
        r == dec_len(n as nat),
    decreases n,
{
    if n < 10 {
        1
    } else {
        let rest = decimal_len(n / 10);
        proof {
            lemma_dec_len_bound(n as nat);
        }
        rest + 1
    }
}

/// The power of ten with exponent `k`.
spec fn pow10(k: nat) -> nat
    decreases k,
{
    if k == 0 {
        1
    } else {
        10 * pow10((k - 1) as nat)
    }
}

/// A value below the `k`-th power of ten has at most `k` decimal digits.
proof fn lemma_dec_len_pow(n: nat, k: nat)
    requires
        1 <= k,
        n < pow10(k),
    ensures
        dec_len(n) <= k,
    decreases n,
{
    if n >= 10 {
        assert(k >= 2) by {
            if k < 2 {
                reveal_with_fuel(pow10, 2);
                assert(pow10(k) == 10);
            }
        }
        assert(pow10(k) == 10 * pow10((k - 1) as nat));
        assert(n / 10 < pow10((k - 1) as nat)) by (nonlinear_arith)
            requires
                n < 10 * pow10((k - 1) as nat),
        ;
        lemma_dec_len_pow(n / 10, (k - 1) as nat);
    }
}

/// A `u32` has at most ten decimal digits.
proof fn lemma_dec_len_bound(n: nat)
    requires
        n <= u32::MAX,
    ensures
        dec_len(n) <= 10,
{
    assert(pow10(10) == 10_000_000_000) by {
        reveal_with_fuel(pow10, 11);
    }
    lemma_dec_len_pow(n, 10);
}

/// Formats a rotation index as its canonical infix: `"r"` followed by the
/// index's decimal digits, zero-padded on the left to at least five digits.
pub fn number_infix(idx: u32) -> (s: String)
    ensures
        s@ == infix_chars(idx),
{
    proof {
        reveal_strlit("r");
    }
    let mut s = String::from_str("r");
    let ghost head = s@;
    proof {
        assert(head =~= seq!['r']);
    }
    let len = decimal_len(idx);
    let mut pad: usize = len;
    while pad < 5
        invariant
            len <= pad,
            pad <= 5 || pad == len,
            s@ == head + zeroes((pad - len) as nat),
        decreases 5 - pad,
    {
        push_digit(&mut s, 0);
        pad = pad + 1;
        proof {
            assert(s@ =~= head + zeroes((pad - len) as nat));
        }
    }
    append_decimal(&mut s, idx);
    proof {
        lemma_dec_digits_len(idx as nat);
        assert(s@ =~= infix_chars(idx));
    }
    s
}

/// Whether every character of `s` is a decimal digit.
pub open spec fn all_digits(s: Seq<char>) -> bool {
    forall|i: int| 0 <= i < s.len() ==> is_digit(s[i])
}

/// The value of `s` read as decimal digits, most significant first.
/// Only meaningful when `all_digits(s)` holds.
pub open spec fn digits_val(s: Seq<char>) -> int
    decreases s.len(),
{
    if s.len() == 0 {
        0
    } else {
        digits_val(s.drop_last()) * 10 + digit_val(s.last())
    }
}

/// What parsing a decimal unsigned 32-bit integer from text yields: an
/// optional leading `'+'`, then at least one digit, every character a digit,
/// and a value that fits; anything else fails.
pub open spec fn parse_u32(s: Seq<char>) -> Option<u32> {
    let body = if s.len() > 0 && s[0] == '+' {
        s.skip(1)
    } else {
        s
    };
    if body.len() > 0 && all_digits(body) && digits_val(body) <= u32::MAX {
        Some(digits_val(body) as u32)
    } else {
        None
    }
}

proof fn lemma_digits_val_nonneg(s: Seq<char>)
    requires
        all_digits(s),
    ensures
        digits_val(s) >= 0,
    decreases s.len(),
{
    if s.len() > 0 {
        assert(all_digits(s.drop_last()));
        lemma_digits_val_nonneg(s.drop_last());
    }
}

/// Under `all_digits`, the value of a prefix never exceeds the whole value.
proof fn lemma_digits_val_prefix(s: Seq<char>, m: int)
    requires
        all_digits(s),
        0 <= m <= s.len(),
    ensures
        0 <= digits_val(s.take(m)) <= digits_val(s),
    decreases s.len(),
{
    assert(all_digits(s.take(m)));
    lemma_digits_val_nonneg(s.take(m));
    if m == s.len() {
        assert(s.take(m) =~= s);
    } else {
        let dl = s.drop_last();
        assert(all_digits(dl));
        lemma_digits_val_prefix(dl, m);
        lemma_digits_val_nonneg(dl);
        assert(s.take(m) =~= dl.take(m));
        assert(digits_val(dl) * 10 >= digits_val(dl)) by (nonlinear_arith)
            requires
                digits_val(dl) >= 0,
        ;
    }
}

/// Parses decimal text as an unsigned 32-bit integer, as `u32::from_str`
/// reads it: an optional leading `'+'`, then at least one digit; fails on an
/// empty body, a non-digit character, or a value above `u32::MAX`.
pub fn parse_index(s: &str) -> (r: Option<u32>)
    ensures
        r == parse_u32(s@),
{
    let n = s.unicode_len();
    let start: usize = if n > 0 && s.get_char(0) == '+' {
        1
    } else {
        0
    };
    let ghost body = if start == 1 { s@.skip(1) } else { s@ };
    proof {
        assert(body.len() == n - start);
    }
    if start == n {
        return None;
    }
    let mut val: u64 = 0;
    let mut i: usize = start;
    while i < n
        invariant
            n == s@.len(),
            start <= i <= n,
            (start == 1) == (s@.len() > 0 && s@[0] == '+'),
            start == 0 || start == 1,
            body == (if start == 1 { s@.skip(1) } else { s@ }),
            body.len() == n - start,
            forall|k: int| 0 <= k < i - start ==> is_digit(body[k]),
            val == digits_val(body.take(i - start)),
            val <= u32::MAX,
        decreases n - i,
    {
        let c = s.get_char(i);
        let cv = c as u32;
        proof {
            assert(body[i - start] == s@[i as int]);
        }
        if cv < 48 || cv > 57 {
            proof {
                assert(!is_digit(body[i - start]));
                assert(!all_digits(body));
            }
            return None;
        }
        let d: u64 = (cv - 48) as u64;
        proof {
            assert(is_digit(body[i - start]));
            assert(digit_val(body[i - start]) == d);
            let t = body.take(i - start + 1);
            assert(t.drop_last() =~= body.take(i - start));
            assert(t.last() == body[i - start]);
            assert(digits_val(t) == digits_val(body.take(i - start)) * 10 + digit_val(
                body[i - start],
            ));
        }
        val = val * 10 + d;
        i = i + 1;
        if val > u32::MAX as u64 {
            proof {
                if all_digits(body) {
                    lemma_digits_val_prefix(body, i - start);
                    assert(digits_val(body) > u32::MAX);
                }
            }
            return None;
        }
    }
    proof {
        assert(body.take(n - start) =~= body);
        assert(all_digits(body));
    }
    Some(val as u32)
}

/// Parsing the canonical infix of `idx`, after its leading `'r'`, gives back
/// exactly `idx`: the round trip holds for every representable index.
pub proof fn lemma_parse_number_infix(idx: u32)
    ensures
        parse_u32(infix_chars(idx).skip(1)) == Some(idx),
{
    let p = padded_digits(idx as nat, 5);
    assert(infix_chars(idx).skip(1) =~= p);
    lemma_padded_digits_val(idx as nat, 5);
    assert(p[0] != '+');
}

proof fn lemma_dec_digits_all_digits(n: nat)
    ensures
        all_digits(dec_digits(n)),
        dec_digits(n).len() > 0,
    decreases n,
{
    if n >= 10 {
        lemma_dec_digits_all_digits(n / 10);
    }
}

proof fn lemma_dec_digits_val(n: nat)
    ensures
        digits_val(dec_digits(n)) == n,
    decreases n,
{
    let ds = dec_digits(n);
    if n < 10 {
        assert(ds.drop_last() =~= Seq::<char>::empty());
        assert(digits_val(Seq::<char>::empty()) == 0);
        assert(ds.last() == digit_char(n as int));
        assert(digits_val(ds) == digits_val(ds.drop_last()) * 10 + digit_val(ds.last()));
        assert(digit_val(digit_char(n as int)) == n);
    } else {
        lemma_dec_digits_val(n / 10);
        assert(ds.drop_last() =~= dec_digits(n / 10));
        assert(ds.last() == digit_char((n % 10) as int));
        assert(digits_val(ds) == digits_val(ds.drop_last()) * 10 + digit_val(ds.last()));
        assert(digit_val(digit_char((n % 10) as int)) == n % 10);
        assert((n / 10) * 10 + n % 10 == n) by (nonlinear_arith);
    }
}

proof fn lemma_zeroes_all_digits(p: nat)
    ensures
        all_digits(zeroes(p)),
        zeroes(p).len() == p,
    decreases p,
{
    if p > 0 {
        lemma_zeroes_all_digits((p - 1) as nat);
    }
}

/// Leading zeros do not change the decimal value.
proof fn lemma_zeroes_prefix_val(p: nat, s: Seq<char>)
    ensures
        digits_val(zeroes(p) + s) == digits_val(s),
    decreases s.len(),
{
    if s.len() == 0 {
        assert(zeroes(p) + s =~= zeroes(p));
        lemma_zeroes_val(p);
    } else {
        lemma_zeroes_prefix_val(p, s.drop_last());
        assert((zeroes(p) + s).drop_last() =~= zeroes(p) + s.drop_last());
        assert((zeroes(p) + s).last() == s.last());
    }
}

proof fn lemma_zeroes_val(p: nat)
    ensures
        digits_val(zeroes(p)) == 0,
    decreases p,
{
    if p > 0 {
        lemma_zeroes_val((p - 1) as nat);
        assert(zeroes(p).drop_last() =~= zeroes((p - 1) as nat));
    }
}

/// The zero-padded digit run of `n` is all digits, non-empty, and reads back
/// as `n`.
proof fn lemma_padded_digits_val(n: nat, width: nat)
    ensures
        all_digits(padded_digits(n, width)),
        padded_digits(n, width).len() > 0,
        digits_val(padded_digits(n, width)) == n,
{
    lemma_dec_digits_all_digits(n);
    lemma_dec_digits_val(n);
    let ds = dec_digits(n);
    if ds.len() < width {
        let p = (width - ds.len()) as nat;
        lemma_zeroes_all_digits(p);
        lemma_zeroes_prefix_val(p, ds);
    }
}

/// Strict lexicographic order on character sequences, by code point; the
/// order `String` comparison uses.
pub open spec fn lex_lt(a: Seq<char>, b: Seq<char>) -> bool
    decreases a.len(),
{
    if b.len() == 0 {
        false
    } else if a.len() == 0 {
        true
    } else if (a[0] as int) < (b[0] as int) {
        true
    } else if a[0] == b[0] {
        lex_lt(a.skip(1), b.skip(1))
    } else {
        false
    }
}

/// Exactly `w` decimal digits of `n`, most significant first, truncated to
/// the low `w` digits.
spec fn fixed_digits(n: nat, w: nat) -> Seq<char>
    decreases w,
{
    if w == 0 {
        Seq::empty()
    } else {
        fixed_digits(n / 10, (w - 1) as nat).push(digit_char((n % 10) as int))
    }
}

proof fn lemma_fixed_digits_zero(w: nat)
    ensures
        fixed_digits(0, w) == zeroes(w),
    decreases w,
{
    if w > 0 {
        lemma_fixed_digits_zero((w - 1) as nat);
        assert(fixed_digits(0, w) =~= zeroes(w));
    }
}

proof fn lemma_fixed_digits_len(n: nat, w: nat)
    ensures
        fixed_digits(n, w).len() == w,
    decreases w,
{
    if w > 0 {
        lemma_fixed_digits_len(n / 10, (w - 1) as nat);
    }
}

/// Below the `w`-th power of ten, zero-padding to width `w` gives exactly
/// the `w` low digits.
proof fn lemma_padded_is_fixed(n: nat, w: nat)
    requires
        1 <= w,
        n < pow10(w),
    ensures
        padded_digits(n, w) == fixed_digits(n, w),
    decreases w,
{
    lemma_dec_digits_len(n);
    if w == 1 {
        assert(n < 10) by {
            reveal_with_fuel(pow10, 2);
        }
        assert(fixed_digits(n / 10, 0) =~= Seq::<char>::empty());
        assert(fixed_digits(n, 1) == Seq::<char>::empty().push(digit_char(n as int)));
        assert(padded_digits(n, w) =~= fixed_digits(n, w));
    } else if n < 10 {
        lemma_fixed_digits_zero((w - 1) as nat);
        assert(fixed_digits(n, w) == zeroes((w - 1) as nat).push(digit_char(n as int)));
        assert(padded_digits(n, w) =~= fixed_digits(n, w));
    } else {
        assert(pow10(w) == 10 * pow10((w - 1) as nat));
        assert(n / 10 < pow10((w - 1) as nat)) by (nonlinear_arith)
            requires
                n < 10 * pow10((w - 1) as nat),
        ;
        lemma_padded_is_fixed(n / 10, (w - 1) as nat);
        lemma_dec_digits_len(n / 10);
        assert(padded_digits(n, w) =~= fixed_digits(n, w));
    }
}

/// Appending a smaller digit after a common prefix gives the smaller word.
proof fn lemma_lex_push_last(t: Seq<char>, a: char, b: char)
    requires
        (a as int) < (b as int),
    ensures
        lex_lt(t.push(a), t.push(b)),
    decreases t.len(),
{
    if t.len() == 0 {
        assert(t.push(a)[0] == a);
        assert(t.push(b)[0] == b);
    } else {
        lemma_lex_push_last(t.skip(1), a, b);
        assert(t.push(a).skip(1) =~= t.skip(1).push(a));
        assert(t.push(b).skip(1) =~= t.skip(1).push(b));
        assert(t.push(a)[0] == t[0]);
        assert(t.push(b)[0] == t[0]);
    }
}

/// Appending one character each to words already ordered, and of one length,
/// keeps the order.
proof fn lemma_lex_push_mono(s: Seq<char>, t: Seq<char>, a: char, b: char)
    requires
        s.len() == t.len(),
        lex_lt(s, t),
    ensures
        lex_lt(s.push(a), t.push(b)),
    decreases s.len(),
{
    assert(s.len() > 0);
    assert(s.push(a)[0] == s[0]);
    assert(t.push(b)[0] == t[0]);
    if s[0] == t[0] {
        lemma_lex_push_mono(s.skip(1), t.skip(1), a, b);
        assert(s.push(a).skip(1) =~= s.skip(1).push(a));
        assert(t.push(b).skip(1) =~= t.skip(1).push(b));
    }
}

/// Fixed-width encodings of values below the width's power of ten compare
/// lexically as the values compare.
proof fn lemma_fixed_digits_order(i: nat, j: nat, w: nat)
    requires
        i < j,
        j < pow10(w),
    ensures
        lex_lt(fixed_digits(i, w), fixed_digits(j, w)),
    decreases w,
{
    assert(w >= 1);
    let di = digit_char((i % 10) as int);
    let dj = digit_char((j % 10) as int);
    if i / 10 == j / 10 {
        assert(i % 10 < j % 10) by (nonlinear_arith)
            requires
                i < j,
                i / 10 == j / 10,
        ;
        assert((di as int) < (dj as int));
        lemma_lex_push_last(fixed_digits(i / 10, (w - 1) as nat), di, dj);
    } else {
        assert(pow10(w) == 10 * pow10((w - 1) as nat));
        assert(i / 10 < j / 10 && j / 10 < pow10((w - 1) as nat)) by (nonlinear_arith)
            requires
                i < j,
                i / 10 != j / 10,
                j < 10 * pow10((w - 1) as nat),
        ;
        lemma_fixed_digits_order(i / 10, j / 10, (w - 1) as nat);
        lemma_fixed_digits_len(i / 10, (w - 1) as nat);
        lemma_fixed_digits_len(j / 10, (w - 1) as nat);
        lemma_lex_push_mono(
            fixed_digits(i / 10, (w - 1) as nat),
            fixed_digits(j / 10, (w - 1) as nat),
            di,
            dj,
        );
    }
}

/// Within the padded width, the encoding preserves order: for indexes up to
/// `99999`, the smaller index formats to the lexically smaller infix.
pub proof fn lemma_infix_lex_order(i: u32, j: u32)
    requires
        i < j,
        j <= 99999,
    ensures
        lex_lt(infix_chars(i), infix_chars(j)),
{
    assert(pow10(5) == 100000) by {
        reveal_with_fuel(pow10, 6);
    }
    lemma_padded_is_fixed(i as nat, 5);
    lemma_padded_is_fixed(j as nat, 5);
    lemma_fixed_digits_order(i as nat, j as nat, 5);
    lemma_fixed_digits_len(i as nat, 5);
    lemma_fixed_digits_len(j as nat, 5);
    let a = infix_chars(i);
    let b = infix_chars(j);
    assert(a[0] == 'r' && b[0] == 'r');
    assert(a.skip(1) =~= padded_digits(i as nat, 5));
    assert(b.skip(1) =~= padded_digits(j as nat, 5));
}

} // verus!
