//! Character-level string helpers.
//!
//! The daemon protocol and the lyric file format are both plain text, so the
//! whole crate reasons about strings as their `Seq<char>` views. This module
//! holds the comparison and search primitives the other layers build on.

use vstd::prelude::*;

verus! {

/// True when `p` is a prefix of `s`.
pub open spec fn has_prefix(s: Seq<char>, p: Seq<char>) -> bool {
    p.len() <= s.len() && s.subrange(0, p.len() as int) == p
}

/// Character-by-character string equality.
pub fn str_eq(a: &str, b: &str) -> (r: bool)
    ensures
        r == (a@ == b@),
{
    let alen = a.unicode_len();
    let blen = b.unicode_len();
    if alen != blen {
        return false;
    }
    let mut i: usize = 0;
    while i < alen
        invariant
            alen == a@.len(),
            blen == b@.len(),
            alen == blen,
            i <= alen,
            forall|j: int| 0 <= j < i ==> a@[j] == b@[j],
        decreases alen - i,
    {
        if a.get_char(i) != b.get_char(i) {
            return false;
        }
        i += 1;
    }
    proof {
        assert(a@ =~= b@);
    }
    true
}

/// Character-by-character prefix test.
pub fn str_has_prefix(s: &str, p: &str) -> (r: bool)
    ensures
        r == has_prefix(s@, p@),
{
    let slen = s.unicode_len();
    let plen = p.unicode_len();
    if plen > slen {
        return false;
    }
    let mut i: usize = 0;
    while i < plen
        invariant
            slen == s@.len(),
            plen == p@.len(),
            plen <= slen,
            i <= plen,
            forall|j: int| 0 <= j < i ==> s@[j] == p@[j],
        decreases plen - i,
    {
        if s.get_char(i) != p.get_char(i) {
            proof {
                assert(s@.subrange(0, p@.len() as int)[i as int] != p@[i as int]);
            }
            return false;
        }
        i += 1;
    }
    proof {
        assert(s@.subrange(0, p@.len() as int) =~= p@);
    }
    true
}

// ---------------------------------------------------------------------------
// Decimal digits
// ---------------------------------------------------------------------------

/// True when `c` is a decimal digit.
pub open spec fn is_digit(c: char) -> bool {
    '0' <= c && c <= '9'
}

/// The numeric value of a digit character.
pub open spec fn digit_val(c: char) -> nat {
    (c as int - 48) as nat
}

/// The character for a single digit value.
pub open spec fn digit_char(d: nat) -> char {
    ((d + 48) as u8) as char
}

/// True when every character of `s` is a decimal digit.
pub open spec fn all_digits(s: Seq<char>) -> bool {
    forall|i: int| 0 <= i < s.len() ==> is_digit(#[trigger] s[i])
}

/// The value of a digit string, most significant digit first.
pub open spec fn digits_val(s: Seq<char>) -> nat
    decreases s.len(),
{
    if s.len() == 0 {
        0
    } else {
        digits_val(s.drop_last()) * 10 + digit_val(s.last())
    }
}

/// The shortest decimal rendering of `n`, most significant digit first.
pub open spec fn spec_fmt_nat(n: nat) -> Seq<char>
    decreases n,
{
    if n < 10 {
        seq![digit_char(n)]
    } else {
        spec_fmt_nat(n / 10).push(digit_char(n % 10))
    }
}

/// `s` left-padded with `'0'` up to width `w`.
pub open spec fn zero_pad(s: Seq<char>, w: nat) -> Seq<char> {
    if s.len() >= w {
        s
    } else {
        Seq::new((w - s.len()) as nat, |i: int| '0') + s
    }
}

/// The rendering of `n` is a non-empty digit string whose value is `n`.
pub proof fn lemma_fmt_nat(n: nat)
    ensures
        spec_fmt_nat(n).len() >= 1,
        all_digits(spec_fmt_nat(n)),
        digits_val(spec_fmt_nat(n)) == n,
    decreases n,
{
    if n < 10 {
        let s = spec_fmt_nat(n);
        assert(s.drop_last() =~= Seq::<char>::empty());
        assert(digits_val(Seq::<char>::empty()) == 0);
        assert(s.last() == digit_char(n));
        assert(digit_val(digit_char(n)) == n);
        assert(digits_val(s) == digits_val(s.drop_last()) * 10 + digit_val(s.last()));
    } else {
        lemma_fmt_nat(n / 10);
        let s = spec_fmt_nat(n / 10);
        let whole = s.push(digit_char(n % 10));
        assert(whole.drop_last() =~= s);
        assert(whole.last() == digit_char(n % 10));
        assert(digit_val(digit_char(n % 10)) == n % 10);
        assert(digits_val(whole) == (n / 10) * 10 + n % 10);
        assert((n / 10) * 10 + n % 10 == n) by (nonlinear_arith);
        assert(forall|i: int|
            0 <= i < whole.len() ==> is_digit(#[trigger] whole[i]));
    }
}

/// A value below ten to the `k` renders in at most `k` digits.
pub proof fn lemma_fmt_nat_len(n: nat, k: nat)
    requires
        k >= 1,
        n < pow10(k),
    ensures
        1 <= spec_fmt_nat(n).len() <= k,
    decreases k,
{
    if n < 10 {
    } else {
        assert(pow10(k) == 10 * pow10((k - 1) as nat));
        assert(pow10(1) == 10 * pow10(0));
        assert(pow10(0) == 1);
        if k == 1 {
            assert(false);
        } else {
            assert(10 * (n / 10) <= n);
            assert(n / 10 < pow10((k - 1) as nat));
            lemma_fmt_nat_len(n / 10, (k - 1) as nat);
        }
    }
}

/// Prepending a zero leaves the value of a digit string unchanged.
pub proof fn lemma_digits_val_prepend_zero(s: Seq<char>)
    ensures
        digits_val(seq!['0'] + s) == digits_val(s),
    decreases s.len(),
{
    let z = seq!['0'] + s;
    if s.len() == 0 {
        assert(z =~= seq!['0']);
        assert(z.drop_last() =~= Seq::<char>::empty());
        assert(digits_val(Seq::<char>::empty()) == 0);
        assert(z.last() == '0');
        assert(digit_val('0') == 0);
        assert(digits_val(z) == digits_val(z.drop_last()) * 10 + digit_val(z.last()));
        assert(digits_val(s) == 0);
    } else {
        assert(z.drop_last() =~= seq!['0'] + s.drop_last());
        assert(z.last() == s.last());
        lemma_digits_val_prepend_zero(s.drop_last());
    }
}

/// Zero-padding leaves the value of a digit string unchanged, and keeps it a
/// digit string.
pub proof fn lemma_zero_pad(s: Seq<char>, w: nat)
    requires
        all_digits(s),
    ensures
        zero_pad(s, w).len() >= w,
        zero_pad(s, w).len() >= s.len(),
        all_digits(zero_pad(s, w)),
        digits_val(zero_pad(s, w)) == digits_val(s),
    decreases w,
{
    if s.len() >= w {
    } else {
        lemma_zero_pad(s, (w - 1) as nat);
        let shorter = zero_pad(s, (w - 1) as nat);
        assert(zero_pad(s, w) =~= seq!['0'] + shorter);
        lemma_digits_val_prepend_zero(shorter);
        assert(is_digit('0'));
        assert(forall|i: int|
            0 <= i < (seq!['0'] + shorter).len()
                ==> is_digit(#[trigger] (seq!['0'] + shorter)[i]));
    }
}

/// One scanning step: consuming the digit at `i` multiplies the prefix value
/// by ten and adds that digit.
pub proof fn lemma_digits_val_take_step(s: Seq<char>, i: int)
    requires
        0 <= i < s.len(),
    ensures
        digits_val(s.take(i + 1)) == digits_val(s.take(i)) * 10 + digit_val(s[i]),
{
    assert(s.take(i + 1).drop_last() =~= s.take(i));
    assert(s.take(i + 1).last() == s[i]);
}

/// The value of a digit string never shrinks as the prefix grows.
pub proof fn lemma_digits_val_take_mono(s: Seq<char>, i: int, j: int)
    requires
        0 <= i <= j <= s.len(),
    ensures
        digits_val(s.take(i)) <= digits_val(s.take(j)),
    decreases j - i,
{
    if i < j {
        lemma_digits_val_take_mono(s, i, j - 1);
        lemma_digits_val_take_step(s, j - 1);
        assert(digits_val(s.take(j - 1)) * 10 >= digits_val(s.take(j - 1)));
    }
}

/// What a non-empty, all-digit string denotes, if its value fits in a `u64`.
pub open spec fn spec_parse_u64(s: Seq<char>) -> Option<u64> {
    if s.len() >= 1 && all_digits(s) && digits_val(s) <= u64::MAX {
        Some(digits_val(s) as u64)
    } else {
        None
    }
}

/// Parses a non-empty, all-digit string whose value fits in a `u64`.
pub fn parse_u64(s: &str) -> (r: Option<u64>)
    ensures
        r == spec_parse_u64(s@),
{
    let len = s.unicode_len();
    if len == 0 {
        return None;
    }
    let mut acc: u64 = 0;
    let mut i: usize = 0;
    while i < len
        invariant
            len == s@.len(),
            1 <= len,
            i <= len,
            all_digits(s@.take(i as int)),
            acc == digits_val(s@.take(i as int)),
        decreases len - i,
    {
        let c = s.get_char(i);
        if !(c >= '0' && c <= '9') {
            proof {
                assert(!is_digit(s@[i as int]));
            }
            return None;
        }
        let d: u64 = (c as u32 as u64) - 48;
        proof {
            assert(d == digit_val(s@[i as int]));
            lemma_digits_val_take_step(s@, i as int);
        }
        let scaled = match acc.checked_mul(10) {
            Some(v) => v,
            None => {
                proof {
                    lemma_digits_val_take_mono(s@, i as int + 1, len as int);
                    assert(s@.take(len as int) =~= s@);
                }
                return None;
            },
        };
        acc = match scaled.checked_add(d) {
            Some(v) => v,
            None => {
                proof {
                    lemma_digits_val_take_mono(s@, i as int + 1, len as int);
                    assert(s@.take(len as int) =~= s@);
                }
                return None;
            },
        };
        i += 1;
    }
    proof {
        assert(s@.take(len as int) =~= s@);
    }
    Some(acc)
}

// ---------------------------------------------------------------------------
// Searching
// ---------------------------------------------------------------------------

/// Index of the first occurrence of `c` in `s`; `s.len()` when absent.
pub open spec fn first_idx_of(s: Seq<char>, c: char) -> int
    decreases s.len(),
{
    if s.len() == 0 {
        0
    } else if s[0] == c {
        0
    } else {
        1 + first_idx_of(s.drop_first(), c)
    }
}

/// `first_idx_of` is in range, lands on `c` when `c` occurs, and nothing
/// before it is `c`.
pub proof fn lemma_first_idx_of(s: Seq<char>, c: char)
    ensures
        0 <= first_idx_of(s, c) <= s.len(),
        first_idx_of(s, c) < s.len() ==> s[first_idx_of(s, c)] == c,
        forall|j: int| 0 <= j < first_idx_of(s, c) ==> s[j] != c,
    decreases s.len(),
{
    if s.len() == 0 {
    } else if s[0] == c {
    } else {
        lemma_first_idx_of(s.drop_first(), c);
        let fi: int = first_idx_of(s.drop_first(), c);
        assert(forall|j: int| 0 <= j < fi ==> s.drop_first()[j] != c);
        assert(forall|j: int| 1 <= j < 1 + fi ==> s[j] == s.drop_first()[j - 1]);
    }
}

/// In a string without `c`, the first index of `c` is the length.
pub proof fn lemma_first_idx_absent(s: Seq<char>, c: char)
    requires
        forall|j: int| 0 <= j < s.len() ==> s[j] != c,
    ensures
        first_idx_of(s, c) == s.len(),
{
    lemma_first_idx_of(s, c);
    if first_idx_of(s, c) < s.len() {
        assert(s[first_idx_of(s, c)] == c);
    }
}

/// In a string of the shape `a ++ c ++ b` with `a` free of `c`, the first
/// index of `c` is the length of `a`.
pub proof fn lemma_first_idx_concat(a: Seq<char>, b: Seq<char>, c: char)
    requires
        forall|j: int| 0 <= j < a.len() ==> a[j] != c,
    ensures
        first_idx_of(a + seq![c] + b, c) == a.len(),
{
    let s = a + seq![c] + b;
    lemma_first_idx_of(s, c);
    let fi: int = first_idx_of(s, c);
    assert(s[a.len() as int] == c);
    assert(forall|j: int| 0 <= j < a.len() ==> s[j] == a[j]);
    if fi < a.len() {
        assert(s[fi] == c);
    }
}

/// Digit characters are none of the punctuation this crate splits on.
pub proof fn lemma_digits_exclude(s: Seq<char>)
    requires
        all_digits(s),
    ensures
        forall|j: int| 0 <= j < s.len() ==> (#[trigger] s[j]) != ':',
        forall|j: int| 0 <= j < s.len() ==> (#[trigger] s[j]) != '.',
        forall|j: int| 0 <= j < s.len() ==> (#[trigger] s[j]) != '[',
        forall|j: int| 0 <= j < s.len() ==> (#[trigger] s[j]) != ']',
        forall|j: int| 0 <= j < s.len() ==> (#[trigger] s[j]) != '\n',
        forall|j: int| 0 <= j < s.len() ==> (#[trigger] s[j]) != '\r',
{
    assert forall|j: int| 0 <= j < s.len() implies (#[trigger] s[j]) != ':' && s[j] != '.'
        && s[j] != '[' && s[j] != ']' && s[j] != '\n' && s[j] != '\r' by {
        assert(is_digit(s[j]));
    }
}

/// Finds the first occurrence of `c` in `s`.
pub fn find_char(s: &str, c: char) -> (r: Option<usize>)
    ensures
        match r {
            Some(i) => i as int == first_idx_of(s@, c) && i < s@.len(),
            None => first_idx_of(s@, c) == s@.len(),
        },
{
    proof {
        lemma_first_idx_of(s@, c);
    }
    let len = s.unicode_len();
    let mut i: usize = 0;
    while i < len
        invariant
            len == s@.len(),
            i <= len,
            forall|j: int| 0 <= j < i ==> s@[j] != c,
            0 <= first_idx_of(s@, c) <= s@.len(),
            first_idx_of(s@, c) < s@.len() ==> s@[first_idx_of(s@, c)] == c,
            forall|j: int| 0 <= j < first_idx_of(s@, c) ==> s@[j] != c,
        decreases len - i,
    {
        if s.get_char(i) == c {
            return Some(i);
        }
        i += 1;
    }
    None
}

/// Tests whether every character of `s` is a decimal digit.
pub fn is_all_digits(s: &str) -> (r: bool)
    ensures
        r == all_digits(s@),
{
    let len = s.unicode_len();
    let mut i: usize = 0;
    while i < len
        invariant
            len == s@.len(),
            i <= len,
            forall|j: int| 0 <= j < i ==> is_digit(#[trigger] s@[j]),
        decreases len - i,
    {
        let c = s.get_char(i);
        if !(c >= '0' && c <= '9') {
            return false;
        }
        i += 1;
    }
    true
}

// ---------------------------------------------------------------------------
// Decimal seconds to milliseconds
// ---------------------------------------------------------------------------

/// Ten to the `k`.
pub open spec fn pow10(k: nat) -> nat
    decreases k,
{
    if k == 0 {
        1
    } else {
        10 * pow10((k - 1) as nat)
    }
}

/// The small powers of ten, spelled out.
pub proof fn lemma_pow10_small()
    ensures
        pow10(0) == 1,
        pow10(1) == 10,
        pow10(2) == 100,
        pow10(3) == 1000,
{
    assert(pow10(0) == 1);
    assert(pow10(1) == 10 * pow10(0));
    assert(pow10(2) == 10 * pow10(1));
    assert(pow10(3) == 10 * pow10(2));
}

/// Millisecond value of the fractional digit string `s`, read to three
/// places: digits past the third are dropped, missing places count as zero.
pub open spec fn frac_millis(s: Seq<char>) -> nat {
    if s.len() >= 3 {
        digits_val(s.take(3))
    } else {
        digits_val(s) * pow10((3 - s.len()) as nat)
    }
}

/// A non-negative decimal-seconds string (`"12"`, `"12.345"`, `".5"`,
/// `"7."`) as whole milliseconds, if it is well formed and fits in a `u64`.
/// Fractional digits past the third are dropped.
pub open spec fn spec_parse_millis(s: Seq<char>) -> Option<u64> {
    let dot: int = first_idx_of(s, '.');
    if dot == s.len() {
        if s.len() >= 1 && all_digits(s) && digits_val(s) * 1000 <= u64::MAX {
            Some((digits_val(s) * 1000) as u64)
        } else {
            None
        }
    } else {
        let ip = s.take(dot);
        let fp = s.skip(dot + 1);
        if ip.len() == 0 && fp.len() == 0 {
            None
        } else if !(all_digits(ip) && all_digits(fp)) {
            None
        } else if digits_val(ip) * 1000 + frac_millis(fp) <= u64::MAX {
            Some((digits_val(ip) * 1000 + frac_millis(fp)) as u64)
        } else {
            None
        }
    }
}

/// Parses a decimal-seconds string into whole milliseconds.
pub fn parse_millis(s: &str) -> (r: Option<u64>)
    ensures
        r == spec_parse_millis(s@),
{
    let len = s.unicode_len();
    match find_char(s, '.') {
        None => {
            match parse_u64(s) {
                Some(v) => {
                    match v.checked_mul(1000) {
                        Some(ms) => Some(ms),
                        None => None,
                    }
                },
                None => {
                    proof {
                        if s@.len() >= 1 && all_digits(s@) {
                            assert(digits_val(s@) > u64::MAX);
                            assert(digits_val(s@) * 1000 >= digits_val(s@));
                        }
                    }
                    None
                },
            }
        },
        Some(dot) => {
            proof {
                lemma_first_idx_of(s@, '.');
            }
            let ip = s.substring_char(0, dot);
            let fp = s.substring_char(dot + 1, len);
            proof {
                assert(ip@ =~= s@.take(dot as int));
                assert(fp@ =~= s@.skip(dot as int + 1));
            }
            let flen = fp.unicode_len();
            if dot == 0 && flen == 0 {
                return None;
            }
            if !is_all_digits(fp) {
                return None;
            }
            let int_val: u64 = if dot == 0 {
                proof {
                    assert(ip@ =~= Seq::<char>::empty());
                    assert(digits_val(ip@) == 0);
                }
                0u64
            } else {
                match parse_u64(ip) {
                    Some(v) => v,
                    None => {
                        proof {
                            if all_digits(ip@) {
                                assert(digits_val(ip@) > u64::MAX);
                                assert(digits_val(ip@) * 1000 >= digits_val(ip@));
                            }
                        }
                        return None;
                    },
                }
            };
            let frac: u64 = if flen == 0 {
                proof {
                    lemma_pow10_small();
                    assert(digits_val(fp@) == 0);
                    assert((3 - fp@.len()) as nat == 3);
                    assert(digits_val(fp@) * pow10(3) == 0) by (nonlinear_arith)
                        requires
                            digits_val(fp@) == 0,
                    ;
                    assert(frac_millis(fp@) == 0);
                }
                0u64
            } else if flen >= 3 {
                let head = fp.substring_char(0, 3);
                proof {
                    assert(head@ =~= fp@.take(3));
                }
                match parse_u64(head) {
                    Some(v) => v,
                    None => {
                        proof {
                            lemma_digits_val_take_mono(fp@, 0, 3);
                        }
                        // a three-digit string always fits in a u64
                        proof {
                            assert(all_digits(head@));
                            lemma_three_digits_small(head@);
                        }
                        assert(false);
                        0u64
                    },
                }
            } else {
                let v = match parse_u64(fp) {
                    Some(v) => v,
                    None => {
                        proof {
                            lemma_three_digits_small(fp@);
                        }
                        assert(false);
                        0u64
                    },
                };
                let scale: u64 = if flen == 1 {
                    100
                } else {
                    10
                };
                proof {
                    lemma_pow10_small();
                    lemma_three_digits_small(fp@);
                    if flen == 1 {
                        assert(v <= 9 && scale == 100);
                        assert(v * scale <= 900) by (nonlinear_arith)
                            requires
                                v <= 9,
                                scale == 100,
                        ;
                    } else {
                        assert(v <= 99 && scale == 10);
                        assert(v * scale <= 990) by (nonlinear_arith)
                            requires
                                v <= 99,
                                scale == 10,
                        ;
                    }
                }
                v * scale
            };
            proof {
                if flen >= 3 {
                    lemma_three_digits_small(fp@.take(3));
                } else if flen >= 1 {
                    lemma_three_digits_small(fp@);
                    assert(frac == frac_millis(fp@));
                }
                assert(frac == frac_millis(fp@));
                assert(frac <= 999);
            }
            match int_val.checked_mul(1000) {
                Some(base) => {
                    match base.checked_add(frac) {
                        Some(total) => Some(total),
                        None => None,
                    }
                },
                None => None,
            }
        },
    }
}

/// A digit string of at most three characters denotes less than 1000.
pub proof fn lemma_three_digits_small(s: Seq<char>)
    requires
        all_digits(s),
        s.len() <= 3,
    ensures
        digits_val(s) < pow10(s.len()),
        digits_val(s) < 1000,
    decreases s.len(),
{
    if s.len() == 0 {
    } else {
        lemma_three_digits_small(s.drop_last());
        assert(digit_val(s.last()) <= 9);
        assert(digits_val(s.drop_last()) <= pow10(s.drop_last().len()) - 1);
        assert(pow10(s.len()) == 10 * pow10(s.drop_last().len()));
        assert(digits_val(s.drop_last()) * 10 <= (pow10(s.drop_last().len()) - 1) * 10)
            by (nonlinear_arith)
            requires
                digits_val(s.drop_last()) <= pow10(s.drop_last().len()) - 1,
        ;
        lemma_pow10_small();
    }
}

// ---------------------------------------------------------------------------
// Splitting
// ---------------------------------------------------------------------------

/// The views of a sequence of strings.
pub open spec fn strs_view(v: Seq<String>) -> Seq<Seq<char>> {
    v.map_values(|t: String| t@)
}

/// Pushing a string onto a sequence pushes its view.
pub proof fn lemma_strs_view_push(v: Seq<String>, x: String)
    ensures
        strs_view(v.push(x)) =~= strs_view(v).push(x@),
{
}

/// `s` split on `c`: the maximal `c`-free pieces, in order. Splitting the
/// empty string gives one empty piece, as `str::split` does.
pub open spec fn split_on(s: Seq<char>, c: char) -> Seq<Seq<char>>
    decreases s.len(),
    via split_on_decreases
{
    let i: int = first_idx_of(s, c);
    if i == s.len() {
        seq![s]
    } else {
        seq![s.take(i)] + split_on(s.skip(i + 1), c)
    }
}

#[via_fn]
proof fn split_on_decreases(s: Seq<char>, c: char) {
    lemma_first_idx_of(s, c);
}

/// Splits `s` on `c`.
pub fn split_on_char(s: &str, c: char) -> (r: Vec<String>)
    ensures
        strs_view(r@) == split_on(s@, c),
{
    let mut parts: Vec<String> = Vec::new();
    let mut rest: &str = s;
    proof {
        assert(strs_view(parts@) =~= Seq::<Seq<char>>::empty());
    }
    loop
        invariant_except_break
            split_on(s@, c) =~= strs_view(parts@) + split_on(rest@, c),
        ensures
            split_on(s@, c) =~= strs_view(parts@),
        decreases rest@.len(),
    {
        let rlen = rest.unicode_len();
        let ghost parts_before = parts@;
        match find_char(rest, c) {
            Some(i) => {
                let ghost rest_before = rest@;
                let piece = rest.substring_char(0, i);
                parts.push(String::from_str(piece));
                rest = rest.substring_char(i + 1, rlen);
                proof {
                    lemma_strs_view_push(parts_before, parts@.last());
                    assert(piece@ =~= rest_before.take(i as int));
                    assert(rest@ =~= rest_before.skip(i as int + 1));
                    assert(split_on(rest_before, c) =~= seq![rest_before.take(i as int)]
                        + split_on(rest_before.skip(i as int + 1), c));
                    assert(strs_view(parts@) + split_on(rest@, c) =~= strs_view(parts_before)
                        + split_on(rest_before, c));
                }
            },
            None => {
                parts.push(String::from_str(rest));
                proof {
                    lemma_strs_view_push(parts_before, parts@.last());
                    assert(split_on(rest@, c) =~= seq![rest@]);
                    assert(split_on(s@, c) =~= strs_view(parts@));
                }
                break;
            },
        }
    }
    parts
}

/// Splitting a string of the shape `a ++ c ++ b`, where `a` is `c`-free,
/// yields `a` followed by the split of `b`.
pub proof fn lemma_split_on_concat(a: Seq<char>, b: Seq<char>, c: char)
    requires
        forall|j: int| 0 <= j < a.len() ==> a[j] != c,
    ensures
        split_on(a + seq![c] + b, c) == seq![a] + split_on(b, c),
{
    let s = a + seq![c] + b;
    lemma_first_idx_of(s, c);
    let fi: int = first_idx_of(s, c);
    assert(s[a.len() as int] == c);
    assert(forall|j: int| 0 <= j < a.len() ==> s[j] == a[j]);
    assert(fi == a.len());
    assert(s.take(fi) =~= a);
    assert(s.skip(fi + 1) =~= b);
    assert(split_on(s, c) =~= seq![a] + split_on(b, c));
}

/// Relies on String::push: appends one character at the end.
#[verifier::external_body]
pub(crate) fn push_char(s: &mut String, c: char)
    ensures
        final(s)@ == old(s)@.push(c),
{
    s.push(c);
}

/// Renders `n` in decimal, shortest form.
pub fn fmt_u64(n: u64) -> (r: String)
    ensures
        r@ == spec_fmt_nat(n as nat),
    decreases n,
{
    if n < 10 {
        let mut s = String::new();
        let c: char = ((n as u8) + 48) as char;
        push_char(&mut s, c);
        proof {
            assert(s@ =~= seq![digit_char(n as nat)]);
        }
        s
    } else {
        let mut s = fmt_u64(n / 10);
        let c: char = (((n % 10) as u8) + 48) as char;
        push_char(&mut s, c);
        proof {
            assert(c == digit_char((n % 10) as nat));
            assert((n / 10) as nat == (n as nat) / 10);
            assert((n % 10) as nat == (n as nat) % 10);
        }
        s
    }
}

/// Renders `n` in decimal, left-padded with zeros to at least `w` characters.
pub fn fmt_u64_pad(n: u64, w: usize) -> (r: String)
    ensures
        r@ == zero_pad(spec_fmt_nat(n as nat), w as nat),
{
    let digits = fmt_u64(n);
    let dlen = digits.as_str().unicode_len();
    if dlen >= w {
        return digits;
    }
    let mut s = String::new();
    let mut i: usize = 0;
    while i < w - dlen
        invariant
            dlen == digits@.len(),
            dlen < w,
            i <= w - dlen,
            s@ =~= Seq::new(i as nat, |k: int| '0'),
        decreases w - dlen - i,
    {
        push_char(&mut s, '0');
        proof {
            assert(s@ =~= Seq::new((i + 1) as nat, |k: int| '0'));
        }
        i += 1;
    }
    s.append(digits.as_str());
    proof {
        assert(s@ =~= zero_pad(digits@, w as nat));
    }
    s
}

} // verus!
