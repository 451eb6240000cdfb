//! Decimal numbers as text: formatting (`{}`, `{:0N}`) and parsing
//! (`str::parse::<i64>`).
use vstd::prelude::*;
use crate::text::{append_chars, digit_val, is_ascii_digit};

verus! {

pub open spec fn digit_char(d: int) -> char {
    (48 + d) as char
}

/// Decimal digits of a natural number, most significant first.
pub open spec fn dec_nat(n: nat) -> Seq<char>
    decreases n,
{
    if n < 10 {
        seq![digit_char(n as int)]
    } else {
        dec_nat(n / 10).push(digit_char((n % 10) as int))
    }
}

/// `format!("{}", n)` for an integer.
pub open spec fn dec(n: int) -> Seq<char> {
    if n < 0 {
        seq!['-'] + dec_nat((-n) as nat)
    } else {
        dec_nat(n as nat)
    }
}

/// Left-pads `s` with `'0'` up to width `w`.
pub open spec fn zpad(s: Seq<char>, w: nat) -> Seq<char> {
    if s.len() >= w {
        s
    } else {
        Seq::new((w - s.len()) as nat, |i: int| '0') + s
    }
}

/// `format!("{:0w$}", n)`: sign first, zeros after it.
pub open spec fn dec_pad(n: int, w: nat) -> Seq<char> {
    if n < 0 {
        seq!['-'] + zpad(dec_nat((-n) as nat), if w >= 1 { (w - 1) as nat } else { 0 })
    } else {
        zpad(dec_nat(n as nat), w)
    }
}

fn digit_exec(d: u64) -> (c: char)
    requires
        d < 10,
    ensures
        c == digit_char(d as int),
{
    let b: u8 = (48 + d) as u8;
    b as char
}

pub fn fmt_u64(n: u64) -> (r: Vec<char>)
    ensures
        r@ == dec_nat(n as nat),
    decreases n,
{
    if n < 10 {
        let c = digit_exec(n);
        let mut r: Vec<char> = Vec::new();
        r.push(c);
        assert(r@ =~= seq![c]);
        r
    } else {
        let mut r = fmt_u64(n / 10);
        let c = digit_exec(n % 10);
        r.push(c);
        r
    }
}

pub fn fmt_i64(n: i64) -> (r: Vec<char>)
    ensures
        r@ == dec(n as int),
{
    if n < 0 {
        let m: u64 = (-(n as i128)) as u64;
        let d = fmt_u64(m);
        let mut r: Vec<char> = Vec::new();
        r.push('-');
        append_chars(&mut r, &d);
        assert(r@ =~= seq!['-'] + d@);
        r
    } else {
        fmt_u64(n as u64)
    }
}

fn zpad_exec(s: Vec<char>, w: usize) -> (r: Vec<char>)
    ensures
        r@ == zpad(s@, w as nat),
{
    if s.len() >= w {
        s
    } else {
        let mut r: Vec<char> = Vec::new();
        let k = w - s.len();
        let mut i: usize = 0;
        while i < k
            invariant
                i <= k,
                r@ == Seq::new(i as nat, |j: int| '0'),
            decreases k - i,
        {
            r.push('0');
            assert(r@ =~= Seq::new((i + 1) as nat, |j: int| '0'));
            i += 1;
        }
        append_chars(&mut r, &s);
        r
    }
}

pub fn fmt_i64_pad(n: i64, w: usize) -> (r: Vec<char>)
    ensures
        r@ == dec_pad(n as int, w as nat),
{
    if n < 0 {
        let m: u64 = (-(n as i128)) as u64;
        let d = zpad_exec(fmt_u64(m), if w >= 1 { w - 1 } else { 0 });
        let mut r: Vec<char> = Vec::new();
        r.push('-');
        append_chars(&mut r, &d);
        assert(r@ =~= seq!['-'] + d@);
        r
    } else {
        zpad_exec(fmt_u64(n as u64), w)
    }
}

pub proof fn lemma_dec_nat_len(n: nat)
    ensures
        dec_nat(n).len() >= 1,
    decreases n,
{
    if n >= 10 {
        lemma_dec_nat_len(n / 10);
    }
}

/// Floor quotient and remainder of a negative dividend, from those of `-(a + 1)`.
proof fn lemma_neg_div_mod(a: int, b: int)
    requires
        b > 0,
        a < 0,
    ensures
        a / b == -((-(a + 1)) / b) - 1,
        a % b == b - (-(a + 1)) % b - 1,
{
    let na = -(a + 1);
    let qp = na / b;
    let rp = na % b;
    vstd::arithmetic::div_mod::lemma_fundamental_div_mod(na, b);
    assert(0 <= rp < b) by {
        vstd::arithmetic::div_mod::lemma_mod_bound(na, b);
    }
    assert(a == (-qp - 1) * b + (b - rp - 1)) by (nonlinear_arith)
        requires
            na == b * qp + rp,
            a == -(na + 1),
    ;
    vstd::arithmetic::div_mod::lemma_fundamental_div_mod_converse_div(a, b, -qp - 1, b - rp - 1);
    vstd::arithmetic::div_mod::lemma_fundamental_div_mod_converse_mod(a, b, -qp - 1, b - rp - 1);
}

/// `i64::div_euclid` for a positive divisor.
pub fn div_euclid(a: i64, b: i64) -> (q: i64)
    requires
        b > 0,
    ensures
        q as int == (a as int) / (b as int),
{
    if a >= 0 {
        a / b
    } else {
        proof {
            lemma_neg_div_mod(a as int, b as int);
        }
        let na: i64 = -(a + 1);
        -(na / b) - 1
    }
}

/// `i64::rem_euclid` for a positive divisor.
pub fn rem_euclid(a: i64, b: i64) -> (r: i64)
    requires
        b > 0,
    ensures
        r as int == (a as int) % (b as int),
        0 <= r < b,
{
    if a >= 0 {
        a % b
    } else {
        proof {
            lemma_neg_div_mod(a as int, b as int);
        }
        let na: i64 = -(a + 1);
        b - na % b - 1
    }
}

// ---------------------------------------------------------------------------
// Parsing
// ---------------------------------------------------------------------------

pub open spec fn all_digits(s: Seq<char>) -> bool {
    forall|i: int| 0 <= i < s.len() ==> is_ascii_digit(#[trigger] s[i])
}

pub open spec fn digits_val(s: Seq<char>) -> int
    decreases s.len(),
{
    if s.len() == 0 {
        0
    } else {
        digits_val(s.drop_last()) * 10 + digit_val(s.last())
    }
}

/// The integer an optionally signed decimal literal denotes.
pub open spec fn int_literal(s: Seq<char>) -> Option<int> {
    if s.len() > 0 && (s[0] == '+' || s[0] == '-') {
        let b = s.drop_first();
        if b.len() > 0 && all_digits(b) {
            Some(
                if s[0] == '-' {
                    -digits_val(b)
                } else {
                    digits_val(b)
                },
            )
        } else {
            None
        }
    } else if s.len() > 0 && all_digits(s) {
        Some(digits_val(s))
    } else {
        None
    }
}

/// `str::parse::<i64>`: a literal whose value fits in `i64`.
pub open spec fn parse_i64_spec(s: Seq<char>) -> Option<int> {
    match int_literal(s) {
        Some(v) => if i64::MIN <= v <= i64::MAX {
            Some(v)
        } else {
            None
        },
        None => None,
    }
}

proof fn lemma_digits_val_nonneg(s: Seq<char>)
    requires
        all_digits(s),
    ensures
        digits_val(s) >= 0,
    decreases s.len(),
{
    if s.len() > 0 {
        assert(all_digits(s.drop_last()));
        lemma_digits_val_nonneg(s.drop_last());
        assert(is_ascii_digit(s[s.len() - 1]));
    }
}

proof fn lemma_digits_val_prefix(s: Seq<char>, k: int)
    requires
        all_digits(s),
        0 <= k <= s.len(),
    ensures
        digits_val(s) >= digits_val(s.take(k)),
    decreases s.len(),
{
    if k < s.len() {
        assert(all_digits(s.drop_last()));
        lemma_digits_val_prefix(s.drop_last(), k);
        assert(s.drop_last().take(k) =~= s.take(k));
        lemma_digits_val_nonneg(s.drop_last());
        assert(is_ascii_digit(s[s.len() - 1]));
    } else {
        assert(s.take(k) =~= s);
    }
}

/// Value of the all-digit run `s[a..b]`, or `None` once it exceeds `u64::MAX`.
fn digits_u64(s: &Vec<char>, a: usize) -> (r: Option<u64>)
    requires
        a <= s@.len(),
        all_digits(s@.skip(a as int)),
    ensures
        r matches Some(v) ==> v == digits_val(s@.skip(a as int)),
        r is None ==> digits_val(s@.skip(a as int)) > u64::MAX,
{
    let ghost b = s@.skip(a as int);
    let mut acc: u64 = 0;
    let mut i: usize = a;
    while i < s.len()
        invariant
            a <= i <= s@.len(),
            b == s@.skip(a as int),
            all_digits(b),
            acc == digits_val(b.take(i - a)),
        decreases s.len() - i,
    {
        let c = s[i];
        assert(b[i - a] == c);
        assert(is_ascii_digit(b[i - a]));
        let d: u64 = ((c as u32) - 48) as u64;
        assert(b.take(i - a + 1).drop_last() =~= b.take(i - a));
        let m = acc.checked_mul(10);
        match m {
            Some(m) => {
                match m.checked_add(d) {
                    Some(v) => {
                        acc = v;
                    },
                    None => {
                        proof {
                            lemma_digits_val_prefix(b, i - a + 1);
                        }
                        return None;
                    },
                }
            },
            None => {
                proof {
                    lemma_digits_val_prefix(b, i - a + 1);
                    lemma_digits_val_nonneg(b.take(i - a + 1));
                }
                return None;
            },
        }
        i += 1;
    }
    assert(b.take(s@.len() - a) =~= b);
    Some(acc)
}

fn all_digits_from(s: &Vec<char>, a: usize) -> (r: bool)
    requires
        a <= s@.len(),
    ensures
        r == all_digits(s@.skip(a as int)),
{
    let mut i: usize = a;
    while i < s.len()
        invariant
            a <= i <= s@.len(),
            forall|j: int| a <= j < i ==> is_ascii_digit(s@[j]),
        decreases s.len() - i,
    {
        if !(s[i] >= '0' && s[i] <= '9') {
            assert(!is_ascii_digit(s@.skip(a as int)[i - a]));
            return false;
        }
        i += 1;
    }
    assert forall|j: int| 0 <= j < s@.skip(a as int).len() implies is_ascii_digit(
        #[trigger] s@.skip(a as int)[j],
    ) by {
        assert(s@.skip(a as int)[j] == s@[a + j]);
    }
    true
}

/// `str::parse::<i64>` on a character sequence.
pub fn parse_i64(s: &Vec<char>) -> (r: Option<i64>)
    ensures
        r matches Some(v) ==> parse_i64_spec(s@) == Some(v as int),
        r is None ==> parse_i64_spec(s@) is None,
{
    if s.len() == 0 {
        return None;
    }
    let signed = s[0] == '+' || s[0] == '-';
    let a: usize = if signed { 1 } else { 0 };
    assert(a == 1 ==> s@.skip(1) =~= s@.drop_first());
    assert(a == 0 ==> s@.skip(0) =~= s@);
    if a >= s.len() || !all_digits_from(s, a) {
        return None;
    }
    proof {
        lemma_digits_val_nonneg(s@.skip(a as int));
    }
    match digits_u64(s, a) {
        None => None,
        Some(v) => {
            if s[0] == '-' {
                if v <= 9223372036854775808u64 {
                    let w: i128 = -(v as i128);
                    Some(w as i64)
                } else {
                    None
                }
            } else {
                if v <= 9223372036854775807u64 {
                    Some(v as i64)
                } else {
                    None
                }
            }
        },
    }
}


/// Decimal text of a natural number holds only digits.
pub proof fn lemma_dec_nat_digits(n: nat)
    ensures
        forall|i: int| 0 <= i < dec_nat(n).len() ==> '0' <= #[trigger] dec_nat(n)[i] <= '9',
    decreases n,
{
    if n >= 10 {
        lemma_dec_nat_digits(n / 10);
        assert(dec_nat(n) == dec_nat(n / 10).push(digit_char((n % 10) as int)));
    }
}

/// Decimal text never holds a character other than a digit or a leading `-`.
pub proof fn lemma_dec_chars(n: int)
    ensures
        forall|i: int| 0 <= i < dec(n).len() ==> ('0' <= #[trigger] dec(n)[i] <= '9' || (i == 0
            && dec(n)[i] == '-')),
{
    if n < 0 {
        lemma_dec_nat_digits((-n) as nat);
        assert forall|i: int| 0 <= i < dec(n).len() implies ('0' <= #[trigger] dec(n)[i] <= '9'
            || (i == 0 && dec(n)[i] == '-')) by {
            if i > 0 {
                assert(dec(n)[i] == dec_nat((-n) as nat)[i - 1]);
            }
        }
    } else {
        lemma_dec_nat_digits(n as nat);
    }
}

/// Different natural numbers have different decimal texts.
pub proof fn lemma_dec_nat_injective(a: nat, b: nat)
    requires
        dec_nat(a) == dec_nat(b),
    ensures
        a == b,
    decreases a,
{
    if a < 10 && b < 10 {
        assert(dec_nat(a)[0] == dec_nat(b)[0]);
        assert(digit_char(a as int) as int == 48 + a);
        assert(digit_char(b as int) as int == 48 + b);
        assert(dec_nat(a)[0] == digit_char(a as int));
        assert(dec_nat(b)[0] == digit_char(b as int));
        assert(a == b);
    } else if a < 10 {
        lemma_dec_nat_len(b / 10);
        assert(dec_nat(b).len() >= 2);
    } else if b < 10 {
        lemma_dec_nat_len(a / 10);
        assert(dec_nat(a).len() >= 2);
    } else {
        let da = dec_nat(a);
        let db = dec_nat(b);
        assert(da.last() == db.last());
        assert(digit_char((a % 10) as int) as int == 48 + a % 10);
        assert(digit_char((b % 10) as int) as int == 48 + b % 10);
        assert(da.drop_last() =~= dec_nat(a / 10));
        assert(db.drop_last() =~= dec_nat(b / 10));
        lemma_dec_nat_injective(a / 10, b / 10);
        assert(a == 10 * (a / 10) + a % 10);
        assert(b == 10 * (b / 10) + b % 10);
        assert(da.last() == digit_char((a % 10) as int));
        assert(db.last() == digit_char((b % 10) as int));
        assert(a % 10 == b % 10);
        assert(a == b);
    }
}

/// Different integers have different decimal texts.
pub proof fn lemma_dec_injective(a: int, b: int)
    requires
        dec(a) == dec(b),
    ensures
        a == b,
{
    lemma_dec_chars(a);
    lemma_dec_chars(b);
    if a < 0 && b < 0 {
        assert(dec(a).drop_first() =~= dec_nat((-a) as nat));
        assert(dec(b).drop_first() =~= dec_nat((-b) as nat));
        lemma_dec_nat_injective((-a) as nat, (-b) as nat);
    } else if a < 0 {
        lemma_dec_nat_len(b as nat);
        assert(dec(a)[0] == '-');
        assert('0' <= dec(b)[0] <= '9') by {
            lemma_dec_nat_digits(b as nat);
        }
    } else if b < 0 {
        lemma_dec_nat_len(a as nat);
        assert(dec(b)[0] == '-');
        assert('0' <= dec(a)[0] <= '9') by {
            lemma_dec_nat_digits(a as nat);
        }
    } else {
        lemma_dec_nat_injective(a as nat, b as nat);
    }
}


/// The value of the decimal digits of `n` is `n`.
pub proof fn lemma_digits_val_dec_nat(n: nat)
    ensures
        digits_val(dec_nat(n)) == n,
        all_digits(dec_nat(n)),
    decreases n,
{
    lemma_dec_nat_digits(n);
    if n < 10 {
        let s = dec_nat(n);
        assert(s.drop_last() =~= Seq::<char>::empty());
        assert(digit_char(n as int) as int == 48 + n);
        assert(s.last() == digit_char(n as int));
        assert(digits_val(s) == digits_val(s.drop_last()) * 10 + digit_val(s.last()));
        assert(digits_val(Seq::<char>::empty()) == 0);
    } else {
        lemma_digits_val_dec_nat(n / 10);
        let s = dec_nat(n);
        assert(s.drop_last() =~= dec_nat(n / 10));
        assert(digit_char((n % 10) as int) as int == 48 + n % 10);
        assert(s.last() == digit_char((n % 10) as int));
        assert(digits_val(s) == digits_val(s.drop_last()) * 10 + digit_val(s.last()));
        assert(n == 10 * (n / 10) + n % 10);
    }
}


/// `k` zeros.
pub open spec fn zeros(k: nat) -> Seq<char> {
    Seq::new(k, |i: int| '0')
}

/// Leading zeros do not change the value of a digit string.
proof fn lemma_digits_val_zeros(k: nat, s: Seq<char>)
    ensures
        digits_val(zeros(k) + s) == digits_val(s),
    decreases s.len() + k,
{
    if s.len() == 0 {
        assert(zeros(k) + s =~= zeros(k));
        if k > 0 {
            assert(zeros(k).drop_last() =~= zeros((k - 1) as nat));
            lemma_digits_val_zeros((k - 1) as nat, s);
            assert(zeros((k - 1) as nat) + s =~= zeros((k - 1) as nat));
            assert(digit_val(zeros(k).last()) == 0);
        }
    } else {
        lemma_digits_val_zeros(k, s.drop_last());
        assert((zeros(k) + s).drop_last() =~= zeros(k) + s.drop_last());
        assert((zeros(k) + s).last() == s.last());
    }
}

/// A zero-padded natural number parses back to the number.
pub proof fn lemma_parse_zpad(n: nat, w: nat)
    requires
        n <= i64::MAX,
    ensures
        parse_i64_spec(zpad(dec_nat(n), w)) == Some(n as int),
        all_digits(zpad(dec_nat(n), w)),
        zpad(dec_nat(n), w).len() >= w,
        zpad(dec_nat(n), w).len() >= 1,
{
    lemma_digits_val_dec_nat(n);
    lemma_dec_nat_len(n);
    let d = dec_nat(n);
    let z = zpad(d, w);
    if d.len() < w {
        let k = (w - d.len()) as nat;
        assert(z == zeros(k) + d);
        lemma_digits_val_zeros(k, d);
        assert forall|i: int| 0 <= i < z.len() implies is_ascii_digit(#[trigger] z[i]) by {
            if i >= k {
                assert(z[i] == d[i - k]);
            }
        }
    }
    assert(z[0] != '+' && z[0] != '-') by {
        assert(is_ascii_digit(z[0]));
    }
}

/// Formatting an `i64` and parsing the text back gives the same number.
pub proof fn lemma_parse_dec(n: int)
    requires
        i64::MIN <= n <= i64::MAX,
    ensures
        parse_i64_spec(dec(n)) == Some(n),
{
    if n < 0 {
        let m = (-n) as nat;
        lemma_digits_val_dec_nat(m);
        lemma_dec_nat_len(m);
        assert(dec(n).drop_first() =~= dec_nat(m));
    } else {
        lemma_digits_val_dec_nat(n as nat);
        lemma_dec_nat_len(n as nat);
        lemma_dec_nat_digits(n as nat);
        assert('0' <= dec(n)[0] <= '9');
    }
}

} // verus!
