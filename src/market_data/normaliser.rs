//! Turns the decimal strings of a venue's wire format into integer ticks and lots.
use vstd::prelude::*;
use vstd::string::StringSliceAdditionalSpecFns;

verus! {

/// Converts decimal price and size strings to integer ticks and lots at
/// fixed scales.
pub struct Normaliser {
    pub price_scale: i64,
    pub size_scale: u64,
}

/// One more than the largest `u64`: integer magnitudes are tracked up to it.
pub const MAGNITUDE_CAP: u128 = 0x1_0000_0000_0000_0000;

pub open spec fn is_digit(c: u8) -> bool {
    48 <= c <= 57
}

/// The value of a run of ASCII digits.
pub open spec fn digits_value(b: Seq<u8>) -> nat
    decreases b.len(),
{
    if b.len() == 0 {
        0
    } else {
        digits_value(b.drop_last()) * 10 + (b.last() - 48) as nat
    }
}

/// `b` is one or more ASCII digits.
pub open spec fn all_digits(b: Seq<u8>) -> bool {
    b.len() > 0 && forall|i: int| 0 <= i < b.len() ==> is_digit(#[trigger] b[i])
}

/// The integer that `b` spells in Rust's integer syntax: an optional `+`
/// (or, when `signed`, `-`) followed by one or more ASCII digits.
pub open spec fn spelled(b: Seq<u8>, signed: bool) -> Option<int> {
    if b.len() > 0 && b[0] == 43 {
        if all_digits(b.drop_first()) {
            Some(digits_value(b.drop_first()) as int)
        } else {
            None
        }
    } else if signed && b.len() > 0 && b[0] == 45 {
        if all_digits(b.drop_first()) {
            Some(-(digits_value(b.drop_first()) as int))
        } else {
            None
        }
    } else if all_digits(b) {
        Some(digits_value(b) as int)
    } else {
        None
    }
}

/// What `str::parse::<i64>` gives for `b`, with 0 for an error.
pub open spec fn parse_i64_or_zero(b: Seq<u8>) -> int {
    match spelled(b, true) {
        Some(v) => if i64::MIN <= v <= i64::MAX {
            v
        } else {
            0
        },
        None => 0,
    }
}

/// What `str::parse::<u64>` gives for `b`, with 0 for an error.
pub open spec fn parse_u64_or_zero(b: Seq<u8>) -> int {
    match spelled(b, false) {
        Some(v) => if 0 <= v <= u64::MAX {
            v
        } else {
            0
        },
        None => 0,
    }
}

/// The number of decimal digits of `n`.
pub open spec fn ndigits(n: nat) -> nat
    decreases n,
{
    if n < 10 {
        1
    } else {
        1 + ndigits(n / 10)
    }
}

/// The length of the decimal text of `x`, sign included.
pub open spec fn text_len(x: int) -> nat {
    if x < 0 {
        1 + ndigits((-x) as nat)
    } else {
        ndigits(x as nat)
    }
}

/// `d` cut to its first `w` bytes, or padded on the right with `0` to `w`.
#[verifier::opaque]
pub open spec fn fit_width(d: Seq<u8>, w: nat) -> Seq<u8> {
    if d.len() >= w {
        d.take(w as int)
    } else {
        d + Seq::new((w - d.len()) as nat, |i: int| 48u8)
    }
}

/// The first position of `.` in `b`, if any.
#[verifier::opaque]
pub open spec fn dot_pos(b: Seq<u8>) -> Option<int> {
    if exists|i: int| 0 <= i < b.len() && b[i] == 46 {
        Some(choose|i: int| 0 <= i < b.len() && b[i] == 46 && forall|j: int| 0 <= j < i ==> b[j] != 46)
    } else {
        None
    }
}

/// `10^d`.
pub open spec fn pow10(d: nat) -> nat
    decreases d,
{
    if d == 0 {
        1
    } else {
        10 * pow10((d - 1) as nat)
    }
}

/// `x` clamped into the range of `i64`.
pub open spec fn clamp_i64(x: int) -> i64 {
    if x < i64::MIN {
        i64::MIN
    } else if x > i64::MAX {
        i64::MAX
    } else {
        x as i64
    }
}

/// `x` capped at the largest `u64`.
pub open spec fn cap_u64(x: int) -> u64 {
    if x > u64::MAX {
        u64::MAX
    } else {
        x as u64
    }
}

/// The fixed-point value of the text `b` at `scale`, whose fraction has
/// `width` digits: integer part times scale plus the fraction cut or
/// padded to `width` digits, each part read as an integer (0 when it is not
/// one), with `signed` choosing the integer syntax.
pub open spec fn fixed_value(b: Seq<u8>, scale: int, width: nat, signed: bool) -> int {
    match dot_pos(b) {
        None => read_part(b, signed) * scale,
        Some(k) => {
            let frac = b.skip(k + 1);
            read_part(b.take(k), signed) * scale + if frac.len() == 0 {
                0
            } else {
                read_part(fit_width(frac, width), signed)
            }
        },
    }
}

/// `b` read as `str::parse::<i64>` (when `signed`) or `str::parse::<u64>`
/// would, with 0 for an error.
pub open spec fn read_part(b: Seq<u8>, signed: bool) -> int {
    if signed {
        parse_i64_or_zero(b)
    } else {
        parse_u64_or_zero(b)
    }
}

impl Normaliser {
    /// The ticks of the price text `b`: `fixed_value` at the price scale,
    /// with as many fraction digits as the scale's text has after its first
    /// character, clamped into `i64`.
    pub open spec fn ticks_of(self, b: Seq<u8>) -> i64 {
        clamp_i64(
            fixed_value(b, self.price_scale as int, (text_len(self.price_scale as int) - 1) as nat, true),
        )
    }

    /// The lots of the size text `b`: `fixed_value` at the size scale, with
    /// as many fraction digits as the scale's text has after its first
    /// character, capped at the largest `u64`.
    pub open spec fn lots_of(self, b: Seq<u8>) -> u64 {
        cap_u64(
            fixed_value(b, self.size_scale as int, (text_len(self.size_scale as int) - 1) as nat, false),
        )
    }
}

proof fn lemma_digits_step(b: Seq<u8>, start: int, i: int)
    requires
        0 <= start <= i < b.len(),
    ensures
        digits_value(b.subrange(start, i + 1)) == digits_value(b.subrange(start, i)) * 10 + (b[i]
            - 48) as nat,
{
    assert(b.subrange(start, i + 1).drop_last() =~= b.subrange(start, i));
}

/// The integer that `b[lo..hi]` spells (see `spelled`), read as
/// `str::parse::<i64>` (when `signed`) or `str::parse::<u64>` would, with 0
/// for an error.
fn read_int(b: &[u8], lo: usize, hi: usize, signed: bool) -> (r: i128)
    requires
        lo <= hi <= b@.len(),
    ensures
        r == read_part(b@.subrange(lo as int, hi as int), signed),
{
    let ghost sub = b@.subrange(lo as int, hi as int);
    proof {
        reveal(spelled);
    }
    let mut i: usize = lo;
    let mut neg = false;
    if i < hi && b[i] == 43 {
        i = i + 1;
    } else if signed && i < hi && b[i] == 45 {
        neg = true;
        i = i + 1;
    }
    let start = i;
    let ghost digits = b@.subrange(start as int, hi as int);
    proof {
        if start > lo {
            assert(sub.drop_first() =~= digits);
        } else {
            assert(sub =~= digits);
        }
    }
    if start >= hi {
        return 0;
    }
    let mut acc: u128 = 0;
    proof {
        assert(b@.subrange(start as int, start as int) =~= Seq::<u8>::empty());
    }
    while i < hi
        invariant
            lo <= start <= i <= hi <= b@.len(),
            digits == b@.subrange(start as int, hi as int),
            sub == b@.subrange(lo as int, hi as int),
            start == lo || start == lo + 1,
            start > lo ==> sub.drop_first() == digits,
            start == lo ==> sub == digits,
            start == lo + 1 <==> (sub.len() > 0 && (sub[0] == 43 || (signed && sub[0] == 45))),
            neg <==> (sub.len() > 0 && sub[0] != 43 && signed && sub[0] == 45),
            acc == if digits_value(b@.subrange(start as int, i as int)) >= MAGNITUDE_CAP {
                MAGNITUDE_CAP as nat
            } else {
                digits_value(b@.subrange(start as int, i as int))
            },
            forall|j: int| start <= j < i ==> is_digit(#[trigger] b@[j]),
        decreases hi - i,
    {
        let c = b[i];
        if c < 48 || c > 57 {
            proof {
                assert(digits[i - start] == c);
                assert(!all_digits(digits));
            }
            return 0;
        }
        proof {
            lemma_digits_step(b@, start as int, i as int);
            let dv = digits_value(b@.subrange(start as int, i as int));
            assert(dv * 10 + (c - 48) >= dv) by (nonlinear_arith)
                requires
                    c >= 48,
            ;
        }
        if acc < MAGNITUDE_CAP {
            acc = acc * 10 + (c - 48) as u128;
            if acc > MAGNITUDE_CAP {
                acc = MAGNITUDE_CAP;
            }
        }
        i = i + 1;
    }
    proof {
        assert(b@.subrange(start as int, i as int) =~= digits);
        assert forall|j: int| 0 <= j < digits.len() implies is_digit(#[trigger] digits[j]) by {
            assert(digits[j] == b@[start + j]);
        }
        assert(all_digits(digits));
    }
    if neg {
        if acc <= 0x8000_0000_0000_0000 {
            -(acc as i128)
        } else {
            0
        }
    } else if signed {
        if acc <= 0x7fff_ffff_ffff_ffff {
            acc as i128
        } else {
            0
        }
    } else {
        if acc <= 0xffff_ffff_ffff_ffff {
            acc as i128
        } else {
            0
        }
    }
}

/// The length of the decimal text of `x`, minus one.
fn text_len_minus_one(x: i128) -> (r: u64)
    requires
        -0x1_0000_0000_0000_0000 <= x <= 0x1_0000_0000_0000_0000,
    ensures
        r == text_len(x as int) - 1,
{
    let wide = x;
    let mut n: u128 = if wide < 0 {
        (-wide) as u128
    } else {
        wide as u128
    };
    let ghost n0 = n as nat;
    let mut count: u64 = 0;
    proof {
        lemma_ndigits_bound(n0);
    }
    while n >= 10
        invariant
            ndigits(n0) == count + ndigits(n as nat),
            n0 <= 0x1_0000_0000_0000_0000,
            ndigits(n0) <= n0 / 2 + 1,
        decreases n,
    {
        proof {
            lemma_ndigits_bound((n / 10) as nat);
        }
        n = n / 10;
        count = count + 1;
    }
    proof {
        lemma_ndigits_bound(n as nat);
    }
    if x < 0 {
        count + 1
    } else {
        count
    }
}

proof fn lemma_ndigits_bound(n: nat)
    ensures
        1 <= ndigits(n) <= n / 2 + 1,
    decreases n,
{
    if n >= 10 {
        lemma_ndigits_bound(n / 10);
        assert(n / 10 / 2 + 2 <= n / 2 + 1);
    }
}

/// The first position of `.` in `b`, if any.
fn find_dot(b: &[u8]) -> (r: Option<usize>)
    ensures
        r matches Some(k) ==> k < b@.len() && dot_pos(b@) == Some(k as int),
        r is None ==> dot_pos(b@) is None,
{
    proof {
        reveal(dot_pos);
    }
    let mut i: usize = 0;
    while i < b.len()
        invariant
            i <= b@.len(),
            forall|j: int| 0 <= j < i ==> b@[j] != 46,
        decreases b@.len() - i,
    {
        if b[i] == 46 {
            proof {
                reveal(dot_pos);
                assert(0 <= i < b@.len() && b@[i as int] == 46 && forall|j: int| 0 <= j < i ==> b@[j] != 46);
                let k = choose|k: int| 0 <= k < b@.len() && b@[k] == 46 && forall|j: int| 0 <= j < k ==> b@[j] != 46;
                if k < i {
                    assert(b@[k] != 46);
                } else if k > i {
                    assert(b@[i as int] != 46);
                }
            }
            return Some(i);
        }
        i = i + 1;
    }
    None
}

/// `b[lo..hi]` cut to its first `w` bytes, or padded on the right with `0`
/// to `w` bytes.
fn fit_width_exec(b: &[u8], lo: usize, hi: usize, w: u64) -> (v: Vec<u8>)
    requires
        lo <= hi <= b@.len(),
    ensures
        v@ == fit_width(b@.subrange(lo as int, hi as int), w as nat),
{
    let ghost d = b@.subrange(lo as int, hi as int);
    proof {
        reveal(fit_width);
    }
    let mut v: Vec<u8> = Vec::new();
    let len = hi - lo;
    let take: usize = if (len as u64) >= w {
        w as usize
    } else {
        len
    };
    let mut j: usize = 0;
    while j < take
        invariant
            take <= len == hi - lo,
            lo <= hi <= b@.len(),
            j <= take,
            d == b@.subrange(lo as int, hi as int),
            v@ == d.take(j as int),
        decreases take - j,
    {
        v.push(b[lo + j]);
        proof {
            assert(d.take(j + 1) =~= d.take(j as int).push(b@[lo + j]));
        }
        j = j + 1;
    }
    if (len as u64) >= w {
        return v;
    }
    proof {
        assert(d.take(len as int) =~= d);
    }
    let mut k: u64 = len as u64;
    while k < w
        invariant
            len as u64 <= k <= w,
            len == d.len(),
            v@ == d + Seq::new((k - len) as nat, |i: int| 48u8),
        decreases w - k,
    {
        v.push(48u8);
        proof {
            assert(d + Seq::new((k + 1 - len) as nat, |i: int| 48u8) =~= (d + Seq::new((k - len) as nat, |i: int| 48u8)).push(48u8));
        }
        k = k + 1;
    }
    v
}

/// The fixed-point value of `b` (see `fixed_value`) with signed parts.
fn signed_fixed_value(b: &[u8], scale: i64, width: u64) -> (r: i128)
    ensures
        r == fixed_value(b@, scale as int, width as nat, true),
{
    let n = b.len();
    proof {
        assert(b@.subrange(0, n as int) =~= b@);
    }
    match find_dot(b) {
        None => {
            let v = read_int(b, 0, n, true);
            proof {
                lemma_signed_product(v as int, scale as int);
            }
            v * (scale as i128)
        },
        Some(k) => {
            let ip = read_int(b, 0, k, true);
            proof {
                assert(b@.subrange(0, k as int) =~= b@.take(k as int));
                assert(b@.subrange(k + 1, n as int) =~= b@.skip(k + 1));
                lemma_signed_product(ip as int, scale as int);
            }
            let dec: i128 = if k + 1 == n {
                0
            } else {
                let d = fit_width_exec(b, k + 1, n, width);
                let s = d.as_slice();
                proof {
                    assert(s@.subrange(0, s@.len() as int) =~= s@);
                }
                read_int(s, 0, d.len(), true)
            };
            ip * (scale as i128) + dec
        },
    }
}

/// The fixed-point value of `b` (see `fixed_value`) with unsigned parts.
fn unsigned_fixed_value(b: &[u8], scale: u64, width: u64) -> (r: u128)
    ensures
        r == fixed_value(b@, scale as int, width as nat, false),
{
    let n = b.len();
    proof {
        assert(b@.subrange(0, n as int) =~= b@);
    }
    match find_dot(b) {
        None => {
            let v = read_int(b, 0, n, false);
            proof {
                lemma_unsigned_product(v as int, scale as int);
            }
            (v as u128) * (scale as u128)
        },
        Some(k) => {
            let ip = read_int(b, 0, k, false);
            proof {
                assert(b@.subrange(0, k as int) =~= b@.take(k as int));
                assert(b@.subrange(k + 1, n as int) =~= b@.skip(k + 1));
                lemma_unsigned_product(ip as int, scale as int);
            }
            let dec: i128 = if k + 1 == n {
                0
            } else {
                let d = fit_width_exec(b, k + 1, n, width);
                let s = d.as_slice();
                proof {
                    assert(s@.subrange(0, s@.len() as int) =~= s@);
                }
                read_int(s, 0, d.len(), false)
            };
            (ip as u128) * (scale as u128) + (dec as u128)
        },
    }
}

proof fn lemma_signed_product(v: int, scale: int)
    requires
        i64::MIN <= v <= i64::MAX,
        i64::MIN <= scale <= i64::MAX,
    ensures
        -0x4000_0000_0000_0000_0000_0000_0000_0000 <= v * scale <= 0x4000_0000_0000_0000_0000_0000_0000_0000,
{
    assert(-0x4000_0000_0000_0000_0000_0000_0000_0000 <= v * scale <= 0x4000_0000_0000_0000_0000_0000_0000_0000) by (nonlinear_arith)
        requires
            -0x8000_0000_0000_0000 <= v <= 0x8000_0000_0000_0000,
            -0x8000_0000_0000_0000 <= scale <= 0x8000_0000_0000_0000,
    ;
}

proof fn lemma_unsigned_product(v: int, scale: int)
    requires
        0 <= v <= u64::MAX,
        0 <= scale <= u64::MAX,
    ensures
        0 <= v * scale <= 0xffff_ffff_ffff_fffe_0000_0000_0000_0001,
{
    assert(0 <= v * scale <= 0xffff_ffff_ffff_ffff * 0xffff_ffff_ffff_ffff) by (nonlinear_arith)
        requires
            0 <= v <= 0xffff_ffff_ffff_ffff,
            0 <= scale <= 0xffff_ffff_ffff_ffff,
    ;
}

impl Normaliser {
    /// A normaliser with price scale `price_scale` and size scale
    /// `10^size_decimals` (the largest `u64` when that overflows).
    pub fn new(price_scale: i64, size_decimals: u32) -> (r: Normaliser)
        ensures
            r.price_scale == price_scale,
            r.size_scale == cap_u64(pow10(size_decimals as nat) as int),
    {
        let mut scale: u64 = 1;
        let mut i: u32 = 0;
        while i < size_decimals
            invariant
                i <= size_decimals,
                scale == cap_u64(pow10(i as nat) as int),
            decreases size_decimals - i,
        {
            proof {
                assert(pow10((i + 1) as nat) == 10 * pow10(i as nat));
            }
            if scale > u64::MAX / 10 {
                scale = u64::MAX;
            } else {
                scale = scale * 10;
            }
            i = i + 1;
        }
        Normaliser { price_scale, size_scale: scale }
    }

    /// The price text `s` in ticks (see `ticks_of`).
    pub fn price_to_ticks(&self, s: &str) -> (r: i64)
        ensures
            r == self.ticks_of(s.spec_bytes()),
    {
        let b = s.as_bytes();
        let width = text_len_minus_one(self.price_scale as i128);
        let v = signed_fixed_value(b, self.price_scale, width);
        if v < i64::MIN as i128 {
            i64::MIN
        } else if v > i64::MAX as i128 {
            i64::MAX
        } else {
            v as i64
        }
    }

    /// The size text `s` in lots (see `lots_of`).
    pub fn size_to_lots(&self, s: &str) -> (r: u64)
        ensures
            r == self.lots_of(s.spec_bytes()),
    {
        let b = s.as_bytes();
        let width = text_len_minus_one(self.size_scale as i128);
        let v = unsigned_fixed_value(b, self.size_scale, width);
        if v > u64::MAX as u128 {
            u64::MAX
        } else {
            v as u64
        }
    }
}

} // verus!
