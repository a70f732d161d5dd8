//! Scale parser: recovers a drawing-scale annotation from free text.
//!
//! Two grammars are tried in order, first success wins:
//! 1. ratio form `1:N` (metres), giving `1/N` units per pixel;
//! 2. architectural form `A/B" = ...`, giving `(A/B)/12` feet per pixel.
//!
//! The conversion factor is an exact positive rational `num/den`. Numbers
//! longer than nine digits are treated as OCR noise and fail to parse.
use vstd::prelude::*;

verus! {

/// Unit of the recovered conversion factor.
#[derive(Clone, Copy, PartialEq, Eq, Structural, Debug)]
pub enum ScaleUnit {
    Meters,
    Feet,
}

/// A drawing scale: `num/den` units per pixel, always positive.
#[derive(Clone, Debug)]
pub struct Scale {
    pub unit: ScaleUnit,
    pub num: u64,
    pub den: u64,
}

impl Scale {
    /// The scale's invariant: the conversion factor is positive.
    pub open spec fn wf(self) -> bool {
        self.num > 0 && self.den > 0
    }

    /// Human-readable unit label.
    pub fn unit_label(&self) -> (r: &'static str)
        ensures
            self.unit == ScaleUnit::Meters ==> r@ == seq!['m'],
            self.unit == ScaleUnit::Feet ==> r@ == seq!['f', 't'],
    {
        match self.unit {
            ScaleUnit::Meters => {
                proof {
                    reveal_strlit("m");
                    assert("m"@ =~= seq!['m']);
                }
                "m"
            },
            ScaleUnit::Feet => {
                proof {
                    reveal_strlit("ft");
                    assert("ft"@ =~= seq!['f', 't']);
                }
                "ft"
            },
        }
    }
}

pub open spec fn is_digit(c: char) -> bool {
    '0' <= c && c <= '9'
}

pub open spec fn digit_val(c: char) -> int {
    c as int - '0' as int
}

pub open spec fn is_ws(c: char) -> bool {
    c == ' ' || c == '\t' || c == '\n' || c == '\r'
}

pub open spec fn is_quote_or_space(c: char) -> bool {
    c == '"' || c == ' '
}

/// First index in `[i, hi)` holding a non-digit, or `hi` if all are digits.
pub open spec fn run_end(s: Seq<char>, i: int, hi: int) -> int
    decreases hi - i,
{
    if i >= hi {
        hi
    } else if !is_digit(s[i]) {
        i
    } else {
        run_end(s, i + 1, hi)
    }
}

/// Value of the digit string `s[lo..hi)`.
pub open spec fn digits_val(s: Seq<char>, lo: int, hi: int) -> nat
    decreases hi - lo,
{
    if lo >= hi {
        0
    } else {
        digits_val(s, lo, hi - 1) * 10 + (if is_digit(s[hi - 1]) {
            digit_val(s[hi - 1]) as nat
        } else {
            0
        })
    }
}

pub open spec fn pow10(k: nat) -> nat
    decreases k,
{
    if k == 0 {
        1
    } else {
        10 * pow10((k - 1) as nat)
    }
}

/// First index `>= i` where the pattern `1:` begins, or `s.len()` if none.
pub open spec fn find_ratio(s: Seq<char>, i: int) -> int
    decreases s.len() - i,
{
    if i + 1 >= s.len() {
        s.len() as int
    } else if s[i] == '1' && s[i + 1] == ':' {
        i
    } else {
        find_ratio(s, i + 1)
    }
}

/// First index in `[i, hi)` holding `c`, or `hi` if none.
pub open spec fn find_char(s: Seq<char>, i: int, hi: int, c: char) -> int
    decreases hi - i,
{
    if i >= hi {
        hi
    } else if s[i] == c {
        i
    } else {
        find_char(s, i + 1, hi, c)
    }
}

/// First index in `[lo, hi)` holding a non-whitespace character, or `hi`.
pub open spec fn ws_from(s: Seq<char>, lo: int, hi: int) -> int
    decreases hi - lo,
{
    if lo >= hi {
        hi
    } else if is_ws(s[lo]) {
        ws_from(s, lo + 1, hi)
    } else {
        lo
    }
}

/// One past the last index in `[lo, hi)` holding a non-whitespace character,
/// or `lo`.
pub open spec fn ws_to(s: Seq<char>, lo: int, hi: int) -> int
    decreases hi - lo,
{
    if lo >= hi {
        lo
    } else if is_ws(s[hi - 1]) {
        ws_to(s, lo, hi - 1)
    } else {
        hi
    }
}

/// As `ws_from`, for quotes and spaces.
pub open spec fn qs_from(s: Seq<char>, lo: int, hi: int) -> int
    decreases hi - lo,
{
    if lo >= hi {
        hi
    } else if is_quote_or_space(s[lo]) {
        qs_from(s, lo + 1, hi)
    } else {
        lo
    }
}

/// As `ws_to`, for quotes and spaces.
pub open spec fn qs_to(s: Seq<char>, lo: int, hi: int) -> int
    decreases hi - lo,
{
    if lo >= hi {
        lo
    } else if is_quote_or_space(s[hi - 1]) {
        qs_to(s, lo, hi - 1)
    } else {
        hi
    }
}

/// Longest digit count accepted in one number.
pub const MAX_SCALE_DIGITS: usize = 9;

/// Parse `s[lo..hi)` as an unsigned decimal (digits with one optional dot)
/// into an exact rational `(numerator, denominator)`. Empty, malformed or
/// over-long text gives `None`.
pub open spec fn spec_parse_decimal(s: Seq<char>, lo: int, hi: int) -> Option<(nat, nat)> {
    if lo >= hi || hi - lo > MAX_SCALE_DIGITS as int + 1 {
        None
    } else {
        let ip_end = run_end(s, lo, hi);
        if ip_end == hi {
            if hi - lo > MAX_SCALE_DIGITS as int {
                None
            } else {
                Some((digits_val(s, lo, hi), 1))
            }
        } else if s[ip_end] == '.' && hi - lo >= 2 {
            let fr = run_end(s, ip_end + 1, hi);
            if fr != hi {
                None
            } else {
                Some(
                    (
                        digits_val(s, lo, ip_end) * pow10((hi - ip_end - 1) as nat) + digits_val(
                            s,
                            ip_end + 1,
                            hi,
                        ),
                        pow10((hi - ip_end - 1) as nat),
                    ),
                )
            }
        } else {
            None
        }
    }
}

/// Ratio grammar `1:N`: the digits right after the first `1:`, rejected when
/// absent, zero, or longer than nine digits.
pub open spec fn spec_ratio(s: Seq<char>) -> Option<nat> {
    let p = find_ratio(s, 0);
    if p >= s.len() {
        None
    } else {
        let start = p + 2;
        let e = run_end(s, start, s.len() as int);
        if e == start || e - start > MAX_SCALE_DIGITS as int {
            None
        } else {
            let v = digits_val(s, start, e);
            if v > 0 {
                Some(v)
            } else {
                None
            }
        }
    }
}

/// Architectural grammar `A/B" = ...`: the fraction before the first `=`,
/// both parts positive decimals, giving `(A/B)/12` as a rational.
pub open spec fn spec_arch(s: Seq<char>) -> Option<(nat, nat)> {
    let eq = find_char(s, 0, s.len() as int, '=');
    if eq >= s.len() {
        None
    } else {
        let l0 = ws_from(s, 0, eq);
        let h0 = ws_to(s, l0, eq);
        let sl = find_char(s, l0, h0, '/');
        if sl >= h0 {
            None
        } else {
            let la = ws_from(s, l0, sl);
            let ha = ws_to(s, la, sl);
            let lb = qs_from(s, sl + 1, h0);
            let hb = qs_to(s, lb, h0);
            match (spec_parse_decimal(s, la, ha), spec_parse_decimal(s, lb, hb)) {
                (Some((an, ad)), Some((bn, bd))) => {
                    if an > 0 && bn > 0 {
                        Some(((an * bd), (ad * bn * 12)))
                    } else {
                        None
                    }
                },
                _ => None,
            }
        }
    }
}

/// What `infer_scale_from_text` returns: ratio grammar first, then the
/// architectural grammar, else nothing.
pub open spec fn spec_infer_scale(s: Seq<char>) -> Option<(ScaleUnit, nat, nat)> {
    if spec_ratio(s) is Some {
        Some((ScaleUnit::Meters, 1, spec_ratio(s)->Some_0))
    } else if spec_arch(s) is Some {
        Some((ScaleUnit::Feet, spec_arch(s)->Some_0.0, spec_arch(s)->Some_0.1))
    } else {
        None
    }
}

proof fn lemma_pow10_vals()
    ensures
        pow10(0) == 1,
        pow10(1) == 10,
        pow10(2) == 100,
        pow10(3) == 1000,
        pow10(4) == 10000,
        pow10(5) == 100000,
        pow10(6) == 1000000,
        pow10(7) == 10000000,
        pow10(8) == 100000000,
        pow10(9) == 1000000000,
{
    assert(pow10(0) == 1);
    assert(pow10(1) == 10);
    assert(pow10(2) == 100);
    assert(pow10(3) == 1000);
    assert(pow10(4) == 10000);
    assert(pow10(5) == 100000);
    assert(pow10(6) == 1000000);
    assert(pow10(7) == 10000000);
    assert(pow10(8) == 100000000);
    assert(pow10(9) == 1000000000);
}

proof fn lemma_pow10_le(a: nat, b: nat)
    requires
        a <= b,
    ensures
        1 <= pow10(a) <= pow10(b),
    decreases b,
{
    if a == b {
        lemma_pow10_pos(a);
    } else {
        lemma_pow10_le(a, (b - 1) as nat);
    }
}

proof fn lemma_pow10_pos(a: nat)
    ensures
        pow10(a) >= 1,
    decreases a,
{
    if a > 0 {
        lemma_pow10_pos((a - 1) as nat);
    }
}

proof fn lemma_pow10_add(a: nat, b: nat)
    ensures
        pow10(a + b) == pow10(a) * pow10(b),
    decreases a,
{
    if a == 0 {
        lemma_pow10_pos(b);
        assert(pow10(0) * pow10(b) == pow10(b)) by (nonlinear_arith)
            requires
                pow10(0) == 1,
        ;
    } else {
        lemma_pow10_add((a - 1) as nat, b);
        assert(pow10(a + b) == 10 * pow10((a + b - 1) as nat));
        assert(10 * (pow10((a - 1) as nat) * pow10(b)) == (10 * pow10((a - 1) as nat)) * pow10(b))
            by (nonlinear_arith);
    }
}

proof fn lemma_run_end_clamp(s: Seq<char>, lo: int, hi: int)
    requires
        lo <= hi,
    ensures
        run_end(s, lo, run_end(s, lo, hi)) == run_end(s, lo, hi),
        lo <= run_end(s, lo, hi) <= hi,
    decreases hi - lo,
{
    if lo < hi && is_digit(s[lo]) {
        lemma_run_end_clamp(s, lo + 1, hi);
    }
}

proof fn lemma_digits_val_bound(s: Seq<char>, lo: int, hi: int)
    requires
        lo <= hi,
    ensures
        digits_val(s, lo, hi) < pow10((hi - lo) as nat),
    decreases hi - lo,
{
    if lo == hi {
        assert(pow10(0) == 1);
    } else {
        lemma_digits_val_bound(s, lo, hi - 1);
        assert(pow10((hi - lo) as nat) == 10 * pow10((hi - lo - 1) as nat));
    }
}

/// Collect the characters of a string.
pub(crate) fn chars_of(s: &str) -> (r: Vec<char>)
    ensures
        r@ == s@,
{
    let n = s.unicode_len();
    let mut r: Vec<char> = Vec::new();
    let mut i: usize = 0;
    while i < n
        invariant
            0 <= i <= n == s@.len(),
            r@ == s@.subrange(0, i as int),
        decreases n - i,
    {
        r.push(s.get_char(i));
        proof {
            assert(r@ =~= s@.subrange(0, i + 1));
        }
        i = i + 1;
    }
    proof {
        assert(r@ =~= s@);
    }
    r
}

fn is_digit_exec(c: char) -> (r: bool)
    ensures
        r == is_digit(c),
{
    let u = c as u32;
    48 <= u && u <= 57
}

fn find_ratio_exec(v: &Vec<char>) -> (r: usize)
    ensures
        r == find_ratio(v@, 0),
        r <= v@.len(),
        r < v@.len() ==> r + 2 <= v@.len(),
{
    let n = v.len();
    if n < 2 {
        return n;
    }
    let mut i: usize = 0;
    while i < n - 1
        invariant
            2 <= n == v@.len(),
            0 <= i <= n - 1,
            find_ratio(v@, 0) == find_ratio(v@, i as int),
        decreases n - i,
    {
        if v[i] == '1' && v[i + 1] == ':' {
            return i;
        }
        i = i + 1;
    }
    n
}

fn find_char_exec(v: &Vec<char>, lo: usize, hi: usize, c: char) -> (r: usize)
    requires
        lo <= hi <= v@.len(),
    ensures
        r == find_char(v@, lo as int, hi as int, c),
        lo <= r <= hi,
{
    let mut i = lo;
    while i < hi
        invariant
            lo <= i <= hi <= v@.len(),
            find_char(v@, lo as int, hi as int, c) == find_char(v@, i as int, hi as int, c),
        decreases hi - i,
    {
        if v[i] == c {
            return i;
        }
        i = i + 1;
    }
    hi
}

fn run_end_exec(v: &Vec<char>, i: usize, hi: usize) -> (r: usize)
    requires
        i <= hi <= v@.len(),
    ensures
        r == run_end(v@, i as int, hi as int),
        i <= r <= hi,
{
    let mut j = i;
    while j < hi
        invariant
            i <= j <= hi <= v@.len(),
            run_end(v@, i as int, hi as int) == run_end(v@, j as int, hi as int),
        decreases hi - j,
    {
        if !is_digit_exec(v[j]) {
            return j;
        }
        j = j + 1;
    }
    hi
}

fn is_ws_exec(c: char) -> (r: bool)
    ensures
        r == is_ws(c),
{
    c == ' ' || c == '\t' || c == '\n' || c == '\r'
}

fn is_qs_exec(c: char) -> (r: bool)
    ensures
        r == is_quote_or_space(c),
{
    c == '"' || c == ' '
}

fn ws_from_exec(v: &Vec<char>, lo: usize, hi: usize) -> (r: usize)
    requires
        lo <= hi <= v@.len(),
    ensures
        r == ws_from(v@, lo as int, hi as int),
        lo <= r <= hi,
{
    let mut i = lo;
    while i < hi
        invariant
            lo <= i <= hi <= v@.len(),
            ws_from(v@, lo as int, hi as int) == ws_from(v@, i as int, hi as int),
        decreases hi - i,
    {
        if !is_ws_exec(v[i]) {
            return i;
        }
        i = i + 1;
    }
    hi
}

fn ws_to_exec(v: &Vec<char>, lo: usize, hi: usize) -> (r: usize)
    requires
        lo <= hi <= v@.len(),
    ensures
        r == ws_to(v@, lo as int, hi as int),
        lo <= r <= hi,
{
    let mut i = hi;
    while i > lo
        invariant
            lo <= i <= hi <= v@.len(),
            ws_to(v@, lo as int, hi as int) == ws_to(v@, lo as int, i as int),
        decreases i,
    {
        if !is_ws_exec(v[i - 1]) {
            return i;
        }
        i = i - 1;
    }
    lo
}

fn qs_from_exec(v: &Vec<char>, lo: usize, hi: usize) -> (r: usize)
    requires
        lo <= hi <= v@.len(),
    ensures
        r == qs_from(v@, lo as int, hi as int),
        lo <= r <= hi,
{
    let mut i = lo;
    while i < hi
        invariant
            lo <= i <= hi <= v@.len(),
            qs_from(v@, lo as int, hi as int) == qs_from(v@, i as int, hi as int),
        decreases hi - i,
    {
        if !is_qs_exec(v[i]) {
            return i;
        }
        i = i + 1;
    }
    hi
}

fn qs_to_exec(v: &Vec<char>, lo: usize, hi: usize) -> (r: usize)
    requires
        lo <= hi <= v@.len(),
    ensures
        r == qs_to(v@, lo as int, hi as int),
        lo <= r <= hi,
{
    let mut i = hi;
    while i > lo
        invariant
            lo <= i <= hi <= v@.len(),
            qs_to(v@, lo as int, hi as int) == qs_to(v@, lo as int, i as int),
        decreases i,
    {
        if !is_qs_exec(v[i - 1]) {
            return i;
        }
        i = i - 1;
    }
    lo
}

fn digits_value(v: &Vec<char>, lo: usize, hi: usize) -> (r: u64)
    requires
        lo <= hi <= v@.len(),
        hi - lo <= MAX_SCALE_DIGITS,
        run_end(v@, lo as int, hi as int) == hi,
    ensures
        r == digits_val(v@, lo as int, hi as int),
        r < pow10((hi - lo) as nat),
{
    let mut val: u64 = 0;
    let mut j = lo;
    while j < hi
        invariant
            lo <= j <= hi <= v@.len(),
            hi - lo <= MAX_SCALE_DIGITS,
            run_end(v@, j as int, hi as int) == hi,
            val == digits_val(v@, lo as int, j as int),
            val < pow10((j - lo) as nat),
        decreases hi - j,
    {
        let c = v[j];
        proof {
            assert(is_digit(c));
            lemma_pow10_vals();
            lemma_pow10_le((j - lo) as nat, 8);
        }
        let d = (c as u32 - 48) as u64;
        val = val * 10 + d;
        proof {
            assert(pow10((j + 1 - lo) as nat) == 10 * pow10((j - lo) as nat));
        }
        j = j + 1;
    }
    proof {
        lemma_digits_val_bound(v@, lo as int, hi as int);
    }
    val
}

fn pow10_exec(k: usize) -> (r: u64)
    requires
        k <= MAX_SCALE_DIGITS,
    ensures
        r == pow10(k as nat),
        1 <= r <= 1000000000,
{
    let mut r: u64 = 1;
    let mut i: usize = 0;
    while i < k
        invariant
            0 <= i <= k <= MAX_SCALE_DIGITS,
            r == pow10(i as nat),
        decreases k - i,
    {
        proof {
            lemma_pow10_vals();
            lemma_pow10_le(i as nat, 8);
        }
        r = r * 10;
        i = i + 1;
    }
    proof {
        lemma_pow10_vals();
        lemma_pow10_le(k as nat, 9);
    }
    r
}

/// Parse `v[lo..hi)` as an unsigned decimal number into an exact rational.
fn parse_decimal(v: &Vec<char>, lo: usize, hi: usize) -> (r: Option<(u64, u64)>)
    requires
        lo <= hi <= v@.len(),
    ensures
        match r {
            Some((n, d)) => {
                &&& spec_parse_decimal(v@, lo as int, hi as int) == Some((n as nat, d as nat))
                &&& n < 1000000000
                &&& 1 <= d <= 1000000000
            },
            None => spec_parse_decimal(v@, lo as int, hi as int) is None,
        },
{
    if lo >= hi || hi - lo > MAX_SCALE_DIGITS + 1 {
        return None;
    }
    let ip_end = run_end_exec(v, lo, hi);
    if ip_end == hi {
        if hi - lo > MAX_SCALE_DIGITS {
            return None;
        }
        let n = digits_value(v, lo, hi);
        proof {
            lemma_pow10_vals();
            lemma_pow10_le((hi - lo) as nat, 9);
        }
        Some((n, 1))
    } else if v[ip_end] == '.' && hi - lo >= 2 {
        let fr = run_end_exec(v, ip_end + 1, hi);
        if fr != hi {
            return None;
        }
        let il = ip_end - lo;
        let fl = hi - ip_end - 1;
        proof {
            lemma_run_end_clamp(v@, lo as int, hi as int);
            lemma_run_end_clamp(v@, ip_end + 1, hi as int);
        }
        let ip = digits_value(v, lo, ip_end);
        let fp = digits_value(v, ip_end + 1, hi);
        let p = pow10_exec(fl);
        proof {
            lemma_pow10_vals();
            lemma_pow10_le(il as nat, 9);
            lemma_pow10_le(fl as nat, 9);
            assert(ip * p <= 999999999 * 1000000000) by (nonlinear_arith)
                requires
                    0 <= ip <= 999999999,
                    0 <= p <= 1000000000,
            ;
            lemma_pow10_add(il as nat, fl as nat);
            assert(ip * p + fp < pow10(il as nat) * p) by (nonlinear_arith)
                requires
                    ip < pow10(il as nat),
                    fp < p,
                    p >= 1,
            ;
            assert(pow10(il as nat) * p <= pow10((il + fl) as nat)) by (nonlinear_arith)
                requires
                    pow10((il + fl) as nat) == pow10(il as nat) * pow10(fl as nat),
                    p == pow10(fl as nat),
            ;
            lemma_pow10_le((il + fl) as nat, 9);
        }
        let n = ip * p + fp;
        Some((n, p))
    } else {
        None
    }
}

/// Recover a scale annotation from free text: first the ratio grammar `1:N`
/// (metres, `1/N` units per pixel), then the architectural grammar
/// `A/B" = ...` (feet, `(A/B)/12` units per pixel); `None` when neither
/// matches.
pub fn infer_scale_from_text(text: String) -> (r: Option<Scale>)
    ensures
        match r {
            Some(sc) => {
                &&& spec_infer_scale(text@) == Some((sc.unit, sc.num as nat, sc.den as nat))
                &&& sc.wf()
                &&& sc.num <= 1000000000000000000
                &&& sc.den <= 12000000000000000000
            },
            None => spec_infer_scale(text@) is None,
        },
{
    let v = chars_of(text.as_str());
    let n = v.len();
    let p = find_ratio_exec(&v);
    if p < n {
        let start = p + 2;
        let e = run_end_exec(&v, start, n);
        if e > start && e - start <= MAX_SCALE_DIGITS {
            proof {
                lemma_run_end_clamp(v@, start as int, n as int);
            }
            let val = digits_value(&v, start, e);
            if val > 0 {
                proof {
                    lemma_pow10_vals();
                    lemma_pow10_le((e - start) as nat, 9);
                }
                return Some(Scale { unit: ScaleUnit::Meters, num: 1, den: val });
            }
        }
    }
    proof {
        assert(spec_ratio(text@) is None);
    }
    let eq = find_char_exec(&v, 0, n, '=');
    if eq < n {
        let l0 = ws_from_exec(&v, 0, eq);
        let h0 = ws_to_exec(&v, l0, eq);
        let sl = find_char_exec(&v, l0, h0, '/');
        if sl < h0 {
            let la = ws_from_exec(&v, l0, sl);
            let ha = ws_to_exec(&v, la, sl);
            let lb = qs_from_exec(&v, sl + 1, h0);
            let hb = qs_to_exec(&v, lb, h0);
            let pa = parse_decimal(&v, la, ha);
            let pb = parse_decimal(&v, lb, hb);
            match (pa, pb) {
                (Some((an, ad)), Some((bn, bd))) => {
                    if an > 0 && bn > 0 {
                        proof {
                            assert(an * bd <= 999999999 * 1000000000 && an * bd >= 1)
                                by (nonlinear_arith)
                                requires
                                    1 <= an <= 999999999,
                                    1 <= bd <= 1000000000,
                            ;
                            assert(ad * bn <= 1000000000 * 999999999 && ad * bn >= 1)
                                by (nonlinear_arith)
                                requires
                                    1 <= ad <= 1000000000,
                                    1 <= bn <= 999999999,
                            ;
                        }
                        let num = an * bd;
                        let den = ad * bn * 12;
                        return Some(Scale { unit: ScaleUnit::Feet, num, den });
                    }
                },
                _ => {},
            }
        }
    }
    None
}

} // verus!

