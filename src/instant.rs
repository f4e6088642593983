use chrono::{Datelike, Timelike};
use vstd::prelude::*;

verus! {

/// Smallest year that chrono's calendar types can hold.
pub const MIN_YEAR: i32 = -262143;

/// Largest year that chrono's calendar types can hold.
pub const MAX_YEAR: i32 = 262142;

/// A UTC wall-clock instant at microsecond resolution, field by field.
#[derive(Clone, Copy, Debug, PartialEq, Eq, Structural)]
pub struct UtcInstant {
    pub year: i32,
    pub month: u32,
    pub day: u32,
    pub hour: u32,
    pub minute: u32,
    pub second: u32,
    pub micro: u32,
}

pub open spec fn is_leap_year(y: int) -> bool {
    y % 4 == 0 && (y % 100 != 0 || y % 400 == 0)
}

pub open spec fn days_in_month(y: int, m: int) -> int {
    if m == 2 {
        if is_leap_year(y) { 29 } else { 28 }
    } else if m == 4 || m == 6 || m == 9 || m == 11 {
        30
    } else {
        31
    }
}

impl UtcInstant {
    /// A real calendar date in chrono's range, a time of day without leap
    /// second, and a fraction below one second.
    pub open spec fn wf(self) -> bool {
        &&& MIN_YEAR <= self.year <= MAX_YEAR
        &&& 1 <= self.month <= 12
        &&& 1 <= self.day <= days_in_month(self.year as int, self.month as int)
        &&& self.hour < 24
        &&& self.minute < 60
        &&& self.second < 60
        &&& self.micro < 1_000_000
    }
}

pub open spec fn digit(d: nat) -> char {
    if d == 0 { '0' }
    else if d == 1 { '1' }
    else if d == 2 { '2' }
    else if d == 3 { '3' }
    else if d == 4 { '4' }
    else if d == 5 { '5' }
    else if d == 6 { '6' }
    else if d == 7 { '7' }
    else if d == 8 { '8' }
    else { '9' }
}

/// The last `w` decimal digits of `n`, leading zeros included.
pub open spec fn padded(n: nat, w: nat) -> Seq<char>
    decreases w,
{
    if w == 0 {
        Seq::empty()
    } else {
        padded(n / 10, (w - 1) as nat).push(digit(n % 10))
    }
}

/// The decimal digits of `n`, without leading zeros.
pub open spec fn decimal(n: nat) -> Seq<char>
    decreases n,
{
    if n < 10 {
        seq![digit(n)]
    } else {
        decimal(n / 10).push(digit(n % 10))
    }
}

/// A year as `%Y` writes it: four digits for years 0 to 9999, otherwise a
/// sign followed by at least four digits.
pub open spec fn year_text(y: int) -> Seq<char> {
    if 0 <= y < 10000 {
        padded(y as nat, 4)
    } else if y >= 10000 {
        seq!['+'] + decimal(y as nat)
    } else if -y < 10000 {
        seq!['-'] + padded((-y) as nat, 4)
    } else {
        seq!['-'] + decimal((-y) as nat)
    }
}

/// The instant written as `YYYYMMDD-HHMMSS-ffffff`.
pub open spec fn compact_text(t: UtcInstant) -> Seq<char> {
    year_text(t.year as int) + padded(t.month as nat, 2) + padded(t.day as nat, 2) + seq!['-']
        + padded(t.hour as nat, 2) + padded(t.minute as nat, 2) + padded(t.second as nat, 2)
        + seq!['-'] + padded(t.micro as nat, 6)
}

pub open spec fn pow10(w: nat) -> nat
    decreases w,
{
    if w == 0 { 1 } else { 10 * pow10((w - 1) as nat) }
}

pub proof fn lemma_padded_len(n: nat, w: nat)
    ensures
        padded(n, w).len() == w,
    decreases w,
{
    if w > 0 {
        lemma_padded_len(n / 10, (w - 1) as nat);
    }
}

pub proof fn lemma_padded_injective(n: nat, m: nat, w: nat)
    requires
        n < pow10(w),
        m < pow10(w),
        padded(n, w) == padded(m, w),
    ensures
        n == m,
    decreases w,
{
    if w > 0 {
        let p = pow10((w - 1) as nat);
        lemma_padded_len(n / 10, (w - 1) as nat);
        lemma_padded_len(m / 10, (w - 1) as nat);
        let sn = padded(n, w);
        let sm = padded(m, w);
        assert(sn.last() == digit(n % 10));
        assert(sm.last() == digit(m % 10));
        assert(sn.drop_last() =~= padded(n / 10, (w - 1) as nat));
        assert(sm.drop_last() =~= padded(m / 10, (w - 1) as nat));
        assert(n / 10 < p) by (nonlinear_arith)
            requires n < 10 * p;
        assert(m / 10 < p) by (nonlinear_arith)
            requires m < 10 * p;
        lemma_padded_injective(n / 10, m / 10, (w - 1) as nat);
        assert(n % 10 == m % 10);
        assert(n == 10 * (n / 10) + n % 10);
        assert(m == 10 * (m / 10) + m % 10);
    }
}

proof fn lemma_padded_first(n: nat, w: nat)
    requires
        w >= 1,
    ensures
        padded(n, w)[0] != '+' && padded(n, w)[0] != '-',
    decreases w,
{
    lemma_padded_len(n / 10, (w - 1) as nat);
    if w > 1 {
        lemma_padded_first(n / 10, (w - 1) as nat);
    }
}

proof fn lemma_decimal_len(n: nat, k: nat)
    ensures
        decimal(n).len() >= 1,
        n >= pow10(k) ==> decimal(n).len() >= k + 1,
    decreases n,
{
    if n >= 10 {
        if k >= 1 && n >= pow10(k) {
            let p = pow10((k - 1) as nat);
            assert(n / 10 >= p) by (nonlinear_arith)
                requires n >= 10 * p;
            lemma_decimal_len(n / 10, (k - 1) as nat);
        } else {
            lemma_decimal_len(n / 10, 0);
        }
    } else if k >= 1 && n >= pow10(k) {
        lemma_pow10_positive((k - 1) as nat);
    }
}

proof fn lemma_pow10_positive(k: nat)
    ensures
        pow10(k) >= 1,
    decreases k,
{
    if k > 0 {
        lemma_pow10_positive((k - 1) as nat);
    }
}

proof fn lemma_decimal_injective(n: nat, m: nat)
    requires
        decimal(n) == decimal(m),
    ensures
        n == m,
    decreases n,
{
    lemma_decimal_len(n / 10, 0);
    lemma_decimal_len(m / 10, 0);
    if n < 10 && m < 10 {
        assert(decimal(n)[0] == digit(n));
        assert(decimal(m)[0] == digit(m));
    } else if n >= 10 && m >= 10 {
        assert(decimal(n).drop_last() =~= decimal(n / 10));
        assert(decimal(m).drop_last() =~= decimal(m / 10));
        assert(decimal(n).last() == digit(n % 10));
        assert(decimal(m).last() == digit(m % 10));
        lemma_decimal_injective(n / 10, m / 10);
    } else {
        assert(decimal(n).len() != decimal(m).len());
    }
}

/// `%Y` writes distinct years differently, whatever their range.
pub proof fn lemma_year_text_injective(a: int, b: int)
    requires
        year_text(a) == year_text(b),
    ensures
        a == b,
{
    reveal_with_fuel(pow10, 5);
    lemma_padded_len(a as nat, 4);
    lemma_padded_len(b as nat, 4);
    lemma_padded_len((-a) as nat, 4);
    lemma_padded_len((-b) as nat, 4);
    if 0 <= a < 10000 {
        lemma_padded_first(a as nat, 4);
    }
    if 0 <= b < 10000 {
        lemma_padded_first(b as nat, 4);
    }
    let ta = year_text(a);
    let tb = year_text(b);
    assert(ta[0] == tb[0]);
    if 0 <= a < 10000 && 0 <= b < 10000 {
        lemma_padded_injective(a as nat, b as nat, 4);
    } else if a >= 10000 && b >= 10000 {
        assert(ta.subrange(1, ta.len() as int) =~= decimal(a as nat));
        assert(tb.subrange(1, tb.len() as int) =~= decimal(b as nat));
        lemma_decimal_injective(a as nat, b as nat);
    } else if a < 0 && b < 0 {
        lemma_decimal_len((-a) as nat, 4);
        lemma_decimal_len((-b) as nat, 4);
        if -a < 10000 && -b < 10000 {
            assert(ta.subrange(1, 5) =~= padded((-a) as nat, 4));
            assert(tb.subrange(1, 5) =~= padded((-b) as nat, 4));
            lemma_padded_injective((-a) as nat, (-b) as nat, 4);
        } else if -a >= 10000 && -b >= 10000 {
            assert(ta.subrange(1, ta.len() as int) =~= decimal((-a) as nat));
            assert(tb.subrange(1, tb.len() as int) =~= decimal((-b) as nat));
            lemma_decimal_injective((-a) as nat, (-b) as nat);
        } else {
            assert(ta.len() != tb.len());
        }
    } else {
        if a >= 10000 {
            assert(ta[0] == '+');
        }
        if a < 0 {
            assert(ta[0] == '-');
        }
        if b >= 10000 {
            assert(tb[0] == '+');
        }
        if b < 0 {
            assert(tb[0] == '-');
        }
    }
}

/// Everything after the year: `MMDD-HHMMSS-ffffff`.
pub open spec fn clock_text(t: UtcInstant) -> Seq<char> {
    padded(t.month as nat, 2) + padded(t.day as nat, 2) + seq!['-'] + padded(t.hour as nat, 2)
        + padded(t.minute as nat, 2) + padded(t.second as nat, 2) + seq!['-'] + padded(
        t.micro as nat,
        6,
    )
}

/// Two well-formed instants are written alike only when they are the same
/// instant, whatever their years.
pub proof fn lemma_compact_text_injective_any_year(a: UtcInstant, b: UtcInstant)
    requires
        a.wf(),
        b.wf(),
        compact_text(a) == compact_text(b),
    ensures
        a == b,
{
    assert(compact_text(a) =~= year_text(a.year as int) + clock_text(a));
    assert(compact_text(b) =~= year_text(b.year as int) + clock_text(b));
    lemma_padded_len(a.month as nat, 2);
    lemma_padded_len(b.month as nat, 2);
    lemma_padded_len(a.day as nat, 2);
    lemma_padded_len(b.day as nat, 2);
    lemma_padded_len(a.hour as nat, 2);
    lemma_padded_len(b.hour as nat, 2);
    lemma_padded_len(a.minute as nat, 2);
    lemma_padded_len(b.minute as nat, 2);
    lemma_padded_len(a.second as nat, 2);
    lemma_padded_len(b.second as nat, 2);
    lemma_padded_len(a.micro as nat, 6);
    lemma_padded_len(b.micro as nat, 6);
    let ya = year_text(a.year as int);
    let yb = year_text(b.year as int);
    let s = compact_text(a);
    assert(clock_text(a).len() == 18 && clock_text(b).len() == 18);
    assert(ya.len() == yb.len());
    assert(s.subrange(0, ya.len() as int) =~= ya);
    assert(s.subrange(0, yb.len() as int) =~= yb);
    lemma_year_text_injective(a.year as int, b.year as int);
    let l = ya.len() as int;
    assert(s.subrange(l, s.len() as int) =~= clock_text(a));
    assert(compact_text(b).subrange(l, s.len() as int) =~= clock_text(b));
    let ca = clock_text(a);
    let cb = clock_text(b);
    assert(ca.subrange(0, 2) =~= padded(a.month as nat, 2));
    assert(cb.subrange(0, 2) =~= padded(b.month as nat, 2));
    assert(ca.subrange(2, 4) =~= padded(a.day as nat, 2));
    assert(cb.subrange(2, 4) =~= padded(b.day as nat, 2));
    assert(ca.subrange(5, 7) =~= padded(a.hour as nat, 2));
    assert(cb.subrange(5, 7) =~= padded(b.hour as nat, 2));
    assert(ca.subrange(7, 9) =~= padded(a.minute as nat, 2));
    assert(cb.subrange(7, 9) =~= padded(b.minute as nat, 2));
    assert(ca.subrange(9, 11) =~= padded(a.second as nat, 2));
    assert(cb.subrange(9, 11) =~= padded(b.second as nat, 2));
    assert(ca.subrange(12, 18) =~= padded(a.micro as nat, 6));
    assert(cb.subrange(12, 18) =~= padded(b.micro as nat, 6));
    reveal_with_fuel(pow10, 7);
    lemma_padded_injective(a.month as nat, b.month as nat, 2);
    lemma_padded_injective(a.day as nat, b.day as nat, 2);
    lemma_padded_injective(a.hour as nat, b.hour as nat, 2);
    lemma_padded_injective(a.minute as nat, b.minute as nat, 2);
    lemma_padded_injective(a.second as nat, b.second as nat, 2);
    lemma_padded_injective(a.micro as nat, b.micro as nat, 6);
}

/// `a` comes strictly before `b`, field by field from the year down.
pub open spec fn instant_before(a: UtcInstant, b: UtcInstant) -> bool {
    if a.year != b.year {
        a.year < b.year
    } else if a.month != b.month {
        a.month < b.month
    } else if a.day != b.day {
        a.day < b.day
    } else if a.hour != b.hour {
        a.hour < b.hour
    } else if a.minute != b.minute {
        a.minute < b.minute
    } else if a.second != b.second {
        a.second < b.second
    } else {
        a.micro < b.micro
    }
}

/// `s` sorts strictly before `t` by character code, at a position where
/// both have a character.
pub open spec fn text_before(s: Seq<char>, t: Seq<char>) -> bool {
    exists|k: int|
        0 <= k < s.len() && k < t.len() && s.subrange(0, k) == t.subrange(0, k) && (s[k] as u32)
            < (t[k] as u32)
}

proof fn lemma_padded_before(n: nat, m: nat, w: nat)
    requires
        n < m < pow10(w),
    ensures
        text_before(padded(n, w), padded(m, w)),
    decreases w,
{
    let p = pow10((w - 1) as nat);
    lemma_padded_len(n / 10, (w - 1) as nat);
    lemma_padded_len(m / 10, (w - 1) as nat);
    let sn = padded(n, w);
    let sm = padded(m, w);
    assert(w > 0) by {
        if w == 0 {
            assert(pow10(0) == 1);
        }
    }
    assert(n / 10 <= m / 10) by (nonlinear_arith)
        requires n < m;
    assert(m / 10 < p) by (nonlinear_arith)
        requires m < 10 * p;
    if n / 10 < m / 10 {
        lemma_padded_before(n / 10, m / 10, (w - 1) as nat);
        let pn = padded(n / 10, (w - 1) as nat);
        let pm = padded(m / 10, (w - 1) as nat);
        let k = choose|k: int|
            0 <= k < pn.len() && k < pm.len() && pn.subrange(0, k) == pm.subrange(0, k) && (
            pn[k] as u32) < (pm[k] as u32);
        assert(sn.subrange(0, k) =~= pn.subrange(0, k));
        assert(sm.subrange(0, k) =~= pm.subrange(0, k));
        assert(sn[k] == pn[k] && sm[k] == pm[k]);
    } else {
        assert(n % 10 < m % 10);
        let k = (w - 1) as int;
        assert(sn.subrange(0, k) =~= padded(n / 10, (w - 1) as nat));
        assert(sm.subrange(0, k) =~= padded(m / 10, (w - 1) as nat));
        assert(sn[k] == digit(n % 10) && sm[k] == digit(m % 10));
    }
}

/// A difference inside a field of equal length decides the order of the
/// whole text, whatever precedes or follows it.
pub proof fn lemma_before_in_context(p: Seq<char>, fa: Seq<char>, fb: Seq<char>, ra: Seq<char>, rb: Seq<char>)
    requires
        fa.len() == fb.len(),
        text_before(fa, fb),
    ensures
        text_before(p + fa + ra, p + fb + rb),
{
    let k = choose|k: int|
        0 <= k < fa.len() && k < fb.len() && fa.subrange(0, k) == fb.subrange(0, k) && (fa[k] as u32)
            < (fb[k] as u32);
    let sa = p + fa + ra;
    let sb = p + fb + rb;
    let j = p.len() + k;
    assert(sa.subrange(0, j) =~= p + fa.subrange(0, k));
    assert(sb.subrange(0, j) =~= p + fb.subrange(0, k));
    assert(sa[j] == fa[k] && sb[j] == fb[k]);
}

/// With four-digit years, names sort in the order of their instants.
pub proof fn lemma_compact_text_ordered(a: UtcInstant, b: UtcInstant)
    requires
        a.wf(),
        b.wf(),
        0 <= a.year <= 9999,
        0 <= b.year <= 9999,
        instant_before(a, b),
    ensures
        text_before(compact_text(a), compact_text(b)),
{
    reveal_with_fuel(pow10, 7);
    lemma_padded_len(a.year as nat, 4);
    lemma_padded_len(b.year as nat, 4);
    lemma_padded_len(a.month as nat, 2);
    lemma_padded_len(b.month as nat, 2);
    lemma_padded_len(a.day as nat, 2);
    lemma_padded_len(b.day as nat, 2);
    lemma_padded_len(a.hour as nat, 2);
    lemma_padded_len(b.hour as nat, 2);
    lemma_padded_len(a.minute as nat, 2);
    lemma_padded_len(b.minute as nat, 2);
    lemma_padded_len(a.second as nat, 2);
    lemma_padded_len(b.second as nat, 2);
    lemma_padded_len(a.micro as nat, 6);
    lemma_padded_len(b.micro as nat, 6);
    let y_a = padded(a.year as nat, 4);
    let y_b = padded(b.year as nat, 4);
    let mo_a = padded(a.month as nat, 2);
    let mo_b = padded(b.month as nat, 2);
    let d_a = padded(a.day as nat, 2);
    let d_b = padded(b.day as nat, 2);
    let h_a = padded(a.hour as nat, 2);
    let h_b = padded(b.hour as nat, 2);
    let mi_a = padded(a.minute as nat, 2);
    let mi_b = padded(b.minute as nat, 2);
    let s_a = padded(a.second as nat, 2);
    let s_b = padded(b.second as nat, 2);
    let u_a = padded(a.micro as nat, 6);
    let u_b = padded(b.micro as nat, 6);
    let dash = seq!['-'];
    let ca = compact_text(a);
    let cb = compact_text(b);
    if a.year != b.year {
        lemma_padded_before(a.year as nat, b.year as nat, 4);
        let ra = mo_a + d_a + dash + h_a + mi_a + s_a + dash + u_a;
        let rb = mo_b + d_b + dash + h_b + mi_b + s_b + dash + u_b;
        lemma_before_in_context(Seq::empty(), y_a, y_b, ra, rb);
        assert(ca =~= Seq::empty() + y_a + ra);
        assert(cb =~= Seq::empty() + y_b + rb);
    } else if a.month != b.month {
        lemma_padded_before(a.month as nat, b.month as nat, 2);
        let ra = d_a + dash + h_a + mi_a + s_a + dash + u_a;
        let rb = d_b + dash + h_b + mi_b + s_b + dash + u_b;
        lemma_before_in_context(y_a, mo_a, mo_b, ra, rb);
        assert(ca =~= y_a + mo_a + ra);
        assert(cb =~= y_a + mo_b + rb);
    } else if a.day != b.day {
        lemma_padded_before(a.day as nat, b.day as nat, 2);
        let ra = dash + h_a + mi_a + s_a + dash + u_a;
        let rb = dash + h_b + mi_b + s_b + dash + u_b;
        lemma_before_in_context(y_a + mo_a, d_a, d_b, ra, rb);
        assert(ca =~= (y_a + mo_a) + d_a + ra);
        assert(cb =~= (y_a + mo_a) + d_b + rb);
    } else if a.hour != b.hour {
        lemma_padded_before(a.hour as nat, b.hour as nat, 2);
        let p = y_a + mo_a + d_a + dash;
        let ra = mi_a + s_a + dash + u_a;
        let rb = mi_b + s_b + dash + u_b;
        lemma_before_in_context(p, h_a, h_b, ra, rb);
        assert(ca =~= p + h_a + ra);
        assert(cb =~= p + h_b + rb);
    } else if a.minute != b.minute {
        lemma_padded_before(a.minute as nat, b.minute as nat, 2);
        let p = y_a + mo_a + d_a + dash + h_a;
        let ra = s_a + dash + u_a;
        let rb = s_b + dash + u_b;
        lemma_before_in_context(p, mi_a, mi_b, ra, rb);
        assert(ca =~= p + mi_a + ra);
        assert(cb =~= p + mi_b + rb);
    } else if a.second != b.second {
        lemma_padded_before(a.second as nat, b.second as nat, 2);
        let p = y_a + mo_a + d_a + dash + h_a + mi_a;
        let ra = dash + u_a;
        let rb = dash + u_b;
        lemma_before_in_context(p, s_a, s_b, ra, rb);
        assert(ca =~= p + s_a + ra);
        assert(cb =~= p + s_b + rb);
    } else {
        lemma_padded_before(a.micro as nat, b.micro as nat, 6);
        let p = y_a + mo_a + d_a + dash + h_a + mi_a + s_a + dash;
        lemma_before_in_context(p, u_a, u_b, Seq::empty(), Seq::empty());
        assert(ca =~= p + u_a + Seq::empty());
        assert(cb =~= p + u_b + Seq::empty());
    }
}

/// With a four-digit year the text has a fixed length.
pub proof fn lemma_compact_text_len(t: UtcInstant)
    requires
        0 <= t.year <= 9999,
    ensures
        compact_text(t).len() == 22,
{
    lemma_padded_len(t.year as nat, 4);
    lemma_padded_len(t.month as nat, 2);
    lemma_padded_len(t.day as nat, 2);
    lemma_padded_len(t.hour as nat, 2);
    lemma_padded_len(t.minute as nat, 2);
    lemma_padded_len(t.second as nat, 2);
    lemma_padded_len(t.micro as nat, 6);
}

/// Relies on chrono's `NaiveDate::from_ymd_opt`, `NaiveTime::from_hms_micro_opt`
/// and `format` with `%Y%m%d-%H%M%S-%6f`: `%Y` writes four zero-padded digits for
/// years 0 to 9999 and a sign with at least four digits otherwise, `%m %d %H %M %S`
/// two zero-padded digits, `%6f` the microseconds as six digits. On a well-formed
/// instant both constructors succeed.
#[verifier::external_body]
pub(crate) fn format_compact(t: &UtcInstant) -> (r: String)
    requires
        t.wf(),
    ensures
        r@ == compact_text(*t),
{
    let date = chrono::NaiveDate::from_ymd_opt(t.year, t.month, t.day);
    let time = chrono::NaiveTime::from_hms_micro_opt(t.hour, t.minute, t.second, t.micro);
    match (date, time) {
        (Some(d), Some(tm)) => d.and_time(tm).format("%Y%m%d-%H%M%S-%6f").to_string(),
        _ => String::new(),
    }
}

/// Relies on chrono's `From<SystemTime> for DateTime<Utc>` applied to the
/// system clock, read through `Datelike`, `Timelike` and
/// `timestamp_subsec_micros`. chrono builds it from whole seconds and a
/// nanosecond part below one second, on either side of 1970, so it is never
/// a leap second; its fields lie in chrono's calendar range.
#[verifier::external_body]
pub(crate) fn utc_now() -> (r: UtcInstant)
    ensures
        r.wf(),
{
    let n = chrono::DateTime::<chrono::Utc>::from(std::time::SystemTime::now());
    UtcInstant {
        year: n.year(),
        month: n.month(),
        day: n.day(),
        hour: n.hour(),
        minute: n.minute(),
        second: n.second(),
        micro: n.timestamp_subsec_micros(),
    }
}

} // verus!
