//! Minimal civil-date math so nothing else needs a datetime dependency.

use crate::text;
use vstd::prelude::*;

verus! {

/// Gregorian leap years.
pub open spec fn is_leap(y: int) -> bool {
    y % 4 == 0 && (y % 100 != 0 || y % 400 == 0)
}

/// Days in a month.
pub open spec fn month_len(y: int, m: int) -> int {
    if m == 2 {
        if is_leap(y) { 29 } else { 28 }
    } else if m == 4 || m == 6 || m == 9 || m == 11 {
        30
    } else {
        31
    }
}

/// A date of the Gregorian calendar.
pub open spec fn valid_date(y: int, m: int, d: int) -> bool {
    1 <= m <= 12 && 1 <= d <= month_len(y, m)
}

/// Days from the first of January of year 0 to that of year `y`.
pub open spec fn days_before_year(y: int) -> int {
    365 * y + (y + 3) / 4 - (y + 99) / 100 + (y + 399) / 400
}

/// Days of the year before the first of month `m`.
pub open spec fn days_before_month(y: int, m: int) -> int
    decreases m,
{
    if m <= 1 {
        0
    } else {
        days_before_month(y, m - 1) + month_len(y, m - 1)
    }
}

/// Days from 1970-01-01 to a date.
pub open spec fn day_number(y: int, m: int, d: int) -> int {
    days_before_year(y) + days_before_month(y, m) + (d - 1) - days_before_year(1970)
}

/// `t` is the date (UTC) of the day that the unix time `secs` falls on.
pub open spec fn is_civil(secs: int, t: (int, int, int)) -> bool {
    valid_date(t.0, t.1, t.2) && day_number(t.0, t.1, t.2) == secs / 86_400
}

/// The date (UTC) of the day that the unix time `secs` falls on.
pub open spec fn civil(secs: int) -> (int, int, int) {
    choose|t: (int, int, int)| #[trigger] is_civil(secs, t)
}

/// A date as "YYYY-MM-DD".
pub open spec fn date_text(y: int, m: int, d: int) -> Seq<char> {
    text::decimal_padded(y, 4) + "-"@ + text::decimal_padded(m, 2) + "-"@ + text::decimal_padded(d, 2)
}

/// A quarter as "YYYY-Qn".
pub open spec fn quarter_text(y: int, m: int) -> Seq<char> {
    text::decimal_padded(y, 4) + "-Q"@ + text::decimal_int((m - 1) / 3 + 1)
}

/// The day of a unix time as "YYYY-MM-DD".
pub open spec fn date_of(secs: int) -> Seq<char> {
    let t = civil(secs);
    date_text(t.0, t.1, t.2)
}

/// The quarter of a unix time as "YYYY-Qn".
pub open spec fn quarter_of(secs: int) -> Seq<char> {
    let t = civil(secs);
    quarter_text(t.0, t.1)
}

/// Day number of the date that a year, a month and a day of the month write,
/// by the rule that months counted from March have 153 days in every five.
/// Nothing is asked of the month and the day.
pub open spec fn day_number_of_parts(y: int, m: int, d: int) -> int {
    let y2 = if m <= 2 { y - 1 } else { y };
    let yoe = y2 % 400;
    let mp = if m > 2 { m - 3 } else { m + 9 };
    (y2 / 400) * 146_097 + yoe * 365 + yoe / 4 - yoe / 100 + (153 * mp + 2) / 5 + d - 1 - 719_468
}

/// The numbers among the pieces of `s` between hyphens.
pub open spec fn date_parts(s: Seq<char>) -> Seq<int> {
    text::split(s, '-').filter_map(|p: Seq<char>| text::signed_value(p))
}

/// What has the shape of a date: ten bytes, hyphens behind the fourth and the
/// seventh.
pub open spec fn date_shaped(s: Seq<char>) -> bool {
    let b = vstd::utf8::encode_utf8(s);
    b.len() == 10 && b[4] == 0x2d && b[7] == 0x2d
}

/// Years are as long as the calendar says, which is what makes
/// `days_before_year` the count of days it is named for.
pub proof fn year_lengths(y: int)
    ensures
        days_before_year(y + 1) - days_before_year(y) == (if is_leap(y) { 366int } else { 365int }),
        days_before_year(0) == 0,
{
    assert((y + 4) / 4 - (y + 3) / 4 == (if y % 4 == 0 { 1int } else { 0int }));
    assert((y + 100) / 100 - (y + 99) / 100 == (if y % 100 == 0 { 1int } else { 0int }));
    assert((y + 400) / 400 - (y + 399) / 400 == (if y % 400 == 0 { 1int } else { 0int }));
    assert(y % 400 == 0 ==> y % 100 == 0);
    assert(y % 100 == 0 ==> y % 4 == 0);
}

proof fn lemma_months(y: int)
    ensures
        days_before_month(y, 1) == 0,
        days_before_month(y, 2) == 31,
        days_before_month(y, 3) == 31 + month_len(y, 2),
        days_before_month(y, 4) == 62 + month_len(y, 2),
        days_before_month(y, 5) == 92 + month_len(y, 2),
        days_before_month(y, 6) == 123 + month_len(y, 2),
        days_before_month(y, 7) == 153 + month_len(y, 2),
        days_before_month(y, 8) == 184 + month_len(y, 2),
        days_before_month(y, 9) == 215 + month_len(y, 2),
        days_before_month(y, 10) == 245 + month_len(y, 2),
        days_before_month(y, 11) == 276 + month_len(y, 2),
        days_before_month(y, 12) == 306 + month_len(y, 2),
{
    reveal_with_fuel(days_before_month, 13);
}

proof fn lemma_years_grow(a: int, b: int)
    requires
        a <= b,
    ensures
        days_before_year(a) <= days_before_year(b),
    decreases b - a,
{
    if a < b {
        year_lengths(b - 1);
        lemma_years_grow(a, b - 1);
    }
}

proof fn lemma_months_grow(y: int, a: int, b: int)
    requires
        1 <= a <= b,
    ensures
        days_before_month(y, a) <= days_before_month(y, b),
    decreases b - a,
{
    if a < b {
        lemma_months_grow(y, a, b - 1);
    }
}

proof fn lemma_in_year(y: int, m: int, d: int)
    requires
        valid_date(y, m, d),
    ensures
        days_before_year(y) <= day_number(y, m, d) + days_before_year(1970) < days_before_year(y + 1),
{
    lemma_months(y);
    year_lengths(y);
    lemma_months_grow(y, 1, m);
    lemma_months_grow(y, m, 12);
    if m < 12 {
        lemma_months_grow(y, m + 1, 12);
    }
}

/// Law: a day has one date.
pub proof fn date_is_unique(y: int, m: int, d: int, y2: int, m2: int, d2: int)
    requires
        valid_date(y, m, d),
        valid_date(y2, m2, d2),
        day_number(y, m, d) == day_number(y2, m2, d2),
    ensures
        y == y2 && m == m2 && d == d2,
{
    lemma_in_year(y, m, d);
    lemma_in_year(y2, m2, d2);
    if y < y2 {
        lemma_years_grow(y + 1, y2);
    }
    if y2 < y {
        lemma_years_grow(y2 + 1, y);
    }
    if m < m2 {
        lemma_months_grow(y, m + 1, m2);
    }
    if m2 < m {
        lemma_months_grow(y, m2 + 1, m);
    }
}

/// Law: on dates of the calendar the reading of parts gives the day number,
/// so it undoes the conversion of days into dates.
pub proof fn parts_invert_civil(y: int, m: int, d: int)
    requires
        valid_date(y, m, d),
    ensures
        day_number_of_parts(y, m, d) == day_number(y, m, d),
{
    let y2 = if m <= 2 { y - 1 } else { y };
    let era = y2 / 400;
    let yoe = y2 % 400;
    assert(y2 == 400 * era + yoe);
    lemma_march(era, yoe);
    lemma_months(y2);
    lemma_months(y2 + 1);
    year_lengths(y2);
    if m == 1 {
    } else if m == 2 {
    } else if m == 3 {
    } else if m == 4 {
    } else if m == 5 {
    } else if m == 6 {
    } else if m == 7 {
    } else if m == 8 {
    } else if m == 9 {
    } else if m == 10 {
    } else if m == 11 {
    } else {
        assert(m == 12);
    }
}

/// Leap days of a cycle up to its year `n`.
proof fn lemma_leap_days(n: int)
    requires
        0 <= n < 400,
    ensures
        (n + 3) / 4 - (n + 99) / 100 + (n + 399) / 400 + (if is_leap(n) { 1int } else { 0int }) == n / 4 - n / 100 + 1,
{
    assert((n + 3) / 4 == n / 4 + (if n % 4 == 0 { 0int } else { 1int }));
    assert((n + 99) / 100 == n / 100 + (if n % 100 == 0 { 0int } else { 1int }));
    assert((n + 399) / 400 == (if n == 0 { 0int } else { 1int }));
    assert(n % 400 == 0 <==> n == 0);
    assert(n % 100 == 0 ==> n % 4 == 0);
}

/// Day number of the first of March of year `400 * era + yoe`, where years
/// are counted from March.
proof fn lemma_march(era: int, yoe: int)
    requires
        0 <= yoe < 400,
    ensures
        day_number(400 * era + yoe, 3, 1) == era * 146097 + 365 * yoe + yoe / 4 - yoe / 100 - 719468,
{
    let y = 400 * era + yoe;
    lemma_months(y);
    vstd::arithmetic::div_mod::lemma_hoist_over_denominator(yoe + 3, 100 * era, 4);
    vstd::arithmetic::div_mod::lemma_hoist_over_denominator(yoe + 99, 4 * era, 100);
    vstd::arithmetic::div_mod::lemma_hoist_over_denominator(yoe + 399, era, 400);
    lemma_leap_cycle(era, yoe);
    lemma_leap_days(yoe);
}

/// Counted from March, day `doe` of a cycle of 400 years lies in the year that
/// the quotient gives.
#[verifier::spinoff_prover]
#[verifier::rlimit(60)]
proof fn lemma_year_of_era(doe: int)
    requires
        0 <= doe < 146_097,
    ensures
        ({
            let yoe = (doe - doe / 1460 + doe / 36_524 - doe / 146_096) / 365;
            let doy = doe - (365 * yoe + yoe / 4 - yoe / 100);
            &&& 0 <= yoe < 400
            &&& 0 <= doy <= 365
            &&& doy == 365 ==> is_leap(yoe + 1)
        }),
{
}

/// Leap years repeat every 400 years.
proof fn lemma_leap_cycle(era: int, n: int)
    ensures
        is_leap(400 * era + n) == is_leap(n),
{
    vstd::arithmetic::div_mod::lemma_mod_multiples_vanish(100 * era, n, 4);
    vstd::arithmetic::div_mod::lemma_mod_multiples_vanish(4 * era, n, 100);
    vstd::arithmetic::div_mod::lemma_mod_multiples_vanish(era, n, 400);
}

/// Day `doy` behind the first of March of year `y` has the month and day that
/// the quotients give.
proof fn lemma_month_of_day(y: int, doy: int)
    requires
        0 <= doy <= 365,
        doy == 365 ==> is_leap(y + 1),
    ensures
        ({
            let mp = (5 * doy + 2) / 153;
            let d = doy - (153 * mp + 2) / 5 + 1;
            let m = if mp < 10 { mp + 3 } else { mp - 9 };
            let year = if m <= 2 { y + 1 } else { y };
            &&& 0 <= mp < 12
            &&& valid_date(year, m, d)
            &&& day_number(year, m, d) == day_number(y, 3, 1) + doy
        }),
{
    lemma_months(y);
    lemma_months(y + 1);
    year_lengths(y);
    let mp = (5 * doy + 2) / 153;
    assert(0 <= mp < 12);
    let d = doy - (153 * mp + 2) / 5 + 1;
    if mp == 0 {
    } else if mp == 1 {
    } else if mp == 2 {
    } else if mp == 3 {
    } else if mp == 4 {
    } else if mp == 5 {
    } else if mp == 6 {
    } else if mp == 7 {
    } else if mp == 8 {
    } else if mp == 9 {
    } else if mp == 10 {
    } else {
        assert(mp == 11);
    }
}

/// Division rounded down.
pub fn floor_div(a: i64, b: i64) -> (r: i64)
    requires
        b > 0,
    ensures
        r == a as int / b as int,
{
    if a >= 0 {
        a / b
    } else {
        let n: i64 = -(a + 1);
        let q: i64 = n / b;
        proof {
            let r = n as int % b as int;
            assert(n == b * q + r) by {
                vstd::arithmetic::div_mod::lemma_fundamental_div_mod(n as int, b as int);
            }
            assert(a == b * (-q - 1) + (b - 1 - r)) by (nonlinear_arith)
                requires
                    n == -(a + 1),
                    n == b * q + r,
            ;
            vstd::arithmetic::div_mod::lemma_fundamental_div_mod_converse(
                a as int,
                b as int,
                -q - 1,
                b - 1 - r,
            );
        }
        -q - 1
    }
}

/// Convert unix seconds to (year, month, day) in UTC.
/// Uses the classic days-from-civil inverse (Howard Hinnant's algorithm).
pub fn civil_from_unix(secs: i64) -> (r: (i64, u32, u32))
    ensures
        valid_date(r.0 as int, r.1 as int, r.2 as int),
        day_number(r.0 as int, r.1 as int, r.2 as int) == secs as int / 86_400,
        (r.0 as int, r.1 as int, r.2 as int) == civil(secs as int),
        -300_000_000_000 < r.0 < 300_000_000_000,
{
    let days: i64 = floor_div(secs, 86_400);
    let z: i64 = days + 719_468;
    let era: i64 = floor_div(z, 146_097);
    let doe: i64 = z - era * 146_097;
    assert(0 <= doe < 146_097);
    proof {
        lemma_year_of_era(doe as int);
    }
    let yoe: i64 = (doe - doe / 1460 + doe / 36_524 - doe / 146_096) / 365;
    let y: i64 = yoe + era * 400;
    let doy: i64 = doe - (365 * yoe + yoe / 4 - yoe / 100);
    proof {
        lemma_march(era as int, yoe as int);
        lemma_leap_cycle(era as int, yoe + 1);
        lemma_month_of_day(y as int, doy as int);
    }
    let mp: i64 = (5 * doy + 2) / 153;
    let d: u32 = (doy - (153 * mp + 2) / 5 + 1) as u32;
    let m: u32 = if mp < 10 {
        (mp + 3) as u32
    } else {
        (mp - 9) as u32
    };
    let year: i64 = if m <= 2 {
        y + 1
    } else {
        y
    };
    proof {
        let t = (year as int, m as int, d as int);
        assert(is_civil(secs as int, t));
        let u = civil(secs as int);
        date_is_unique(t.0, t.1, t.2, u.0, u.1, u.2);
    }
    (year, m, d)
}

/// "YYYY-MM-DD" in UTC.
pub fn date_str(secs: i64) -> (r: String)
    ensures
        r@ == date_of(secs as int),
{
    let (y, m, d) = civil_from_unix(secs);
    let mut out = text::int_text_padded(y, 4);
    out.append("-");
    let ms = text::int_text_padded(m as i64, 2);
    out.append(ms.as_str());
    out.append("-");
    let ds = text::int_text_padded(d as i64, 2);
    out.append(ds.as_str());
    out
}

/// "YYYY-Qn" quarter label, for timeline bucketing.
pub fn quarter_str(secs: i64) -> (r: String)
    ensures
        r@ == quarter_of(secs as int),
{
    let (y, m, _) = civil_from_unix(secs);
    let mut out = text::int_text_padded(y, 4);
    out.append("-Q");
    let q: u32 = (m - 1) / 3 + 1;
    let qs = text::int_text(q as i64);
    out.append(qs.as_str());
    out
}

/// Does a revision argument have the shape of a date?
pub fn is_date(s: &str) -> (r: bool)
    ensures
        r == date_shaped(s@),
{
    let b = s.as_bytes();
    b.len() == 10 && b[4] == 0x2d && b[7] == 0x2d
}

/// Midnight UTC of the day that a date writes, or nothing where the text does
/// not hold three numbers between hyphens. Days whose time does not fit are
/// not asked for.
pub fn parse_date(s: &str) -> (r: Option<i64>)
    requires
        date_parts(s@).len() == 3 ==> day_number_of_parts(date_parts(s@)[0], date_parts(s@)[1], date_parts(s@)[2])
            * 86_400 <= i64::MAX,
    ensures
        match r {
            Some(t) => ({
                let p = date_parts(s@);
                p.len() == 3 && t == day_number_of_parts(p[0], p[1], p[2]) * 86_400
            }),
            None => date_parts(s@).len() != 3,
        },
{
    let pieces = text::split_on(s, '-');
    let mut parts: Vec<i64> = Vec::new();
    let mut i: usize = 0;
    let ghost ps = text::views(pieces@);
    let ghost f = |p: Seq<char>| text::signed_value(p);
    assert(ps.take(0) =~= Seq::<Seq<char>>::empty());
    proof {
        reveal_with_fuel(Seq::filter_map, 2);
    }
    while i < pieces.len()
        invariant
            i <= pieces@.len(),
            ps == text::views(pieces@),
            ps == text::split(s@, '-'),
            f == (|p: Seq<char>| text::signed_value(p)),
            parts@.map_values(|n: i64| n as int) == ps.take(i as int).filter_map(f),
            forall|k: int| 0 <= k < parts@.len() ==> 0 <= #[trigger] parts@[k],
        decreases pieces@.len() - i,
    {
        proof {
            ps.lemma_filter_map_take_succ(f, i as int);
            assert(ps[i as int] == pieces@[i as int]@);
            lemma_piece_sign(s@, i as int);
        }
        let ghost before = parts@;
        match text::parse_i64(pieces[i].as_str()) {
            Some(n) => {
                parts.push(n);
                assert(parts@.map_values(|n: i64| n as int) =~= before.map_values(|n: i64| n as int).push(n as int));
            },
            None => {},
        }
        i += 1;
    }
    assert(ps.take(i as int) =~= ps);
    assert(parts@.map_values(|n: i64| n as int).len() == parts@.len());
    if parts.len() != 3 {
        return None;
    }
    let y: i64 = parts[0];
    let m: i64 = parts[1];
    let d: i64 = parts[2];
    assert(date_parts(s@) == parts@.map_values(|n: i64| n as int));
    assert(date_parts(s@)[0] == y && date_parts(s@)[1] == m && date_parts(s@)[2] == d);
    assert(0 <= parts@[0] && 0 <= parts@[1] && 0 <= parts@[2]);
    let y2: i64 = if m <= 2 {
        y - 1
    } else {
        y
    };
    let era: i64 = floor_div(y2, 400);
    let yoe: i64 = y2 - era * 400;
    let mp: i64 = if m > 2 {
        m - 3
    } else {
        m + 9
    };
    let doy: i64 = (153 * mp + 2) / 5 + d - 1;
    let doe: i64 = yoe * 365 + yoe / 4 - yoe / 100 + doy;
    Some((era * 146_097 + doe - 719_468) * 86_400)
}

/// A piece between hyphens writes no negative number.
proof fn lemma_piece_sign(s: Seq<char>, i: int)
    requires
        0 <= i < text::split(s, '-').len(),
    ensures
        text::signed_value(text::split(s, '-')[i]) matches Some(n) ==> 0 <= n,
{
    let p = text::split(s, '-')[i];
    text::lemma_split_piece(s, '-', i);
    if p.len() > 0 {
        assert(p.contains(p[0]));
    }
    let body = if p.len() > 0 && p[0] == '+' { p.skip(1) } else { p };
    if text::all_digits(body) {
        text::lemma_digits_bound(body);
    }
}

/// The dates that `is_date` accepts hold numbers that `parse_date` can work
/// with.
pub proof fn date_shape_suffices(s: Seq<char>)
    requires
        date_shaped(s),
    ensures
        forall|k: int| 0 <= k < date_parts(s).len() ==> 0 <= #[trigger] date_parts(s)[k] < 10_000_000_000,
{
    text::lemma_char_count(s);
    let ps = text::split(s, '-');
    let f = |p: Seq<char>| text::signed_value(p);
    assert forall|i: int| 0 <= i < ps.len() implies (f(#[trigger] ps[i]) matches Some(n) ==> 0 <= n < 10_000_000_000) by {
        text::lemma_split_piece(s, '-', i);
        lemma_piece_sign(s, i);
        let p = ps[i];
        let body = if p.len() > 0 && (p[0] == '+' || p[0] == '-') { p.skip(1) } else { p };
        if text::all_digits(body) {
            text::lemma_digits_bound(body);
            text::lemma_pow10(body.len());
        }
    }
    lemma_filter_map_bound(ps, f, ps.len() as int);
    assert(ps.take(ps.len() as int) =~= ps);
}

proof fn lemma_filter_map_bound(ps: Seq<Seq<char>>, f: spec_fn(Seq<char>) -> Option<int>, n: int)
    requires
        0 <= n <= ps.len(),
        forall|i: int| 0 <= i < ps.len() ==> (f(#[trigger] ps[i]) matches Some(v) ==> 0 <= v < 10_000_000_000),
    ensures
        forall|k: int|
            0 <= k < ps.take(n).filter_map(f).len() ==> 0 <= #[trigger] ps.take(n).filter_map(f)[k] < 10_000_000_000,
    decreases n,
{
    reveal(Seq::filter_map);
    if n == 0 {
        assert(ps.take(0) =~= Seq::<Seq<char>>::empty());
    } else {
        lemma_filter_map_bound(ps, f, n - 1);
        ps.lemma_filter_map_take_succ(f, n - 1);
    }
}


/// Law: a date that was written down is read back as itself.
pub proof fn dates_read_back(y: int, m: int, d: int)
    requires
        0 <= y <= i64::MAX,
        valid_date(y, m, d),
    ensures
        date_parts(date_text(y, m, d)) == seq![y, m, d],
{
    reveal_strlit("-");
    let parts = seq![text::decimal_padded(y, 4), text::decimal_padded(m, 2), text::decimal_padded(d, 2)];
    let f = |p: Seq<char>| text::signed_value(p);
    assert(text::join(parts, seq!['-']) =~= date_text(y, m, d)) by {
        assert("-"@ =~= seq!['-']);
        assert(parts.drop_last() =~= seq![parts[0], parts[1]]);
        assert(parts.drop_last().drop_last() =~= seq![parts[0]]);
        assert(parts.drop_last().drop_last().drop_last() =~= Seq::<Seq<char>>::empty());
        reveal_with_fuel(text::join, 4);
    }
    text::decimals_are_digits(y as nat, 4);
    text::decimals_are_digits(m as nat, 2);
    text::decimals_are_digits(d as nat, 2);
    text::split_inverts_join(parts, '-');
    text::numbers_read_back(y, 4);
    text::numbers_read_back(m, 2);
    text::numbers_read_back(d, 2);
    assert(parts.filter_map(f) =~= seq![y, m, d]) by {
        parts.lemma_filter_map_take_succ(f, 0);
        parts.lemma_filter_map_take_succ(f, 1);
        parts.lemma_filter_map_take_succ(f, 2);
        assert(parts.take(3) =~= parts);
        assert(parts.take(0) =~= Seq::<Seq<char>>::empty());
        reveal(Seq::filter_map);
        assert(parts.take(0).filter_map(f) =~= Seq::<int>::empty());
    }
}

/// Law: every time falls on a date of the calendar.
pub proof fn times_have_dates(secs: int)
    ensures
        is_civil(secs, civil(secs)),
{
    let z = secs / 86_400 + 719_468;
    let era = z / 146_097;
    let doe = z % 146_097;
    lemma_year_of_era(doe);
    let yoe = (doe - doe / 1460 + doe / 36_524 - doe / 146_096) / 365;
    let y = yoe + era * 400;
    let doy = doe - (365 * yoe + yoe / 4 - yoe / 100);
    lemma_march(era, yoe);
    lemma_leap_cycle(era, yoe + 1);
    lemma_month_of_day(y, doy);
    let mp = (5 * doy + 2) / 153;
    let d = doy - (153 * mp + 2) / 5 + 1;
    let m = if mp < 10 {
        mp + 3
    } else {
        mp - 9
    };
    let year = if m <= 2 {
        y + 1
    } else {
        y
    };
    assert(is_civil(secs, (year, m, d)));
}

/// Law: the date shown for a time reads back as the day it falls on, except
/// where the year has a sign: hyphens separate the parts of a date.
pub proof fn shown_dates_read_back(secs: int)
    requires
        0 <= civil(secs).0 <= i64::MAX,
    ensures
        ({
            let p = date_parts(date_of(secs));
            p.len() == 3 && day_number_of_parts(p[0], p[1], p[2]) == secs / 86_400
        }),
{
    let t = civil(secs);
    times_have_dates(secs);
    dates_read_back(t.0, t.1, t.2);
    parts_invert_civil(t.0, t.1, t.2);
}

/// Law: the months of a year make four quarters of three months, in order.
pub proof fn quarters_have_three_months(y: int, m: int)
    requires
        1 <= m <= 12,
    ensures
        1 <= m <= 3 ==> quarter_text(y, m) == text::decimal_padded(y, 4) + seq!['-', 'Q', '1'],
        4 <= m <= 6 ==> quarter_text(y, m) == text::decimal_padded(y, 4) + seq!['-', 'Q', '2'],
        7 <= m <= 9 ==> quarter_text(y, m) == text::decimal_padded(y, 4) + seq!['-', 'Q', '3'],
        10 <= m <= 12 ==> quarter_text(y, m) == text::decimal_padded(y, 4) + seq!['-', 'Q', '4'],
{
    reveal_strlit("-Q");
    let q = (m - 1) / 3 + 1;
    let z = text::decimal_int(q);
    assert(z =~= seq![text::digit(q)]);
    let a = text::decimal_padded(y, 4);
    assert(quarter_text(y, m) =~= a + seq!['-', 'Q', text::digit(q)]);
}

} // verus!
