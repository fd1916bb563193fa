//! Turning `YYYY-MM-DD` text into a spreadsheet serial day number.
use vstd::prelude::*;

verus! {

/// Earliest year that chrono's `NaiveDate::from_ymd_opt` accepts.
pub open spec fn min_calendar_year() -> int {
    -262143
}

/// Latest year that chrono's `NaiveDate::from_ymd_opt` accepts.
pub open spec fn max_calendar_year() -> int {
    262142
}

pub open spec fn is_leap_year(y: int) -> bool {
    y % 4 == 0 && (y % 100 != 0 || y % 400 == 0)
}

pub open spec fn days_in_month(y: int, m: int) -> int {
    if m == 2 {
        if is_leap_year(y) { 29 } else { 28 }
    } else if m == 4 || m == 6 || m == 9 || m == 11 {
        30
    } else {
        31
    }
}

/// A date that exists in the proleptic Gregorian calendar, within chrono's range.
pub open spec fn is_valid_date(y: int, m: int, d: int) -> bool {
    &&& min_calendar_year() <= y <= max_calendar_year()
    &&& 1 <= m <= 12
    &&& 1 <= d <= days_in_month(y, m)
}

/// Days from 0001-01-01 to January 1st of year `y` (negative before it).
pub open spec fn days_before_year(y: int) -> int {
    365 * (y - 1) + (y - 1) / 4 - (y - 1) / 100 + (y - 1) / 400
}

pub open spec fn days_before_month(y: int, m: int) -> int
    decreases m,
{
    if m <= 1 {
        0
    } else {
        days_before_month(y, m - 1) + days_in_month(y, m - 1)
    }
}

/// Consecutive day number of a calendar date: 0001-01-01 is day 0.
pub open spec fn day_number(y: int, m: int, d: int) -> int {
    days_before_year(y) + days_before_month(y, m) + d - 1
}

/// Serial day count of the spreadsheet format: days since 1900-01-01 plus two.
pub open spec fn serial_day(y: int, m: int, d: int) -> int {
    day_number(y, m, d) - day_number(1900, 1, 1) + 2
}

pub open spec fn is_digit(c: char) -> bool {
    '0' <= c <= '9'
}

pub open spec fn all_digits(s: Seq<char>) -> bool {
    forall|i: int| 0 <= i < s.len() ==> is_digit(#[trigger] s[i])
}

/// Value of a run of decimal digits.
pub open spec fn digits_value(s: Seq<char>) -> int
    decreases s.len(),
{
    if s.len() == 0 {
        0
    } else {
        10 * digits_value(s.drop_last()) + (s.last() as int - '0' as int)
    }
}

/// Text of an unsigned decimal number: an optional `+`, then one or more digits.
pub open spec fn unsigned_text(s: Seq<char>) -> Option<int> {
    let body = if s.len() > 0 && s[0] == '+' { s.subrange(1, s.len() as int) } else { s };
    if body.len() > 0 && all_digits(body) {
        Some(digits_value(body))
    } else {
        None
    }
}

/// The pieces of `s` between the `-` characters, as `str::split('-')` gives them.
pub open spec fn split_dash(s: Seq<char>) -> Seq<Seq<char>>
    decreases s.len(),
{
    if s.len() == 0 {
        seq![Seq::<char>::empty()]
    } else {
        let rest = split_dash(s.drop_last());
        if s.last() == '-' {
            rest.push(Seq::<char>::empty())
        } else {
            rest.update(rest.len() - 1, rest.last().push(s.last()))
        }
    }
}

/// The serial day that the text `s` denotes, if it is a valid `YYYY-MM-DD` date.
/// A piece holds no `-`, so a year's sign can only be `+`.
pub open spec fn date_serial_of(s: Seq<char>) -> Option<int> {
    let parts = split_dash(s);
    if parts.len() != 3 {
        None
    } else {
        match (unsigned_text(parts[0]), unsigned_text(parts[1]), unsigned_text(parts[2])) {
            (Some(y), Some(m), Some(d)) => if is_valid_date(y, m, d) {
                Some(serial_day(y, m, d))
            } else {
                None
            },
            _ => None,
        }
    }
}

proof fn lemma_split_dash_nonempty(s: Seq<char>)
    ensures
        split_dash(s).len() >= 1,
    decreases s.len(),
{
    if s.len() > 0 {
        lemma_split_dash_nonempty(s.drop_last());
    }
}

proof fn lemma_digits_value_grows(s: Seq<char>, j: int)
    requires
        all_digits(s),
        0 <= j <= s.len(),
    ensures
        digits_value(s) >= digits_value(s.subrange(0, j)),
        digits_value(s.subrange(0, j)) >= 0,
    decreases s.len(),
{
    if s.len() > 0 {
        if j == s.len() {
            assert(s.subrange(0, j) =~= s);
            lemma_digits_value_grows(s.drop_last(), j - 1);
            assert(s.drop_last().subrange(0, j - 1) =~= s.drop_last());
        } else {
            lemma_digits_value_grows(s.drop_last(), j);
            assert(s.drop_last().subrange(0, j) =~= s.subrange(0, j));
            assert(is_digit(s[s.len() - 1]));
        }
    } else {
        assert(s.subrange(0, j) =~= s);
    }
}

/// Reads an unsigned decimal number as `u32::from_str` does: an optional `+`,
/// one or more ASCII digits, and a value that fits in `u32`.
pub fn parse_unsigned(s: &str) -> (r: Option<u32>)
    ensures
        match unsigned_text(s@) {
            Some(v) => if v <= u32::MAX {
                r is Some && r.unwrap() as int == v
            } else {
                r is None
            },
            None => r is None,
        },
{
    let n = s.unicode_len();
    let mut start: usize = 0;
    if n > 0 && s.get_char(0) == '+' {
        start = 1;
    }
    let ghost body = if s@.len() > 0 && s@[0] == '+' {
        s@.subrange(1, s@.len() as int)
    } else {
        s@
    };
    assert(body =~= s@.subrange(start as int, n as int));
    assert(unsigned_text(s@) == (if body.len() > 0 && all_digits(body) {
        Some(digits_value(body))
    } else {
        None
    }));
    if start == n {
        return None;
    }
    let mut v: u64 = 0;
    let mut i: usize = start;
    while i < n
        invariant
            start <= i <= n,
            n == s@.len(),
            start < n,
            body =~= s@.subrange(start as int, n as int),
            all_digits(body.subrange(0, i - start)),
            v == digits_value(body.subrange(0, i - start)),
            v <= u32::MAX,
            unsigned_text(s@) == (if body.len() > 0 && all_digits(body) {
                Some(digits_value(body))
            } else {
                None
            }),
        decreases n - i,
    {
        let c = s.get_char(i);
        if !('0' <= c && c <= '9') {
            assert(body[i - start] == c);
            assert(!all_digits(body));
            return None;
        }
        let ghost prefix = body.subrange(0, i + 1 - start);
        assert(prefix.drop_last() =~= body.subrange(0, i - start));
        assert(prefix.last() == c);
        let digit = (c as u32 - '0' as u32) as u64;
        let next = v * 10 + digit;
        assert(all_digits(prefix));
        assert(digits_value(prefix) == next);
        if next > 0xffff_ffffu64 {
            proof {
                if all_digits(body) {
                    lemma_digits_value_grows(body, i + 1 - start);
                    assert(digits_value(body) > u32::MAX);
                }
            }
            return None;
        }
        v = next;
        i = i + 1;
    }
    assert(body.subrange(0, n - start) =~= body);
    Some(v as u32)
}

proof fn lemma_days_before_month_bounds(y: int, m: int)
    requires
        1 <= m <= 12,
    ensures
        0 <= days_before_month(y, m) <= 31 * (m - 1),
    decreases m,
{
    if m > 1 {
        lemma_days_before_month_bounds(y, m - 1);
    }
}

/// A valid date's serial day fits in an `i32` with room to spare.
proof fn lemma_serial_day_bounds(y: int, m: int, d: int)
    requires
        is_valid_date(y, m, d),
    ensures
        -100_000_000 <= serial_day(y, m, d) <= 100_000_000,
{
    lemma_days_before_month_bounds(y, m);
    lemma_days_before_month_bounds(1900, 1);
    assert(-96_000_000 <= days_before_year(y) <= 96_000_000) by (nonlinear_arith)
        requires
            -262143 <= y <= 262143,
    {}
    assert(days_before_year(1900) == 693595);
}

/// Relies on chrono: `NaiveDate::from_ymd_opt` yields a date exactly when the
/// year, month and day name one in the proleptic Gregorian calendar within its
/// range, and subtracting two `NaiveDate`s gives a `TimeDelta` whose `num_days`
/// is the signed count of days between them.
#[verifier::external_body]
fn days_between(
    year: i32,
    month: u32,
    day: u32,
    base_year: i32,
    base_month: u32,
    base_day: u32,
) -> (r: Option<i64>)
    ensures
        r is Some <==> (is_valid_date(year as int, month as int, day as int) && is_valid_date(base_year as int, base_month as int, base_day as int)),
        r is Some ==> r.unwrap() == day_number(year as int, month as int, day as int) - day_number(base_year as int, base_month as int, base_day as int),
{
    let date = chrono::NaiveDate::from_ymd_opt(year, month, day)?;
    let base = chrono::NaiveDate::from_ymd_opt(base_year, base_month, base_day)?;
    Some((date - base).num_days())
}

/// Character ranges of the pieces of `s` between its `-` characters.
fn dash_pieces(s: &str) -> (r: Vec<(usize, usize)>)
    ensures
        r@.len() == split_dash(s@).len(),
        forall|k: int| #![trigger r@[k]] 0 <= k < r@.len() ==> r@[k].0 <= r@[k].1 <= s@.len(),
        forall|k: int|
            0 <= k < r@.len() ==> s@.subrange(r@[k].0 as int, r@[k].1 as int) == #[trigger] split_dash(
                s@,
            )[k],
{
    let n = s.unicode_len();
    let mut r: Vec<(usize, usize)> = vec![(0, 0)];
    let mut i: usize = 0;
    assert(s@.subrange(0, 0) =~= Seq::<char>::empty());
    while i < n
        invariant
            i <= n,
            n == s@.len(),
            r@.len() == split_dash(s@.subrange(0, i as int)).len(),
            r@.len() >= 1,
            r@.last().1 == i,
            forall|k: int| #![trigger r@[k]] 0 <= k < r@.len() ==> r@[k].0 <= r@[k].1 <= i,
            forall|k: int|
                0 <= k < r@.len() ==> s@.subrange(r@[k].0 as int, r@[k].1 as int) == #[trigger] split_dash(
                    s@.subrange(0, i as int),
                )[k],
        decreases n - i,
    {
        let c = s.get_char(i);
        let ghost before = split_dash(s@.subrange(0, i as int));
        let ghost old_r = r@;
        let ghost pre = s@.subrange(0, i + 1);
        assert(pre.drop_last() =~= s@.subrange(0, i as int));
        assert(pre.last() == c);
        if c == '-' {
            r.push((i + 1, i + 1));
            proof {
                assert(split_dash(pre) == before.push(Seq::<char>::empty()));
                assert(s@.subrange(i + 1, i + 1) =~= Seq::<char>::empty());
                assert forall|k: int| #![trigger r@[k]] 0 <= k < r@.len() implies r@[k].0 <= r@[k].1 <= i + 1 by {
                    if k < old_r.len() && !(c != '-' && k == old_r.len() - 1) {
                        assert(r@[k] == old_r[k]);
                        assert(old_r[k].0 <= old_r[k].1 <= i);
                    }
                }
                assert forall|k: int| 0 <= k < r@.len() implies s@.subrange(
                    r@[k].0 as int,
                    r@[k].1 as int,
                ) == #[trigger] split_dash(pre)[k] by {
                    if k < old_r.len() {
                        assert(r@[k] == old_r[k]);
                        assert(old_r[k].0 <= old_r[k].1 <= i);
                        assert(split_dash(pre)[k] == before[k]);
                    }
                }
            }
        } else {
            let last = r.len() - 1;
            let (a, _) = r[last];
            assert(r@[last as int].0 <= r@[last as int].1);
            assert(a <= i);
            r.set(last, (a, i + 1));
            proof {
                assert(split_dash(pre) == before.update(before.len() - 1, before.last().push(c)));
                assert(s@.subrange(a as int, i + 1) =~= s@.subrange(a as int, i as int).push(c));
                assert forall|k: int| #![trigger r@[k]] 0 <= k < r@.len() implies r@[k].0 <= r@[k].1 <= i + 1 by {
                    if k < old_r.len() && !(c != '-' && k == old_r.len() - 1) {
                        assert(r@[k] == old_r[k]);
                        assert(old_r[k].0 <= old_r[k].1 <= i);
                    }
                }
                assert forall|k: int| 0 <= k < r@.len() implies s@.subrange(
                    r@[k].0 as int,
                    r@[k].1 as int,
                ) == #[trigger] split_dash(pre)[k] by {
                    if k < last {
                        assert(r@[k] == old_r[k]);
                        assert(split_dash(pre)[k] == before[k]);
                    } else {
                        assert(before[k] == s@.subrange(a as int, i as int));
                    }
                }
            }
        }
        i = i + 1;
        assert(pre =~= s@.subrange(0, i as int));
    }
    assert(s@.subrange(0, n as int) =~= s@);
    assert(split_dash(s@.subrange(0, n as int)) == split_dash(s@));
    r
}

/// Reads a `YYYY-MM-DD` date into the spreadsheet's serial day count: the days
/// since 1900-01-01 plus two. Anything else (empty text, not three `-`-separated
/// numbers, a date that does not exist) gives `None`.
pub fn parse_date(date_str: &str) -> (r: Option<i32>)
    ensures
        match date_serial_of(date_str@) {
            Some(v) => r is Some && r.unwrap() as int == v,
            None => r is None,
        },
{
    if date_str.is_empty() {
        proof {
            assert(date_str@.len() == 0) by {
                if date_str@.len() > 0 {
                    assert(date_str@ =~= date_str@.drop_last().push(date_str@.last()));
                }
            }
        }
        return None;
    }
    let pieces = dash_pieces(date_str);
    if pieces.len() != 3 {
        return None;
    }
    let ghost parts = split_dash(date_str@);
    let year_text = date_str.substring_char(pieces[0].0, pieces[0].1);
    let month_text = date_str.substring_char(pieces[1].0, pieces[1].1);
    let day_text = date_str.substring_char(pieces[2].0, pieces[2].1);
    assert(year_text@ == parts[0]);
    assert(month_text@ == parts[1]);
    assert(day_text@ == parts[2]);
    let year = match parse_unsigned(year_text) {
        Some(y) => y,
        None => return None,
    };
    assert(unsigned_text(year_text@) == Some(year as int));
    assert(unsigned_text(parts[0]) == Some(year as int));
    if year > 0x7fff_ffff {
        assert(!is_valid_date(year as int, 1, 1));
        return None;
    }
    let month = match parse_unsigned(month_text) {
        Some(m) => m,
        None => return None,
    };
    let day = match parse_unsigned(day_text) {
        Some(d) => d,
        None => return None,
    };
    assert(unsigned_text(parts[1]) == Some(month as int));
    assert(unsigned_text(parts[2]) == Some(day as int));
    match days_between(year as i32, month, day, 1900, 1, 1) {
        Some(days) => {
            proof {
                lemma_serial_day_bounds(year as int, month as int, day as int);
            }
            Some((days + 2) as i32)
        },
        None => None,
    }
}

pub open spec fn dash_free(s: Seq<char>) -> bool {
    forall|i: int| 0 <= i < s.len() ==> #[trigger] s[i] != '-'
}

proof fn lemma_split_dash_extend(s: Seq<char>, t: Seq<char>)
    requires
        dash_free(t),
    ensures
        split_dash(s + t) == split_dash(s).update(
            split_dash(s).len() - 1,
            split_dash(s).last() + t,
        ),
    decreases t.len(),
{
    lemma_split_dash_nonempty(s);
    let ps = split_dash(s);
    if t.len() == 0 {
        assert(s + t =~= s);
        assert(ps.last() + t =~= ps.last());
        assert(ps.update(ps.len() - 1, ps.last() + t) =~= ps);
    } else {
        let u = t.drop_last();
        assert(dash_free(u));
        lemma_split_dash_extend(s, u);
        assert((s + t).drop_last() =~= s + u);
        assert((s + t).last() == t.last());
        assert(t[t.len() - 1] != '-');
        let pu = split_dash(s + u);
        assert(split_dash(s + t) == pu.update(pu.len() - 1, pu.last().push(t.last())));
        assert((ps.last() + u).push(t.last()) =~= ps.last() + t);
        assert(split_dash(s + t) =~= ps.update(ps.len() - 1, ps.last() + t));
    }
}

proof fn lemma_split_dash_after_dash(s: Seq<char>, t: Seq<char>)
    requires
        dash_free(t),
    ensures
        split_dash(s.push('-') + t) == split_dash(s).push(t),
{
    assert(s.push('-').drop_last() =~= s);
    lemma_split_dash_extend(s.push('-'), t);
    let p = split_dash(s.push('-'));
    assert(p == split_dash(s).push(Seq::<char>::empty()));
    assert(Seq::<char>::empty() + t =~= t);
    assert(p.update(p.len() - 1, p.last() + t) =~= split_dash(s).push(t));
}

proof fn lemma_digits_text(a: Seq<char>)
    requires
        a.len() > 0,
        all_digits(a),
    ensures
        unsigned_text(a) == Some(digits_value(a)),
        dash_free(a),
{
    assert(is_digit(a[0]));
}

/// Three runs of digits joined by `-` that name a valid date normalize to
/// that date's serial day: the days since 1900-01-01 plus two. Zero padding
/// (`2024-01-10`) is allowed.
pub proof fn lemma_date_text_round_trip(a: Seq<char>, b: Seq<char>, c: Seq<char>)
    requires
        a.len() > 0 && all_digits(a),
        b.len() > 0 && all_digits(b),
        c.len() > 0 && all_digits(c),
        is_valid_date(digits_value(a), digits_value(b), digits_value(c)),
    ensures
        date_serial_of(a + seq!['-'] + b + seq!['-'] + c) == Some(
            serial_day(digits_value(a), digits_value(b), digits_value(c)),
        ),
{
    lemma_digits_text(a);
    lemma_digits_text(b);
    lemma_digits_text(c);
    let text = a + seq!['-'] + b + seq!['-'] + c;
    assert(Seq::<char>::empty() + a =~= a);
    lemma_split_dash_extend(Seq::<char>::empty(), a);
    assert(split_dash(Seq::<char>::empty()) == seq![Seq::<char>::empty()]);
    assert(split_dash(a) =~= seq![a]);
    lemma_split_dash_after_dash(a, b);
    assert(a + seq!['-'] + b =~= a.push('-') + b);
    let ab = a + seq!['-'] + b;
    lemma_split_dash_after_dash(ab, c);
    assert(text =~= ab.push('-') + c);
    assert(split_dash(text) =~= seq![a, b, c]);
}

} // verus!
