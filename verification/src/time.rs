//! Dates and times as the tracker shows, exports and imports them. The
//! calendar fields come from the browser's `Date` in local time; this module
//! turns them into text, derives the counting periods, and turns an import
//! line into the local ISO timestamp that the browser then parses.
use vstd::prelude::*;
use vstd::string::*;
use crate::digits::{
    all_digits, decimal, digits_value, lemma_decimal_digits, lemma_decimal_injective,
    lemma_decimal_value, lemma_zero_padded_value, pow10, push_decimal, push_zero_padded,
    zero_padded,
};
use crate::text::{chars_of, is_white_space, push_char, utf8_len, utf8_width, white_space};

verus! {

/// The calendar fields of an instant in local time, numbered as the browser's
/// `Date` numbers them: the month from 0 (January) to 11.
pub struct LocalDateTime {
    pub year: u32,
    pub month0: u32,
    pub day: u32,
    pub hour: u32,
    pub minute: u32,
    pub second: u32,
    pub millisecond: u32,
}

/// `DD.MM.YYYY - hh:mm:ss`, the form in which event times are listed.
pub open spec fn timestamp_text(t: LocalDateTime) -> Seq<char> {
    zero_padded(t.day as nat, 2) + "."@ + zero_padded((t.month0 + 1) as nat, 2) + "."@ + decimal(
        t.year as nat,
    ) + " - "@ + zero_padded(t.hour as nat, 2) + ":"@ + zero_padded(t.minute as nat, 2) + ":"@
        + zero_padded(t.second as nat, 2)
}

/// `YYYY-MM-DDThh:mm:ss`, the value of a `datetime-local` input.
pub open spec fn local_datetime_text(t: LocalDateTime) -> Seq<char> {
    decimal(t.year as nat) + "-"@ + zero_padded((t.month0 + 1) as nat, 2) + "-"@ + zero_padded(
        t.day as nat,
        2,
    ) + "T"@ + zero_padded(t.hour as nat, 2) + ":"@ + zero_padded(t.minute as nat, 2) + ":"@
        + zero_padded(t.second as nat, 2)
}

/// `YYYY-MM-DD hh:mm:ss.mmm000` and a line break: one line of an exported topic.
pub open spec fn export_line_text(t: LocalDateTime) -> Seq<char> {
    decimal(t.year as nat) + "-"@ + zero_padded((t.month0 + 1) as nat, 2) + "-"@ + zero_padded(
        t.day as nat,
        2,
    ) + " "@ + zero_padded(t.hour as nat, 2) + ":"@ + zero_padded(t.minute as nat, 2) + ":"@
        + zero_padded(t.second as nat, 2) + "."@ + zero_padded(t.millisecond as nat, 3)
        + "000\n"@
}

/// `YYYY-MM-DDT00:00:00`: local midnight at the start of the given day.
pub open spec fn day_start_text(year: u32, month0: u32, day: u32) -> Seq<char> {
    decimal(year as nat) + "-"@ + zero_padded((month0 + 1) as nat, 2) + "-"@ + zero_padded(
        day as nat,
        2,
    ) + "T00:00:00"@
}

/// `YYYY-MM-01T00:00:00`: local midnight at the start of the given month.
pub open spec fn month_start_text(year: u32, month0: u32) -> Seq<char> {
    decimal(year as nat) + "-"@ + zero_padded((month0 + 1) as nat, 2) + "-01T00:00:00"@
}

/// `DD.MM.YYYY` with a four-digit year, the form of the announced date.
pub open spec fn announce_date_text(day: u32, month0: u32, year: u32) -> Seq<char> {
    zero_padded(day as nat, 2) + "."@ + zero_padded((month0 + 1) as nat, 2) + "."@ + zero_padded(
        year as nat,
        4,
    )
}

/// `<milliseconds>-<random>`, an event or topic identifier.
pub open spec fn id_text(ms: u64, random: u64) -> Seq<char> {
    decimal(ms as nat) + "-"@ + decimal(random as nat)
}

fn push_str(s: &mut String, t: &str)
    ensures
        final(s)@ == old(s)@ + t@,
{
    s.append(t);
}

/// Formats an event time as `DD.MM.YYYY - hh:mm:ss`.
pub fn format_timestamp(t: &LocalDateTime) -> (s: String)
    requires
        t.month0 < u32::MAX,
    ensures
        s@ == timestamp_text(*t),
{
    let mut s = String::new();
    push_zero_padded(&mut s, t.day as u64, 2);
    push_str(&mut s, ".");
    push_zero_padded(&mut s, (t.month0 + 1) as u64, 2);
    push_str(&mut s, ".");
    push_decimal(&mut s, t.year as u64);
    push_str(&mut s, " - ");
    push_zero_padded(&mut s, t.hour as u64, 2);
    push_str(&mut s, ":");
    push_zero_padded(&mut s, t.minute as u64, 2);
    push_str(&mut s, ":");
    push_zero_padded(&mut s, t.second as u64, 2);
    assert(s@ =~= timestamp_text(*t));
    s
}

/// Formats a time as `YYYY-MM-DDThh:mm:ss`, for a `datetime-local` input.
pub fn now_local_datetime_str(t: &LocalDateTime) -> (s: String)
    requires
        t.month0 < u32::MAX,
    ensures
        s@ == local_datetime_text(*t),
{
    let mut s = String::new();
    push_decimal(&mut s, t.year as u64);
    push_str(&mut s, "-");
    push_zero_padded(&mut s, (t.month0 + 1) as u64, 2);
    push_str(&mut s, "-");
    push_zero_padded(&mut s, t.day as u64, 2);
    push_str(&mut s, "T");
    push_zero_padded(&mut s, t.hour as u64, 2);
    push_str(&mut s, ":");
    push_zero_padded(&mut s, t.minute as u64, 2);
    push_str(&mut s, ":");
    push_zero_padded(&mut s, t.second as u64, 2);
    assert(s@ =~= local_datetime_text(*t));
    s
}

/// Formats one exported event as `YYYY-MM-DD hh:mm:ss.mmm000` and a line break.
pub fn export_line(t: &LocalDateTime) -> (s: String)
    requires
        t.month0 < u32::MAX,
    ensures
        s@ == export_line_text(*t),
{
    let mut s = String::new();
    push_decimal(&mut s, t.year as u64);
    push_str(&mut s, "-");
    push_zero_padded(&mut s, (t.month0 + 1) as u64, 2);
    push_str(&mut s, "-");
    push_zero_padded(&mut s, t.day as u64, 2);
    push_str(&mut s, " ");
    push_zero_padded(&mut s, t.hour as u64, 2);
    push_str(&mut s, ":");
    push_zero_padded(&mut s, t.minute as u64, 2);
    push_str(&mut s, ":");
    push_zero_padded(&mut s, t.second as u64, 2);
    push_str(&mut s, ".");
    push_zero_padded(&mut s, t.millisecond as u64, 3);
    push_str(&mut s, "000\n");
    assert(s@ =~= export_line_text(*t));
    s
}

/// The local ISO text of midnight at the start of the given day, which the
/// browser parses into the start of "today".
pub fn day_start_str(year: u32, month0: u32, day: u32) -> (s: String)
    requires
        month0 < u32::MAX,
    ensures
        s@ == day_start_text(year, month0, day),
{
    let mut s = String::new();
    push_decimal(&mut s, year as u64);
    push_str(&mut s, "-");
    push_zero_padded(&mut s, (month0 + 1) as u64, 2);
    push_str(&mut s, "-");
    push_zero_padded(&mut s, day as u64, 2);
    push_str(&mut s, "T00:00:00");
    assert(s@ =~= day_start_text(year, month0, day));
    s
}

/// The local ISO text of midnight on the first day of the given month.
pub fn month_start_str(year: u32, month0: u32) -> (s: String)
    requires
        month0 < u32::MAX,
    ensures
        s@ == month_start_text(year, month0),
{
    let mut s = String::new();
    push_decimal(&mut s, year as u64);
    push_str(&mut s, "-");
    push_zero_padded(&mut s, (month0 + 1) as u64, 2);
    push_str(&mut s, "-01T00:00:00");
    assert(s@ =~= month_start_text(year, month0));
    s
}

/// Formats the announced date as `DD.MM.YYYY`.
pub fn announce_date_str(day: u32, month0: u32, year: u32) -> (s: String)
    requires
        month0 < u32::MAX,
    ensures
        s@ == announce_date_text(day, month0, year),
{
    let mut s = String::new();
    push_zero_padded(&mut s, day as u64, 2);
    push_str(&mut s, ".");
    push_zero_padded(&mut s, (month0 + 1) as u64, 2);
    push_str(&mut s, ".");
    push_zero_padded(&mut s, year as u64, 4);
    assert(s@ =~= announce_date_text(day, month0, year));
    s
}

/// An identifier made of a time in milliseconds and a random number.
pub fn new_id(ms: u64, random: u64) -> (s: String)
    ensures
        s@ == id_text(ms, random),
{
    let mut s = String::new();
    push_decimal(&mut s, ms);
    push_str(&mut s, "-");
    push_decimal(&mut s, random);
    assert(s@ =~= id_text(ms, random));
    s
}

/// One day in milliseconds.
pub const DAY_MS: i64 = 86_400_000;

/// The counting periods for a moment `now_ms`, given the start of its local
/// day and of its local month: `(now, today_start, today_end, month_start,
/// week_start)`, where today ends one day after it starts and the week starts
/// seven days before now.
pub fn time_boundaries(now_ms: i64, today_start: i64, month_start: i64) -> (res: (
    i64,
    i64,
    i64,
    i64,
    i64,
))
    requires
        today_start + DAY_MS <= i64::MAX,
        now_ms - 7 * DAY_MS >= i64::MIN,
    ensures
        res.0 == now_ms,
        res.1 == today_start,
        res.2 == today_start + DAY_MS,
        res.3 == month_start,
        res.4 == now_ms - 7 * DAY_MS,
{
    (now_ms, today_start, today_start + DAY_MS, month_start, now_ms - 7 * DAY_MS)
}

/// How many days ahead the next Saturday is, for a weekday numbered from 0
/// (Sunday) to 6 (Saturday): one to seven days, a whole week on a Saturday.
pub open spec fn days_to_next_saturday(weekday: int) -> int {
    let d = (6 - weekday) % 7;
    if d == 0 {
        7
    } else {
        d
    }
}

/// `k` days after the given weekday is a Saturday.
pub open spec fn lands_on_saturday(weekday: int, k: int) -> bool {
    (weekday + k) % 7 == 6
}

/// The number of days from the given weekday to the next Saturday, which is
/// the first Saturday strictly after it.
pub fn days_until_saturday(weekday: u32) -> (d: u32)
    requires
        weekday <= i32::MAX,
    ensures
        d == days_to_next_saturday(weekday as int),
        1 <= d <= 7,
        lands_on_saturday(weekday as int, d as int),
        forall|k: int| 1 <= k < d ==> !#[trigger] lands_on_saturday(weekday as int, k),
{
    let r = weekday % 7;
    let d = 6 - r;
    assert((6 - weekday as int) % 7 == d) by {
        assert(weekday as int == 7 * (weekday as int / 7) + r);
    }
    if d == 0 {
        7
    } else {
        d
    }
}

} // verus!

verus! {

/// The first position at or after `i` that does not hold white space, or the
/// length of `s`.
pub open spec fn skip_white(s: Seq<char>, i: int) -> int
    decreases s.len() - i,
{
    if i < 0 || i >= s.len() {
        s.len() as int
    } else if is_white_space(s[i]) {
        skip_white(s, i + 1)
    } else {
        i
    }
}

/// The end of `s.take(j)` once its trailing white space is dropped.
pub open spec fn drop_white_back(s: Seq<char>, j: int) -> int
    decreases j,
{
    if j <= 0 || j > s.len() {
        0
    } else if is_white_space(s[j - 1]) {
        drop_white_back(s, j - 1)
    } else {
        j
    }
}

/// `s` without its leading and trailing white space.
pub open spec fn trimmed(s: Seq<char>) -> Seq<char> {
    let a = skip_white(s, 0);
    let b = drop_white_back(s, s.len() as int);
    if a < b {
        s.subrange(a, b)
    } else {
        Seq::empty()
    }
}

/// The first position at or after `i` that holds `c`.
pub open spec fn index_of_from(s: Seq<char>, c: char, i: int) -> Option<int>
    decreases s.len() - i,
{
    if i < 0 || i >= s.len() {
        None
    } else if s[i] == c {
        Some(i)
    } else {
        index_of_from(s, c, i + 1)
    }
}

/// The first position of `c` in `s`.
pub open spec fn index_of(s: Seq<char>, c: char) -> Option<int> {
    index_of_from(s, c, 0)
}

/// The fraction of an import line filled up with `0` to three characters
/// (what the format `{:0<3}` makes of it).
pub open spec fn padded_fraction(frac: Seq<char>) -> Seq<char> {
    if frac.len() >= 3 {
        frac
    } else {
        frac + Seq::new((3 - frac.len()) as nat, |i: int| '0')
    }
}

/// How many leading characters of `s` fit, whole, into `budget` bytes of UTF-8.
pub open spec fn chars_within(s: Seq<char>, budget: int) -> nat
    decreases s.len(),
{
    if s.len() == 0 || utf8_width(s[0]) > budget {
        0
    } else {
        1 + chars_within(s.drop_first(), budget - utf8_width(s[0]))
    }
}

/// The leading characters of `s` fill exactly `budget` bytes of UTF-8, so that
/// cutting `s` after `budget` bytes does not split a character.
pub open spec fn fills_bytes(s: Seq<char>, budget: int) -> bool
    decreases s.len(),
{
    if budget == 0 {
        true
    } else if s.len() == 0 || utf8_width(s[0]) > budget {
        false
    } else {
        fills_bytes(s.drop_first(), budget - utf8_width(s[0]))
    }
}

/// The milliseconds of an import line: the first three bytes of the padded
/// fraction (three characters where they are ASCII).
pub open spec fn millis_part(frac: Seq<char>) -> Seq<char> {
    let p = padded_fraction(frac);
    p.take(chars_within(p, 3) as int)
}

/// The clock time and the fraction of the time part of an import line: split
/// at the first `.`, the fraction being `000` where there is no `.`.
pub open spec fn split_time(time: Seq<char>) -> (Seq<char>, Seq<char>) {
    match index_of(time, '.') {
        Some(d) => (time.take(d), time.skip(d + 1)),
        None => (time, seq!['0', '0', '0']),
    }
}

/// The date, clock time and fraction of an import line `DATE HH:MM:SS[.ffffff]`.
/// The line is trimmed; it splits at its first space into date and time; the
/// time splits at its first `.` into clock time and fraction, the fraction
/// being `000` where there is none. `None` for a blank line or one without a
/// space.
pub open spec fn import_parts(line: Seq<char>) -> Option<(Seq<char>, Seq<char>, Seq<char>)> {
    let t = trimmed(line);
    if t.len() == 0 {
        None
    } else {
        match index_of(t, ' ') {
            None => None,
            Some(sp) => {
                let (hms, frac) = split_time(t.skip(sp + 1));
                Some((t.take(sp), hms, frac))
            },
        }
    }
}

/// The local ISO timestamp `DATE"T"HH:MM:SS"."mmm` that an import line stands for.
pub open spec fn import_local_iso(line: Seq<char>) -> Option<Seq<char>> {
    match import_parts(line) {
        None => None,
        Some((date, hms, frac)) => Some(date + seq!['T'] + hms + seq!['.'] + millis_part(frac)),
    }
}

/// Cutting the padded fraction of the line after three bytes does not split a
/// character (always so for lines whose fraction is ASCII).
pub open spec fn import_cut_fits(line: Seq<char>) -> bool {
    match import_parts(line) {
        None => true,
        Some((date, hms, frac)) => fills_bytes(padded_fraction(frac), 3),
    }
}

proof fn lemma_skip_white(s: Seq<char>, i: int)
    requires
        0 <= i <= s.len(),
    ensures
        i <= skip_white(s, i) <= s.len(),
        skip_white(s, i) < s.len() ==> !is_white_space(s[skip_white(s, i)]),
        forall|k: int| i <= k < skip_white(s, i) ==> is_white_space(#[trigger] s[k]),
    decreases s.len() - i,
{
    if i < s.len() && is_white_space(s[i]) {
        lemma_skip_white(s, i + 1);
    }
}

proof fn lemma_drop_white_back(s: Seq<char>, j: int)
    requires
        0 <= j <= s.len(),
    ensures
        0 <= drop_white_back(s, j) <= j,
        drop_white_back(s, j) > 0 ==> !is_white_space(s[drop_white_back(s, j) - 1]),
        forall|k: int| drop_white_back(s, j) <= k < j ==> is_white_space(#[trigger] s[k]),
    decreases j,
{
    if j > 0 && is_white_space(s[j - 1]) {
        lemma_drop_white_back(s, j - 1);
    }
}

/// Trimming removes white space from both ends and nothing else: the result
/// is a piece of `s`, everything before and after it is white space, and it
/// is empty or starts and ends with a character that is not.
pub proof fn law_trim_removes_only_outer_white_space(s: Seq<char>)
    ensures
        exists|a: int, b: int|
            #![trigger s.subrange(a, b)]
            0 <= a <= b <= s.len() && trimmed(s) == s.subrange(a, b) && (forall|k: int|
                0 <= k < a ==> is_white_space(#[trigger] s[k])) && (forall|k: int|
                b <= k < s.len() ==> is_white_space(#[trigger] s[k])),
        trimmed(s).len() > 0 ==> !is_white_space(trimmed(s)[0]) && !is_white_space(
            trimmed(s)[trimmed(s).len() - 1],
        ),
{
    let n = s.len() as int;
    lemma_skip_white(s, 0);
    lemma_drop_white_back(s, n);
    let a = skip_white(s, 0);
    let b = drop_white_back(s, n);
    if a < b {
        assert(trimmed(s) == s.subrange(a, b));
        assert(trimmed(s)[0] == s[a]);
        assert(trimmed(s)[trimmed(s).len() - 1] == s[b - 1]);
        assert(s.subrange(a, b) == s.subrange(a, b));
    } else {
        if a < n {
            assert(!is_white_space(s[a]));
            assert(is_white_space(s[a]));
        }
        assert(trimmed(s) =~= s.subrange(n, n));
        assert(s.subrange(n, n) == s.subrange(n, n));
    }
}

/// The first position of `c` in `cs[from..to]`, as a position of `cs`.
fn find_char(cs: &Vec<char>, from: usize, to: usize, c: char) -> (res: Option<usize>)
    requires
        from <= to <= cs@.len(),
    ensures
        res matches Some(p) ==> from <= p < to && index_of(cs@.subrange(from as int, to as int), c)
            == Some(p - from),
        res is None ==> index_of(cs@.subrange(from as int, to as int), c) is None,
{
    let ghost sub = cs@.subrange(from as int, to as int);
    let mut i = from;
    while i < to
        invariant
            from <= i <= to <= cs@.len(),
            sub == cs@.subrange(from as int, to as int),
            index_of_from(sub, c, 0) == index_of_from(sub, c, i - from),
        decreases to - i,
    {
        if cs[i] == c {
            return Some(i);
        }
        i = i + 1;
    }
    None
}

fn push_range(s: &mut String, cs: &Vec<char>, from: usize, to: usize)
    requires
        from <= to <= cs@.len(),
    ensures
        final(s)@ == old(s)@ + cs@.subrange(from as int, to as int),
{
    let ghost start = s@;
    let mut i = from;
    while i < to
        invariant
            from <= i <= to <= cs@.len(),
            s@ == start + cs@.subrange(from as int, i as int),
        decreases to - i,
    {
        push_char(s, cs[i]);
        i = i + 1;
        assert(s@ =~= start + cs@.subrange(from as int, i as int));
    }
}

/// The positions where the trimmed line starts and ends.
fn trim_span(cs: &Vec<char>) -> (res: (usize, usize))
    ensures
        res.0 <= cs@.len(),
        res.1 <= cs@.len(),
        res.0 < res.1 ==> trimmed(cs@) == cs@.subrange(res.0 as int, res.1 as int),
        res.0 >= res.1 ==> trimmed(cs@).len() == 0,
{
    let ghost s = cs@;
    let n = cs.len();
    let mut a: usize = 0;
    while a < n && white_space(cs[a])
        invariant
            a <= n == s.len(),
            s == cs@,
            skip_white(s, 0) == skip_white(s, a as int),
        decreases n - a,
    {
        a = a + 1;
    }
    let mut b: usize = n;
    while b > 0 && white_space(cs[b - 1])
        invariant
            b <= n == s.len(),
            s == cs@,
            drop_white_back(s, n as int) == drop_white_back(s, b as int),
        decreases b,
    {
        b = b - 1;
    }
    proof {
        lemma_skip_white(s, 0);
        lemma_drop_white_back(s, n as int);
    }
    (a, b)
}

/// How many leading characters of `p` fit into three bytes, and whether they
/// fill them exactly.
fn cut_after_three_bytes(p: &Vec<char>) -> (res: (usize, bool))
    ensures
        res.0 == chars_within(p@, 3),
        res.1 == fills_bytes(p@, 3),
        res.0 <= p@.len(),
{
    let mut i: usize = 0;
    let mut budget: usize = 3;
    assert(p@.skip(0) =~= p@);
    while i < p.len() && utf8_len(p[i]) <= budget
        invariant
            i <= p@.len(),
            budget <= 3,
            chars_within(p@, 3) == i + chars_within(p@.skip(i as int), budget as int),
            fills_bytes(p@, 3) == fills_bytes(p@.skip(i as int), budget as int),
        decreases p.len() - i,
    {
        let w = utf8_len(p[i]);
        proof {
            let rest = p@.skip(i as int);
            assert(rest[0] == p@[i as int]);
            assert(rest.drop_first() =~= p@.skip(i + 1));
            if budget == 0 {
                assert(w >= 1);
            }
        }
        budget = budget - w;
        i = i + 1;
    }
    proof {
        let rest = p@.skip(i as int);
        if i < p@.len() {
            assert(rest[0] == p@[i as int]);
        }
    }
    (i, budget == 0)
}

/// The padded fraction of an import line.
fn pad_fraction(frac: Vec<char>) -> (p: Vec<char>)
    ensures
        p@ == padded_fraction(frac@),
{
    let mut p = frac;
    let ghost f = p@;
    while p.len() < 3
        invariant
            p@.len() >= f.len(),
            p@.len() <= 3 || p@.len() == f.len(),
            p@ == f + Seq::new((p@.len() - f.len()) as nat, |i: int| '0'),
        decreases 3 - p.len(),
    {
        p.push('0');
        assert(p@ =~= f + Seq::new((p@.len() - f.len()) as nat, |i: int| '0'));
    }
    assert(f.len() >= 3 ==> p@ =~= f);
    p
}

/// The characters `cs[from..to]`.
fn chars_between(cs: &Vec<char>, from: usize, to: usize) -> (res: Vec<char>)
    requires
        from <= to <= cs@.len(),
    ensures
        res@ == cs@.subrange(from as int, to as int),
{
    let mut res: Vec<char> = Vec::new();
    let mut i = from;
    while i < to
        invariant
            from <= i <= to <= cs@.len(),
            res@ == cs@.subrange(from as int, i as int),
        decreases to - i,
    {
        res.push(cs[i]);
        i = i + 1;
        assert(res@ =~= cs@.subrange(from as int, i as int));
    }
    res
}

/// Where the date, the clock time and the fraction of an import line lie in
/// its characters `cs`: the date is `cs[a..sp]`, the clock time runs from
/// `sp + 1` to the dot or to `b`, the fraction from after the dot to `b`.
fn import_spans(cs: &Vec<char>) -> (res: Option<(usize, usize, usize, Option<usize>)>)
    ensures
        res is None ==> import_parts(cs@) is None,
        res matches Some((a, sp, b, dot)) ==> {
            &&& a <= sp < b <= cs@.len()
            &&& dot matches Some(d) ==> sp < d < b
            &&& import_parts(cs@) == Some(
                (
                    cs@.subrange(a as int, sp as int),
                    cs@.subrange(
                        sp + 1,
                        match dot {
                            Some(d) => d as int,
                            None => b as int,
                        },
                    ),
                    match dot {
                        Some(d) => cs@.subrange(d + 1, b as int),
                        None => seq!['0', '0', '0'],
                    },
                ),
            )
        },
{
    let (a, b) = trim_span(cs);
    if a >= b {
        return None;
    }
    let ghost t = cs@.subrange(a as int, b as int);
    match find_char(cs, a, b, ' ') {
        None => None,
        Some(sp) => {
            let ghost time = t.skip(sp - a + 1);
            assert(time =~= cs@.subrange(sp + 1, b as int));
            assert(t.take(sp - a) =~= cs@.subrange(a as int, sp as int));
            let dot = find_char(cs, sp + 1, b, '.');
            match dot {
                Some(d) => {
                    assert(time.take(d - sp - 1) =~= cs@.subrange(sp + 1, d as int));
                    assert(time.skip(d - sp) =~= cs@.subrange(d + 1, b as int));
                },
                None => {},
            }
            Some((a, sp, b, dot))
        },
    }
}

/// The fraction of an import line with the given spans.
fn fraction_chars(cs: &Vec<char>, b: usize, dot: Option<usize>) -> (res: Vec<char>)
    requires
        b <= cs@.len(),
        dot matches Some(d) ==> d < b,
    ensures
        res@ == match dot {
            Some(d) => cs@.subrange(d + 1, b as int),
            None => seq!['0', '0', '0'],
        },
{
    match dot {
        Some(d) => chars_between(cs, d + 1, b),
        None => {
            let mut v: Vec<char> = Vec::new();
            v.push('0');
            v.push('0');
            v.push('0');
            assert(v@ =~= seq!['0', '0', '0']);
            v
        },
    }
}

/// Whether cutting the padded fraction of an import line after three bytes
/// keeps whole characters; the local ISO timestamp is defined for exactly
/// these lines.
pub fn import_line_cut_fits(line: &str) -> (res: bool)
    ensures
        res == import_cut_fits(line@),
{
    let cs = chars_of(line);
    match import_spans(&cs) {
        None => true,
        Some((a, sp, b, dot)) => {
            let p = pad_fraction(fraction_chars(&cs, b, dot));
            let (_, fits) = cut_after_three_bytes(&p);
            fits
        },
    }
}

/// The local ISO timestamp that an import line `YYYY-MM-DD HH:MM:SS[.ffffff]`
/// stands for, before the browser parses it: `YYYY-MM-DDTHH:MM:SS.mmm`, the
/// milliseconds being the first three bytes of the fraction filled up with
/// `0` to three characters. `None` for a blank line or one without a space.
pub fn import_line_local_iso(line: &str) -> (res: Option<String>)
    requires
        import_cut_fits(line@),
    ensures
        res is None ==> import_local_iso(line@) is None,
        res matches Some(iso) ==> import_local_iso(line@) == Some(iso@),
{
    let cs = chars_of(line);
    match import_spans(&cs) {
        None => None,
        Some((a, sp, b, dot)) => {
            let hms_end = match dot {
                Some(d) => d,
                None => b,
            };
            let p = pad_fraction(fraction_chars(&cs, b, dot));
            let (n, _) = cut_after_three_bytes(&p);
            let mut out = String::new();
            push_range(&mut out, &cs, a, sp);
            push_char(&mut out, 'T');
            push_range(&mut out, &cs, sp + 1, hms_end);
            push_char(&mut out, '.');
            push_range(&mut out, &p, 0, n);
            assert(p@.subrange(0, n as int) =~= p@.take(n as int));
            Some(out)
        },
    }
}

} // verus!

verus! {

/// `s` without its leading and trailing white space (what `str::trim` gives).
pub fn trim(s: &str) -> (res: &str)
    ensures
        res@ == trimmed(s@),
{
    let cs = chars_of(s);
    let (a, b) = trim_span(&cs);
    if a < b {
        s.substring_char(a, b)
    } else {
        s.substring_char(0, 0)
    }
}

} // verus!

verus! {

/// `YYYY-MM-DDThh:mm:ss.mmm`: the local ISO timestamp of an instant.
pub open spec fn local_iso_text(t: LocalDateTime) -> Seq<char> {
    date_text(t) + seq!['T'] + clock_text(t) + seq!['.'] + zero_padded(t.millisecond as nat, 3)
}

/// `YYYY-MM-DD`.
pub open spec fn date_text(t: LocalDateTime) -> Seq<char> {
    decimal(t.year as nat) + "-"@ + zero_padded((t.month0 + 1) as nat, 2) + "-"@ + zero_padded(
        t.day as nat,
        2,
    )
}

/// `hh:mm:ss`.
pub open spec fn clock_text(t: LocalDateTime) -> Seq<char> {
    zero_padded(t.hour as nat, 2) + ":"@ + zero_padded(t.minute as nat, 2) + ":"@ + zero_padded(
        t.second as nat,
        2,
    )
}

/// Made of decimal digits, `-` and `:` only.
pub open spec fn plain_text(s: Seq<char>) -> bool {
    forall|i: int| 0 <= i < s.len() ==> ('0' <= #[trigger] s[i] <= '9' || s[i] == '-' || s[i] == ':')
}

proof fn lemma_decimal_plain(n: nat)
    ensures
        plain_text(decimal(n)),
        decimal(n).len() >= 1,
    decreases n,
{
    if n >= 10 {
        lemma_decimal_plain(n / 10);
    }
}

proof fn lemma_zero_padded_plain(n: nat, w: nat)
    ensures
        plain_text(zero_padded(n, w)),
        zero_padded(n, w).len() >= 1,
{
    lemma_decimal_plain(n);
}

proof fn lemma_plain_concat(a: Seq<char>, b: Seq<char>)
    requires
        plain_text(a),
        plain_text(b),
    ensures
        plain_text(a + b),
{
    assert forall|i: int| 0 <= i < (a + b).len() implies ('0' <= #[trigger] (a + b)[i] <= '9'
        || (a + b)[i] == '-' || (a + b)[i] == ':') by {
        if i < a.len() {
            assert((a + b)[i] == a[i]);
        } else {
            assert((a + b)[i] == b[i - a.len()]);
        }
    }
}

proof fn lemma_index_of_after(a: Seq<char>, b: Seq<char>, c: char, i: int)
    requires
        0 <= i <= a.len(),
        forall|k: int| 0 <= k < a.len() ==> a[k] != c,
        b.len() > 0,
        b[0] == c,
    ensures
        index_of_from(a + b, c, i) == Some(a.len() as int),
    decreases a.len() - i,
{
    if i < a.len() {
        assert((a + b)[i] == a[i]);
        lemma_index_of_after(a, b, c, i + 1);
    } else {
        assert((a + b)[i] == b[0]);
    }
}

proof fn lemma_export_parts(t: LocalDateTime)
    requires
        t.millisecond < 1000,
    ensures
        plain_text(date_text(t)),
        plain_text(clock_text(t)),
        plain_text(zero_padded(t.millisecond as nat, 3)),
        zero_padded(t.millisecond as nat, 3).len() == 3,
        date_text(t).len() >= 1,
{
    reveal_strlit("-");
    reveal_strlit(":");
    lemma_decimal_plain(t.year as nat);
    lemma_zero_padded_plain((t.month0 + 1) as nat, 2);
    lemma_zero_padded_plain(t.day as nat, 2);
    lemma_zero_padded_plain(t.hour as nat, 2);
    lemma_zero_padded_plain(t.minute as nat, 2);
    lemma_zero_padded_plain(t.second as nat, 2);
    lemma_zero_padded_plain(t.millisecond as nat, 3);
    assert(plain_text("-"@));
    assert(plain_text(":"@));
    let y = decimal(t.year as nat);
    let mo = zero_padded((t.month0 + 1) as nat, 2);
    let dd = zero_padded(t.day as nat, 2);
    lemma_plain_concat(y, "-"@);
    lemma_plain_concat(y + "-"@, mo);
    lemma_plain_concat(y + "-"@ + mo, "-"@);
    lemma_plain_concat(y + "-"@ + mo + "-"@, dd);
    let hh = zero_padded(t.hour as nat, 2);
    let mi = zero_padded(t.minute as nat, 2);
    let ss = zero_padded(t.second as nat, 2);
    lemma_plain_concat(hh, ":"@);
    lemma_plain_concat(hh + ":"@, mi);
    lemma_plain_concat(hh + ":"@ + mi, ":"@);
    lemma_plain_concat(hh + ":"@ + mi + ":"@, ss);
    assert(decimal(t.millisecond as nat).len() <= 3) by {
        reveal_with_fuel(pow10, 4);
        crate::digits::lemma_decimal_len_bound(t.millisecond as nat, 3);
    }
}

/// Trimming a plain, non-empty text followed by a line break gives the text.
proof fn lemma_trim_line(x: Seq<char>)
    requires
        x.len() >= 1,
        !is_white_space(x[0]),
        !is_white_space(x[x.len() - 1]),
    ensures
        trimmed(x.push('\n')) == x,
{
    let s = x.push('\n');
    let n = s.len() as int;
    assert(s[0] == x[0]);
    assert(skip_white(s, 0) == 0);
    assert(s[n - 1] == '\n');
    assert(s[n - 2] == x[x.len() - 1]);
    assert(drop_white_back(s, n - 1) == n - 1);
    assert(drop_white_back(s, n) == n - 1);
    assert(s.subrange(0, n - 1) =~= x);
}

/// The import splits `d h.f` into date `d`, clock time `h` and fraction `f`
/// when `d` holds no space and `h` no dot.
proof fn lemma_split_line(d: Seq<char>, h: Seq<char>, f: Seq<char>)
    requires
        d.len() >= 1,
        plain_text(d),
        plain_text(h),
    ensures
        ({
            let x = d + seq![' '] + h + seq!['.'] + f;
            index_of(x, ' ') == Some(d.len() as int) && x.take(d.len() as int) == d && split_time(
                x.skip(d.len() as int + 1),
            ) == (h, f)
        }),
{
    let rest = seq![' '] + h + seq!['.'] + f;
    let x = d + seq![' '] + h + seq!['.'] + f;
    assert(x =~= d + rest);
    assert forall|k: int| 0 <= k < d.len() implies d[k] != ' ' by {
        assert('0' <= d[k] <= '9' || d[k] == '-' || d[k] == ':');
    }
    lemma_index_of_after(d, rest, ' ', 0);
    assert(x.take(d.len() as int) =~= d);
    let time = x.skip(d.len() as int + 1);
    let rest2 = seq!['.'] + f;
    assert(time =~= h + rest2);
    assert forall|k: int| 0 <= k < h.len() implies h[k] != '.' by {
        assert('0' <= h[k] <= '9' || h[k] == '-' || h[k] == ':');
    }
    lemma_index_of_after(h, rest2, '.', 0);
    assert(time.take(h.len() as int) =~= h);
    assert(time.skip(h.len() as int + 1) =~= f);
}

/// The milliseconds of a fraction `m000` with a plain three-character `m` are `m`.
proof fn lemma_millis_of_export(m: Seq<char>)
    requires
        m.len() == 3,
        plain_text(m),
    ensures
        fills_bytes(padded_fraction(m + seq!['0', '0', '0']), 3),
        millis_part(m + seq!['0', '0', '0']) == m,
{
    let frac = m + seq!['0', '0', '0'];
    assert(padded_fraction(frac) == frac);
    assert(utf8_width(frac[0]) == 1 && utf8_width(frac[1]) == 1 && utf8_width(frac[2]) == 1) by {
        assert(frac[0] == m[0] && frac[1] == m[1] && frac[2] == m[2]);
        assert('0' <= m[0] <= '9' || m[0] == '-' || m[0] == ':');
        assert('0' <= m[1] <= '9' || m[1] == '-' || m[1] == ':');
        assert('0' <= m[2] <= '9' || m[2] == '-' || m[2] == ':');
    }
    let f1 = frac.drop_first();
    let f2 = f1.drop_first();
    let f3 = f2.drop_first();
    assert(f1[0] == frac[1]);
    assert(f2[0] == frac[2]);
    assert(chars_within(f3, 0) == 0);
    assert(chars_within(f2, 1) == 1);
    assert(chars_within(f1, 2) == 2);
    assert(chars_within(frac, 3) == 3);
    assert(fills_bytes(f3, 0));
    assert(fills_bytes(f2, 1));
    assert(fills_bytes(f1, 2));
    assert(fills_bytes(frac, 3));
    assert(frac.take(3) =~= m);
}

/// A line that the export writes is read back by the import as the same local
/// time, to the millisecond: the import of an export line is the local ISO
/// timestamp of the exported time.
#[verifier::spinoff_prover]
#[verifier::rlimit(40)]
pub proof fn law_export_line_imports_back(t: LocalDateTime)
    requires
        t.millisecond < 1000,
    ensures
        import_cut_fits(export_line_text(t)),
        import_local_iso(export_line_text(t)) == Some(local_iso_text(t)),
{
    let d = date_text(t);
    let h = clock_text(t);
    let m = zero_padded(t.millisecond as nat, 3);
    let frac = m + seq!['0', '0', '0'];
    lemma_export_parts(t);
    reveal_strlit("-");
    reveal_strlit(":");
    reveal_strlit(" ");
    reveal_strlit(".");
    reveal_strlit("000\n");
    let x = d + seq![' '] + h + seq!['.'] + frac;
    assert(export_line_text(t) =~= x.push('\n'));
    assert(x[0] == d[0]);
    assert('0' <= d[0] <= '9' || d[0] == '-' || d[0] == ':');
    assert(x[x.len() - 1] == '0');
    lemma_trim_line(x);
    lemma_split_line(d, h, frac);
    lemma_millis_of_export(m);
    assert(import_parts(export_line_text(t)) == Some((d, h, frac)));
    assert(local_iso_text(t) =~= d + seq!['T'] + h + seq!['.'] + m);
}

/// A number below 100 padded to two digits is two digits that write it.
proof fn lemma_two_digit_field(n: nat)
    requires
        n < 100,
    ensures
        zero_padded(n, 2).len() == 2,
        digits_value(zero_padded(n, 2)) == n,
        all_digits(zero_padded(n, 2)),
{
    assert(pow10(2) == 100) by {
        reveal_with_fuel(pow10, 3);
    }
    lemma_zero_padded_value(n, 2);
}

/// The listed time `DD.MM.YYYY - hh:mm:ss` shows each field at its place as
/// the digits of its value: the day, the month counted from 1, the year, and
/// the hour (0 to 23, not a twelve-hour clock), minute and second, each of
/// the two-digit fields zero-padded.
pub proof fn law_listed_time_shows_each_field(t: LocalDateTime)
    requires
        t.day < 100,
        t.month0 < 99,
        t.hour < 100,
        t.minute < 100,
        t.second < 100,
    ensures
        ({
            let s = timestamp_text(t);
            let y = decimal(t.year as nat).len() as int;
            &&& s.len() == 17 + y
            &&& all_digits(s.subrange(0, 2)) && digits_value(s.subrange(0, 2)) == t.day
            &&& s[2] == '.'
            &&& all_digits(s.subrange(3, 5)) && digits_value(s.subrange(3, 5)) == t.month0 + 1
            &&& s[5] == '.'
            &&& all_digits(s.subrange(6, 6 + y)) && digits_value(s.subrange(6, 6 + y)) == t.year
            &&& s.subrange(6 + y, 9 + y) == " - "@
            &&& all_digits(s.subrange(9 + y, 11 + y)) && digits_value(s.subrange(9 + y, 11 + y))
                == t.hour
            &&& s[11 + y] == ':'
            &&& all_digits(s.subrange(12 + y, 14 + y)) && digits_value(s.subrange(12 + y, 14 + y))
                == t.minute
            &&& s[14 + y] == ':'
            &&& all_digits(s.subrange(15 + y, 17 + y)) && digits_value(s.subrange(15 + y, 17 + y))
                == t.second
        }),
{
    reveal_strlit(".");
    reveal_strlit(" - ");
    reveal_strlit(":");
    lemma_two_digit_field(t.day as nat);
    lemma_two_digit_field((t.month0 + 1) as nat);
    lemma_two_digit_field(t.hour as nat);
    lemma_two_digit_field(t.minute as nat);
    lemma_two_digit_field(t.second as nat);
    lemma_decimal_value(t.year as nat);
    lemma_decimal_digits(t.year as nat);
    let s = timestamp_text(t);
    let y = decimal(t.year as nat).len() as int;
    assert(s.subrange(0, 2) =~= zero_padded(t.day as nat, 2));
    assert(s.subrange(3, 5) =~= zero_padded((t.month0 + 1) as nat, 2));
    assert(s.subrange(6, 6 + y) =~= decimal(t.year as nat));
    assert(s.subrange(6 + y, 9 + y) =~= " - "@);
    assert(s.subrange(9 + y, 11 + y) =~= zero_padded(t.hour as nat, 2));
    assert(s.subrange(12 + y, 14 + y) =~= zero_padded(t.minute as nat, 2));
    assert(s.subrange(15 + y, 17 + y) =~= zero_padded(t.second as nat, 2));
}

/// The input value `YYYY-MM-DDThh:mm:ss` shows each field at its place as the
/// digits of its value, the month counted from 1.
pub proof fn law_input_value_shows_each_field(t: LocalDateTime)
    requires
        t.day < 100,
        t.month0 < 99,
        t.hour < 100,
        t.minute < 100,
        t.second < 100,
    ensures
        ({
            let s = local_datetime_text(t);
            let y = decimal(t.year as nat).len() as int;
            &&& s.len() == 15 + y
            &&& all_digits(s.subrange(0, y)) && digits_value(s.subrange(0, y)) == t.year
            &&& s[y] == '-'
            &&& all_digits(s.subrange(y + 1, y + 3)) && digits_value(s.subrange(y + 1, y + 3))
                == t.month0 + 1
            &&& s[y + 3] == '-'
            &&& all_digits(s.subrange(y + 4, y + 6)) && digits_value(s.subrange(y + 4, y + 6))
                == t.day
            &&& s[y + 6] == 'T'
            &&& all_digits(s.subrange(y + 7, y + 9)) && digits_value(s.subrange(y + 7, y + 9))
                == t.hour
            &&& s[y + 9] == ':'
            &&& all_digits(s.subrange(y + 10, y + 12)) && digits_value(s.subrange(y + 10, y + 12))
                == t.minute
            &&& s[y + 12] == ':'
            &&& all_digits(s.subrange(y + 13, y + 15)) && digits_value(s.subrange(y + 13, y + 15))
                == t.second
        }),
{
    reveal_strlit("-");
    reveal_strlit("T");
    reveal_strlit(":");
    lemma_two_digit_field(t.day as nat);
    lemma_two_digit_field((t.month0 + 1) as nat);
    lemma_two_digit_field(t.hour as nat);
    lemma_two_digit_field(t.minute as nat);
    lemma_two_digit_field(t.second as nat);
    lemma_decimal_value(t.year as nat);
    lemma_decimal_digits(t.year as nat);
    let s = local_datetime_text(t);
    let y = decimal(t.year as nat).len() as int;
    assert(s.subrange(0, y) =~= decimal(t.year as nat));
    assert(s.subrange(y + 1, y + 3) =~= zero_padded((t.month0 + 1) as nat, 2));
    assert(s.subrange(y + 4, y + 6) =~= zero_padded(t.day as nat, 2));
    assert(s.subrange(y + 7, y + 9) =~= zero_padded(t.hour as nat, 2));
    assert(s.subrange(y + 10, y + 12) =~= zero_padded(t.minute as nat, 2));
    assert(s.subrange(y + 13, y + 15) =~= zero_padded(t.second as nat, 2));
}

/// The announced date `DD.MM.YYYY` of a year below 10000 is ten characters:
/// the day, the month counted from 1 and the four-digit year, each the
/// digits of its value.
pub proof fn law_announce_date_shows_each_field(day: u32, month0: u32, year: u32)
    requires
        day < 100,
        month0 < 99,
        year < 10000,
    ensures
        ({
            let s = announce_date_text(day, month0, year);
            &&& s.len() == 10
            &&& all_digits(s.subrange(0, 2)) && digits_value(s.subrange(0, 2)) == day
            &&& s[2] == '.'
            &&& all_digits(s.subrange(3, 5)) && digits_value(s.subrange(3, 5)) == month0 + 1
            &&& s[5] == '.'
            &&& all_digits(s.subrange(6, 10)) && digits_value(s.subrange(6, 10)) == year
        }),
{
    reveal_strlit(".");
    lemma_two_digit_field(day as nat);
    lemma_two_digit_field((month0 + 1) as nat);
    assert(pow10(4) == 10000) by {
        reveal_with_fuel(pow10, 5);
    }
    lemma_zero_padded_value(year as nat, 4);
    let s = announce_date_text(day, month0, year);
    assert(s.subrange(0, 2) =~= zero_padded(day as nat, 2));
    assert(s.subrange(3, 5) =~= zero_padded((month0 + 1) as nat, 2));
    assert(s.subrange(6, 10) =~= zero_padded(year as nat, 4));
}

/// An export line `YYYY-MM-DD hh:mm:ss.mmm000` and a line break shows each
/// field at its place as the digits of its value, the month counted from 1
/// and the milliseconds as three digits.
pub proof fn law_export_line_shows_each_field(t: LocalDateTime)
    requires
        t.day < 100,
        t.month0 < 99,
        t.hour < 100,
        t.minute < 100,
        t.second < 100,
        t.millisecond < 1000,
    ensures
        ({
            let s = export_line_text(t);
            let y = decimal(t.year as nat).len() as int;
            &&& s.len() == 23 + y
            &&& all_digits(s.subrange(0, y)) && digits_value(s.subrange(0, y)) == t.year
            &&& s[y] == '-'
            &&& all_digits(s.subrange(y + 1, y + 3)) && digits_value(s.subrange(y + 1, y + 3))
                == t.month0 + 1
            &&& s[y + 3] == '-'
            &&& all_digits(s.subrange(y + 4, y + 6)) && digits_value(s.subrange(y + 4, y + 6))
                == t.day
            &&& s[y + 6] == ' '
            &&& all_digits(s.subrange(y + 7, y + 9)) && digits_value(s.subrange(y + 7, y + 9))
                == t.hour
            &&& s[y + 9] == ':'
            &&& all_digits(s.subrange(y + 10, y + 12)) && digits_value(s.subrange(y + 10, y + 12))
                == t.minute
            &&& s[y + 12] == ':'
            &&& all_digits(s.subrange(y + 13, y + 15)) && digits_value(s.subrange(y + 13, y + 15))
                == t.second
            &&& s[y + 15] == '.'
            &&& all_digits(s.subrange(y + 16, y + 19)) && digits_value(s.subrange(y + 16, y + 19))
                == t.millisecond
            &&& s.subrange(y + 19, y + 23) == seq!['0', '0', '0', '\n']
        }),
{
    reveal_strlit("-");
    reveal_strlit(" ");
    reveal_strlit(":");
    reveal_strlit(".");
    reveal_strlit("000\n");
    lemma_two_digit_field(t.day as nat);
    lemma_two_digit_field((t.month0 + 1) as nat);
    lemma_two_digit_field(t.hour as nat);
    lemma_two_digit_field(t.minute as nat);
    lemma_two_digit_field(t.second as nat);
    assert(pow10(3) == 1000) by {
        reveal_with_fuel(pow10, 4);
    }
    lemma_zero_padded_value(t.millisecond as nat, 3);
    lemma_decimal_value(t.year as nat);
    lemma_decimal_digits(t.year as nat);
    let s = export_line_text(t);
    let y = decimal(t.year as nat).len() as int;
    assert(s.subrange(0, y) =~= decimal(t.year as nat));
    assert(s.subrange(y + 1, y + 3) =~= zero_padded((t.month0 + 1) as nat, 2));
    assert(s.subrange(y + 4, y + 6) =~= zero_padded(t.day as nat, 2));
    assert(s.subrange(y + 7, y + 9) =~= zero_padded(t.hour as nat, 2));
    assert(s.subrange(y + 10, y + 12) =~= zero_padded(t.minute as nat, 2));
    assert(s.subrange(y + 13, y + 15) =~= zero_padded(t.second as nat, 2));
    assert(s.subrange(y + 16, y + 19) =~= zero_padded(t.millisecond as nat, 3));
    assert(s.subrange(y + 19, y + 23) =~= seq!['0', '0', '0', '\n']);
}

/// The start of a day `YYYY-MM-DDT00:00:00` and of a month
/// `YYYY-MM-01T00:00:00` show the year, the month counted from 1 and the day
/// as the digits of their values, at midnight.
pub proof fn law_period_starts_show_each_field(year: u32, month0: u32, day: u32)
    requires
        month0 < 99,
        day < 100,
    ensures
        ({
            let s = day_start_text(year, month0, day);
            let y = decimal(year as nat).len() as int;
            &&& s.len() == 15 + y
            &&& all_digits(s.subrange(0, y)) && digits_value(s.subrange(0, y)) == year
            &&& s[y] == '-'
            &&& all_digits(s.subrange(y + 1, y + 3)) && digits_value(s.subrange(y + 1, y + 3))
                == month0 + 1
            &&& s[y + 3] == '-'
            &&& all_digits(s.subrange(y + 4, y + 6)) && digits_value(s.subrange(y + 4, y + 6))
                == day
            &&& s.subrange(y + 6, y + 15) == "T00:00:00"@
        }),
        ({
            let s = month_start_text(year, month0);
            let y = decimal(year as nat).len() as int;
            &&& s.len() == 15 + y
            &&& all_digits(s.subrange(0, y)) && digits_value(s.subrange(0, y)) == year
            &&& s[y] == '-'
            &&& all_digits(s.subrange(y + 1, y + 3)) && digits_value(s.subrange(y + 1, y + 3))
                == month0 + 1
            &&& s.subrange(y + 3, y + 15) == "-01T00:00:00"@
        }),
{
    reveal_strlit("-");
    reveal_strlit("T00:00:00");
    reveal_strlit("-01T00:00:00");
    lemma_two_digit_field(day as nat);
    lemma_two_digit_field((month0 + 1) as nat);
    lemma_decimal_value(year as nat);
    lemma_decimal_digits(year as nat);
    let s = day_start_text(year, month0, day);
    let m = month_start_text(year, month0);
    let y = decimal(year as nat).len() as int;
    assert(s.subrange(0, y) =~= decimal(year as nat));
    assert(s.subrange(y + 1, y + 3) =~= zero_padded((month0 + 1) as nat, 2));
    assert(s.subrange(y + 4, y + 6) =~= zero_padded(day as nat, 2));
    assert(s.subrange(y + 6, y + 15) =~= "T00:00:00"@);
    assert(m.subrange(0, y) =~= decimal(year as nat));
    assert(m.subrange(y + 1, y + 3) =~= zero_padded((month0 + 1) as nat, 2));
    assert(m.subrange(y + 3, y + 15) =~= "-01T00:00:00"@);
}

/// Digits, one `-`, digits: the form of an identifier.
pub open spec fn numeric_dash_numeric(s: Seq<char>) -> bool {
    exists|k: int|
        0 < k < s.len() - 1 && s[k] == '-' && all_digits(#[trigger] s.subrange(0, k))
            && all_digits(s.subrange(k + 1, s.len() as int))
}

/// An identifier is a run of digits, a `-` and a run of digits.
pub proof fn law_id_is_numeric_dash_numeric(ms: u64, random: u64)
    ensures
        numeric_dash_numeric(id_text(ms, random)),
{
    let a = decimal(ms as nat);
    let b = decimal(random as nat);
    let s = id_text(ms, random);
    lemma_decimal_digits(ms as nat);
    lemma_decimal_digits(random as nat);
    reveal_strlit("-");
    let k = a.len() as int;
    assert(s.subrange(0, k) =~= a);
    assert(s.subrange(k + 1, s.len() as int) =~= b);
    assert(s[k] == '-');
}

/// Different times or random numbers give different identifiers: the
/// identifier determines both.
pub proof fn law_id_determines_its_parts(ms1: u64, random1: u64, ms2: u64, random2: u64)
    requires
        id_text(ms1, random1) == id_text(ms2, random2),
    ensures
        ms1 == ms2,
        random1 == random2,
{
    let a1 = decimal(ms1 as nat);
    let b1 = decimal(random1 as nat);
    let a2 = decimal(ms2 as nat);
    let b2 = decimal(random2 as nat);
    let s = id_text(ms1, random1);
    lemma_decimal_digits(ms1 as nat);
    lemma_decimal_digits(random1 as nat);
    lemma_decimal_digits(ms2 as nat);
    lemma_decimal_digits(random2 as nat);
    reveal_strlit("-");
    assert(s == a1 + seq!['-'] + b1);
    assert(s == a2 + seq!['-'] + b2);
    // the `-` stands right after the first run of digits, in both readings
    if a1.len() < a2.len() {
        assert(s[a1.len() as int] == '-');
        assert(s[a1.len() as int] == a2[a1.len() as int]);
    }
    if a2.len() < a1.len() {
        assert(s[a2.len() as int] == '-');
        assert(s[a2.len() as int] == a1[a2.len() as int]);
    }
    assert(a1 =~= s.subrange(0, a1.len() as int));
    assert(a2 =~= s.subrange(0, a2.len() as int));
    assert(b1 =~= s.subrange(a1.len() as int + 1, s.len() as int));
    assert(b2 =~= s.subrange(a2.len() as int + 1, s.len() as int));
    lemma_decimal_injective(ms1 as nat, ms2 as nat);
    lemma_decimal_injective(random1 as nat, random2 as nat);
}

} // verus!
