//! Parsing of cron expressions. An expression has five to seven
//! whitespace-separated fields — `[seconds] minutes hours day-of-month month
//! day-of-week [year]` — where each field is a comma-separated list of `*`,
//! single values, ranges `a-b`, or stepped ranges `a-b/s`, `a/s`, `*/s`.
//! Month and day-of-week values may be written as names, recognized by their
//! first three letters, case-insensitively. The aliases `@yearly`,
//! `@monthly`, `@weekly`, `@daily` and `@hourly` denote fixed schedules.
//!
//! The grammar is stated once more as spec functions over the byte text
//! (`token_spans`, `spec_field`, `spec_parse`); the executable parser is
//! proved to accept exactly the expressions the grammar accepts and to
//! return exactly the schedule the grammar denotes.

use vstd::prelude::*;
use vstd::string::*;

use crate::errors::Error;
use crate::schedule::{Schedule, ScheduleView};

verus! {

pub open spec fn is_space_byte(c: u8) -> bool {
    c == 32 || c == 9
}

pub open spec fn is_digit_byte(c: u8) -> bool {
    48 <= c <= 57
}

pub open spec fn is_alpha_byte(c: u8) -> bool {
    (65 <= c <= 90) || (97 <= c <= 122)
}

pub open spec fn lower_of(c: u8) -> u8 {
    if 65 <= c <= 90 {
        (c + 32) as u8
    } else {
        c
    }
}

/// The half-open spans of the whitespace-separated fields, scanned left to
/// right; `in_tok`/`start` carry the scanner's state.
pub open spec fn spans_from(b: Seq<u8>, i: int, in_tok: bool, start: int) -> Seq<(int, int)>
    decreases b.len() - i,
{
    if i < 0 || i >= b.len() {
        if in_tok {
            seq![(start, b.len() as int)]
        } else {
            Seq::empty()
        }
    } else if is_space_byte(b[i]) {
        if in_tok {
            seq![(start, i)] + spans_from(b, i + 1, false, 0)
        } else {
            spans_from(b, i + 1, false, 0)
        }
    } else {
        if in_tok {
            spans_from(b, i + 1, true, start)
        } else {
            spans_from(b, i + 1, true, i)
        }
    }
}

/// The spans of an expression's fields, over its byte encoding.
pub open spec fn token_spans(b: Seq<u8>) -> Seq<(int, int)> {
    spans_from(b, 0, false, 0)
}

/// The number of whitespace-separated fields of an expression.
pub open spec fn field_count(b: Seq<u8>) -> int {
    token_spans(b).len() as int
}

pub open spec fn spans_match(t: Seq<(usize, usize)>, s: Seq<(int, int)>) -> bool {
    &&& t.len() == s.len()
    &&& forall|k: int| 0 <= k < t.len() ==> (#[trigger] t[k]).0 == s[k].0 && t[k].1 == s[k].1
}

/// A decimal number scanned from position `j` with accumulator `acc`;
/// numbers of more than five digits are refused.
pub open spec fn num_from(b: Seq<u8>, j: int, to: int, acc: int) -> Option<(int, int)>
    decreases to - j,
{
    if j < to && is_digit_byte(b[j]) {
        if acc > 9999 {
            None
        } else {
            num_from(b, j + 1, to, acc * 10 + (b[j] - 48))
        }
    } else {
        Some((acc, j))
    }
}

/// A decimal number starting at `i0`, with the position after it.
pub open spec fn spec_num(b: Seq<u8>, i0: int, to: int) -> Option<(int, int)> {
    if i0 < to && is_digit_byte(b[i0]) {
        num_from(b, i0 + 1, to, b[i0] - 48)
    } else {
        None
    }
}

/// The end of the alphabetic run starting at `j`.
pub open spec fn alpha_end(b: Seq<u8>, j: int, to: int) -> int
    decreases to - j,
{
    if j < to && is_alpha_byte(b[j]) {
        alpha_end(b, j + 1, to)
    } else {
        j
    }
}

/// The month named by three lowercased letters.
pub open spec fn month_value(c0: u8, c1: u8, c2: u8) -> Option<int> {
    if c0 == 106 && c1 == 97 && c2 == 110 {
        Some(1)
    } else if c0 == 102 && c1 == 101 && c2 == 98 {
        Some(2)
    } else if c0 == 109 && c1 == 97 && c2 == 114 {
        Some(3)
    } else if c0 == 97 && c1 == 112 && c2 == 114 {
        Some(4)
    } else if c0 == 109 && c1 == 97 && c2 == 121 {
        Some(5)
    } else if c0 == 106 && c1 == 117 && c2 == 110 {
        Some(6)
    } else if c0 == 106 && c1 == 117 && c2 == 108 {
        Some(7)
    } else if c0 == 97 && c1 == 117 && c2 == 103 {
        Some(8)
    } else if c0 == 115 && c1 == 101 && c2 == 112 {
        Some(9)
    } else if c0 == 111 && c1 == 99 && c2 == 116 {
        Some(10)
    } else if c0 == 110 && c1 == 111 && c2 == 118 {
        Some(11)
    } else if c0 == 100 && c1 == 101 && c2 == 99 {
        Some(12)
    } else {
        None
    }
}

/// The day of week named by three lowercased letters (0 = Sunday).
pub open spec fn dow_value(c0: u8, c1: u8, c2: u8) -> Option<int> {
    if c0 == 115 && c1 == 117 && c2 == 110 {
        Some(0)
    } else if c0 == 109 && c1 == 111 && c2 == 110 {
        Some(1)
    } else if c0 == 116 && c1 == 117 && c2 == 101 {
        Some(2)
    } else if c0 == 119 && c1 == 101 && c2 == 100 {
        Some(3)
    } else if c0 == 116 && c1 == 104 && c2 == 117 {
        Some(4)
    } else if c0 == 102 && c1 == 114 && c2 == 105 {
        Some(5)
    } else if c0 == 115 && c1 == 97 && c2 == 116 {
        Some(6)
    } else {
        None
    }
}

/// A month or day name starting at `i0`: an alphabetic run of at least
/// three letters, recognized by its first three, case-insensitively.
pub open spec fn spec_name(b: Seq<u8>, i0: int, to: int, names: u8) -> Option<(int, int)> {
    let j = alpha_end(b, i0, to);
    if j - i0 < 3 {
        None
    } else {
        let c0 = lower_of(b[i0]);
        let c1 = lower_of(b[i0 + 1]);
        let c2 = lower_of(b[i0 + 2]);
        if names == 1 {
            match month_value(c0, c1, c2) {
                Some(v) => Some((v, j)),
                None => None,
            }
        } else if names == 2 {
            match dow_value(c0, c1, c2) {
                Some(v) => Some((v, j)),
                None => None,
            }
        } else {
            None
        }
    }
}

/// A single field value: a number, or a name where the field admits names.
pub open spec fn spec_value(b: Seq<u8>, i0: int, to: int, names: u8) -> Option<(int, int)> {
    if i0 >= to {
        None
    } else if is_digit_byte(b[i0]) {
        spec_num(b, i0, to)
    } else if names != 0 {
        spec_name(b, i0, to, names)
    } else {
        None
    }
}

/// One list item of a field: the admitted values from `it.0` through `it.1`
/// in steps of `it.2`, with the input consumed up to `it.3`. `None` when the
/// item is malformed or a value lies outside `lo..=hi`.
pub open spec fn spec_item(b: Seq<u8>, i0: int, to: int, lo: int, hi: int, star_hi: int, names: u8)
    -> Option<(int, int, int, int)> {
    let head = if b[i0] == 42 {
        Some((lo, star_hi, i0 + 1, true))
    } else {
        match spec_value(b, i0, to, names) {
            None => None,
            Some((v, j)) => if j < to && b[j] == 45 {
                if j + 1 >= to {
                    None
                } else {
                    match spec_value(b, j + 1, to, names) {
                        None => None,
                        Some((w, k)) => Some((v, w, k, true)),
                    }
                }
            } else {
                Some((v, v, j, false))
            },
        }
    };
    match head {
        None => None,
        Some((av, bv0, j, ranged)) => {
            let stepped = if j < to && b[j] == 47 {
                if j + 1 >= to {
                    None
                } else {
                    match spec_num(b, j + 1, to) {
                        None => None,
                        Some((st, k)) => if st == 0 {
                            None
                        } else {
                            Some(
                                (
                                    if ranged {
                                        bv0
                                    } else {
                                        star_hi
                                    },
                                    st,
                                    k,
                                ),
                            )
                        },
                    }
                }
            } else {
                Some((bv0, 1, j))
            };
            match stepped {
                None => None,
                Some((bv, step, k)) => if av < lo || bv > hi || av > bv {
                    None
                } else {
                    Some((av, bv, step, k))
                },
            }
        },
    }
}

/// Whether mask index `idx` is admitted by the item `av..=bv` step `step`:
/// the index's value (`idx + base`) is hit by the step sequence; for the
/// day-of-week field the value 7 also means Sunday (index 0).
pub open spec fn idx_admitted(av: int, bv: int, step: int, base: int, names: u8, idx: int) -> bool {
    ||| (av <= idx + base <= bv && (idx + base - av) % step == 0)
    ||| (names == 2 && idx == 0 && av <= 7 <= bv && (7 - av) % step == 0)
}

pub open spec fn item_mask(len: int, base: int, names: u8, av: int, bv: int, step: int) -> Seq<
    bool,
> {
    Seq::new(len as nat, |idx: int| idx_admitted(av, bv, step, base, names, idx))
}

pub open spec fn mask_or(a: Seq<bool>, m: Seq<bool>) -> Seq<bool> {
    Seq::new(a.len(), |i: int| a[i] || m[i])
}

/// The union mask of a comma-separated item list running from `i` to `to`.
pub open spec fn items_mask(
    b: Seq<u8>,
    i: int,
    to: int,
    lo: int,
    hi: int,
    star_hi: int,
    names: u8,
    len: int,
    base: int,
) -> Option<Seq<bool>>
    decreases to - i,
{
    match spec_item(b, i, to, lo, hi, star_hi, names) {
        None => None,
        Some((av, bv, step, j)) => {
            if !(i < j && j <= to) {
                None
            } else if j == to {
                Some(item_mask(len, base, names, av, bv, step))
            } else if b[j] == 44 && j + 1 < to {
                match items_mask(b, j + 1, to, lo, hi, star_hi, names, len, base) {
                    None => None,
                    Some(m) => Some(mask_or(item_mask(len, base, names, av, bv, step), m)),
                }
            } else {
                None
            }
        },
    }
}

/// One whole field: its membership mask (indexed by `value - base`) and
/// whether the field is exactly the wildcard.
pub open spec fn spec_field(
    b: Seq<u8>,
    from: int,
    to: int,
    lo: int,
    hi: int,
    base: int,
    len: int,
    star_hi: int,
    names: u8,
) -> Option<(Seq<bool>, bool)> {
    if from >= to {
        None
    } else if to - from == 1 && b[from] == 42 {
        Some((span_mask(len, lo - base, star_hi - base), true))
    } else {
        match items_mask(b, from, to, lo, hi, star_hi, names, len, base) {
            None => None,
            Some(m) => Some((m, false)),
        }
    }
}

/// Whether the bytes are one of the five schedule aliases.
pub open spec fn is_macro_bytes(b: Seq<u8>) -> bool {
    ||| b == "@yearly".spec_bytes()
    ||| b == "@monthly".spec_bytes()
    ||| b == "@weekly".spec_bytes()
    ||| b == "@daily".spec_bytes()
    ||| b == "@hourly".spec_bytes()
}

/// A mask admitting exactly one value.
pub open spec fn only_at(len: int, at: int) -> Seq<bool> {
    Seq::new(len as nat, |i: int| i == at)
}

/// A mask admitting exactly the values from `lo` through `hi`.
pub open spec fn span_mask(len: int, lo: int, hi: int) -> Seq<bool> {
    Seq::new(len as nat, |i: int| lo <= i <= hi)
}

/// The schedule `@yearly` denotes: 00:00:00 on January 1st.
pub open spec fn yearly_view() -> ScheduleView {
    ScheduleView {
        seconds: only_at(60, 0),
        minutes: only_at(60, 0),
        hours: only_at(24, 0),
        days_of_month: only_at(32, 1),
        months: only_at(13, 1),
        days_of_week: span_mask(7, 0, 6),
        years: span_mask(130, 0, 129),
        dom_star: false,
        dow_star: true,
    }
}

/// The schedule `@monthly` denotes: 00:00:00 on the 1st of every month.
pub open spec fn monthly_view() -> ScheduleView {
    ScheduleView { months: span_mask(13, 1, 12), ..yearly_view() }
}

/// The schedule `@weekly` denotes: 00:00:00 every Sunday.
pub open spec fn weekly_view() -> ScheduleView {
    ScheduleView {
        days_of_month: span_mask(32, 1, 31),
        months: span_mask(13, 1, 12),
        days_of_week: only_at(7, 0),
        dom_star: true,
        dow_star: false,
        ..yearly_view()
    }
}

/// The schedule `@daily` denotes: 00:00:00 every day.
pub open spec fn daily_view() -> ScheduleView {
    ScheduleView {
        days_of_month: span_mask(32, 1, 31),
        months: span_mask(13, 1, 12),
        dom_star: true,
        ..yearly_view()
    }
}

/// The schedule `@hourly` denotes: the start of every hour.
pub open spec fn hourly_view() -> ScheduleView {
    ScheduleView { hours: span_mask(24, 0, 23), ..daily_view() }
}

/// The schedule each alias denotes, by its byte encoding.
pub open spec fn macro_view_of(b: Seq<u8>) -> ScheduleView {
    if b == "@yearly".spec_bytes() {
        yearly_view()
    } else if b == "@monthly".spec_bytes() {
        monthly_view()
    } else if b == "@weekly".spec_bytes() {
        weekly_view()
    } else if b == "@daily".spec_bytes() {
        daily_view()
    } else {
        hourly_view()
    }
}

/// The schedule an expression denotes, or `None` where the expression is
/// rejected: an alias denotes its fixed schedule; otherwise the text must
/// split into five to seven fields, each a well-formed list of in-domain
/// values, and the denoted schedule carries each field's membership mask.
pub open spec fn spec_parse(b: Seq<u8>) -> Option<ScheduleView> {
    if is_macro_bytes(b) {
        Some(macro_view_of(b))
    } else {
        let toks = token_spans(b);
        let n = toks.len() as int;
        if n < 5 || n > 7 {
            None
        } else {
            let off: int = if n >= 6 {
                1
            } else {
                0
            };
            let sec = if n >= 6 {
                spec_field(b, toks[0].0, toks[0].1, 0, 59, 0, 60, 59, 0)
            } else {
                Some((only_at(60, 0), false))
            };
            let min = spec_field(b, toks[off].0, toks[off].1, 0, 59, 0, 60, 59, 0);
            let hour = spec_field(b, toks[off + 1].0, toks[off + 1].1, 0, 23, 0, 24, 23, 0);
            let dom = spec_field(b, toks[off + 2].0, toks[off + 2].1, 1, 31, 0, 32, 31, 0);
            let mon = spec_field(b, toks[off + 3].0, toks[off + 3].1, 1, 12, 0, 13, 12, 1);
            let dow = spec_field(b, toks[off + 4].0, toks[off + 4].1, 0, 7, 0, 7, 6, 2);
            let years = if n == 7 {
                spec_field(b, toks[6].0, toks[6].1, 1970, 2099, 1970, 130, 2099, 0)
            } else {
                Some((span_mask(130, 0, 129), true))
            };
            if sec is None || min is None || hour is None || dom is None || mon is None || dow
                is None || years is None {
                None
            } else {
                Some(
                    ScheduleView {
                        seconds: sec->Some_0.0,
                        minutes: min->Some_0.0,
                        hours: hour->Some_0.0,
                        days_of_month: dom->Some_0.0,
                        months: mon->Some_0.0,
                        days_of_week: dow->Some_0.0,
                        years: years->Some_0.0,
                        dom_star: dom->Some_0.1,
                        dow_star: dow->Some_0.1,
                    },
                )
            }
        }
    }
}

fn bytes_eq(a: &[u8], b: &[u8]) -> (r: bool)
    ensures
        r == (a@ == b@),
{
    if a.len() != b.len() {
        return false;
    }
    let mut i: usize = 0;
    while i < a.len()
        invariant
            i <= a@.len(),
            a@.len() == b@.len(),
            forall|j: int| 0 <= j < i ==> a@[j] == b@[j],
        decreases a@.len() - i,
    {
        if a[i] != b[i] {
            return false;
        }
        i = i + 1;
    }
    proof {
        assert(a@ =~= b@);
    }
    true
}

fn mask_span(len: usize, lo: usize, hi: usize) -> (v: Vec<bool>)
    requires
        lo <= hi < len,
    ensures
        v@ == span_mask(len as int, lo as int, hi as int),
{
    let mut v: Vec<bool> = vec![false; len];
    let mut i: usize = lo;
    while i <= hi
        invariant
            lo <= i <= hi + 1,
            hi < len,
            v@.len() == len,
            forall|j: int| 0 <= j < len ==> (v@[j] <==> lo <= j < i),
        decreases hi + 1 - i,
    {
        v[i] = true;
        i = i + 1;
    }
    proof {
        assert(v@ =~= span_mask(len as int, lo as int, hi as int));
    }
    v
}

fn mask_only(len: usize, at: usize) -> (v: Vec<bool>)
    requires
        at < len,
    ensures
        v@ == only_at(len as int, at as int),
{
    let mut v: Vec<bool> = vec![false; len];
    v[at] = true;
    proof {
        assert(v@ =~= only_at(len as int, at as int));
    }
    v
}

fn yearly_schedule() -> (s: Schedule)
    ensures
        s@ == yearly_view(),
{
    Schedule {
        seconds: mask_only(60, 0),
        minutes: mask_only(60, 0),
        hours: mask_only(24, 0),
        days_of_month: mask_only(32, 1),
        months: mask_only(13, 1),
        days_of_week: mask_span(7, 0, 6),
        years: mask_span(130, 0, 129),
        dom_star: false,
        dow_star: true,
    }
}

fn monthly_schedule() -> (s: Schedule)
    ensures
        s@ == monthly_view(),
{
    Schedule { months: mask_span(13, 1, 12), ..yearly_schedule() }
}

fn weekly_schedule() -> (s: Schedule)
    ensures
        s@ == weekly_view(),
{
    Schedule {
        days_of_month: mask_span(32, 1, 31),
        months: mask_span(13, 1, 12),
        days_of_week: mask_only(7, 0),
        dom_star: true,
        dow_star: false,
        ..yearly_schedule()
    }
}

fn daily_schedule() -> (s: Schedule)
    ensures
        s@ == daily_view(),
{
    Schedule {
        days_of_month: mask_span(32, 1, 31),
        months: mask_span(13, 1, 12),
        dom_star: true,
        ..yearly_schedule()
    }
}

fn hourly_schedule() -> (s: Schedule)
    ensures
        s@ == hourly_view(),
{
    Schedule { hours: mask_span(24, 0, 23), ..daily_schedule() }
}

fn tokenize(b: &[u8]) -> (toks: Vec<(usize, usize)>)
    ensures
        spans_match(toks@, token_spans(b@)),
        forall|k: int| 0 <= k < toks@.len() ==> (#[trigger] toks@[k]).0 <= toks@[k].1 <= b@.len(),
{
    let n = b.len();
    let mut toks: Vec<(usize, usize)> = Vec::new();
    let mut i: usize = 0;
    let mut in_tok: bool = false;
    let mut start: usize = 0;
    let ghost mut done: Seq<(int, int)> = Seq::empty();
    while i < n
        invariant
            i <= n,
            n == b@.len(),
            in_tok ==> start <= i,
            spans_match(toks@, done),
            token_spans(b@) == done + spans_from(
                b@,
                i as int,
                in_tok,
                if in_tok {
                    start as int
                } else {
                    0
                },
            ),
            forall|k: int|
                0 <= k < toks@.len() ==> (#[trigger] toks@[k]).0 <= toks@[k].1 <= b@.len(),
        decreases n - i,
    {
        let c = b[i];
        if c == 32 || c == 9 {
            if in_tok {
                proof {
                    assert(spans_from(b@, i as int, true, start as int) == seq![
                        (start as int, i as int),
                    ] + spans_from(b@, i as int + 1, false, 0));
                }
                toks.push((start, i));
                proof {
                    done = done + seq![(start as int, i as int)];
                    assert(token_spans(b@) == done + spans_from(b@, i as int + 1, false, 0));
                }
                in_tok = false;
            } else {
                proof {
                    assert(spans_from(b@, i as int, false, 0) == spans_from(
                        b@,
                        i as int + 1,
                        false,
                        0,
                    ));
                }
            }
        } else {
            if in_tok {
                proof {
                    assert(spans_from(b@, i as int, true, start as int) == spans_from(
                        b@,
                        i as int + 1,
                        true,
                        start as int,
                    ));
                }
            } else {
                proof {
                    assert(spans_from(b@, i as int, false, 0) == spans_from(
                        b@,
                        i as int + 1,
                        true,
                        i as int,
                    ));
                }
                start = i;
                in_tok = true;
            }
        }
        i = i + 1;
    }
    if in_tok {
        proof {
            assert(spans_from(b@, n as int, true, start as int) == seq![(start as int, n as int)]);
        }
        toks.push((start, n));
        proof {
            done = done + seq![(start as int, n as int)];
            assert(token_spans(b@) =~= done);
        }
    } else {
        proof {
            assert(spans_from(b@, n as int, false, 0) == Seq::<(int, int)>::empty());
            assert(token_spans(b@) =~= done);
        }
    }
    toks
}

fn lower_byte(c: u8) -> (r: u8)
    ensures
        r == lower_of(c),
{
    if 65 <= c && c <= 90 {
        c + 32
    } else {
        c
    }
}

fn parse_num(b: &[u8], i0: usize, to: usize) -> (r: Result<(u64, usize), Error>)
    requires
        i0 <= to <= b@.len(),
    ensures
        r matches Ok(v) ==> i0 < v.1 <= to && v.0 < 100000 && spec_num(b@, i0 as int, to as int)
            == Some((v.0 as int, v.1 as int)),
        r is Err ==> r == Err::<(u64, usize), Error>(Error::InvalidExpression) && spec_num(
            b@,
            i0 as int,
            to as int,
        ) is None,
{
    if i0 >= to {
        return Err(Error::InvalidExpression);
    }
    let c0 = b[i0];
    if !(48 <= c0 && c0 <= 57) {
        return Err(Error::InvalidExpression);
    }
    let mut val: u64 = (c0 - 48) as u64;
    let mut j: usize = i0 + 1;
    while j < to && 48 <= b[j] && b[j] <= 57
        invariant
            i0 < j <= to,
            to <= b@.len(),
            val < 100000,
            spec_num(b@, i0 as int, to as int) == num_from(b@, j as int, to as int, val as int),
        decreases to - j,
    {
        if val > 9999 {
            proof {
                assert(num_from(b@, j as int, to as int, val as int) is None);
            }
            return Err(Error::InvalidExpression);
        }
        proof {
            assert(num_from(b@, j as int, to as int, val as int) == num_from(
                b@,
                j as int + 1,
                to as int,
                val as int * 10 + (b@[j as int] - 48),
            ));
        }
        val = val * 10 + ((b[j] - 48) as u64);
        j = j + 1;
    }
    proof {
        assert(num_from(b@, j as int, to as int, val as int) == Some((val as int, j as int)));
    }
    Ok((val, j))
}

fn parse_name(b: &[u8], i0: usize, to: usize, names: u8) -> (r: Result<(u64, usize), Error>)
    requires
        i0 < to <= b@.len(),
    ensures
        r matches Ok(v) ==> i0 < v.1 <= to && v.0 < 13 && spec_name(
            b@,
            i0 as int,
            to as int,
            names,
        ) == Some((v.0 as int, v.1 as int)),
        r is Err ==> r == Err::<(u64, usize), Error>(Error::InvalidExpression) && spec_name(
            b@,
            i0 as int,
            to as int,
            names,
        ) is None,
{
    let mut j: usize = i0;
    while j < to && ((65 <= b[j] && b[j] <= 90) || (97 <= b[j] && b[j] <= 122))
        invariant
            i0 <= j <= to,
            to <= b@.len(),
            alpha_end(b@, i0 as int, to as int) == alpha_end(b@, j as int, to as int),
        decreases to - j,
    {
        proof {
            assert(alpha_end(b@, j as int, to as int) == alpha_end(b@, j as int + 1, to as int));
        }
        j = j + 1;
    }
    proof {
        assert(alpha_end(b@, j as int, to as int) == j as int);
    }
    if j - i0 < 3 {
        return Err(Error::InvalidExpression);
    }
    let c0 = lower_byte(b[i0]);
    let c1 = lower_byte(b[i0 + 1]);
    let c2 = lower_byte(b[i0 + 2]);
    let v: u64 = if names == 1 {
        if c0 == 106 && c1 == 97 && c2 == 110 {
            1  // January
        } else if c0 == 102 && c1 == 101 && c2 == 98 {
            2  // February
        } else if c0 == 109 && c1 == 97 && c2 == 114 {
            3  // March
        } else if c0 == 97 && c1 == 112 && c2 == 114 {
            4  // April
        } else if c0 == 109 && c1 == 97 && c2 == 121 {
            5  // May
        } else if c0 == 106 && c1 == 117 && c2 == 110 {
            6  // June
        } else if c0 == 106 && c1 == 117 && c2 == 108 {
            7  // July
        } else if c0 == 97 && c1 == 117 && c2 == 103 {
            8  // August
        } else if c0 == 115 && c1 == 101 && c2 == 112 {
            9  // September
        } else if c0 == 111 && c1 == 99 && c2 == 116 {
            10  // October
        } else if c0 == 110 && c1 == 111 && c2 == 118 {
            11  // November
        } else if c0 == 100 && c1 == 101 && c2 == 99 {
            12  // December
        } else {
            return Err(Error::InvalidExpression);
        }
    } else if names == 2 {
        if c0 == 115 && c1 == 117 && c2 == 110 {
            0  // Sunday
        } else if c0 == 109 && c1 == 111 && c2 == 110 {
            1  // Monday
        } else if c0 == 116 && c1 == 117 && c2 == 101 {
            2  // Tuesday
        } else if c0 == 119 && c1 == 101 && c2 == 100 {
            3  // Wednesday
        } else if c0 == 116 && c1 == 104 && c2 == 117 {
            4  // Thursday
        } else if c0 == 102 && c1 == 114 && c2 == 105 {
            5  // Friday
        } else if c0 == 115 && c1 == 97 && c2 == 116 {
            6  // Saturday
        } else {
            return Err(Error::InvalidExpression);
        }
    } else {
        return Err(Error::InvalidExpression);
    };
    Ok((v, j))
}

fn parse_value(b: &[u8], i0: usize, to: usize, names: u8) -> (r: Result<(u64, usize), Error>)
    requires
        i0 < to <= b@.len(),
    ensures
        r matches Ok(v) ==> i0 < v.1 <= to && v.0 < 100000 && spec_value(
            b@,
            i0 as int,
            to as int,
            names,
        ) == Some((v.0 as int, v.1 as int)),
        r is Err ==> r == Err::<(u64, usize), Error>(Error::InvalidExpression) && spec_value(
            b@,
            i0 as int,
            to as int,
            names,
        ) is None,
{
    let c = b[i0];
    if 48 <= c && c <= 57 {
        parse_num(b, i0, to)
    } else if names != 0 {
        parse_name(b, i0, to, names)
    } else {
        Err(Error::InvalidExpression)
    }
}

/// One list item of a field: admitted values from `it.0` through `it.1` in
/// steps of `it.2`, with the input consumed up to `it.3`.
fn parse_item(b: &[u8], i0: usize, to: usize, lo: u64, hi: u64, star_hi: u64, names: u8) -> (r:
    Result<(u64, u64, u64, usize), Error>)
    requires
        i0 < to <= b@.len(),
        lo <= star_hi <= hi,
        hi < 10000,
    ensures
        r matches Ok(it) ==> lo <= it.0 <= it.1 <= hi && 1 <= it.2 < 100000 && i0 < it.3 <= to
            && spec_item(b@, i0 as int, to as int, lo as int, hi as int, star_hi as int, names)
            == Some((it.0 as int, it.1 as int, it.2 as int, it.3 as int)),
        r is Err ==> r == Err::<(u64, u64, u64, usize), Error>(Error::InvalidExpression)
            && spec_item(
            b@,
            i0 as int,
            to as int,
            lo as int,
            hi as int,
            star_hi as int,
            names,
        ) is None,
{
    let mut av: u64;
    let mut bv: u64;
    let mut j: usize;
    let mut ranged: bool;
    if b[i0] == 42 {
        av = lo;
        bv = star_hi;
        j = i0 + 1;
        ranged = true;
    } else {
        let (v, nj) = match parse_value(b, i0, to, names) {
            Ok(p) => p,
            Err(e) => {
                return Err(e);
            },
        };
        av = v;
        bv = v;
        j = nj;
        ranged = false;
        if j < to && b[j] == 45 {
            if j + 1 >= to {
                return Err(Error::InvalidExpression);
            }
            let (w, nk) = match parse_value(b, j + 1, to, names) {
                Ok(p) => p,
                Err(e) => {
                    return Err(e);
                },
            };
            bv = w;
            j = nk;
            ranged = true;
        }
    }
    let mut step: u64 = 1;
    if j < to && b[j] == 47 {
        if j + 1 >= to {
            return Err(Error::InvalidExpression);
        }
        let (st, nk) = match parse_num(b, j + 1, to) {
            Ok(p) => p,
            Err(e) => {
                return Err(e);
            },
        };
        if st == 0 {
            return Err(Error::InvalidExpression);
        }
        step = st;
        j = nk;
        if !ranged {
            bv = star_hi;
        }
    }
    if av < lo || bv > hi || av > bv {
        return Err(Error::InvalidExpression);
    }
    Ok((av, bv, step, j))
}

proof fn lemma_step_unique(av: int, step: int, v: int, x: int)
    requires
        1 <= step,
        (v - av) % step == 0,
        (x - av) % step == 0,
        v <= x < v + step,
    ensures
        x == v,
{
    assert(x == v) by (nonlinear_arith)
        requires
            1 <= step,
            (v - av) % step == 0,
            (x - av) % step == 0,
            v <= x < v + step,
    ;
}

/// Sets every value the item admits in the mask.
fn apply_item(
    mask: &mut Vec<bool>,
    av: u64,
    bv: u64,
    step: u64,
    base: u64,
    len: usize,
    names: u8,
)
    requires
        old(mask)@.len() == len,
        base <= av <= bv,
        1 <= step < 100000,
        bv < 10000,
        names == 2 ==> base == 0 && bv <= 7 && len == 7,
        names != 2 ==> bv - base < len,
    ensures
        final(mask)@ == mask_or(
            old(mask)@,
            item_mask(len as int, base as int, names, av as int, bv as int, step as int),
        ),
{
    let mut v: u64 = av;
    proof {
        assert((av as int - av as int) % (step as int) == 0) by (nonlinear_arith)
            requires
                1 <= step as int,
        ;
    }
    while v <= bv
        invariant
            av <= v,
            (v as int - av as int) % (step as int) == 0,
            v <= bv + step,
            base <= av <= bv,
            1 <= step < 100000,
            bv < 10000,
            names == 2 ==> base == 0 && bv <= 7 && len == 7,
            names != 2 ==> bv - base < len,
            mask@.len() == len,
            forall|idx: int|
                0 <= idx < len ==> (mask@[idx] <==> old(mask)@[idx] || (av <= idx + base <= bv
                    && idx + base < v && (idx + base - av as int) % (step as int) == 0) || (names
                    == 2 && idx == 0 && av <= 7 <= bv && 7 < v && (7 - av as int) % (step as int)
                    == 0)),
        decreases bv + step - v,
    {
        let idx = if names == 2 && v == 7 {
            0
        } else {
            (v - base) as usize
        };
        let ghost before = mask@;
        mask[idx] = true;
        proof {
            assert forall|k: int|
                0 <= k < len implies (mask@[k] <==> old(mask)@[k] || (av <= k + base <= bv && k
                + base < v + step && (k + base - av) % (step as int) == 0) || (names == 2 && k == 0
                && av <= 7 <= bv && 7 < v + step && (7 - av) % (step as int) == 0)) by {
                if av <= k + base <= bv && k + base < v + step && (k + base - av as int) % (
                step as int) == 0 && !(k + base < v) {
                    lemma_step_unique(av as int, step as int, v as int, k + base);
                }
                if names == 2 && k == 0 && av <= 7 <= bv && 7 < v + step && (7 - av as int) % (
                step as int) == 0 && !(7 < v) {
                    lemma_step_unique(av as int, step as int, v as int, 7);
                }
            }
            assert((v as int + step as int - av as int) % (step as int) == 0) by (nonlinear_arith)
                requires
                    1 <= step as int,
                    (v as int - av as int) % (step as int) == 0,
            ;
        }
        v = v + step;
    }
    proof {
        assert(final(mask)@ =~= mask_or(
            old(mask)@,
            item_mask(len as int, base as int, names, av as int, bv as int, step as int),
        ));
    }
}

proof fn lemma_items_mask_len(
    b: Seq<u8>,
    i: int,
    to: int,
    lo: int,
    hi: int,
    star_hi: int,
    names: u8,
    len: int,
    base: int,
)
    requires
        0 <= len,
    ensures
        items_mask(b, i, to, lo, hi, star_hi, names, len, base) matches Some(m) ==> m.len() == len,
    decreases to - i,
{
    let r = items_mask(b, i, to, lo, hi, star_hi, names, len, base);
    match spec_item(b, i, to, lo, hi, star_hi, names) {
        None => {
            assert(r is None);
        },
        Some((av, bv, step, j)) => {
            if !(i < j && j <= to) {
                assert(r is None);
            } else if j == to {
                assert(r == Some(item_mask(len, base, names, av, bv, step)));
            } else if b[j] == 44 && j + 1 < to {
                lemma_items_mask_len(b, j + 1, to, lo, hi, star_hi, names, len, base);
                match items_mask(b, j + 1, to, lo, hi, star_hi, names, len, base) {
                    None => {
                        assert(r is None);
                    },
                    Some(m) => {
                        assert(r == Some(mask_or(item_mask(len, base, names, av, bv, step), m)));
                    },
                }
            } else {
                assert(r is None);
            }
        },
    }
}

/// One whole field: a membership mask of length `len`, indexed by
/// `value - base`, and whether the field was exactly the wildcard.
#[verifier::rlimit(60)]
fn parse_field(
    b: &[u8],
    from: usize,
    to: usize,
    lo: u64,
    hi: u64,
    base: u64,
    len: usize,
    star_hi: u64,
    names: u8,
) -> (r: Result<(Vec<bool>, bool), Error>)
    requires
        from <= to <= b@.len(),
        base <= lo <= star_hi <= hi,
        names == 2 ==> base == 0 && hi <= 7 && len == 7,
        names != 2 ==> hi - base < len,
        star_hi - base < len,
        hi < 10000,
    ensures
        r matches Ok(p) ==> ({
            &&& p.0@.len() == len as int
            &&& (p.1 ==> forall|i: int| lo - base <= i <= star_hi - base ==> p.0@[i])
            &&& spec_field(
                b@,
                from as int,
                to as int,
                lo as int,
                hi as int,
                base as int,
                len as int,
                star_hi as int,
                names,
            ) == Some((p.0@, p.1))
        }),
        r is Err ==> r == Err::<(Vec<bool>, bool), Error>(Error::InvalidExpression) && spec_field(
            b@,
            from as int,
            to as int,
            lo as int,
            hi as int,
            base as int,
            len as int,
            star_hi as int,
            names,
        ) is None,
{
    if from >= to {
        return Err(Error::InvalidExpression);
    }
    if to - from == 1 && b[from] == 42 {
        let m = mask_span(len, (lo - base) as usize, (star_hi - base) as usize);
        return Ok((m, true));
    }
    let ghost goal = items_mask(
        b@,
        from as int,
        to as int,
        lo as int,
        hi as int,
        star_hi as int,
        names,
        len as int,
        base as int,
    );
    let mut mask: Vec<bool> = vec![false; len];
    let mut i: usize = from;
    proof {
        lemma_items_mask_len(
            b@,
            from as int,
            to as int,
            lo as int,
            hi as int,
            star_hi as int,
            names,
            len as int,
            base as int,
        );
        match goal {
            Some(m0) => {
                assert(mask_or(mask@, m0) =~= m0);
            },
            None => {},
        }
    }
    while i < to
        invariant
            from <= i <= to <= b@.len(),
            mask@.len() == len,
            base <= lo <= star_hi <= hi,
            names == 2 ==> base == 0 && hi <= 7 && len == 7,
            names != 2 ==> hi - base < len,
            hi < 10000,
            goal == items_mask(
                b@,
                from as int,
                to as int,
                lo as int,
                hi as int,
                star_hi as int,
                names,
                len as int,
                base as int,
            ),
            i < to ==> ({
                let rest = items_mask(
                    b@,
                    i as int,
                    to as int,
                    lo as int,
                    hi as int,
                    star_hi as int,
                    names,
                    len as int,
                    base as int,
                );
                &&& (rest matches Some(m) ==> goal == Some(mask_or(mask@, m)))
                &&& (rest is None ==> goal is None)
            }),
            i == to ==> goal == Some(mask@),
        decreases to - i,
    {
        let ghost rest0 = items_mask(
            b@,
            i as int,
            to as int,
            lo as int,
            hi as int,
            star_hi as int,
            names,
            len as int,
            base as int,
        );
        let it = match parse_item(b, i, to, lo, hi, star_hi, names) {
            Ok(p) => p,
            Err(e) => {
                proof {
                    assert(rest0 is None);
                }
                return Err(e);
            },
        };
        let (av, bv, step, ni) = it;
        let ghost imask = item_mask(
            len as int,
            base as int,
            names,
            av as int,
            bv as int,
            step as int,
        );
        let ghost before = mask@;
        apply_item(&mut mask, av, bv, step, base, len, names);
        i = ni;
        if i < to {
            if b[i] == 44 {
                i = i + 1;
                if i >= to {
                    proof {
                        assert(rest0 is None);
                    }
                    return Err(Error::InvalidExpression);
                }
                proof {
                    let rest1 = items_mask(
                        b@,
                        i as int,
                        to as int,
                        lo as int,
                        hi as int,
                        star_hi as int,
                        names,
                        len as int,
                        base as int,
                    );
                    lemma_items_mask_len(
                        b@,
                        i as int,
                        to as int,
                        lo as int,
                        hi as int,
                        star_hi as int,
                        names,
                        len as int,
                        base as int,
                    );
                    match rest1 {
                        Some(m1) => {
                            assert(rest0 == Some(mask_or(imask, m1)));
                            assert(mask_or(before, mask_or(imask, m1)) =~= mask_or(mask@, m1));
                        },
                        None => {
                            assert(rest0 is None);
                        },
                    }
                }
            } else {
                proof {
                    assert(rest0 is None);
                }
                return Err(Error::InvalidExpression);
            }
        } else {
            proof {
                assert(rest0 == Some(imask));
            }
        }
    }
    Ok((mask, false))
}

/// Parses a cron expression or one of the five aliases: the result is
/// exactly what the grammar `spec_parse` denotes for the input text, and
/// the parse succeeds exactly when the grammar accepts the text.
///
/// A non-alias expression with fewer than five or more than seven fields is
/// rejected with `InvalidExpression`, as is any field value outside its
/// domain (seconds and minutes 0-59, hours 0-23, days of month 1-31, months
/// 1-12, days of week 0-7 with 7 meaning Sunday, years 1970-2099). Each
/// alias parses to exactly the schedule its named view denotes.
pub fn parse(s: &str) -> (r: Result<Schedule, Error>)
    ensures
        r is Ok <==> spec_parse(s.spec_bytes()) is Some,
        r matches Ok(sch) ==> spec_parse(s.spec_bytes()) == Some(sch@) && sch.wf(),
        r is Err ==> r == Err::<Schedule, Error>(Error::InvalidExpression),
        !is_macro_bytes(s.spec_bytes()) && (field_count(s.spec_bytes()) < 5 || field_count(
            s.spec_bytes(),
        ) > 7) ==> r == Err::<Schedule, Error>(Error::InvalidExpression),
        is_macro_bytes(s.spec_bytes()) ==> (r matches Ok(sch) && sch@ == macro_view_of(
            s.spec_bytes(),
        )),
{
    let b = s.as_bytes();
    if bytes_eq(b, "@yearly".as_bytes()) {
        return Ok(yearly_schedule());
    }
    if bytes_eq(b, "@monthly".as_bytes()) {
        return Ok(monthly_schedule());
    }
    if bytes_eq(b, "@weekly".as_bytes()) {
        return Ok(weekly_schedule());
    }
    if bytes_eq(b, "@daily".as_bytes()) {
        return Ok(daily_schedule());
    }
    if bytes_eq(b, "@hourly".as_bytes()) {
        return Ok(hourly_schedule());
    }
    let toks = tokenize(b);
    let n = toks.len();
    if n < 5 || n > 7 {
        return Err(Error::InvalidExpression);
    }
    let off: usize = if n >= 6 {
        1
    } else {
        0
    };
    let (sec_mask, _sec_star) = if n >= 6 {
        let t = toks[0];
        match parse_field(b, t.0, t.1, 0, 59, 0, 60, 59, 0) {
            Ok(p) => p,
            Err(e) => {
                return Err(e);
            },
        }
    } else {
        (mask_only(60, 0), false)
    };
    let t = toks[off];
    let (min_mask, _min_star) = match parse_field(b, t.0, t.1, 0, 59, 0, 60, 59, 0) {
        Ok(p) => p,
        Err(e) => {
            return Err(e);
        },
    };
    let t = toks[off + 1];
    let (hour_mask, _hour_star) = match parse_field(b, t.0, t.1, 0, 23, 0, 24, 23, 0) {
        Ok(p) => p,
        Err(e) => {
            return Err(e);
        },
    };
    let t = toks[off + 2];
    let (dom_mask, dom_star) = match parse_field(b, t.0, t.1, 1, 31, 0, 32, 31, 0) {
        Ok(p) => p,
        Err(e) => {
            return Err(e);
        },
    };
    let t = toks[off + 3];
    let (month_mask, _month_star) = match parse_field(b, t.0, t.1, 1, 12, 0, 13, 12, 1) {
        Ok(p) => p,
        Err(e) => {
            return Err(e);
        },
    };
    let t = toks[off + 4];
    let (dow_mask, dow_star) = match parse_field(b, t.0, t.1, 0, 7, 0, 7, 6, 2) {
        Ok(p) => p,
        Err(e) => {
            return Err(e);
        },
    };
    let (year_mask, _year_star) = if n == 7 {
        let t = toks[6];
        match parse_field(b, t.0, t.1, 1970, 2099, 1970, 130, 2099, 0) {
            Ok(p) => p,
            Err(e) => {
                return Err(e);
            },
        }
    } else {
        (mask_span(130, 0, 129), true)
    };
    let sch = Schedule {
        seconds: sec_mask,
        minutes: min_mask,
        hours: hour_mask,
        days_of_month: dom_mask,
        months: month_mask,
        days_of_week: dow_mask,
        years: year_mask,
        dom_star,
        dow_star,
    };
    proof {
        assert(spec_parse(s.spec_bytes()) == Some(sch@));
    }
    Ok(sch)
}

proof fn lemma_alias_bytes()
    ensures
        "@yearly".spec_bytes() == seq![64u8, 121u8, 101u8, 97u8, 114u8, 108u8, 121u8],
        "@monthly".spec_bytes() == seq![64u8, 109u8, 111u8, 110u8, 116u8, 104u8, 108u8, 121u8],
        "@weekly".spec_bytes() == seq![64u8, 119u8, 101u8, 101u8, 107u8, 108u8, 121u8],
        "@daily".spec_bytes() == seq![64u8, 100u8, 97u8, 105u8, 108u8, 121u8],
        "@hourly".spec_bytes() == seq![64u8, 104u8, 111u8, 117u8, 114u8, 108u8, 121u8],
{
    reveal_strlit("@yearly");
    reveal_strlit("@monthly");
    reveal_strlit("@weekly");
    reveal_strlit("@daily");
    reveal_strlit("@hourly");
    assert(vstd::utf8::is_ascii_chars("@yearly"@));
    vstd::utf8::is_ascii_chars_encode_utf8("@yearly"@);
    assert(vstd::utf8::is_ascii_chars("@monthly"@));
    vstd::utf8::is_ascii_chars_encode_utf8("@monthly"@);
    assert(vstd::utf8::is_ascii_chars("@weekly"@));
    vstd::utf8::is_ascii_chars_encode_utf8("@weekly"@);
    assert(vstd::utf8::is_ascii_chars("@daily"@));
    vstd::utf8::is_ascii_chars_encode_utf8("@daily"@);
    assert(vstd::utf8::is_ascii_chars("@hourly"@));
    vstd::utf8::is_ascii_chars_encode_utf8("@hourly"@);
    assert("@yearly".spec_bytes() =~= seq![64u8, 121u8, 101u8, 97u8, 114u8, 108u8, 121u8]);
    assert("@monthly".spec_bytes() =~= seq![64u8, 109u8, 111u8, 110u8, 116u8, 104u8, 108u8, 121u8]);
    assert("@weekly".spec_bytes() =~= seq![64u8, 119u8, 101u8, 101u8, 107u8, 108u8, 121u8]);
    assert("@daily".spec_bytes() =~= seq![64u8, 100u8, 97u8, 105u8, 108u8, 121u8]);
    assert("@hourly".spec_bytes() =~= seq![64u8, 104u8, 111u8, 117u8, 114u8, 108u8, 121u8]);
}

proof fn lemma_alias_parse()
    ensures
        spec_parse("@yearly".spec_bytes()) == Some(yearly_view()),
        spec_parse("@monthly".spec_bytes()) == Some(monthly_view()),
        spec_parse("@weekly".spec_bytes()) == Some(weekly_view()),
        spec_parse("@daily".spec_bytes()) == Some(daily_view()),
        spec_parse("@hourly".spec_bytes()) == Some(hourly_view()),
{
    lemma_alias_bytes();
}

/// Evaluates the grammar on the explicit byte text of one six-field
/// expression whose fields are single characters at the given positions.
proof fn lemma_explicit_common(b: Seq<u8>)
    requires
        b.len() == 11,
        b[1] == 32 && b[3] == 32 && b[5] == 32 && b[7] == 32 && b[9] == 32,
        b[0] != 32 && b[0] != 9 && b[2] != 32 && b[2] != 9 && b[4] != 32 && b[4] != 9,
        b[6] != 32 && b[6] != 9 && b[8] != 32 && b[8] != 9 && b[10] != 32 && b[10] != 9,
    ensures
        token_spans(b) == seq![(0int, 1int), (2int, 3int), (4int, 5int), (6int, 7int), (8int, 9int), (10int, 11int)],
        !is_macro_bytes(b),
{
    reveal_with_fuel(spans_from, 13);
    assert(token_spans(b) =~= seq![
        (0int, 1int),
        (2int, 3int),
        (4int, 5int),
        (6int, 7int),
        (8int, 9int),
        (10int, 11int),
    ]);
    lemma_alias_bytes();
}

/// One single-character field holding the digit `0`, over any domain
/// starting at zero.
proof fn lemma_zero_field(b: Seq<u8>, at: int, hi: int, len: int)
    requires
        0 <= at,
        at + 1 <= b.len(),
        b[at] == 48,
        1 <= hi < len,
    ensures
        spec_field(b, at, at + 1, 0, hi, 0, len, hi, 0) == Some((only_at(len, 0), false)),
{
    reveal_with_fuel(num_from, 3);
    reveal_with_fuel(items_mask, 2);
    assert(spec_field(b, at, at + 1, 0, hi, 0, len, hi, 0) == Some((
        item_mask(len, 0, 0, 0, 0, 1),
        false,
    )));
    assert(item_mask(len, 0, 0, 0, 0, 1) =~= only_at(len, 0));
}

/// One single-character field holding the digit `1`, over a domain
/// starting at one (day-of-month or month, with or without names).
proof fn lemma_one_field(b: Seq<u8>, at: int, hi: int, len: int, names: u8)
    requires
        0 <= at,
        at + 1 <= b.len(),
        b[at] == 49,
        1 <= hi < len,
        names != 2,
    ensures
        spec_field(b, at, at + 1, 1, hi, 0, len, hi, names) == Some((only_at(len, 1), false)),
{
    reveal_with_fuel(num_from, 3);
    reveal_with_fuel(items_mask, 2);
    assert(spec_field(b, at, at + 1, 1, hi, 0, len, hi, names) == Some((
        item_mask(len, 0, names, 1, 1, 1),
        false,
    )));
    assert(item_mask(len, 0, names, 1, 1, 1) =~= only_at(len, 1));
}

proof fn lemma_yearly_explicit()
    ensures
        spec_parse("0 0 0 1 1 *".spec_bytes()) == Some(yearly_view()),
{
    reveal_strlit("0 0 0 1 1 *");
    let cs = "0 0 0 1 1 *"@;
    assert(vstd::utf8::is_ascii_chars(cs));
    vstd::utf8::is_ascii_chars_encode_utf8(cs);
    let b = "0 0 0 1 1 *".spec_bytes();
    assert(b =~= seq![48u8, 32u8, 48u8, 32u8, 48u8, 32u8, 49u8, 32u8, 49u8, 32u8, 42u8]);
    lemma_explicit_common(b);
    lemma_zero_field(b, 0, 59, 60);
    lemma_zero_field(b, 2, 59, 60);
    lemma_zero_field(b, 4, 23, 24);
    lemma_one_field(b, 6, 31, 32, 0);
    lemma_one_field(b, 8, 12, 13, 1);
    assert(spec_field(b, 10, 11, 0, 7, 0, 7, 6, 2) == Some((span_mask(7, 0, 6), true)));
    assert(spec_parse(b) == Some(yearly_view()));
}

proof fn lemma_monthly_explicit()
    ensures
        spec_parse("0 0 0 1 * *".spec_bytes()) == Some(monthly_view()),
{
    reveal_strlit("0 0 0 1 * *");
    let cs = "0 0 0 1 * *"@;
    assert(vstd::utf8::is_ascii_chars(cs));
    vstd::utf8::is_ascii_chars_encode_utf8(cs);
    let b = "0 0 0 1 * *".spec_bytes();
    assert(b =~= seq![48u8, 32u8, 48u8, 32u8, 48u8, 32u8, 49u8, 32u8, 42u8, 32u8, 42u8]);
    lemma_explicit_common(b);
    lemma_zero_field(b, 0, 59, 60);
    lemma_zero_field(b, 2, 59, 60);
    lemma_zero_field(b, 4, 23, 24);
    lemma_one_field(b, 6, 31, 32, 0);
    assert(spec_field(b, 8, 9, 1, 12, 0, 13, 12, 1) == Some((span_mask(13, 1, 12), true)));
    assert(spec_field(b, 10, 11, 0, 7, 0, 7, 6, 2) == Some((span_mask(7, 0, 6), true)));
    assert(spec_parse(b) == Some(monthly_view()));
}

proof fn lemma_weekly_explicit()
    ensures
        spec_parse("0 0 0 * * Sun".spec_bytes()) == Some(weekly_view()),
{
    reveal_strlit("0 0 0 * * Sun");
    let cs = "0 0 0 * * Sun"@;
    assert(vstd::utf8::is_ascii_chars(cs));
    vstd::utf8::is_ascii_chars_encode_utf8(cs);
    let b = "0 0 0 * * Sun".spec_bytes();
    assert(b =~= seq![
        48u8,
        32u8,
        48u8,
        32u8,
        48u8,
        32u8,
        42u8,
        32u8,
        42u8,
        32u8,
        83u8,
        117u8,
        110u8,
    ]);
    reveal_with_fuel(spans_from, 15);
    assert(token_spans(b) =~= seq![
        (0int, 1int),
        (2int, 3int),
        (4int, 5int),
        (6int, 7int),
        (8int, 9int),
        (10int, 13int),
    ]);
    lemma_alias_bytes();
    assert(!is_macro_bytes(b));
    lemma_zero_field(b, 0, 59, 60);
    lemma_zero_field(b, 2, 59, 60);
    lemma_zero_field(b, 4, 23, 24);
    assert(spec_field(b, 6, 7, 1, 31, 0, 32, 31, 0) == Some((span_mask(32, 1, 31), true)));
    assert(spec_field(b, 8, 9, 1, 12, 0, 13, 12, 1) == Some((span_mask(13, 1, 12), true)));
    reveal_with_fuel(alpha_end, 5);
    reveal_with_fuel(items_mask, 2);
    assert(alpha_end(b, 10, 13) == 13);
    assert(spec_field(b, 10, 13, 0, 7, 0, 7, 6, 2) == Some((item_mask(7, 0, 2, 0, 0, 1), false)));
    assert(item_mask(7, 0, 2, 0, 0, 1) =~= only_at(7, 0));
    assert(spec_parse(b) == Some(weekly_view()));
}

proof fn lemma_daily_explicit()
    ensures
        spec_parse("0 0 0 * * *".spec_bytes()) == Some(daily_view()),
{
    reveal_strlit("0 0 0 * * *");
    let cs = "0 0 0 * * *"@;
    assert(vstd::utf8::is_ascii_chars(cs));
    vstd::utf8::is_ascii_chars_encode_utf8(cs);
    let b = "0 0 0 * * *".spec_bytes();
    assert(b =~= seq![48u8, 32u8, 48u8, 32u8, 48u8, 32u8, 42u8, 32u8, 42u8, 32u8, 42u8]);
    lemma_explicit_common(b);
    lemma_zero_field(b, 0, 59, 60);
    lemma_zero_field(b, 2, 59, 60);
    lemma_zero_field(b, 4, 23, 24);
    assert(spec_field(b, 6, 7, 1, 31, 0, 32, 31, 0) == Some((span_mask(32, 1, 31), true)));
    assert(spec_field(b, 8, 9, 1, 12, 0, 13, 12, 1) == Some((span_mask(13, 1, 12), true)));
    assert(spec_field(b, 10, 11, 0, 7, 0, 7, 6, 2) == Some((span_mask(7, 0, 6), true)));
    assert(spec_parse(b) == Some(daily_view()));
}

proof fn lemma_hourly_explicit()
    ensures
        spec_parse("0 0 * * * *".spec_bytes()) == Some(hourly_view()),
{
    reveal_strlit("0 0 * * * *");
    let cs = "0 0 * * * *"@;
    assert(vstd::utf8::is_ascii_chars(cs));
    vstd::utf8::is_ascii_chars_encode_utf8(cs);
    let b = "0 0 * * * *".spec_bytes();
    assert(b =~= seq![48u8, 32u8, 48u8, 32u8, 42u8, 32u8, 42u8, 32u8, 42u8, 32u8, 42u8]);
    lemma_explicit_common(b);
    lemma_zero_field(b, 0, 59, 60);
    lemma_zero_field(b, 2, 59, 60);
    assert(spec_field(b, 4, 5, 0, 23, 0, 24, 23, 0) == Some((span_mask(24, 0, 23), true)));
    assert(spec_field(b, 6, 7, 1, 31, 0, 32, 31, 0) == Some((span_mask(32, 1, 31), true)));
    assert(spec_field(b, 8, 9, 1, 12, 0, 13, 12, 1) == Some((span_mask(13, 1, 12), true)));
    assert(spec_field(b, 10, 11, 0, 7, 0, 7, 6, 2) == Some((span_mask(7, 0, 6), true)));
    assert(spec_parse(b) == Some(hourly_view()));
}

/// Each schedule alias parses to exactly the same schedule as its explicit
/// six-field expression — `@yearly` as `0 0 0 1 1 *`, `@monthly` as
/// `0 0 0 1 * *`, `@weekly` as `0 0 0 * * Sun`, `@daily` as `0 0 0 * * *`,
/// `@hourly` as `0 0 * * * *` — so alias and expression denote exactly the
/// same fire sequence.
pub proof fn lemma_alias_explicit_equivalence()
    ensures
        spec_parse("@yearly".spec_bytes()) == spec_parse("0 0 0 1 1 *".spec_bytes()),
        spec_parse("@monthly".spec_bytes()) == spec_parse("0 0 0 1 * *".spec_bytes()),
        spec_parse("@weekly".spec_bytes()) == spec_parse("0 0 0 * * Sun".spec_bytes()),
        spec_parse("@daily".spec_bytes()) == spec_parse("0 0 0 * * *".spec_bytes()),
        spec_parse("@hourly".spec_bytes()) == spec_parse("0 0 * * * *".spec_bytes()),
        spec_parse("@yearly".spec_bytes()) == Some(yearly_view()),
        spec_parse("@monthly".spec_bytes()) == Some(monthly_view()),
        spec_parse("@weekly".spec_bytes()) == Some(weekly_view()),
        spec_parse("@daily".spec_bytes()) == Some(daily_view()),
        spec_parse("@hourly".spec_bytes()) == Some(hourly_view()),
{
    lemma_alias_parse();
    lemma_yearly_explicit();
    lemma_monthly_explicit();
    lemma_weekly_explicit();
    lemma_daily_explicit();
    lemma_hourly_explicit();
}

} // verus!
