//! Cron-style schedules and exact next-fire-time computation. A schedule
//! is a set of admitted values for each time field; `next_fire` returns the
//! smallest timestamp strictly after a given one at which every field
//! constraint holds, up to the calendar horizon (the year 2100).

use vstd::prelude::*;

use crate::calendar::{
    civil_of_day, day_of_month_of, horizon_days, month_of, weekday_of_day,
    year_of, year_start,
};

verus! {

/// A parsed schedule: one membership mask per cron field. Masks for
/// day-of-month and month are indexed by the value itself (index 0 unused);
/// the year mask is indexed by `year - 1970`. `dom_star` / `dow_star`
/// record whether the day-of-month / day-of-week field was the wildcard,
/// which decides the OR rule between the two day fields.
#[derive(Debug)]
pub struct Schedule {
    pub seconds: Vec<bool>,
    pub minutes: Vec<bool>,
    pub hours: Vec<bool>,
    pub days_of_month: Vec<bool>,
    pub months: Vec<bool>,
    pub days_of_week: Vec<bool>,
    pub years: Vec<bool>,
    pub dom_star: bool,
    pub dow_star: bool,
}

/// The mathematical content of a schedule.
pub struct ScheduleView {
    pub seconds: Seq<bool>,
    pub minutes: Seq<bool>,
    pub hours: Seq<bool>,
    pub days_of_month: Seq<bool>,
    pub months: Seq<bool>,
    pub days_of_week: Seq<bool>,
    pub years: Seq<bool>,
    pub dom_star: bool,
    pub dow_star: bool,
}

impl View for Schedule {
    type V = ScheduleView;

    open spec fn view(&self) -> ScheduleView {
        ScheduleView {
            seconds: self.seconds@,
            minutes: self.minutes@,
            hours: self.hours@,
            days_of_month: self.days_of_month@,
            months: self.months@,
            days_of_week: self.days_of_week@,
            years: self.years@,
            dom_star: self.dom_star,
            dow_star: self.dow_star,
        }
    }
}

impl ScheduleView {
    pub open spec fn wf(self) -> bool {
        &&& self.seconds.len() == 60
        &&& self.minutes.len() == 60
        &&& self.hours.len() == 24
        &&& self.days_of_month.len() == 32
        &&& self.months.len() == 13
        &&& self.days_of_week.len() == 7
        &&& self.years.len() == 130
        &&& (self.dom_star ==> forall|i: int| 1 <= i < 32 ==> self.days_of_month[i])
        &&& (self.dow_star ==> forall|i: int| 0 <= i < 7 ==> self.days_of_week[i])
    }
}

impl Schedule {
    pub open spec fn wf(&self) -> bool {
        self@.wf()
    }
}

/// Whether the time-of-day fields admit second-of-day `sod`.
pub open spec fn time_matches(s: ScheduleView, sod: int) -> bool {
    &&& s.seconds[sod % 60]
    &&& s.minutes[(sod / 60) % 60]
    &&& s.hours[sod / 3600]
}

/// The cron convention for the two day fields: when both are restricted a
/// day is admitted if either admits it; when at least one is the wildcard
/// both masks apply (the wildcard mask admits everything).
pub open spec fn dom_dow_match(s: ScheduleView, dom: int, dow: int) -> bool {
    if !s.dom_star && !s.dow_star {
        s.days_of_month[dom] || s.days_of_week[dow]
    } else {
        s.days_of_month[dom] && s.days_of_week[dow]
    }
}

/// Whether the date fields admit day `d` (days since 1970-01-01).
pub open spec fn day_matches(s: ScheduleView, d: int) -> bool {
    let y = year_of(d);
    let off = d - year_start(y);
    let m = month_of(y, off);
    let dom = day_of_month_of(y, off);
    &&& s.years[y - 1970]
    &&& s.months[m]
    &&& dom_dow_match(s, dom, weekday_of_day(d))
}

/// Whether the schedule fires at timestamp `t`. Only timestamps from
/// 1970-01-01 up to the calendar horizon can fire.
pub open spec fn fires_at(s: ScheduleView, t: int) -> bool {
    &&& 0 <= t
    &&& t / 86400 < year_start(2100)
    &&& day_matches(s, t / 86400)
    &&& time_matches(s, t % 86400)
}

/// `t` is the earliest fire time strictly after `after`.
pub open spec fn is_next_fire(s: ScheduleView, after: int, t: int) -> bool {
    &&& after < t
    &&& fires_at(s, t)
    &&& forall|u: int| after < u < t ==> !fires_at(s, u)
}

/// The schedule never fires strictly after `after`.
pub open spec fn no_fire_after(s: ScheduleView, after: int) -> bool {
    forall|u: int| u > after ==> !fires_at(s, u)
}

/// Element `i` of `r` is the earliest fire time after its predecessor
/// (after `start`, for the first element).
pub open spec fn chain_step_ok(s: ScheduleView, start: int, r: Seq<i64>, i: int) -> bool {
    is_next_fire(
        s,
        if i == 0 {
            start
        } else {
            r[i - 1] as int
        },
        r[i] as int,
    )
}

/// `r` is the run of successive fire times starting after `start`.
pub open spec fn fire_chain(s: ScheduleView, start: int, r: Seq<i64>) -> bool {
    forall|i: int| 0 <= i < r.len() ==> #[trigger] chain_step_ok(s, start, r, i)
}

/// As `chain_step_ok`, over mathematical integers.
pub open spec fn trace_step_ok(s: ScheduleView, start: int, ts: Seq<int>, i: int) -> bool {
    is_next_fire(
        s,
        if i == 0 {
            start
        } else {
            ts[i - 1]
        },
        ts[i],
    )
}

/// `ts` is a run of successive fire times starting after `start`.
pub open spec fn is_fire_trace(s: ScheduleView, start: int, ts: Seq<int>) -> bool {
    forall|i: int| 0 <= i < ts.len() ==> #[trigger] trace_step_ok(s, start, ts, i)
}

proof fn lemma_day_span(d: int, u: int)
    requires
        0 <= d,
        d * 86400 <= u < d * 86400 + 86400,
    ensures
        u / 86400 == d,
        u % 86400 == u - d * 86400,
{
    assert(u / 86400 == d && u % 86400 == u - d * 86400) by (nonlinear_arith)
        requires
            0 <= d,
            d * 86400 <= u < d * 86400 + 86400,
    ;
}

proof fn lemma_div_at_least(u: int, d: int)
    requires
        0 <= d,
        d * 86400 <= u,
    ensures
        u / 86400 >= d,
{
    assert(u / 86400 >= d) by (nonlinear_arith)
        requires
            0 <= d,
            d * 86400 <= u,
    ;
}

/// The earliest fire time after a given one is unique: any two timestamps
/// that both fire with nothing firing between them and the start are equal.
pub proof fn lemma_next_fire_unique(s: ScheduleView, after: int, t1: int, t2: int)
    requires
        is_next_fire(s, after, t1),
        is_next_fire(s, after, t2),
    ensures
        t1 == t2,
{
    if t1 < t2 {
        assert(!fires_at(s, t1));
    }
    if t2 < t1 {
        assert(!fires_at(s, t2));
    }
}

fn time_match_at(s: &Schedule, sod: u64) -> (b: bool)
    requires
        s.wf(),
        sod < 86400,
    ensures
        b == time_matches(s@, sod as int),
{
    assert(sod / 3600 < 24) by (nonlinear_arith)
        requires
            sod < 86400,
    ;
    let sec = (sod % 60) as usize;
    let min = ((sod / 60) % 60) as usize;
    let hr = (sod / 3600) as usize;
    s.seconds[sec] && s.minutes[min] && s.hours[hr]
}

fn day_match_at(s: &Schedule, d: u64) -> (b: bool)
    requires
        s.wf(),
        d < year_start(2100),
    ensures
        b == day_matches(s@, d as int),
{
    proof {
        crate::calendar::lemma_year_start_bounds(1970, 2100);
    }
    let (y, m, dom) = civil_of_day(d);
    let dow = ((d + 4) % 7) as usize;
    let ymatch = s.years[(y - 1970) as usize];
    let mmatch = s.months[m as usize];
    let dmatch = s.days_of_month[dom as usize];
    let wmatch = s.days_of_week[dow];
    ymatch && mmatch && (
        if !s.dom_star && !s.dow_star {
            dmatch || wmatch
        } else {
            dmatch && wmatch
        }
    )
}

fn next_sod(s: &Schedule, from: u64) -> (r: Option<u64>)
    requires
        s.wf(),
        from <= 86400,
    ensures
        match r {
            Some(sod) => from <= sod < 86400 && time_matches(s@, sod as int) && forall|x: int|
                from <= x < sod ==> !time_matches(s@, x),
            None => forall|x: int| from <= x < 86400 ==> !time_matches(s@, x),
        },
{
    let mut x: u64 = from;
    while x < 86400
        invariant
            s.wf(),
            from <= x <= 86400,
            forall|j: int| from <= j < x ==> !time_matches(s@, j),
        decreases 86400 - x,
    {
        if time_match_at(s, x) {
            return Some(x);
        }
        x = x + 1;
    }
    None
}

/// Whether the schedule fires at exactly timestamp `t`.
pub fn fires(s: &Schedule, t: i64) -> (b: bool)
    requires
        s.wf(),
    ensures
        b == fires_at(s@, t as int),
{
    if t < 0 {
        return false;
    }
    let hd = horizon_days();
    let tu = t as u64;
    let d = tu / 86400;
    if d >= hd {
        return false;
    }
    day_match_at(s, d) && time_match_at(s, tu % 86400)
}

/// The smallest timestamp strictly greater than `after` at which the
/// schedule fires, or `None` when it never fires again.
pub fn next_fire(s: &Schedule, after: i64) -> (r: Option<i64>)
    requires
        s.wf(),
    ensures
        match r {
            Some(t) => is_next_fire(s@, after as int, t as int),
            None => no_fire_after(s@, after as int),
        },
{
    let hd = horizon_days();
    proof {
        crate::calendar::lemma_year_start_bounds(1970, 2100);
    }
    let horizon_ts: i64 = (hd as i64) * 86400;
    let t0: i64 = if after < 0 {
        0
    } else if after >= horizon_ts {
        proof {
            assert forall|u: int| u > (after as int) implies !fires_at(s@, u) by {
                lemma_div_at_least(u, hd as int);
            }
        }
        return None;
    } else {
        after + 1
    };
    if t0 >= horizon_ts {
        proof {
            assert forall|u: int| u > (after as int) implies !fires_at(s@, u) by {
                if u >= (t0 as int) {
                    lemma_div_at_least(u, hd as int);
                }
            }
        }
        return None;
    }
    let tu: u64 = t0 as u64;
    let d0: u64 = tu / 86400;
    let s0: u64 = tu % 86400;
    proof {
        assert(d0 * 86400 + s0 == tu);
        assert(d0 < hd) by (nonlinear_arith)
            requires
                tu < hd * 86400,
                d0 == tu / 86400,
                s0 == tu % 86400,
                d0 * 86400 + s0 == tu,
                s0 < 86400,
        ;
    }
    if day_match_at(s, d0) {
        match next_sod(s, s0) {
            Some(sod) => {
                let t = d0 * 86400 + sod;
                proof {
                    lemma_day_span(d0 as int, t as int);
                    assert forall|u: int| (after as int) < u < (t as int) implies !fires_at(s@, u) by {
                        if u >= (t0 as int) {
                            lemma_day_span(d0 as int, u);
                        }
                    }
                }
                return Some(t as i64);
            },
            None => {},
        }
    }
    let fsod: u64 = match next_sod(s, 0) {
        None => {
            proof {
                assert forall|u: int| u > (after as int) implies !fires_at(s@, u) by {
                    if 0 <= u {
                        assert(0 <= u % 86400 < 86400);
                    }
                }
            }
            return None;
        },
        Some(x) => x,
    };
    let mut d: u64 = d0 + 1;
    proof {
        assert forall|u: int| (t0 as int) <= u && u < (d as int) * 86400 implies !fires_at(s@, u) by {
            lemma_day_span(d0 as int, u);
        }
    }
    while d < hd
        invariant
            s.wf(),
            d0 < d <= hd,
            hd == year_start(2100),
            hd <= 47580,
            t0 as int == d0 * 86400 + s0,
            0 <= t0,
            s0 < 86400,
            after < t0 as int,
            after < 0 ==> t0 == 0,
            after >= 0 ==> t0 as int == after + 1,
            fsod < 86400,
            time_matches(s@, fsod as int),
            forall|x: int| 0 <= x < fsod ==> !time_matches(s@, x),
            forall|u: int| (t0 as int) <= u && u < (d as int) * 86400 ==> !fires_at(s@, u),
        decreases hd - d,
    {
        if day_match_at(s, d) {
            let t = d * 86400 + fsod;
            proof {
                lemma_day_span(d as int, t as int);
                assert forall|u: int| (after as int) < u < (t as int) implies !fires_at(s@, u) by {
                    if u >= (t0 as int) {
                        if u >= (d as int) * 86400 {
                            lemma_day_span(d as int, u);
                            assert(u % 86400 == u - (d as int) * 86400);
                            assert(u % 86400 < fsod);
                            assert(!time_matches(s@, u % 86400));
                        }
                    } else {
                        assert(u < 0);
                    }
                }
            }
            return Some(t as i64);
        }
        proof {
            assert forall|u: int| (t0 as int) <= u && u < ((d + 1) as int) * 86400 implies !fires_at(s@, u)
            by {
                if u >= (d as int) * 86400 {
                    lemma_day_span(d as int, u);
                }
            }
        }
        d = d + 1;
    }
    proof {
        assert forall|u: int| u > (after as int) implies !fires_at(s@, u) by {
            if u >= (t0 as int) {
                if u >= (hd as int) * 86400 {
                    lemma_div_at_least(u, hd as int);
                } else {
                    assert(u < (d as int) * 86400);
                }
            }
        }
    }
    None
}

/// The next `n` fire times strictly after `after`, in increasing order;
/// shorter than `n` only when the schedule runs out of fire times.
pub fn upcoming(s: &Schedule, after: i64, n: usize) -> (r: Vec<i64>)
    requires
        s.wf(),
    ensures
        r@.len() <= n,
        fire_chain(s@, after as int, r@),
        r@.len() < n ==> no_fire_after(
            s@,
            if r@.len() == 0 {
                after as int
            } else {
                r@[r@.len() - 1] as int
            },
        ),
{
    let mut r: Vec<i64> = Vec::new();
    let mut cur: i64 = after;
    let mut k: usize = 0;
    while k < n
        invariant
            s.wf(),
            k == r@.len() <= n,
            cur as int == if r@.len() == 0 {
                after as int
            } else {
                r@[r@.len() - 1] as int
            },
            fire_chain(s@, after as int, r@),
        decreases n - k,
    {
        match next_fire(s, cur) {
            Some(t) => {
                let ghost prev = r@;
                r.push(t);
                cur = t;
                k = k + 1;
                proof {
                    assert forall|i: int| 0 <= i < r@.len() implies #[trigger] chain_step_ok(
                        s@,
                        after as int,
                        r@,
                        i,
                    ) by {
                        if i < prev.len() {
                            assert(chain_step_ok(s@, after as int, prev, i));
                            assert(r@[i] == prev[i]);
                            if i > 0 {
                                assert(r@[i - 1] == prev[i - 1]);
                            }
                        } else {
                            assert(r@[i] == t);
                            if i > 0 {
                                assert(r@[i - 1] == prev[i - 1]);
                            }
                        }
                    }
                }
            },
            None => {
                return r;
            },
        }
    }
    r
}

/// As `lemma_fire_trace_unique`, over timestamp sequences: a task advanced
/// step by step through its claimed instances and the engine iterated
/// directly from the same start yield identical fire sequences.
pub proof fn lemma_fire_chain_unique(s: ScheduleView, start: int, a: Seq<i64>, b: Seq<i64>)
    requires
        a.len() == b.len(),
        fire_chain(s, start, a),
        fire_chain(s, start, b),
    ensures
        a == b,
{
    let ai = a.map_values(|x: i64| x as int);
    let bi = b.map_values(|x: i64| x as int);
    assert forall|i: int| 0 <= i < ai.len() implies #[trigger] trace_step_ok(s, start, ai, i) by {
        assert(chain_step_ok(s, start, a, i));
    }
    assert forall|i: int| 0 <= i < bi.len() implies #[trigger] trace_step_ok(s, start, bi, i) by {
        assert(chain_step_ok(s, start, b, i));
    }
    lemma_fire_trace_unique(s, start, ai, bi);
    assert forall|i: int| 0 <= i < a.len() implies a[i] == b[i] by {
        assert(ai[i] == bi[i]);
    }
    assert(a =~= b);
}

/// Two runs of successive next-fire times from the same start agree
/// elementwise: advancing a task step by step yields exactly the sequence
/// the schedule engine yields.
pub proof fn lemma_fire_trace_unique(s: ScheduleView, start: int, ts: Seq<int>, us: Seq<int>)
    requires
        ts.len() == us.len(),
        is_fire_trace(s, start, ts),
        is_fire_trace(s, start, us),
    ensures
        ts == us,
    decreases ts.len(),
{
    if ts.len() > 0 {
        let n = ts.len() as int;
        let tp = ts.subrange(0, n - 1);
        let up = us.subrange(0, n - 1);
        assert forall|i: int| 0 <= i < tp.len() implies #[trigger] trace_step_ok(s, start, tp, i)
        by {
            assert(trace_step_ok(s, start, ts, i));
            assert(tp[i] == ts[i]);
            if i > 0 {
                assert(tp[i - 1] == ts[i - 1]);
            }
        }
        assert forall|i: int| 0 <= i < up.len() implies #[trigger] trace_step_ok(s, start, up, i)
        by {
            assert(trace_step_ok(s, start, us, i));
            assert(up[i] == us[i]);
            if i > 0 {
                assert(up[i - 1] == us[i - 1]);
            }
        }
        lemma_fire_trace_unique(s, start, tp, up);
        let prev = if n == 1 {
            start
        } else {
            ts[n - 2]
        };
        if n > 1 {
            assert(tp[n - 2] == ts[n - 2]);
            assert(up[n - 2] == us[n - 2]);
            assert(us[n - 2] == ts[n - 2]);
        }
        assert(trace_step_ok(s, start, ts, n - 1));
        assert(trace_step_ok(s, start, us, n - 1));
        assert(is_next_fire(s, prev, ts[n - 1]));
        assert(is_next_fire(s, prev, us[n - 1]));
        lemma_next_fire_unique(s, prev, ts[n - 1], us[n - 1]);
        assert forall|i: int| 0 <= i < n implies ts[i] == us[i] by {
            if i < n - 1 {
                assert(tp[i] == up[i]);
            }
        }
        assert(ts =~= us);
    } else {
        assert(ts =~= us);
    }
}

} // verus!
