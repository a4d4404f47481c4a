//! Working-day calendar arithmetic. The timeline counts working days: day 0
//! is the calendar's start date, weekends beyond the working week and listed
//! holidays are skipped.

use vstd::prelude::*;
use crate::date::{days_in_month, Date, in_date_range, weekday_number, ymd_day_number, MIN_DAY_NUMBER, MAX_DAY_NUMBER};
use crate::model::{CalendarConfig, Day, NonWorkingDate};

verus! {

/// A day counts as working when it is not listed in `off` and its ISO
/// weekday (Mon=1 … Sun=7) is within the working week.
pub open spec fn is_working(n: int, wdpw: int, off: Seq<int>) -> bool {
    !off.contains(n) && weekday_number(n) <= wdpw
}

/// Number of working days in the interval `(a, b]`.
pub open spec fn working_count(a: int, b: int, wdpw: int, off: Seq<int>) -> nat
    decreases b - a,
{
    if b <= a {
        0
    } else {
        working_count(a, b - 1, wdpw, off) + if is_working(b, wdpw, off) {
            1nat
        } else {
            0nat
        }
    }
}

/// Number of days in `(a, b]` listed in `off`.
pub open spec fn listed_count(a: int, b: int, off: Seq<int>) -> nat
    decreases b - a,
{
    if b <= a {
        0
    } else {
        listed_count(a, b - 1, off) + if off.contains(b) {
            1nat
        } else {
            0nat
        }
    }
}

/// Number of Mondays in `(a, b]`.
pub open spec fn monday_count(a: int, b: int) -> nat
    decreases b - a,
{
    if b <= a {
        0
    } else {
        monday_count(a, b - 1) + if weekday_number(b) == 1 {
            1nat
        } else {
            0nat
        }
    }
}

impl CalendarConfig {
    /// Day numbers of the calendar's holidays, in list order.
    pub open spec fn off_seq(&self) -> Seq<int> {
        self.non_working_dates@.map_values(|nwd: NonWorkingDate| nwd.date@)
    }

    pub open spec fn wdpw(&self) -> int {
        self.working_days_per_week as int
    }

    /// The timeline day of date number `n`: the working days in
    /// `(start, n]`, or minus those in `(n, start]` before the start.
    pub open spec fn spec_date_to_day(&self, n: int) -> int {
        let s = self.start_date@;
        if n >= s {
            working_count(s, n, self.wdpw(), self.off_seq()) as int
        } else {
            -(working_count(n, s, self.wdpw(), self.off_seq()) as int)
        }
    }

    /// The date `day` working days from the start is one `chrono` holds.
    pub open spec fn day_steps_in_range(&self, day: int) -> bool {
        exists|n: int| in_date_range(n) && #[trigger] self.is_date_of_day(day, n)
    }

    /// `n` is the date `day` working days from the start.
    pub open spec fn is_date_of_day(&self, day: int, n: int) -> bool {
        is_nth_working_date(self.start_date@, day, self.wdpw(), self.off_seq(), n)
    }
}



/// `n` is the date `day` working days from `s`: `s` itself for day 0;
/// otherwise a working day with exactly `|day|` working days from `s` up to
/// it (after `s` going forward; from it up to the day before `s` going back).
pub open spec fn is_nth_working_date(s: int, day: int, w: int, off: Seq<int>, n: int) -> bool {
    if day == 0 {
        n == s
    } else if day > 0 {
        n > s && is_working(n, w, off) && working_count(s, n, w, off) == day
    } else {
        n < s && is_working(n, w, off) && working_count(n - 1, s - 1, w, off) == -day
    }
}

// ── counting lemmas ─────────────────────────────────────────────────────────

proof fn lemma_working_count_split_front(a: int, b: int, w: int, off: Seq<int>)
    requires
        a < b,
    ensures
        working_count(a, b, w, off) == (if is_working(a + 1, w, off) { 1nat } else { 0nat })
            + working_count(a + 1, b, w, off),
    decreases b - a,
{
    if b > a + 1 {
        lemma_working_count_split_front(a, b - 1, w, off);
        assert(working_count(a + 1, b, w, off) == working_count(a + 1, b - 1, w, off) + if is_working(b, w, off) { 1nat } else { 0nat });
    } else {
        assert(working_count(a, a, w, off) == 0);
        assert(working_count(a + 1, b, w, off) == 0);
    }
}

proof fn lemma_working_count_le(a: int, b: int, w: int, off: Seq<int>)
    ensures
        working_count(a, b, w, off) <= if b > a { b - a } else { 0 },
    decreases b - a,
{
    if b > a {
        lemma_working_count_le(a, b - 1, w, off);
    }
}

proof fn lemma_working_count_mono(a: int, b: int, c: int, w: int, off: Seq<int>)
    requires
        b <= c,
    ensures
        working_count(a, b, w, off) <= working_count(a, c, w, off),
    decreases c - b,
{
    if b < c {
        lemma_working_count_mono(a, b, c - 1, w, off);
    }
}

proof fn lemma_one_monday_per_week(x: int)
    ensures
        monday_count(x, x + 7) == 1,
{
    assert(monday_count(x, x) == 0);
    assert(monday_count(x, x + 1) == monday_count(x, x) + if weekday_number(x + 1) == 1 { 1nat } else { 0nat });
    assert(monday_count(x, x + 2) == monday_count(x, x + 1) + if weekday_number(x + 2) == 1 { 1nat } else { 0nat });
    assert(monday_count(x, x + 3) == monday_count(x, x + 2) + if weekday_number(x + 3) == 1 { 1nat } else { 0nat });
    assert(monday_count(x, x + 4) == monday_count(x, x + 3) + if weekday_number(x + 4) == 1 { 1nat } else { 0nat });
    assert(monday_count(x, x + 5) == monday_count(x, x + 4) + if weekday_number(x + 5) == 1 { 1nat } else { 0nat });
    assert(monday_count(x, x + 6) == monday_count(x, x + 5) + if weekday_number(x + 6) == 1 { 1nat } else { 0nat });
    assert(monday_count(x, x + 7) == monday_count(x, x + 6) + if weekday_number(x + 7) == 1 { 1nat } else { 0nat });
    let r = (x - 1) % 7;
    assert(0 <= r < 7);
    assert((x + 1 - 1) % 7 == (r + 1) % 7);
    assert((x + 2 - 1) % 7 == (r + 2) % 7);
    assert((x + 3 - 1) % 7 == (r + 3) % 7);
    assert((x + 4 - 1) % 7 == (r + 4) % 7);
    assert((x + 5 - 1) % 7 == (r + 5) % 7);
    assert((x + 6 - 1) % 7 == (r + 6) % 7);
    assert((x + 7 - 1) % 7 == (r + 7) % 7);
}

proof fn lemma_monday_count_weeks(a: int, m: nat)
    ensures
        monday_count(a, a + 7 * m) == m,
    decreases m,
{
    if m > 0 {
        lemma_monday_count_weeks(a, (m - 1) as nat);
        lemma_monday_count_concat(a, a + 7 * (m - 1), a + 7 * m);
        lemma_one_monday_per_week(a + 7 * (m - 1));
    }
}

proof fn lemma_monday_count_concat(a: int, b: int, c: int)
    requires
        a <= b <= c,
    ensures
        monday_count(a, c) == monday_count(a, b) + monday_count(b, c),
    decreases c - b,
{
    if b < c {
        lemma_monday_count_concat(a, b, c - 1);
    }
}

proof fn lemma_mondays_work_or_listed(a: int, b: int, w: int, off: Seq<int>)
    requires
        w >= 1,
    ensures
        working_count(a, b, w, off) + listed_count(a, b, off) >= monday_count(a, b),
    decreases b - a,
{
    if b > a {
        lemma_mondays_work_or_listed(a, b - 1, w, off);
    }
}

proof fn lemma_listed_count_drop_last(a: int, b: int, off: Seq<int>)
    requires
        off.len() > 0,
    ensures
        listed_count(a, b, off) <= listed_count(a, b, off.drop_last()) + if a < off.last() <= b {
            1nat
        } else {
            0nat
        },
    decreases b - a,
{
    if b > a {
        lemma_listed_count_drop_last(a, b - 1, off);
        if off.contains(b) && b != off.last() {
            let i = choose|i: int| 0 <= i < off.len() && off[i] == b;
            assert(off.drop_last()[i] == b);
        }
    }
}

proof fn lemma_listed_count_le_len(a: int, b: int, off: Seq<int>)
    ensures
        listed_count(a, b, off) <= off.len(),
    decreases off.len(),
{
    if off.len() == 0 {
        lemma_listed_count_empty(a, b, off);
    } else {
        lemma_listed_count_drop_last(a, b, off);
        lemma_listed_count_le_len(a, b, off.drop_last());
    }
}

proof fn lemma_listed_count_empty(a: int, b: int, off: Seq<int>)
    requires
        off.len() == 0,
    ensures
        listed_count(a, b, off) == 0,
    decreases b - a,
{
    if b > a {
        lemma_listed_count_empty(a, b - 1, off);
    }
}



// ── sets of dates ───────────────────────────────────────────────────────────

/// A set of calendar dates, kept in insertion order without repeats.
pub struct DateSet {
    dates: Vec<Date>,
}

impl View for DateSet {
    type V = Seq<int>;

    closed spec fn view(&self) -> Seq<int> {
        self.dates@.map_values(|d: Date| d@)
    }
}

impl DateSet {
    #[verifier::type_invariant]
    closed spec fn inv(self) -> bool {
        &&& self@.no_duplicates()
        &&& forall|i: int| 0 <= i < self@.len() ==> in_date_range(#[trigger] self@[i])
    }

    /// The empty set.
    pub fn new() -> (r: DateSet)
        ensures
            r@ == Seq::<int>::empty(),
    {
        let r = DateSet { dates: Vec::new() };
        assert(r@ =~= Seq::<int>::empty());
        r
    }

    /// Number of dates in the set (never more than the dates `chrono` holds).
    pub fn len(&self) -> (r: usize)
        ensures
            r == self@.len(),
            r <= MAX_DAY_NUMBER - MIN_DAY_NUMBER + 1,
    {
        proof {
            use_type_invariant(self);
            let v = self@;
            v.unique_seq_to_set();
            vstd::set_lib::lemma_int_range(MIN_DAY_NUMBER as int, MAX_DAY_NUMBER + 1);
            assert(v.to_set().subset_of(vstd::set_lib::set_int_range(MIN_DAY_NUMBER as int, MAX_DAY_NUMBER + 1))) by {
                assert forall|x: int| v.to_set().contains(x) implies
                    vstd::set_lib::set_int_range(MIN_DAY_NUMBER as int, MAX_DAY_NUMBER + 1).contains(x) by {
                    let j = choose|j: int| 0 <= j < v.len() && v[j] == x;
                    assert(in_date_range(v[j]));
                }
            }
            vstd::set_lib::lemma_len_subset(v.to_set(), vstd::set_lib::set_int_range(MIN_DAY_NUMBER as int, MAX_DAY_NUMBER + 1));
        }
        self.dates.len()
    }

    pub fn is_empty(&self) -> (r: bool)
        ensures
            r <==> self@.len() == 0,
    {
        self.dates.len() == 0
    }

    /// The `i`-th date in insertion order.
    pub fn get(&self, i: usize) -> (r: Date)
        requires
            i < self@.len(),
        ensures
            r@ == self@[i as int],
    {
        self.dates[i]
    }

    /// Whether `d` is in the set.
    pub fn contains(&self, d: Date) -> (r: bool)
        ensures
            r <==> self@.contains(d@),
    {
        let mut i: usize = 0;
        while i < self.dates.len()
            invariant
                i <= self.dates@.len(),
                forall|j: int| 0 <= j < i ==> self@[j] != d@,
            decreases self.dates.len() - i,
        {
            if self.dates[i].day_number() == d.day_number() {
                assert(self@[i as int] == d@);
                return true;
            }
            i += 1;
        }
        false
    }

    /// Adds `d`; returns whether it was new.
    pub fn insert(&mut self, d: Date) -> (r: bool)
        ensures
            r <==> !old(self)@.contains(d@),
            final(self)@ == if r { old(self)@.push(d@) } else { old(self)@ },
    {
        proof {
            use_type_invariant(&*self);
        }
        let n = d.day_number();
        if self.contains(d) {
            return false;
        }
        let mut dates = Vec::new();
        std::mem::swap(&mut dates, &mut self.dates);
        let ghost before = dates@;
        dates.push(d);
        assert(dates@.map_values(|x: Date| x@) =~= before.map_values(|x: Date| x@).push(d@));
        self.dates = dates;
        true
    }
}

/// `s` without repeats, each value kept at its first occurrence.
pub open spec fn first_occurrences(s: Seq<int>) -> Seq<int>
    decreases s.len(),
{
    if s.len() == 0 {
        Seq::empty()
    } else if s.drop_last().contains(s.last()) {
        first_occurrences(s.drop_last())
    } else {
        first_occurrences(s.drop_last()).push(s.last())
    }
}

proof fn lemma_push_contains(q: Seq<int>, x: int, n: int)
    ensures
        q.push(x).contains(n) <==> (q.contains(n) || n == x),
{
    if q.contains(n) {
        let j = choose|j: int| 0 <= j < q.len() && q[j] == n;
        assert(q.push(x)[j] == n);
    }
    if n == x {
        assert(q.push(x)[q.len() as int] == n);
    }
    if q.push(x).contains(n) {
        let j = choose|j: int| 0 <= j < q.len() + 1 && q.push(x)[j] == n;
        if j < q.len() {
            assert(q[j] == n);
        }
    }
}

proof fn lemma_first_occurrences_contains(s: Seq<int>)
    ensures
        forall|n: int| first_occurrences(s).contains(n) <==> s.contains(n),
    decreases s.len(),
{
    if s.len() > 0 {
        let p = s.drop_last();
        let l = s.last();
        lemma_first_occurrences_contains(p);
        assert(s =~= p.push(l));
        assert forall|n: int| first_occurrences(s).contains(n) <==> s.contains(n) by {
            lemma_push_contains(p, l, n);
            lemma_push_contains(first_occurrences(p), l, n);
        }
    }
}

/// Adding a value to a sequence adds it to the sequence's first occurrences
/// unless it was already there.
pub proof fn lemma_first_occurrences_push(s: Seq<int>, x: int)
    ensures
        first_occurrences(s.push(x)) == if first_occurrences(s).contains(x) {
            first_occurrences(s)
        } else {
            first_occurrences(s).push(x)
        },
{
    lemma_first_occurrences_contains(s);
    assert(s.push(x).drop_last() =~= s);
}

impl CalendarConfig {
    /// The project-wide non-working dates as a set.
    pub fn global_off_days(&self) -> (r: DateSet)
        ensures
            forall|n: int| r@.contains(n) <==> self.off_seq().contains(n),
            r@ == first_occurrences(self.off_seq()),
    {
        let mut set = DateSet::new();
        let mut i: usize = 0;
        while i < self.non_working_dates.len()
            invariant
                i <= self.non_working_dates@.len(),
                forall|n: int| set@.contains(n) <==> self.off_seq().take(i as int).contains(n),
                set@ == first_occurrences(self.off_seq().take(i as int)),
            decreases self.non_working_dates.len() - i,
        {
            let d = self.non_working_dates[i].date;
            let ghost before = set@;
            set.insert(d);
            proof {
                let pre = self.off_seq().take(i as int);
                assert(self.off_seq()[i as int] == d@);
                assert(self.off_seq().take(i + 1) =~= pre.push(d@));
                assert(pre.push(d@).drop_last() =~= pre);
                lemma_first_occurrences_contains(pre);
                assert(before.contains(d@) == pre.contains(d@));
            }
            let ghost prefix = self.off_seq().take(i as int);
            assert(self.off_seq()[i as int] == d@);
            assert(self.off_seq().len() == self.non_working_dates@.len());
            assert(self.off_seq().take(i + 1).len() == prefix.len() + 1);
            assert(self.off_seq().take(i + 1) =~= prefix.push(d@));
            assert forall|n: int| set@.contains(n) <==> prefix.push(d@).contains(n) by {
                let ext = prefix.push(d@);
                if n == d@ {
                    assert(ext[prefix.len() as int] == n);
                    if !before.contains(n) {
                        assert(set@[before.len() as int] == n);
                    }
                } else {
                    if set@.contains(n) {
                        let j = choose|j: int| 0 <= j < set@.len() && set@[j] == n;
                        assert(before[j] == n);
                        assert(before.contains(n));
                        assert(prefix.contains(n));
                        let k = choose|k: int| 0 <= k < prefix.len() && prefix[k] == n;
                        assert(ext[k] == n);
                    }
                    if ext.contains(n) {
                        let j = choose|j: int| 0 <= j < ext.len() && ext[j] == n;
                        assert(prefix[j] == n);
                        assert(before.contains(n));
                        let k = choose|k: int| 0 <= k < before.len() && before[k] == n;
                        assert(set@[k] == n);
                    }
                }
            }
            i += 1;
        }
        assert(self.off_seq().take(i as int) =~= self.off_seq());
        set
    }
}

/// Whether `date` is a working day: not in `non_working`, and its ISO
/// weekday (Mon=1 … Sun=7) is within the working week.
fn is_working_day(date: Date, working_days_per_week: u8, non_working: &DateSet) -> (r: bool)
    ensures
        r == is_working(date@, working_days_per_week as int, non_working@),
{
    if non_working.contains(date) {
        return false;
    }
    date.weekday_from_monday() <= working_days_per_week as u32
}

/// `is_working` depends on the holiday list only through membership.
proof fn lemma_working_count_same_off(a: int, b: int, w: int, off1: Seq<int>, off2: Seq<int>)
    requires
        forall|n: int| off1.contains(n) <==> off2.contains(n),
    ensures
        working_count(a, b, w, off1) == working_count(a, b, w, off2),
    decreases b - a,
{
    if b > a {
        lemma_working_count_same_off(a, b - 1, w, off1, off2);
    }
}

/// Converts a real calendar date to an abstract timeline day number: the
/// number of working days in `(start_date, date]`, or minus the number in
/// `(date, start_date]` for a date before the start. The start itself is 0.
pub fn date_to_day(date: Date, config: &CalendarConfig) -> (r: Day)
    ensures
        r == config.spec_date_to_day(date@),
{
    let s = config.start_date.day_number();
    let n = date.day_number();
    if n == s {
        return 0;
    }
    let non_working = config.global_off_days();
    let w = config.working_days_per_week;
    let ghost off = non_working@;
    let (start, end, forward) = if n > s {
        (config.start_date, date, true)
    } else {
        (date, config.start_date, false)
    };
    let end_n = end.day_number();
    let ghost lo = start@;
    let mut count: i32 = 0;
    let mut current = start;
    while current.day_number() < end_n
        invariant
            lo <= current@ <= end_n,
            end_n == end@,
            in_date_range(lo),
            in_date_range(end_n as int),
            count == working_count(lo, current@, w as int, off),
            count <= current@ - lo,
            off == non_working@,
        decreases end_n - current@,
    {
        current = match current.checked_add_days(1) {
            Some(next) => next,
            None => current,
        };
        proof {
            lemma_working_count_le(lo, current@, w as int, off);
        }
        if is_working_day(current, w, &non_working) {
            count += 1;
        }
    }
    proof {
        lemma_working_count_same_off(lo, end@, w as int, off, config.off_seq());
    }
    if forward {
        count
    } else {
        -count
    }
}

proof fn lemma_working_count_mono_lower(a2: int, a: int, b: int, w: int, off: Seq<int>)
    requires
        a2 <= a,
    ensures
        working_count(a, b, w, off) <= working_count(a2, b, w, off),
    decreases a - a2,
{
    if a2 < a {
        if a2 < b {
            lemma_working_count_split_front(a2, b, w, off);
            lemma_working_count_mono_lower(a2 + 1, a, b, w, off);
        } else {
            assert(working_count(a, b, w, off) == 0);
        }
    }
}

/// At most one working day per day.
proof fn lemma_working_count_le_span(a: int, b: int, w: int, off: Seq<int>)
    ensures
        working_count(a, b, w, off) <= if b > a { b - a } else { 0 },
    decreases b - a,
{
    if b > a {
        lemma_working_count_le_span(a, b - 1, w, off);
    }
}

/// Counting working days up from `s`, every count up to the one at `x` is
/// reached on some working day after `s` and no later than `x`.
proof fn lemma_count_reaches(s: int, x: int, d: int, w: int, off: Seq<int>)
    requires
        1 <= d <= working_count(s, x, w, off),
    ensures
        exists|n: int| s < n <= x && is_working(n, w, off) && working_count(s, n, w, off) == d,
    decreases x - s,
{
    if working_count(s, x - 1, w, off) >= d {
        lemma_count_reaches(s, x - 1, d, w, off);
        let n = choose|n: int| s < n <= x - 1 && is_working(n, w, off) && working_count(s, n, w, off) == d;
        assert(s < n <= x);
    } else {
        assert(is_working(x, w, off) && working_count(s, x, w, off) == d);
    }
}

/// When the date `span` working days from the start exists, so does the date
/// of every day from 0 to `span`, and such a day is less than the number of
/// dates `chrono` holds.
pub proof fn lemma_days_up_to_span_in_range(config: &CalendarConfig, span: int, d: int)
    requires
        in_date_range(config.start_date@),
        0 <= d <= span,
        config.day_steps_in_range(span),
    ensures
        config.day_steps_in_range(d),
        d <= MAX_DAY_NUMBER - MIN_DAY_NUMBER,
{
    let s = config.start_date@;
    let w = config.wdpw();
    let off = config.off_seq();
    if d == 0 {
        assert(config.is_date_of_day(0, s));
    } else {
        let nd = choose|n: int| in_date_range(n) && #[trigger] config.is_date_of_day(span, n);
        assert(nd > s && working_count(s, nd, w, off) == span);
        lemma_count_reaches(s, nd, d, w, off);
        let n = choose|n: int| s < n <= nd && is_working(n, w, off) && working_count(s, n, w, off) == d;
        assert(config.is_date_of_day(d, n));
        assert(in_date_range(n));
        lemma_working_count_le_span(s, n, w, off);
    }
}

/// Walks `day` working days from `start` (forward for positive `day`,
/// backward for negative), skipping non-working days, one day at a time;
/// `None` when the walk would leave the dates `chrono` holds first.
fn walk_working_days(start: Date, day: Day, w: u8, non_working: &DateSet, Ghost(off): Ghost<Seq<int>>) -> (r: Option<Date>)
    requires
        forall|n: int| non_working@.contains(n) <==> off.contains(n),
    ensures
        match r {
            Some(d) => is_nth_working_date(start@, day as int, w as int, off, d@),
            None => forall|n: int| in_date_range(n) ==> !is_nth_working_date(start@, day as int, w as int, off, n),
        },
{
    if day == 0 {
        return Some(start);
    }
    let ghost s = start@;
    let ghost wi = w as int;
    let ghost total = if day > 0 { day as int } else { -(day as int) };
    let step: i32 = if day > 0 { 1 } else { -1 };
    let mut remaining: i64 = if day > 0 { day as i64 } else { -(day as i64) };
    let mut current = start;
    let _ = start.day_number();
    if remaining > (MAX_DAY_NUMBER as i64) - (MIN_DAY_NUMBER as i64) {
        // More working days than there are dates.
        proof {
            assert forall|n: int| in_date_range(n) implies !is_nth_working_date(s, day as int, wi, off, n) by {
                if day > 0 {
                    lemma_working_count_le_span(s, n, wi, off);
                } else {
                    lemma_working_count_le_span(n - 1, s - 1, wi, off);
                }
            }
        }
        return None;
    }
    while remaining > 0
        invariant
            day != 0,
            s == start@,
            wi == w as int,
            total == if day > 0 { day as int } else { -(day as int) },
            step == if day > 0 { 1int } else { -1int },
            0 <= remaining <= total,
            forall|n: int| non_working@.contains(n) <==> off.contains(n),
            in_date_range(current@),
            day > 0 ==> s <= current@ && working_count(s, current@, wi, off) == total - remaining,
            day < 0 ==> current@ <= s && working_count(current@ - 1, s - 1, wi, off) == total - remaining,
            remaining == 0 ==> is_working(current@, wi, off),
        decreases if day > 0 { MAX_DAY_NUMBER - current@ } else { current@ - MIN_DAY_NUMBER },
    {
        let ghost prev = current@;
        match current.checked_add_days(step) {
            Some(next) => {
                current = next;
            },
            None => {
                proof {
                    assert(remaining > 0);
                    assert forall|n: int| in_date_range(n) implies !is_nth_working_date(s, day as int, wi, off, n) by {
                        if day > 0 {
                            assert(!in_date_range(prev + 1));
                            assert(prev == MAX_DAY_NUMBER);
                            if n > s && working_count(s, n, wi, off) == day as int {
                                lemma_working_count_mono(s, n, prev, wi, off);
                                assert(working_count(s, prev, wi, off) == total - remaining);
                                assert(false);
                            }
                        } else {
                            assert(!in_date_range(prev - 1));
                            assert(prev == MIN_DAY_NUMBER);
                            if n < s && working_count(n - 1, s - 1, wi, off) == -(day as int) {
                                lemma_working_count_mono_lower(prev - 1, n - 1, s - 1, wi, off);
                                assert(working_count(prev - 1, s - 1, wi, off) == total - remaining);
                                assert(false);
                            }
                        }
                    }
                }
                return None;
            },
        }
        let working = is_working_day(current, w, non_working);
        if working {
            remaining -= 1;
        }
        proof {
            if day < 0 {
                lemma_working_count_split_front(current@ - 1, s - 1, wi, off);
            }
        }
    }
    Some(current)
}

/// Walks `day` working days from `start`, when the date it reaches is one
/// `chrono` holds.
fn step_working_days(start: Date, day: Day, w: u8, non_working: &DateSet, Ghost(off): Ghost<Seq<int>>) -> (r: Date)
    requires
        forall|n: int| non_working@.contains(n) <==> off.contains(n),
        exists|n: int| in_date_range(n) && is_nth_working_date(start@, day as int, w as int, off, n),
    ensures
        is_nth_working_date(start@, day as int, w as int, off, r@),
{
    match walk_working_days(start, day, w, non_working, Ghost(off)) {
        Some(d) => d,
        None => {
            proof {
                let n = choose|n: int| in_date_range(n) && is_nth_working_date(start@, day as int, w as int, off, n);
                assert(!is_nth_working_date(start@, day as int, w as int, off, n));
            }
            start
        },
    }
}

/// Converts an abstract timeline day number to a real calendar date. Day 0
/// is the start date; positive days advance through working days, negative
/// days go back through them.
pub fn day_to_date(day: Day, config: &CalendarConfig) -> (r: Date)
    requires
        day != 0 ==> config.working_days_per_week >= 1,
        config.day_steps_in_range(day as int),
    ensures
        config.is_date_of_day(day as int, r@),
{
    let non_working = config.global_off_days();
    step_working_days(config.start_date, day, config.working_days_per_week, &non_working, Ghost(config.off_seq()))
}

/// Converts effort in working days to the number of calendar days from
/// `start_date` to the date `effort_days` working days later.
pub fn effort_to_calendar_days(effort_days: Day, start_date: Date, config: &CalendarConfig) -> (r: i64)
    requires
        exists|n: int| in_date_range(n) && is_nth_working_date(start_date@, effort_days as int, config.wdpw(), config.off_seq(), n),
    ensures
        is_nth_working_date(start_date@, effort_days as int, config.wdpw(), config.off_seq(), start_date@ + r),
{
    let non_working = config.global_off_days();
    let finish = step_working_days(start_date, effort_days, config.working_days_per_week, &non_working, Ghost(config.off_seq()));
    finish.day_number() as i64 - start_date.day_number() as i64
}

/// The timeline day for the "today" marker on `date`: its own day on a
/// working day, one past the last completed working day otherwise.
pub fn today_marker_day(date: Date, config: &CalendarConfig) -> (r: Day)
    ensures
        r == config.spec_date_to_day(date@) + if is_working(date@, config.wdpw(), config.off_seq()) {
            0int
        } else {
            1int
        },
{
    let non_working = config.global_off_days();
    let base = date_to_day(date, config);
    let _n = date.day_number();
    let _s = config.start_date.day_number();
    proof {
        let s = config.start_date@;
        let n = date@;
        if n >= s {
            lemma_working_count_le(s, n, config.wdpw(), config.off_seq());
        } else {
            lemma_working_count_le(n, s, config.wdpw(), config.off_seq());
        }
    }
    if is_working_day(date, config.working_days_per_week, &non_working) {
        base
    } else {
        base + 1
    }
}

// ── holiday columns ─────────────────────────────────────────────────────────

/// A non-working date `n` inserts a column before working day `day` when it
/// falls on a working weekday and the working day after it is `<= day`.
pub open spec fn column_before(n: int, day: int, config: &CalendarConfig) -> bool {
    weekday_number(n) <= config.wdpw() && config.spec_date_to_day(n) + 1 <= day
}

/// Number of dates of `off` that insert a column before working day `day`.
pub open spec fn columns_before(off: Seq<int>, day: int, config: &CalendarConfig) -> nat
    decreases off.len(),
{
    if off.len() == 0 {
        0
    } else {
        columns_before(off.drop_last(), day, config) + if column_before(off.last(), day, config) {
            1nat
        } else {
            0nat
        }
    }
}

pub proof fn lemma_columns_before_le_len(off: Seq<int>, day: int, config: &CalendarConfig)
    ensures
        columns_before(off, day, config) <= off.len(),
    decreases off.len(),
{
    if off.len() > 0 {
        lemma_columns_before_le_len(off.drop_last(), day, config);
    }
}

/// More columns lie before a later day.
pub proof fn lemma_columns_before_monotone(off: Seq<int>, d1: int, d2: int, config: &CalendarConfig)
    requires
        d1 <= d2,
    ensures
        columns_before(off, d1, config) <= columns_before(off, d2, config),
    decreases off.len(),
{
    if off.len() > 0 {
        lemma_columns_before_monotone(off.drop_last(), d1, d2, config);
    }
}

/// Number of holiday columns inserted before working day `day`, given the
/// explicit non-working set.
pub fn holiday_offset(day: Day, non_working: &DateSet, config: &CalendarConfig) -> (r: i32)
    ensures
        r == columns_before(non_working@, day as int, config),
{
    let len = non_working.len();
    if len == 0 {
        return 0;
    }
    let mut count: i32 = 0;
    let mut i: usize = 0;
    while i < len
        invariant
            len == non_working@.len(),
            len <= MAX_DAY_NUMBER - MIN_DAY_NUMBER + 1,
            i <= len,
            count == columns_before(non_working@.take(i as int), day as int, config),
            count <= i,
        decreases len - i,
    {
        let d = non_working.get(i);
        assert(non_working@.take(i + 1).drop_last() =~= non_working@.take(i as int));
        if d.weekday_from_monday() <= config.working_days_per_week as u32 {
            let boundary = date_to_day(d, config);
            let _n = d.day_number();
            let _s = config.start_date.day_number();
            proof {
                let s = config.start_date@;
                if d@ >= s {
                    lemma_working_count_le(s, d@, config.wdpw(), config.off_seq());
                } else {
                    lemma_working_count_le(d@, s, config.wdpw(), config.off_seq());
                }
            }
            if boundary + 1 <= day {
                count += 1;
            }
        }
        i += 1;
    }
    assert(non_working@.take(len as int) =~= non_working@);
    count
}

/// The visual column of working day `day`: the day plus the holiday columns
/// inserted before it.
pub fn day_to_column(day: Day, non_working: &DateSet, config: &CalendarConfig) -> (r: i32)
    requires
        day + columns_before(non_working@, day as int, config) <= i32::MAX,
    ensures
        r == day + columns_before(non_working@, day as int, config),
{
    day + holiday_offset(day, non_working, config)
}

/// The working day whose column holds visual column `v`: the largest day
/// whose column is at or before `v` (a column inside a holiday run resolves
/// to the working day just before it).
pub fn column_to_day(v: i32, non_working: &DateSet, config: &CalendarConfig) -> (r: Day)
    requires
        v - non_working@.len() >= i32::MIN,
        v + non_working@.len() <= i32::MAX,
    ensures
        r <= v,
        r + columns_before(non_working@, r as int, config) <= v,
        forall|d: int| r < d <= v ==> d + columns_before(non_working@, d, config) > v,
{
    if non_working.is_empty() {
        proof {
            lemma_columns_before_le_len(non_working@, v as int, config);
        }
        return v;
    }
    let mut day = v;
    proof {
        lemma_columns_before_le_len(non_working@, day as int, config);
    }
    while day + holiday_offset(day, non_working, config) > v
        invariant
            v - non_working@.len() <= day <= v,
            v + non_working@.len() <= i32::MAX,
            v - non_working@.len() >= i32::MIN,
            columns_before(non_working@, day as int, config) <= non_working@.len(),
            forall|d: int| day < d <= v ==> d + columns_before(non_working@, d, config) > v,
        decreases day - (v - non_working@.len()),
    {
        proof {
            lemma_columns_before_le_len(non_working@, day as int, config);
            if day == v - non_working@.len() {
                assert(false);
            }
        }
        day -= 1;
        proof {
            lemma_columns_before_le_len(non_working@, day as int, config);
        }
    }
    day
}

/// Converting a working day to its column and back gives the day again.
pub proof fn lemma_column_round_trip(day: int, r: int, off: Seq<int>, config: &CalendarConfig)
    requires
        r + columns_before(off, r, config) <= day + columns_before(off, day, config),
        forall|d: int| r < d <= day + columns_before(off, day, config)
            ==> d + columns_before(off, d, config) > day + columns_before(off, day, config),
    ensures
        r == day,
{
    if day > r {
        lemma_columns_before_le_len(off, day, config);
        assert(day + columns_before(off, day, config) > day + columns_before(off, day, config));
    }
    if day < r {
        lemma_columns_before_monotone(off, day, r, config);
    }
}

/// At most one date is `day` working days from `s`.
pub proof fn lemma_nth_working_date_unique(s: int, day: int, w: int, off: Seq<int>, n1: int, n2: int)
    requires
        is_nth_working_date(s, day, w, off, n1),
        is_nth_working_date(s, day, w, off, n2),
    ensures
        n1 == n2,
{
    if day > 0 && n1 != n2 {
        let (a, b) = if n1 < n2 { (n1, n2) } else { (n2, n1) };
        lemma_working_count_mono(s, a, b - 1, w, off);
        assert(working_count(s, b, w, off) == working_count(s, b - 1, w, off) + 1);
    }
    if day < 0 && n1 != n2 {
        let (a, b) = if n1 < n2 { (n1, n2) } else { (n2, n1) };
        lemma_working_count_split_front(a - 1, s - 1, w, off);
        lemma_working_count_mono_lower(a, b - 1, s - 1, w, off);
    }
}

/// Converting the date `day` working days from the start back to a day
/// number gives `day` — for every day at or after the start, and for days
/// before it when the start date is itself a working day.
pub proof fn lemma_date_to_day_of_day_to_date(config: &CalendarConfig, day: int, n: int)
    requires
        config.is_date_of_day(day, n),
        day >= 0 || is_working(config.start_date@, config.wdpw(), config.off_seq()),
    ensures
        config.spec_date_to_day(n) == day,
{
    let s = config.start_date@;
    let w = config.wdpw();
    let off = config.off_seq();
    if day < 0 {
        lemma_working_count_split_front(n - 1, s, w, off);
        assert(working_count(n - 1, s, w, off) == working_count(n - 1, s - 1, w, off) + 1);
    }
}

// ── the columns of holidays ─────────────────────────────────────────────────

pub open spec fn dated_view(v: Seq<(Date, String)>) -> Seq<(int, Seq<char>)> {
    v.map_values(|p: (Date, String)| (p.0@, p.1@))
}

pub open spec fn columns_view(v: Seq<(i32, Date, String)>) -> Seq<(int, int, Seq<char>)> {
    v.map_values(|c: (i32, Date, String)| (c.0 as int, c.1@, c.2@))
}

/// A holiday as its day number and description.
pub open spec fn holiday_view(h: NonWorkingDate) -> (int, Seq<char>) {
    (h.date@, h.description@)
}

/// `x` inserted into `s` before the first holiday strictly after it.
pub open spec fn insert_by_date(x: (int, Seq<char>), s: Seq<(int, Seq<char>)>) -> Seq<(int, Seq<char>)>
    decreases s.len(),
{
    if s.len() == 0 {
        seq![x]
    } else if x.0 < s[0].0 {
        seq![x] + s
    } else {
        seq![s[0]] + insert_by_date(x, s.skip(1))
    }
}

/// `s` sorted by date, holidays on the same date keeping their order.
pub open spec fn sort_by_date(s: Seq<(int, Seq<char>)>) -> Seq<(int, Seq<char>)>
    decreases s.len(),
{
    if s.len() == 0 {
        Seq::empty()
    } else {
        insert_by_date(s.last(), sort_by_date(s.drop_last()))
    }
}

/// The holidays that fall on a working weekday, sorted by date.
pub open spec fn weekday_holidays(config: &CalendarConfig) -> Seq<(int, Seq<char>)> {
    sort_by_date(config.non_working_dates@.map_values(|h: NonWorkingDate| holiday_view(h))
        .filter(|h: (int, Seq<char>)| weekday_number(h.0) <= config.wdpw()))
}

/// The working day before which holiday `h` puts its column.
pub open spec fn boundary_of(config: &CalendarConfig, h: (int, Seq<char>)) -> int {
    config.spec_date_to_day(h.0) + 1
}

/// The end of the run of holidays from `i` on sharing its boundary.
pub open spec fn run_end(config: &CalendarConfig, hs: Seq<(int, Seq<char>)>, i: int) -> int
    decreases hs.len() - i,
{
    if i + 1 < hs.len() && boundary_of(config, hs[i + 1]) == boundary_of(config, hs[i]) {
        run_end(config, hs, i + 1)
    } else {
        i + 1
    }
}

/// The columns of the first `n` sorted holidays whose boundary lies in
/// `0..=span + 1`: each run sits just left of its boundary's column, the
/// earliest holiday leftmost.
pub open spec fn holiday_columns_spec(config: &CalendarConfig, span: int, n: int) -> Seq<(int, int, Seq<char>)>
    decreases n,
{
    let hs = weekday_holidays(config);
    let off = first_occurrences(config.off_seq());
    if n <= 0 {
        Seq::empty()
    } else {
        let i = n - 1;
        let b = boundary_of(config, hs[i]);
        holiday_columns_spec(config, span, n - 1) + if 0 <= b <= span + 1 {
            seq![(b + columns_before(off, b, config) - (run_end(config, hs, i) - i), hs[i].0, hs[i].1)]
        } else {
            Seq::empty()
        }
    }
}

proof fn lemma_insert_by_date_at(x: (int, Seq<char>), s: Seq<(int, Seq<char>)>, p: int)
    requires
        0 <= p <= s.len(),
        forall|j: int| 0 <= j < p ==> !(x.0 < (#[trigger] s[j]).0),
        p < s.len() ==> x.0 < s[p].0,
    ensures
        insert_by_date(x, s) == s.take(p) + seq![x] + s.skip(p),
    decreases s.len(),
{
    if s.len() == 0 {
        assert(s.take(p) + seq![x] + s.skip(p) =~= seq![x]);
    } else if p == 0 {
        assert(s.take(0) + seq![x] + s.skip(0) =~= seq![x] + s);
    } else {
        assert forall|j: int| 0 <= j < p - 1 implies !(x.0 < (#[trigger] s.skip(1)[j]).0) by {
            assert(s.skip(1)[j] == s[j + 1]);
        }
        lemma_insert_by_date_at(x, s.skip(1), p - 1);
        assert(s.take(p) + seq![x] + s.skip(p) =~= seq![s[0]] + (s.skip(1).take(p - 1) + seq![x] + s.skip(1).skip(p - 1)));
    }
}

proof fn lemma_date_to_day_bound(config: &CalendarConfig, n: int)
    requires
        in_date_range(n),
        in_date_range(config.start_date@),
    ensures
        -(MAX_DAY_NUMBER - MIN_DAY_NUMBER) <= config.spec_date_to_day(n) <= MAX_DAY_NUMBER - MIN_DAY_NUMBER,
{
    let s = config.start_date@;
    if n >= s {
        lemma_working_count_le(s, n, config.wdpw(), config.off_seq());
    } else {
        lemma_working_count_le(n, s, config.wdpw(), config.off_seq());
    }
}

proof fn lemma_run_end_const(config: &CalendarConfig, hs: Seq<(int, Seq<char>)>, z: int, e: int)
    requires
        0 <= z < e <= hs.len(),
        run_end(config, hs, e - 1) == e,
        forall|q: int| z <= q < e ==> boundary_of(config, #[trigger] hs[q]) == boundary_of(config, hs[z]),
    ensures
        run_end(config, hs, z) == e,
    decreases e - z,
{
    if z + 1 < e {
        assert(boundary_of(config, hs[z + 1]) == boundary_of(config, hs[z]));
        assert forall|q: int| z + 1 <= q < e implies boundary_of(config, #[trigger] hs[q]) == boundary_of(config, hs[z + 1]) by {}
        lemma_run_end_const(config, hs, z + 1, e);
    }
}

/// `(column, date, description)` for each holiday column whose boundary
/// falls in `0..=span_days + 1`. Holidays on a working weekday put a column
/// just before the working day that follows them; holidays sharing that day
/// get adjacent columns, the earliest date leftmost.
pub fn holiday_columns(config: &CalendarConfig, span_days: Day) -> (r: Vec<(i32, Date, String)>)
    requires
        config.non_working_dates@.len() <= i32::MAX,
        span_days < i32::MAX,
    ensures
        columns_view(r@)
            == holiday_columns_spec(config, span_days as int, weekday_holidays(config).len() as int),
{
    let non_working = config.global_off_days();
    let _s = config.start_date.day_number();
    // The holidays on working weekdays, in list order, then sorted by date.
    let ghost listed = config.non_working_dates@.map_values(|h: NonWorkingDate| holiday_view(h));
    let ghost keep = |h: (int, Seq<char>)| weekday_number(h.0) <= config.wdpw();
    let mut picked: Vec<(Date, String)> = Vec::new();
    let mut i: usize = 0;
    while i < config.non_working_dates.len()
        invariant
            i <= config.non_working_dates@.len(),
            listed == config.non_working_dates@.map_values(|h: NonWorkingDate| holiday_view(h)),
            keep == (|h: (int, Seq<char>)| weekday_number(h.0) <= config.wdpw()),
            dated_view(picked@) == listed.take(i as int).filter(keep),
            picked@.len() <= i,
        decreases config.non_working_dates.len() - i,
    {
        let h = &config.non_working_dates[i];
        let ghost pre = listed.take(i as int);
        assert(listed.take(i + 1) =~= pre.push(listed[i as int]));
        proof {
            pre.lemma_filter_push(listed[i as int], keep);
        }
        let ghost before = picked@;
        if h.date.weekday_from_monday() <= config.working_days_per_week as u32 {
            picked.push((h.date, h.description.clone()));
            assert(dated_view(picked@)
                =~= dated_view(before).push(listed[i as int]));
        }
        i += 1;
    }
    assert(listed.take(i as int) =~= listed);
    let ghost unsorted = listed.filter(keep);
    let mut hs: Vec<(Date, String)> = Vec::new();
    let mut k: usize = 0;
    while k < picked.len()
        invariant
            k <= picked@.len(),
            unsorted == dated_view(picked@),
            dated_view(hs@) == sort_by_date(unsorted.take(k as int)),
            hs@.len() == k,
        decreases picked.len() - k,
    {
        let x = picked[k].0;
        let ghost xv = unsorted[k as int];
        let mut p: usize = 0;
        while p < hs.len() && !(x.day_number() < hs[p].0.day_number())
            invariant
                p <= hs@.len(),
                xv.0 == x@,
                forall|j: int| 0 <= j < p ==> !(xv.0 < (#[trigger] dated_view(hs@)[j]).0),
            decreases hs.len() - p,
        {
            p += 1;
        }
        let ghost hv = dated_view(hs@);
        proof {
            lemma_insert_by_date_at(xv, hv, p as int);
            assert(unsorted.take(k + 1).drop_last() =~= unsorted.take(k as int));
            assert(unsorted.take(k + 1).last() == xv);
        }
        hs.insert(p, (x, picked[k].1.clone()));
        assert(dated_view(hs@) =~= hv.take(p as int) + seq![xv] + hv.skip(p as int));
        k += 1;
    }
    assert(unsorted.take(k as int) =~= unsorted);
    let ghost hv = dated_view(hs@);
    assert(hv == weekday_holidays(config));
    // Boundaries of the sorted holidays.
    let mut bounds: Vec<i32> = Vec::new();
    let mut t: usize = 0;
    while t < hs.len()
        invariant
            t <= hs@.len(),
            hv == dated_view(hs@),
            in_date_range(config.start_date@),
            bounds@.len() == t,
            forall|j: int| 0 <= j < t ==> (#[trigger] bounds@[j]) == boundary_of(config, hv[j]),
            forall|j: int| 0 <= j < t ==> 0 - (MAX_DAY_NUMBER - MIN_DAY_NUMBER) <= #[trigger] bounds@[j] <= MAX_DAY_NUMBER - MIN_DAY_NUMBER + 1,
        decreases hs.len() - t,
    {
        let d = hs[t].0;
        let _n = d.day_number();
        proof {
            lemma_date_to_day_bound(config, d@);
        }
        bounds.push(date_to_day(d, config) + 1);
        t += 1;
    }
    let mut out: Vec<(i32, Date, String)> = Vec::new();
    let mut i: usize = 0;
    let len = hs.len();
    let _count = non_working.len();
    while i < len
        invariant
            i <= len,
            non_working@.len() <= MAX_DAY_NUMBER - MIN_DAY_NUMBER + 1,
            len == hs@.len(),
            len <= i32::MAX,
            span_days < i32::MAX,
            hv == dated_view(hs@),
            hv == weekday_holidays(config),
            bounds@.len() == len,
            forall|j: int| 0 <= j < len ==> (#[trigger] bounds@[j]) == boundary_of(config, hv[j]),
            forall|j: int| 0 <= j < len ==> 0 - (MAX_DAY_NUMBER - MIN_DAY_NUMBER) <= #[trigger] bounds@[j] <= MAX_DAY_NUMBER - MIN_DAY_NUMBER + 1,
            non_working@ == first_occurrences(config.off_seq()),
            columns_view(out@) == holiday_columns_spec(config, span_days as int, i as int),
        decreases len - i,
    {
        let boundary = bounds[i];
        let mut j: usize = i + 1;
        while j < len && bounds[j] == boundary
            invariant
                i < j <= len,
                bounds@.len() == len,
                forall|q: int| 0 <= q < len ==> (#[trigger] bounds@[q]) == boundary_of(config, hv[q]),
                hv.len() == len,
                boundary == bounds@[i as int],
                run_end(config, hv, i as int) == run_end(config, hv, j - 1),
                forall|q: int| i <= q < j ==> bounds@[q] == boundary,
            decreases len - j,
        {
            assert(bounds@[j - 1] == boundary);
            assert(boundary_of(config, hv[j as int]) == boundary_of(config, hv[j - 1]));
            assert(run_end(config, hv, j - 1) == run_end(config, hv, j as int));
            j += 1;
        }
        proof {
            assert(bounds@[j - 1] == boundary);
            if j < len {
                assert(boundary_of(config, hv[j as int]) != boundary_of(config, hv[j - 1]));
            }
            assert(run_end(config, hv, (j - 1) as int) == j);
            assert forall|z: int| i <= z < j implies run_end(config, hv, z) == j by {
                assert forall|q: int| z <= q < j implies boundary_of(config, #[trigger] hv[q]) == boundary_of(config, hv[z]) by {
                    assert(bounds@[q] == boundary);
                    assert(bounds@[z] == boundary);
                }
                lemma_run_end_const(config, hv, z, j as int);
            }
        }
        let ghost group_end = j;
        if boundary >= 0 && boundary <= span_days + 1 {
            proof {
                lemma_columns_before_le_len(non_working@, boundary as int, config);
            }
            let right = day_to_column(boundary, &non_working, config);
            let mut q: usize = i;
            while q < j
                invariant
                    i <= q <= j,
                    j <= len,
                    group_end == j,
                    len == hs@.len(),
                    len <= i32::MAX,
                    0 <= boundary,
                    boundary <= span_days + 1,
                    right == boundary + columns_before(first_occurrences(config.off_seq()), boundary as int, config),
                    hv == dated_view(hs@),
                    hv == weekday_holidays(config),
                    bounds@.len() == len,
                    forall|z: int| 0 <= z < len ==> (#[trigger] bounds@[z]) == boundary_of(config, hv[z]),
                    forall|z: int| i <= z < j ==> bounds@[z] == boundary,
                    forall|z: int| i <= z < j ==> run_end(config, hv, z) == group_end,
                    columns_view(out@) == holiday_columns_spec(config, span_days as int, q as int),
                decreases j - q,
            {
                let left = right - (j - q) as i32;
                let ghost before = columns_view(out@);
                assert(run_end(config, hv, q as int) == group_end);
                assert(bounds@[q as int] == boundary);
                assert(boundary_of(config, hv[q as int]) == boundary);
                let desc = hs[q].1.clone();
                out.push((left, hs[q].0, desc));
                let ghost entry = (left as int, hv[q as int].0, hv[q as int].1);
                assert(hv[q as int] == (hs@[q as int].0@, hs@[q as int].1@));
                assert(columns_view(out@) =~= before.push(entry));
                assert(left as int == boundary + columns_before(first_occurrences(config.off_seq()), boundary as int, config)
                    - (run_end(config, hv, q as int) - q));
                assert(holiday_columns_spec(config, span_days as int, q + 1) == before.push(entry));
                q += 1;
            }
        } else {
            let mut q: usize = i;
            while q < j
                invariant
                    i <= q <= j,
                    j <= len,
                    len == hs@.len(),
                    hv == dated_view(hs@),
                    hv == weekday_holidays(config),
                    bounds@.len() == len,
                    forall|z: int| 0 <= z < len ==> (#[trigger] bounds@[z]) == boundary_of(config, hv[z]),
                    forall|z: int| i <= z < j ==> bounds@[z] == boundary,
                    !(0 <= boundary <= span_days + 1),
                    columns_view(out@) == holiday_columns_spec(config, span_days as int, q as int),
                decreases j - q,
            {
                assert(bounds@[q as int] == boundary);
                assert(boundary_of(config, hv[q as int]) == boundary);
                assert(holiday_columns_spec(config, span_days as int, q + 1) == holiday_columns_spec(config, span_days as int, q as int));
                q += 1;
            }
        }
        i = j;
    }
    out
}

/// Whether timeline day `day` can be turned into a date (see `day_to_date`).
pub fn day_convertible(config: &CalendarConfig, day: Day) -> (r: bool)
    ensures
        r == ((day != 0 ==> config.working_days_per_week >= 1) && config.day_steps_in_range(day as int)),
{
    if day != 0 && config.working_days_per_week < 1 {
        return false;
    }
    let non_working = config.global_off_days();
    match walk_working_days(config.start_date, day, config.working_days_per_week, &non_working, Ghost(config.off_seq())) {
        Some(d) => {
            proof {
                assert(config.is_date_of_day(day as int, d@));
            }
            let _ = d.day_number();
            true
        },
        None => false,
    }
}

// ── order of working days ───────────────────────────────────────────────────

proof fn lemma_working_count_concat(a: int, b: int, c: int, w: int, off: Seq<int>)
    requires
        a <= b <= c,
    ensures
        working_count(a, c, w, off) == working_count(a, b, w, off) + working_count(b, c, w, off),
    decreases c - b,
{
    if b < c {
        lemma_working_count_concat(a, b, c - 1, w, off);
    }
}

/// A later working day lies further along the timeline.
pub proof fn lemma_date_to_day_increasing(config: &CalendarConfig, n1: int, n2: int)
    requires
        n1 < n2,
        is_working(n2, config.wdpw(), config.off_seq()),
    ensures
        config.spec_date_to_day(n1) < config.spec_date_to_day(n2),
{
    let s = config.start_date@;
    let w = config.wdpw();
    let off = config.off_seq();
    assert(working_count(n2 - 1, n2, w, off) == 1) by {
        assert(working_count(n2 - 1, n2 - 1, w, off) == 0);
    }
    if n1 >= s {
        lemma_working_count_concat(s, n1, n2, w, off);
        lemma_working_count_concat(n1, n2 - 1, n2, w, off);
    } else if n2 < s {
        lemma_working_count_concat(n1, n2, s, w, off);
        lemma_working_count_concat(n1, n2 - 1, n2, w, off);
    } else if n2 > s {
        lemma_working_count_concat(s, n2 - 1, n2, w, off);
    } else {
        lemma_working_count_concat(n1, n2 - 1, n2, w, off);
    }
}

/// A date no more than `k` days before the start is at most `k` working
/// days before it.
pub proof fn lemma_date_to_day_lower(config: &CalendarConfig, n: int, k: int)
    requires
        config.start_date@ - k <= n,
        k >= 0,
    ensures
        config.spec_date_to_day(n) >= -k,
{
    if n < config.start_date@ {
        lemma_working_count_le(n, config.start_date@, config.wdpw(), config.off_seq());
    }
}

// ── months ──────────────────────────────────────────────────────────────────

/// The first working date among the days `g + k .. g + dim` (stopping where
/// the dates `chrono` holds end).
pub open spec fn first_working_from(g: int, k: int, dim: int, w: int, off: Seq<int>) -> Option<int>
    decreases dim - k,
{
    if k >= dim || !in_date_range(g + k) {
        None
    } else if is_working(g + k, w, off) {
        Some(g + k)
    } else {
        first_working_from(g, k + 1, dim, w, off)
    }
}

/// The first working date of month `m` of year `y`, if the month exists
/// and has one.
pub open spec fn first_working_in_month(y: int, m: int, config: &CalendarConfig) -> Option<int> {
    match ymd_day_number(y, m, 1) {
        Some(g) => first_working_from(g, 0, days_in_month(y, m), config.wdpw(), config.off_seq()),
        None => None,
    }
}

/// What `first_working_from` finds: the first working date of the range,
/// or none when every date of it that `chrono` holds is non-working.
pub proof fn lemma_first_working_from(g: int, k: int, dim: int, w: int, off: Seq<int>)
    requires
        0 <= k,
        in_date_range(g),
    ensures
        match first_working_from(g, k, dim, w, off) {
            Some(n) => g + k <= n < g + dim && in_date_range(n) && is_working(n, w, off)
                && forall|j: int| g + k <= j < n ==> !is_working(j, w, off),
            None => forall|j: int| g + k <= j < g + dim && in_date_range(j) ==> !is_working(j, w, off),
        },
    decreases dim - k,
{
    if k < dim && in_date_range(g + k) && !is_working(g + k, w, off) {
        lemma_first_working_from(g, k + 1, dim, w, off);
    }
}

/// The number of days of month `m` (1–12) of year `y`.
fn month_length(y: i32, m: u32) -> (r: u32)
    requires
        1 <= m <= 12,
    ensures
        r == days_in_month(y as int, m as int),
{
    if m == 2 {
        if y % 4 == 0 && (y % 100 != 0 || y % 400 == 0) {
            29
        } else {
            28
        }
    } else if m == 4 || m == 6 || m == 9 || m == 11 {
        30
    } else {
        31
    }
}

/// The first day of month `month` of `year` that is a working day under
/// `config`; `None` when there is no such month or it has no working day.
pub fn first_working_day_of_month(year: i32, month: u32, config: &CalendarConfig) -> (r: Option<Date>)
    ensures
        match r {
            Some(d) => first_working_in_month(year as int, month as int, config) == Some(d@),
            None => first_working_in_month(year as int, month as int, config) is None,
        },
{
    let first = match Date::from_ymd_opt(year, month, 1) {
        Some(d) => d,
        None => return None,
    };
    let non_working = config.global_off_days();
    let w = config.working_days_per_week;
    let dim = month_length(year, month);
    let ghost g = first@;
    let ghost off = config.off_seq();
    let mut day = first;
    let mut k: u32 = 0;
    loop
        invariant
            k < dim,
            dim == days_in_month(year as int, month as int),
            dim <= 31,
            day@ == g + k,
            ymd_day_number(year as int, month as int, 1) == Some(g),
            forall|n: int| non_working@.contains(n) <==> off.contains(n),
            off == config.off_seq(),
            w == config.working_days_per_week,
            first_working_in_month(year as int, month as int, config) == first_working_from(g, k as int, dim as int, w as int, off),
        decreases dim - k,
    {
        let _n = day.day_number();
        if is_working_day(day, w, &non_working) {
            assert(is_working(day@, w as int, off));
            return Some(day);
        }
        assert(!is_working(day@, w as int, off));
        assert(first_working_from(g, k as int, dim as int, w as int, off)
            == first_working_from(g, k + 1, dim as int, w as int, off));
        if k + 1 >= dim {
            assert(first_working_from(g, k + 1, dim as int, w as int, off) is None);
            return None;
        }
        match day.checked_add_days(1) {
            Some(next) => {
                day = next;
            },
            None => {
                assert(first_working_from(g, k + 1, dim as int, w as int, off) is None);
                return None;
            },
        }
        k += 1;
    }
}

// ── Unix time ───────────────────────────────────────────────────────────────

/// Year, month and day of the day `secs / 86400` days after 1970-01-01, by
/// Howard Hinnant's civil-from-days algorithm (the year as a 64-bit value).
pub open spec fn civil_from_unix_secs(secs: u64) -> (int, int, int) {
    let z = secs / 86400 + 719468;
    let era = z / 146097;
    let doe = z - era * 146097;
    let yoe = (doe - doe / 1460 + doe / 36524 - doe / 146096) / 365;
    let doy = doe - (365 * yoe + yoe / 4 - yoe / 100);
    let mp = (5 * doy + 2) / 153;
    let d = doy - (153 * mp + 2) / 5 + 1;
    let m = if mp < 10 { mp + 3 } else { mp - 9 };
    let y = yoe + era * 400 + if m <= 2 { 1int } else { 0int };
    (y, m, d)
}

/// Day number of 2025-01-01.
pub const FALLBACK_DAY_NUMBER: i32 = 739252;

proof fn lemma_day_of_era_bounds(doe: int)
    requires
        0 <= doe <= 146096,
    ensures
        ({
            let yoe = (doe - doe / 1460 + doe / 36524 - doe / 146096) / 365;
            let doy = doe - (365 * yoe + yoe / 4 - yoe / 100);
            0 <= yoe <= 399 && 0 <= doy <= 365
        }),
{
    let yoe = (doe - doe / 1460 + doe / 36524 - doe / 146096) / 365;
    assert(0 <= yoe <= 399) by (nonlinear_arith)
        requires
            0 <= doe <= 146096,
            yoe == (doe - doe / 1460 + doe / 36524 - doe / 146096) / 365,
    ;
    assert(0 <= doe - (365 * yoe + yoe / 4 - yoe / 100) <= 365) by (nonlinear_arith)
        requires
            0 <= doe <= 146096,
            yoe == (doe - doe / 1460 + doe / 36524 - doe / 146096) / 365,
            0 <= yoe <= 399,
    ;
}

/// The date `secs` seconds after 1970-01-01T00:00:00Z (UTC), or 2025-01-01
/// when the computed year, month and day make no date `chrono` holds.
pub fn unix_secs_to_date(secs: u64) -> (r: Date)
    ensures
        ({
            let (y, m, d) = civil_from_unix_secs(secs);
            r@ == match ymd_day_number((y as i32) as int, m, d) {
                Some(n) => n,
                None => FALLBACK_DAY_NUMBER as int,
            }
        }),
{
    let z: u64 = secs / 86400 + 719468;
    let era: u64 = z / 146097;
    let doe: u64 = z - era * 146097;
    proof {
        lemma_day_of_era_bounds(doe as int);
    }
    let yoe: u64 = (doe - doe / 1460 + doe / 36524 - doe / 146096) / 365;
    let doy: u64 = doe - (365 * yoe + yoe / 4 - yoe / 100);
    let mp: u64 = (5 * doy + 2) / 153;
    let d: u64 = doy - (153 * mp + 2) / 5 + 1;
    let m: u64 = if mp < 10 { mp + 3 } else { mp - 9 };
    let y: u64 = yoe + era * 400 + if m <= 2 { 1 } else { 0 };
    match Date::from_ymd_opt(y as i32, m as u32, d as u32) {
        Some(date) => date,
        None => Date::new_in_range(FALLBACK_DAY_NUMBER),
    }
}

} // verus!
