//! The word of the day: elapsed days since a fixed epoch date, and a
//! reproducible shuffle of the dictionary for each cycle through it.
use chrono::Datelike;
use chrono::NaiveDate;
use rand::rngs::StdRng;
use rand::seq::SliceRandom;
use rand::SeedableRng;
use vstd::arithmetic::div_mod::lemma_fundamental_div_mod;
use vstd::prelude::*;
use crate::dictionary::{copy_word, copy_words, strictly_sorted};

verus! {

#[verifier::external_type_specification]
#[verifier::external_body]
pub struct ExStdRng(StdRng);

/// Whether `year` is a leap year of the proleptic Gregorian calendar.
pub open spec fn is_leap(year: int) -> bool {
    year % 4 == 0 && (year % 100 != 0 || year % 400 == 0)
}

/// Days in `month` of `year`.
pub open spec fn days_in_month(year: int, month: int) -> int {
    if month == 2 {
        if is_leap(year) {
            29
        } else {
            28
        }
    } else if month == 4 || month == 6 || month == 9 || month == 11 {
        30
    } else {
        31
    }
}

/// Days of `year` before the first of `month`.
pub open spec fn days_before_month(year: int, month: int) -> int {
    let common: int = if month == 1 {
        0
    } else if month == 2 {
        31
    } else if month == 3 {
        59
    } else if month == 4 {
        90
    } else if month == 5 {
        120
    } else if month == 6 {
        151
    } else if month == 7 {
        181
    } else if month == 8 {
        212
    } else if month == 9 {
        243
    } else if month == 10 {
        273
    } else if month == 11 {
        304
    } else {
        334
    };
    common + if month > 2 && is_leap(year) {
        1int
    } else {
        0int
    }
}

/// Days before January 1 of `year`, counted from January 1 of year 1.
pub open spec fn days_before_year(year: int) -> int {
    let y = year - 1;
    365 * y + y / 4 - y / 100 + y / 400
}

/// The years that `chrono`'s dates cover.
pub open spec fn year_in_range(year: int) -> bool {
    -262143 <= year <= 262142
}

/// The day number of a calendar date (January 1 of year 1 is day 1), or
/// `None` for a date that does not exist or lies outside `chrono`'s range.
pub open spec fn ce_day_of(year: i32, month: u32, day: u32) -> Option<i32> {
    if year_in_range(year as int) && 1 <= month <= 12 && 1 <= day <= days_in_month(year as int, month as int) {
        Some((days_before_year(year as int) + days_before_month(year as int, month as int) + day) as i32)
    } else {
        None
    }
}

/// Relies on `chrono::NaiveDate::from_ymd_opt`, which gives a date exactly
/// for an existing day of the proleptic Gregorian calendar in years
/// -262143..=262142, and on `Datelike::num_days_from_ce`, which counts days
/// with January 1 of year 1 as day 1.
#[verifier::external_body]
fn ce_day(year: i32, month: u32, day: u32) -> (r: Option<i32>)
    ensures
        r == ce_day_of(year, month, day),
{
    match NaiveDate::from_ymd_opt(year, month, day) {
        Some(date) => Some(date.num_days_from_ce()),
        None => None,
    }
}

/// What one `SliceRandom::shuffle` of `words` makes with a `StdRng` seeded
/// by `seed` that has already shuffled slices of the lengths in `earlier`:
/// the generator's state is fixed by those values alone.
pub uninterp spec fn shuffle_pass_of(seed: u64, earlier: Seq<nat>, words: Seq<Seq<char>>) -> Seq<Seq<char>>;

/// A generator seeded once, remembering its seed and the lengths of the
/// slices it has shuffled so far.
pub struct SeededRng {
    rng: StdRng,
    seed: Ghost<u64>,
    shuffled: Ghost<Seq<nat>>,
}

impl SeededRng {
    /// The seed the generator was made from.
    pub closed spec fn seed(&self) -> u64 {
        self.seed@
    }

    /// The lengths of the slices shuffled so far, in order.
    pub closed spec fn history(&self) -> Seq<nat> {
        self.shuffled@
    }

    /// Relies on `SeedableRng::seed_from_u64` for `StdRng`: a generator
    /// whose output is fixed by the seed.
    #[verifier::external_body]
    pub fn new(seed: u64) -> (r: SeededRng)
        ensures
            r.seed() == seed,
            r.history() == Seq::<nat>::empty(),
    {
        SeededRng { rng: StdRng::seed_from_u64(seed), seed: Ghost(seed), shuffled: Ghost(Seq::empty()) }
    }

    /// Relies on `SliceRandom::shuffle`, which only swaps elements and whose
    /// draws depend on the generator's state and the slice's length.
    #[verifier::external_body]
    pub fn shuffle(&mut self, words: &mut Vec<Vec<char>>)
        ensures
            final(words).deep_view() == shuffle_pass_of(old(self).seed(), old(self).history(), old(words).deep_view()),
            final(words).deep_view().to_multiset() == old(words).deep_view().to_multiset(),
            final(words).len() == old(words).len(),
            final(self).seed() == old(self).seed(),
            final(self).history() == old(self).history().push(old(words).len() as nat),
    {
        words.shuffle(&mut self.rng);
        self.shuffled = Ghost(self.shuffled@.push(words.len() as nat));
    }
}

/// `k` copies of `n`.
pub open spec fn repeat_len(n: nat, k: nat) -> Seq<nat>
    decreases k,
{
    if k == 0 {
        Seq::empty()
    } else {
        repeat_len(n, (k - 1) as nat).push(n)
    }
}

/// `words` shuffled `passes` times over by one generator seeded by `seed`,
/// its state carried from each pass to the next.
pub open spec fn seeded_order(seed: u64, passes: nat, words: Seq<Seq<char>>) -> Seq<Seq<char>>
    decreases passes,
{
    if passes == 0 {
        words
    } else {
        shuffle_pass_of(
            seed,
            repeat_len(words.len(), (passes - 1) as nat),
            seeded_order(seed, (passes - 1) as nat, words),
        )
    }
}

/// A calendar date.
#[derive(Clone, Copy, Debug, PartialEq, Eq, Structural)]
pub struct CalendarDate {
    pub year: i32,
    pub month: u32,
    pub day: u32,
}

/// Why no day count could be had.
#[derive(Clone, Copy, Debug, PartialEq, Eq, Structural)]
pub enum DateError {
    /// One of the dates does not exist.
    InvalidDate,
    /// Today lies before the epoch date.
    BeforeEpoch,
}

/// The word for `days` days after the epoch, read off a shuffled order: the
/// order is used from its end backwards.
pub open spec fn daily_word(order: Seq<Seq<char>>, days: nat) -> Seq<char> {
    order[order.len() - 1 - (days % order.len()) as int]
}

/// The word for `days` days after the epoch: cycle `days / |words|` reads
/// the order shuffled `cycle + 1` times by the generator seeded by `seed`.
pub open spec fn scheduled_word(words: Seq<Seq<char>>, seed: u64, days: nat) -> Seq<char> {
    daily_word(seeded_order(seed, days / words.len() + 1, words), days)
}

/// The order that cycle `cycle` reads from.
pub open spec fn cycle_order(words: Seq<Seq<char>>, seed: u64, cycle: nat) -> Seq<Seq<char>> {
    seeded_order(seed, cycle + 1, words)
}

/// The whole days from the epoch's day number to today's, given the two day
/// numbers as the calendar gave them.
pub fn elapsed_days(epoch_day: Option<i32>, today_day: Option<i32>) -> (r: Result<u64, DateError>)
    ensures
        match (epoch_day, today_day) {
            (Some(e), Some(t)) => if e <= t {
                r == Ok::<u64, DateError>((t - e) as u64)
            } else {
                r == Err::<u64, DateError>(DateError::BeforeEpoch)
            },
            _ => r == Err::<u64, DateError>(DateError::InvalidDate),
        },
{
    match (epoch_day, today_day) {
        (Some(e), Some(t)) => {
            if e <= t {
                Ok((t as i64 - e as i64) as u64)
            } else {
                Err(DateError::BeforeEpoch)
            }
        },
        _ => Err(DateError::InvalidDate),
    }
}

/// The day count from `epoch` to `today`, as `days_between` gives it.
pub open spec fn elapsed_spec(epoch: CalendarDate, today: CalendarDate) -> Result<u64, DateError> {
    match (ce_day_of(epoch.year, epoch.month, epoch.day), ce_day_of(today.year, today.month, today.day)) {
        (Some(e), Some(t)) => if e <= t {
            Ok((t - e) as u64)
        } else {
            Err(DateError::BeforeEpoch)
        },
        _ => Err(DateError::InvalidDate),
    }
}

/// The whole days from `epoch` to `today`, counted on the calendar, so that
/// the time of day plays no part.
pub fn days_between(epoch: CalendarDate, today: CalendarDate) -> (r: Result<u64, DateError>)
    ensures
        r == elapsed_spec(epoch, today),
{
    let e = ce_day(epoch.year, epoch.month, epoch.day);
    let t = ce_day(today.year, today.month, today.day);
    elapsed_days(e, t)
}

/// The order for cycle `cycle`: the dictionary shuffled `cycle + 1` times
/// with one generator seeded by `seed`, its state carried from each pass to
/// the next, so that every cycle's order is fixed by the seed alone.
pub fn shuffled_dictionary(dictionary: &Vec<Vec<char>>, seed: u64, cycle: u64) -> (r: Vec<Vec<char>>)
    ensures
        r.deep_view() == seeded_order(seed, cycle as nat + 1, dictionary.deep_view()),
        r.deep_view().to_multiset() == dictionary.deep_view().to_multiset(),
        r.len() == dictionary.len(),
{
    let ghost dict = dictionary.deep_view();
    let mut rng = SeededRng::new(seed);
    let mut order = copy_words(dictionary);
    rng.shuffle(&mut order);
    proof {
        assert(repeat_len(dict.len(), 0) =~= Seq::<nat>::empty());
        assert(seeded_order(seed, 0, dict) == dict);
        assert(seeded_order(seed, 1, dict) == shuffle_pass_of(seed, repeat_len(dict.len(), 0), dict));
        assert(rng.history() =~= repeat_len(dict.len(), 1));
    }
    let mut k: u64 = 0;
    while k < cycle
        invariant
            k <= cycle,
            dict == dictionary.deep_view(),
            order.deep_view() == seeded_order(seed, k as nat + 1, dict),
            order.deep_view().to_multiset() == dict.to_multiset(),
            order.len() == dictionary.len(),
            rng.seed() == seed,
            rng.history() == repeat_len(dict.len(), k as nat + 1),
        decreases cycle - k,
    {
        rng.shuffle(&mut order);
        k += 1;
    }
    order
}

/// The word at the place that `days` picks in a shuffled order.
pub fn word_of_day(order: &Vec<Vec<char>>, days: u64) -> (r: Vec<char>)
    requires
        order.len() > 0,
    ensures
        r@ == daily_word(order.deep_view(), days as nat),
{
    let n = order.len() as u64;
    let position = (n - 1 - days % n) as usize;
    copy_word(&order[position])
}

/// Today's word, with the puzzle ordinal (0-based) and the cycle.
#[derive(Debug)]
pub struct DailyPick {
    pub word: Vec<char>,
    pub ordinal: u64,
    pub cycle: u64,
}

/// Picks the word for `days` days after the epoch: the cycle is
/// `days / |dictionary|`, the ordinal `days % |dictionary|`, and the word is
/// read off the dictionary shuffled `cycle + 1` times with one generator
/// seeded by `seed`.
pub fn pick_for_day(dictionary: &Vec<Vec<char>>, seed: u64, days: u64) -> (r: DailyPick)
    requires
        dictionary.len() > 0,
    ensures
        r.ordinal == days % (dictionary.len() as u64),
        r.cycle == days / (dictionary.len() as u64),
        dictionary.deep_view().contains(r.word@),
        r.word@ == scheduled_word(dictionary.deep_view(), seed, days as nat),
        cycle_order(dictionary.deep_view(), seed, r.cycle as nat).to_multiset()
            == dictionary.deep_view().to_multiset(),
{
    broadcast use vstd::seq_lib::group_to_multiset_ensures;

    let n = dictionary.len() as u64;
    let cycle = days / n;
    let ordinal = days % n;
    let order = shuffled_dictionary(dictionary, seed, cycle);
    let word = word_of_day(&order, days);
    proof {
        let ov = order.deep_view();
        let idx = ov.len() - 1 - (days % n) as int;
        assert(ov.contains(ov[idx]));
        assert(ov.to_multiset().count(word@) > 0);
    }
    DailyPick { word, ordinal, cycle }
}

/// Picks today's word for the calendar date `today`, counting days from
/// `epoch`.
pub fn select_daily_word(
    dictionary: &Vec<Vec<char>>,
    seed: u64,
    today: CalendarDate,
    epoch: CalendarDate,
) -> (r: Result<DailyPick, DateError>)
    requires
        dictionary.len() > 0,
    ensures
        match elapsed_spec(epoch, today) {
            Ok(days) => match r {
                Ok(pick) => {
                    &&& pick.ordinal == days % (dictionary.len() as u64)
                    &&& pick.cycle == days / (dictionary.len() as u64)
                    &&& dictionary.deep_view().contains(pick.word@)
                    &&& pick.word@ == scheduled_word(dictionary.deep_view(), seed, days as nat)
                    &&& cycle_order(dictionary.deep_view(), seed, pick.cycle as nat).to_multiset()
                        == dictionary.deep_view().to_multiset()
                },
                Err(_) => false,
            },
            Err(e) => r == Err::<DailyPick, DateError>(e),
        },
{
    match days_between(epoch, today) {
        Ok(days) => Ok(pick_for_day(dictionary, seed, days)),
        Err(e) => Err(e),
    }
}

proof fn lemma_no_duplicates_of_sorted(dictionary: Seq<Seq<char>>)
    requires
        strictly_sorted(dictionary),
    ensures
        dictionary.no_duplicates(),
{
    assert forall|i: int, j: int| 0 <= i < dictionary.len() && 0 <= j < dictionary.len() && i
        != j implies dictionary[i] != dictionary[j] by {
        if i < j {
            crate::dictionary::lemma_word_lt_irreflexive(dictionary[i]);
        } else {
            crate::dictionary::lemma_word_lt_irreflexive(dictionary[j]);
        }
    }
}

/// Within one cycle no word repeats: two different days of the same cycle
/// get different words, as long as the cycle's order rearranges a
/// dictionary without duplicates (which `pick_for_day` ensures).
pub proof fn lemma_no_repeat_within_cycle(dictionary: Seq<Seq<char>>, seed: u64, d1: nat, d2: nat)
    requires
        dictionary.len() > 0,
        strictly_sorted(dictionary),
        cycle_order(dictionary, seed, d1 / dictionary.len()).to_multiset() == dictionary.to_multiset(),
        d1 / dictionary.len() == d2 / dictionary.len(),
        d1 != d2,
    ensures
        scheduled_word(dictionary, seed, d1) != scheduled_word(dictionary, seed, d2),
{
    broadcast use vstd::seq_lib::group_to_multiset_ensures;

    let n = dictionary.len();
    let order = cycle_order(dictionary, seed, d1 / n);
    lemma_no_duplicates_of_sorted(dictionary);
    dictionary.lemma_multiset_has_no_duplicates();
    assert(order.to_multiset().len() == order.len());
    assert(dictionary.to_multiset().len() == dictionary.len());
    assert(order.len() == n);
    order.lemma_multiset_has_no_duplicates_conv();
    lemma_fundamental_div_mod(d1 as int, n as int);
    lemma_fundamental_div_mod(d2 as int, n as int);
    assert(d1 % n != d2 % n);
}

/// Every dictionary word is the word of some day of each cycle; with
/// `lemma_no_repeat_within_cycle`, the days of a cycle map one to one onto
/// the dictionary.
pub proof fn lemma_cycle_covers_dictionary(dictionary: Seq<Seq<char>>, seed: u64, cycle: nat, w: Seq<char>)
    requires
        dictionary.len() > 0,
        cycle_order(dictionary, seed, cycle).to_multiset() == dictionary.to_multiset(),
        dictionary.contains(w),
    ensures
        exists|ordinal: nat|
            ordinal < dictionary.len() && #[trigger] scheduled_word(dictionary, seed, cycle * dictionary.len() + ordinal) == w,
{
    broadcast use vstd::seq_lib::group_to_multiset_ensures;

    let n = dictionary.len();
    let order = cycle_order(dictionary, seed, cycle);
    assert(order.to_multiset().len() == order.len());
    assert(dictionary.to_multiset().len() == dictionary.len());
    assert(dictionary.to_multiset().count(w) > 0);
    assert(order.contains(w));
    let i = choose|i: int| 0 <= i < order.len() && order[i] == w;
    let ordinal = (n - 1 - i) as nat;
    let d = cycle * n + ordinal;
    assert(d / n == cycle && d % n == ordinal) by {
        vstd::arithmetic::div_mod::lemma_fundamental_div_mod_converse(d as int, n as int, cycle as int, ordinal as int);
    }
    assert(scheduled_word(dictionary, seed, d) == w);
}

} // verus!
