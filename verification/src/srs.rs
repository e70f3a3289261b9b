//! The review scheduler: per user and item, the state of the last review
//! and the date at which the next one is due.
//!
//! Ease factors are counted in hundredths and times in seconds and
//! nanoseconds, so that every rule of the schedule is exact.

use crate::sequences::lemma_filter_members;
use vstd::prelude::*;

verus! {

/// Seconds in a day.
pub const DAY_SECS: i64 = 86_400;

/// The latest second at which a review can be recorded: from here on the
/// longest interval would lead past the last second that can be counted.
pub const MAX_REVIEW_SECS: i64 = 9_223_186_494_267_675_007;

/// Every reading of the clock lies before this second.
pub const CLOCK_LIMIT_SECS: i64 = 185_542_587_187_200;

/// A point in time: seconds since the start of 1970, and nanoseconds
/// within the second.
#[derive(Clone, Copy, Debug, PartialEq, Eq, Structural)]
pub struct Timestamp {
    pub secs: i64,
    pub nanos: u32,
}

impl Timestamp {
    /// `self` is not later than `other`.
    pub open spec fn le(self, other: Timestamp) -> bool {
        self.secs < other.secs || (self.secs == other.secs && self.nanos <= other.nanos)
    }

    /// `self` is earlier than `other`.
    pub open spec fn lt(self, other: Timestamp) -> bool {
        self.secs < other.secs || (self.secs == other.secs && self.nanos < other.nanos)
    }

    /// The time `days` whole days after `self`.
    pub open spec fn plus_days(self, days: int) -> Timestamp
        recommends
            i64::MIN <= self.secs + DAY_SECS * days <= i64::MAX,
    {
        Timestamp { secs: (self.secs + DAY_SECS * days) as i64, nanos: self.nanos }
    }

    /// A review can be recorded at this time.
    pub open spec fn reviewable(self) -> bool {
        self.secs <= MAX_REVIEW_SECS
    }

    /// Decides [`Timestamp::le`].
    pub fn is_le(&self, other: &Timestamp) -> (r: bool)
        ensures
            r == self.le(*other),
    {
        self.secs < other.secs || (self.secs == other.secs && self.nanos <= other.nanos)
    }

    /// Decides [`Timestamp::lt`].
    pub fn is_lt(&self, other: &Timestamp) -> (r: bool)
        ensures
            r == self.lt(*other),
    {
        self.secs < other.secs || (self.secs == other.secs && self.nanos < other.nanos)
    }

    /// Decides [`Timestamp::reviewable`].
    pub fn is_reviewable(&self) -> (r: bool)
        ensures
            r == self.reviewable(),
    {
        self.secs <= MAX_REVIEW_SECS
    }

    /// The time `days` whole days later, for a time at which a review can
    /// be recorded and a number of days that is not negative.
    pub fn add_days(&self, days: i32) -> (r: Timestamp)
        requires
            self.reviewable(),
            days >= 0,
        ensures
            r == self.plus_days(days as int),
            r.secs == self.secs + DAY_SECS * days,
    {
        let span: i64 = DAY_SECS * (days as i64);
        Timestamp { secs: self.secs + span, nanos: self.nanos }
    }
}

/// An ease factor in hundredths: `250` stands for `2.5`.
#[derive(Clone, Copy, Debug, PartialEq, Eq, Structural)]
pub struct EaseFactor {
    pub hundredths: u32,
}

/// The ease factor of a first review, `2.5`.
pub const INITIAL_EASE: u32 = 250;

/// The lowest ease factor, `1.3`.
pub const MIN_EASE: u32 = 130;

/// What can go wrong with a review.
#[derive(Clone, Copy, Debug, PartialEq, Eq, Structural)]
pub enum SrsError {
    /// The performance rating is not one of `1` to `5`.
    InvalidPerformance,
    /// The reviewed word is not in the deck.
    NotFound,
}

/// The state of one item for one user after its last review.
#[derive(Clone, Copy, Debug, PartialEq, Eq, Structural)]
pub struct SrsReview {
    pub review_id: Option<i32>,
    pub word_id: i32,
    pub deck_id: i32,
    pub user_id: i32,
    pub review_date: Timestamp,
    pub next_review_date: Timestamp,
    pub ease_factor: EaseFactor,
    pub interval: i32,
    pub performance: i32,
}

/// A performance rating is one of `1` to `5`.
pub open spec fn valid_performance(performance: int) -> bool {
    1 <= performance <= 5
}

/// `num / den` rounded to the nearest whole number, halves upwards, for a
/// fraction that is not negative.
pub open spec fn rounded(num: int, den: int) -> int
    recommends
        num >= 0,
        den > 0,
{
    (2 * num + den) / (2 * den)
}

/// The interval in days after a first review.
pub open spec fn initial_interval(performance: int) -> int {
    if performance == 3 {
        3
    } else if performance == 4 {
        5
    } else if performance == 5 {
        7
    } else {
        1
    }
}

/// The ease factor after a further review, in hundredths: the old one
/// plus `0.1 - (5 - performance) * 0.08`, but at least `1.3` and at most
/// what the counter holds.
pub open spec fn next_ease(ease: int, performance: int) -> int {
    let raw = ease + 10 - 8 * (5 - performance);
    if raw < MIN_EASE {
        MIN_EASE as int
    } else if raw > u32::MAX {
        u32::MAX as int
    } else {
        raw
    }
}

/// The interval in days after a further review, from the old interval and
/// the new ease factor: one day after a `1`; four fifths of the old
/// interval, but a day at least, after a `2`; the old interval times the
/// new ease factor after a `3`, `4` or `5`, but at most what the counter
/// holds.
pub open spec fn next_interval(interval: int, new_ease: int, performance: int) -> int {
    if performance == 1 {
        1
    } else if performance == 2 {
        let cut = rounded(8 * interval, 10);
        if cut < 1 {
            1
        } else {
            cut
        }
    } else {
        let grown = rounded(interval * new_ease, 100);
        if grown > i32::MAX {
            i32::MAX as int
        } else {
            grown
        }
    }
}

/// Whether a performance rating is one of `1` to `5`.
pub fn is_valid_performance(performance: i32) -> (r: bool)
    ensures
        r == valid_performance(performance as int),
{
    1 <= performance && performance <= 5
}

impl SrsReview {
    /// The state is consistent: the ease factor is at least `1.3`, the
    /// interval at least a day, the rating one of `1` to `5`, and the
    /// next review is due the interval after the last.
    pub open spec fn wf(self) -> bool {
        &&& self.ease_factor.hundredths >= MIN_EASE
        &&& self.interval >= 1
        &&& valid_performance(self.performance as int)
        &&& self.review_date.secs + DAY_SECS * self.interval <= i64::MAX
        &&& self.next_review_date == self.review_date.plus_days(self.interval as int)
    }

    /// The state belongs to this user, deck and word.
    pub open spec fn is_for(self, user_id: i32, deck_id: i32, word_id: i32) -> bool {
        self.user_id == user_id && self.deck_id == deck_id && self.word_id == word_id
    }

    /// The review is due at `now`.
    pub open spec fn due_at(self, now: Timestamp) -> bool {
        self.next_review_date.le(now)
    }

    /// Decides [`SrsReview::wf`].
    pub fn is_valid(&self) -> (r: bool)
        ensures
            r == self.wf(),
    {
        if self.ease_factor.hundredths < MIN_EASE || self.interval < 1 || self.performance < 1
            || self.performance > 5 {
            return false;
        }
        let span: i64 = DAY_SECS * (self.interval as i64);
        match self.review_date.secs.checked_add(span) {
            None => false,
            Some(secs) => self.next_review_date.secs == secs && self.next_review_date.nanos
                == self.review_date.nanos,
        }
    }

    /// Decides [`SrsReview::is_for`].
    pub fn belongs_to(&self, user_id: i32, deck_id: i32, word_id: i32) -> (r: bool)
        ensures
            r == self.is_for(user_id, deck_id, word_id),
    {
        self.user_id == user_id && self.deck_id == deck_id && self.word_id == word_id
    }

    /// Decides [`SrsReview::due_at`].
    pub fn is_due(&self, now: &Timestamp) -> (r: bool)
        ensures
            r == self.due_at(*now),
    {
        self.next_review_date.is_le(now)
    }
}

/// The state that a review at `now` with a valid rating leaves: the first
/// review of an item starts from an ease factor of `2.5` and an interval
/// chosen by the rating; a further review moves the ease factor and the
/// interval of the state before it.
pub open spec fn scheduled(
    prior: Option<SrsReview>,
    user_id: i32,
    deck_id: i32,
    word_id: i32,
    performance: i32,
    now: Timestamp,
) -> SrsReview {
    let ease = match prior {
        None => INITIAL_EASE as int,
        Some(p) => next_ease(p.ease_factor.hundredths as int, performance as int),
    };
    let interval = match prior {
        None => initial_interval(performance as int),
        Some(p) => next_interval(p.interval as int, ease, performance as int),
    };
    SrsReview {
        review_id: match prior {
            None => None,
            Some(p) => p.review_id,
        },
        word_id,
        deck_id,
        user_id,
        review_date: now,
        next_review_date: now.plus_days(interval),
        ease_factor: EaseFactor { hundredths: ease as u32 },
        interval: interval as i32,
        performance,
    }
}

/// The state after a review is consistent, and its numbers are those of
/// the rules.
pub proof fn lemma_scheduled_is_wf(
    prior: Option<SrsReview>,
    user_id: i32,
    deck_id: i32,
    word_id: i32,
    performance: i32,
    now: Timestamp,
)
    requires
        valid_performance(performance as int),
        now.reviewable(),
        prior matches Some(p) ==> p.wf(),
    ensures
        scheduled(prior, user_id, deck_id, word_id, performance, now).wf(),
        scheduled(prior, user_id, deck_id, word_id, performance, now).is_for(
            user_id,
            deck_id,
            word_id,
        ),
        prior is None ==> scheduled(
            prior,
            user_id,
            deck_id,
            word_id,
            performance,
            now,
        ).ease_factor.hundredths == INITIAL_EASE && scheduled(
            prior,
            user_id,
            deck_id,
            word_id,
            performance,
            now,
        ).interval == initial_interval(performance as int),
        prior matches Some(p) ==> scheduled(
            prior,
            user_id,
            deck_id,
            word_id,
            performance,
            now,
        ).ease_factor.hundredths == next_ease(p.ease_factor.hundredths as int, performance as int)
            && scheduled(prior, user_id, deck_id, word_id, performance, now).interval
            == next_interval(
            p.interval as int,
            next_ease(p.ease_factor.hundredths as int, performance as int),
            performance as int,
        ),
{
    if let Some(p) = prior {
        lemma_next_interval_bounds(
            p.interval as int,
            next_ease(p.ease_factor.hundredths as int, performance as int),
            performance as int,
        );
    }
}

/// The interval after a further review is a day at least and fits the
/// counter.
pub proof fn lemma_next_interval_bounds(interval: int, new_ease: int, performance: int)
    requires
        1 <= interval <= i32::MAX,
        MIN_EASE <= new_ease <= u32::MAX,
    ensures
        1 <= next_interval(interval, new_ease, performance) <= i32::MAX,
{
    let product = interval * new_ease;
    assert(product >= 130) by (nonlinear_arith)
        requires
            product == interval * new_ease,
            interval >= 1,
            new_ease >= 130,
    ;
    assert(rounded(product, 100) == (2 * product + 100) / 200);
    assert(rounded(8 * interval, 10) == (16 * interval + 10) / 20);
    assert((16 * interval + 10) / 20 <= interval);
}

/// The first state of `rows` that belongs to this user, deck and word.
pub open spec fn find_review(rows: Seq<SrsReview>, user_id: i32, deck_id: i32, word_id: i32)
    -> Option<SrsReview>
    decreases rows.len(),
{
    if rows.len() == 0 {
        None
    } else if rows[0].is_for(user_id, deck_id, word_id) {
        Some(rows[0])
    } else {
        find_review(rows.drop_first(), user_id, deck_id, word_id)
    }
}

/// The position of the first state of `rows` that belongs to this user,
/// deck and word, or the length of `rows` if there is none.
pub open spec fn position_of(rows: Seq<SrsReview>, user_id: i32, deck_id: i32, word_id: i32)
    -> int
    decreases rows.len(),
{
    if rows.len() == 0 {
        0
    } else if rows[0].is_for(user_id, deck_id, word_id) {
        0
    } else {
        1 + position_of(rows.drop_first(), user_id, deck_id, word_id)
    }
}

/// `rows` with `review` stored: in place of the state of the same user,
/// deck and word, or at the end if there is none.
pub open spec fn stored(rows: Seq<SrsReview>, review: SrsReview) -> Seq<SrsReview> {
    let at = position_of(rows, review.user_id, review.deck_id, review.word_id);
    if at < rows.len() {
        rows.update(at, review)
    } else {
        rows.push(review)
    }
}

/// Every state of `rows` is consistent, and no two belong to the same
/// user, deck and word.
pub open spec fn consistent(rows: Seq<SrsReview>) -> bool {
    &&& forall|i: int| 0 <= i < rows.len() ==> (#[trigger] rows[i]).wf()
    &&& forall|i: int, j: int|
        #![trigger rows[i], rows[j]]
        0 <= i < j < rows.len() ==> !rows[j].is_for(
            rows[i].user_id,
            rows[i].deck_id,
            rows[i].word_id,
        )
}

/// The states of this user, and of this deck where one is given, that
/// are due at `now`.
pub open spec fn due_for(user_id: i32, deck_id: Option<i32>, now: Timestamp) -> spec_fn(
    SrsReview,
) -> bool {
    |r: SrsReview|
        r.user_id == user_id && (deck_id matches Some(d) ==> r.deck_id == d) && r.due_at(now)
}

/// What [`position_of`] and [`find_review`] find.
pub proof fn lemma_position_of(rows: Seq<SrsReview>, user_id: i32, deck_id: i32, word_id: i32)
    ensures
        0 <= position_of(rows, user_id, deck_id, word_id) <= rows.len(),
        forall|k: int|
            0 <= k < position_of(rows, user_id, deck_id, word_id) ==> !(#[trigger] rows[k]).is_for(
                user_id,
                deck_id,
                word_id,
            ),
        position_of(rows, user_id, deck_id, word_id) < rows.len() ==> rows[position_of(
            rows,
            user_id,
            deck_id,
            word_id,
        )].is_for(user_id, deck_id, word_id) && find_review(rows, user_id, deck_id, word_id)
            == Some(rows[position_of(rows, user_id, deck_id, word_id)]),
        position_of(rows, user_id, deck_id, word_id) == rows.len() ==> find_review(
            rows,
            user_id,
            deck_id,
            word_id,
        ) is None,
    decreases rows.len(),
{
    if rows.len() != 0 && !rows[0].is_for(user_id, deck_id, word_id) {
        let tail = rows.drop_first();
        lemma_position_of(tail, user_id, deck_id, word_id);
        let p = position_of(rows, user_id, deck_id, word_id);
        assert forall|k: int| 0 <= k < p implies !(#[trigger] rows[k]).is_for(
            user_id,
            deck_id,
            word_id,
        ) by {
            if k > 0 {
                assert(rows[k] == tail[k - 1]);
            }
        }
        if p < rows.len() {
            assert(rows[p] == tail[p - 1]);
        }
    }
}

/// After a state is stored it is the one found for its user, deck and
/// word, and what is found for any other is as before.
pub proof fn lemma_stored_is_found(
    rows: Seq<SrsReview>,
    review: SrsReview,
    user_id: i32,
    deck_id: i32,
    word_id: i32,
)
    ensures
        review.is_for(user_id, deck_id, word_id) ==> find_review(
            stored(rows, review),
            user_id,
            deck_id,
            word_id,
        ) == Some(review),
        !review.is_for(user_id, deck_id, word_id) ==> find_review(
            stored(rows, review),
            user_id,
            deck_id,
            word_id,
        ) == find_review(rows, user_id, deck_id, word_id),
    decreases rows.len(),
{
    let at = position_of(rows, review.user_id, review.deck_id, review.word_id);
    lemma_position_of(rows, review.user_id, review.deck_id, review.word_id);
    let out = stored(rows, review);
    if rows.len() == 0 {
        assert(out =~= seq![review]);
        assert(out.drop_first() =~= Seq::<SrsReview>::empty());
        assert(find_review(out.drop_first(), user_id, deck_id, word_id) is None);
    } else if at == 0 {
        assert(out =~= rows.update(0, review));
        assert(out.drop_first() =~= rows.drop_first());
        assert(out[0] == review);
        assert(rows[0].is_for(review.user_id, review.deck_id, review.word_id));
    } else {
        let tail = rows.drop_first();
        lemma_stored_is_found(tail, review, user_id, deck_id, word_id);
        assert(position_of(tail, review.user_id, review.deck_id, review.word_id) == at - 1);
        if at < rows.len() {
            assert(out.drop_first() =~= tail.update(at - 1, review));
        } else {
            assert(out.drop_first() =~= tail.push(review));
        }
        assert(out.drop_first() == stored(tail, review));
        assert(out[0] == rows[0]);
    }
}

/// Storing a consistent state keeps the states consistent.
pub proof fn lemma_stored_is_consistent(rows: Seq<SrsReview>, review: SrsReview)
    requires
        consistent(rows),
        review.wf(),
    ensures
        consistent(stored(rows, review)),
{
    let at = position_of(rows, review.user_id, review.deck_id, review.word_id);
    lemma_position_of(rows, review.user_id, review.deck_id, review.word_id);
    let out = stored(rows, review);
    assert forall|i: int, j: int| #![trigger out[i], out[j]] 0 <= i < j < out.len() implies !out[j].is_for(
        out[i].user_id,
        out[i].deck_id,
        out[i].word_id,
    ) by {
        if at < rows.len() {
            if i == at {
                assert(!rows[j].is_for(rows[at].user_id, rows[at].deck_id, rows[at].word_id));
            } else if j == at {
                assert(!rows[at].is_for(rows[i].user_id, rows[i].deck_id, rows[i].word_id));
            } else {
                assert(!rows[j].is_for(rows[i].user_id, rows[i].deck_id, rows[i].word_id));
            }
        } else {
            if j == rows.len() {
                assert(!rows[i].is_for(review.user_id, review.deck_id, review.word_id));
            } else {
                assert(!rows[j].is_for(rows[i].user_id, rows[i].deck_id, rows[i].word_id));
            }
        }
    }
}

/// `chrono::Utc::now`, read through `DateTime::timestamp` and
/// `DateTime::timestamp_subsec_nanos`: the time of the system clock as
/// seconds since the start of 1970 and nanoseconds within the second. The
/// reading differs from call to call. What holds of each is a bound:
/// `chrono` counts the days of a date in 32 bits, so the seconds lie
/// below those of two to the power 31 days. `Utc::now` does not return
/// if the system clock stands before 1970.
#[verifier::external_body]
fn read_clock() -> (now: Timestamp)
    ensures
        now.secs < CLOCK_LIMIT_SECS,
{
    let t = chrono::Utc::now();
    Timestamp { secs: t.timestamp(), nanos: t.timestamp_subsec_nanos() }
}

/// The time now, as the system clock gives it. Which time that is, the
/// clock decides; of every reading it holds that its seconds lie below
/// [`CLOCK_LIMIT_SECS`], and so that a review can be recorded at it.
pub fn current_time() -> (now: Timestamp)
    ensures
        now.secs < CLOCK_LIMIT_SECS,
        now.reviewable(),
{
    read_clock()
}

/// The scheduler: the review states of all users and items.
pub struct SrsEngine {
    reviews: Vec<SrsReview>,
}

impl View for SrsEngine {
    type V = Seq<SrsReview>;

    closed spec fn view(&self) -> Seq<SrsReview> {
        self.reviews@
    }
}

impl SrsEngine {
    #[verifier::type_invariant]
    spec fn well_formed(self) -> bool {
        consistent(self.reviews@)
    }

    /// A scheduler that has seen no review.
    pub fn new() -> (engine: SrsEngine)
        ensures
            engine@ == Seq::<SrsReview>::empty(),
    {
        SrsEngine { reviews: Vec::new() }
    }

    /// The number of states held.
    pub fn len(&self) -> (n: usize)
        ensures
            n == self@.len(),
            consistent(self@),
    {
        proof {
            use_type_invariant(self);
        }
        self.reviews.len()
    }

    /// The position of the state of this user, deck and word.
    fn locate(&self, user_id: i32, deck_id: i32, word_id: i32) -> (at: usize)
        ensures
            at == position_of(self@, user_id, deck_id, word_id),
            at <= self@.len(),
    {
        let mut at: usize = 0;
        proof {
            assert(self.reviews@.skip(0) =~= self.reviews@);
        }
        while at < self.reviews.len() && !self.reviews[at].belongs_to(user_id, deck_id, word_id)
            invariant
                at <= self.reviews.len(),
                position_of(self.reviews@, user_id, deck_id, word_id) == at + position_of(
                    self.reviews@.skip(at as int),
                    user_id,
                    deck_id,
                    word_id,
                ),
            decreases self.reviews.len() - at,
        {
            proof {
                assert(self.reviews@.skip(at as int).drop_first() =~= self.reviews@.skip(at + 1));
            }
            at += 1;
        }
        proof {
            if at < self.reviews.len() {
                assert(self.reviews@.skip(at as int)[0] == self.reviews@[at as int]);
            }
        }
        at
    }

    /// The state of this item for this user after its last review, if it
    /// has been reviewed.
    pub fn get_last_review(&self, user_id: i32, deck_id: i32, word_id: i32) -> (r: Option<
        SrsReview,
    >)
        ensures
            r == find_review(self@, user_id, deck_id, word_id),
            r matches Some(s) ==> s.wf() && s.is_for(user_id, deck_id, word_id),
    {
        proof {
            use_type_invariant(self);
            lemma_position_of(self@, user_id, deck_id, word_id);
        }
        let at = self.locate(user_id, deck_id, word_id);
        if at < self.reviews.len() {
            Some(self.reviews[at])
        } else {
            None
        }
    }

    /// Stores a state: in place of the state of the same user, deck and
    /// word, or as a new one.
    pub fn upsert_review_state(&mut self, review: SrsReview)
        requires
            review.wf(),
        ensures
            final(self)@ == stored(old(self)@, review),
            consistent(final(self)@),
    {
        proof {
            use_type_invariant(&*self);
            lemma_stored_is_consistent(self@, review);
        }
        let at = self.locate(review.user_id, review.deck_id, review.word_id);
        let mut rows: Vec<SrsReview> = Vec::new();
        core::mem::swap(&mut self.reviews, &mut rows);
        if at < rows.len() {
            rows.set(at, review);
        } else {
            rows.push(review);
        }
        core::mem::swap(&mut self.reviews, &mut rows);
    }

    /// The ease factor and the interval in days after the first review
    /// of an item.
    pub fn initial_srs_parameters(performance: i32) -> (r: Result<(i32, EaseFactor), SrsError>)
        ensures
            !valid_performance(performance as int) ==> r == Err::<(i32, EaseFactor), SrsError>(
                SrsError::InvalidPerformance,
            ),
            valid_performance(performance as int) ==> r == Ok::<(i32, EaseFactor), SrsError>(
                (initial_interval(performance as int) as i32, EaseFactor { hundredths: INITIAL_EASE }),
            ),
    {
        if performance < 1 || performance > 5 {
            return Err(SrsError::InvalidPerformance);
        }
        let interval: i32 = if performance == 3 {
            3
        } else if performance == 4 {
            5
        } else if performance == 5 {
            7
        } else {
            1
        };
        Ok((interval, EaseFactor { hundredths: INITIAL_EASE }))
    }

    /// The ease factor and the interval in days after a further review,
    /// from those before it.
    pub fn calculate_srs_parameters(
        performance: i32,
        previous_interval: i32,
        previous_ease: EaseFactor,
    ) -> (r: Result<(i32, EaseFactor), SrsError>)
        requires
            previous_interval >= 1,
        ensures
            !valid_performance(performance as int) ==> r == Err::<(i32, EaseFactor), SrsError>(
                SrsError::InvalidPerformance,
            ),
            valid_performance(performance as int) ==> r == Ok::<(i32, EaseFactor), SrsError>(
                (
                    next_interval(
                        previous_interval as int,
                        next_ease(previous_ease.hundredths as int, performance as int),
                        performance as int,
                    ) as i32,
                    EaseFactor {
                        hundredths: next_ease(
                            previous_ease.hundredths as int,
                            performance as int,
                        ) as u32,
                    },
                ),
            ),
            r matches Ok(p) ==> p.0 >= 1 && p.1.hundredths >= MIN_EASE,
    {
        if performance < 1 || performance > 5 {
            return Err(SrsError::InvalidPerformance);
        }
        let raw: i64 = previous_ease.hundredths as i64 + 10 - 8 * (5 - performance as i64);
        let ease: u32 = if raw < MIN_EASE as i64 {
            MIN_EASE
        } else if raw > u32::MAX as i64 {
            u32::MAX
        } else {
            raw as u32
        };
        proof {
            lemma_next_interval_bounds(previous_interval as int, ease as int, performance as int);
        }
        let interval: i32 = if performance == 1 {
            1
        } else if performance == 2 {
            let cut: i64 = (16 * (previous_interval as i64) + 10) / 20;
            if cut < 1 {
                1
            } else {
                cut as i32
            }
        } else {
            assert(previous_interval * ease <= 0x7fff_ffff * 0xffff_ffff) by (nonlinear_arith)
                requires
                    0 <= previous_interval <= 0x7fff_ffff,
                    0 <= ease <= 0xffff_ffff,
            ;
            let product: u64 = (previous_interval as u64) * (ease as u64);
            let grown: u64 = (2 * product + 100) / 200;
            if grown > i32::MAX as u64 {
                i32::MAX
            } else {
                grown as i32
            }
        };
        Ok((interval, EaseFactor { hundredths: ease }))
    }

    /// Records a review at the time `now`.
    ///
    /// A rating outside `1` to `5` is refused and nothing changes. A valid
    /// one moves the item to its next state, which is stored and returned:
    /// the last review is at `now`, the next is due the new interval
    /// later.
    pub fn record_review_at(
        &mut self,
        user_id: i32,
        deck_id: i32,
        word_id: i32,
        performance: i32,
        now: Timestamp,
    ) -> (r: Result<SrsReview, SrsError>)
        requires
            now.reviewable(),
        ensures
            !valid_performance(performance as int) ==> r == Err::<SrsReview, SrsError>(
                SrsError::InvalidPerformance,
            ) && final(self)@ == old(self)@,
            valid_performance(performance as int) ==> r == Ok::<SrsReview, SrsError>(
                scheduled(
                    find_review(old(self)@, user_id, deck_id, word_id),
                    user_id,
                    deck_id,
                    word_id,
                    performance,
                    now,
                ),
            ) && final(self)@ == stored(old(self)@, r->Ok_0),
            r matches Ok(s) ==> s.wf() && s.review_date == now && s.next_review_date
                == now.plus_days(s.interval as int) && find_review(
                final(self)@,
                user_id,
                deck_id,
                word_id,
            ) == Some(s),
            forall|u: i32, d: i32, w: i32|
                !(u == user_id && d == deck_id && w == word_id) ==> #[trigger] find_review(
                    final(self)@,
                    u,
                    d,
                    w,
                ) == find_review(old(self)@, u, d, w),
            consistent(final(self)@),
    {
        proof {
            use_type_invariant(&*self);
        }
        let ghost before = self@;
        let prior = self.get_last_review(user_id, deck_id, word_id);
        let parameters = match prior {
            None => Self::initial_srs_parameters(performance),
            Some(p) => Self::calculate_srs_parameters(performance, p.interval, p.ease_factor),
        };
        match parameters {
            Err(e) => Err(e),
            Ok((interval, ease_factor)) => {
                let review = SrsReview {
                    review_id: match prior {
                        None => None,
                        Some(p) => p.review_id,
                    },
                    word_id,
                    deck_id,
                    user_id,
                    review_date: now,
                    next_review_date: now.add_days(interval),
                    ease_factor,
                    interval,
                    performance,
                };
                proof {
                    lemma_scheduled_is_wf(prior, user_id, deck_id, word_id, performance, now);
                    lemma_stored_is_found(self@, review, user_id, deck_id, word_id);
                    assert forall|u: i32, d: i32, w: i32|
                        !(u == user_id && d == deck_id && w == word_id) implies #[trigger] find_review(
                        stored(before, review),
                        u,
                        d,
                        w,
                    ) == find_review(before, u, d, w) by {
                        lemma_stored_is_found(before, review, u, d, w);
                    }
                }
                self.upsert_review_state(review);
                Ok(review)
            },
        }
    }

    /// Records a review at the present time. See
    /// [`SrsEngine::record_review_at`].
    pub fn record_review(&mut self, user_id: i32, deck_id: i32, word_id: i32, performance: i32)
        -> (r: Result<SrsReview, SrsError>)
        ensures
            !valid_performance(performance as int) ==> r == Err::<SrsReview, SrsError>(
                SrsError::InvalidPerformance,
            ) && final(self)@ == old(self)@,
            valid_performance(performance as int) ==> r is Ok && final(self)@ == stored(
                old(self)@,
                r->Ok_0,
            ),
            r matches Ok(s) ==> s == scheduled(
                find_review(old(self)@, user_id, deck_id, word_id),
                user_id,
                deck_id,
                word_id,
                performance,
                s.review_date,
            ) && s.wf(),
            consistent(final(self)@),
    {
        let now = current_time();
        self.record_review_at(user_id, deck_id, word_id, performance, now)
    }

    /// The states of this user, and of this deck where one is given, whose
    /// next review is due at `now`, in the order in which they are held.
    pub fn get_due_words_at(&self, user_id: i32, deck_id: Option<i32>, now: Timestamp) -> (due:
        Vec<SrsReview>)
        ensures
            due@ == self@.filter(due_for(user_id, deck_id, now)),
            forall|r: SrsReview|
                due@.contains(r) <==> self@.contains(r) && r.user_id == user_id && (
                deck_id matches Some(d) ==> r.deck_id == d) && r.next_review_date.le(now),
            forall|i: int| 0 <= i < due.len() ==> (#[trigger] due[i]).wf(),
            consistent(self@),
    {
        proof {
            use_type_invariant(self);
        }
        let mut due: Vec<SrsReview> = Vec::new();
        let ghost wanted = due_for(user_id, deck_id, now);
        for i in 0..self.reviews.len()
            invariant
                wanted == due_for(user_id, deck_id, now),
                due@ == self.reviews@.take(i as int).filter(wanted),
        {
            let r = self.reviews[i];
            proof {
                assert(self.reviews@.take(i + 1) =~= self.reviews@.take(i as int).push(r));
                self.reviews@.take(i as int).lemma_filter_push(r, wanted);
            }
            let in_deck = match deck_id {
                None => true,
                Some(d) => r.deck_id == d,
            };
            if r.user_id == user_id && in_deck && r.is_due(&now) {
                due.push(r);
            }
        }
        proof {
            assert(self.reviews@.take(self.reviews@.len() as int) =~= self.reviews@);
            lemma_filter_members(self@, wanted);
            assert forall|i: int| 0 <= i < due.len() implies (#[trigger] due[i]).wf() by {
                assert(due@.contains(due[i]));
                assert(self@.filter(wanted).contains(due[i]));
                assert(self@.contains(due[i]));
                let k = choose|k: int| 0 <= k < self@.len() && self@[k] == due[i];
                assert(self@[k].wf());
            }
        }
        due
    }

    /// The states of this user, and of this deck where one is given, whose
    /// next review is due at the present time.
    pub fn get_due_words(&self, user_id: i32, deck_id: Option<i32>) -> (due: Vec<SrsReview>)
        ensures
            exists|now: Timestamp| due@ == self@.filter(due_for(user_id, deck_id, now)),
            forall|i: int|
                0 <= i < due.len() ==> self@.contains(#[trigger] due[i]) && due[i].user_id
                    == user_id && (deck_id matches Some(d) ==> due[i].deck_id == d),
    {
        let now = current_time();
        let due = self.get_due_words_at(user_id, deck_id, now);
        proof {
            assert forall|i: int| 0 <= i < due.len() implies self@.contains(#[trigger] due[i])
                && due[i].user_id == user_id && (deck_id matches Some(d) ==> due[i].deck_id
                == d) by {
                assert(due@.contains(due[i]));
            }
        }
        due
    }
}

} // verus!
