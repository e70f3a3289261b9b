//! Study sessions over the words of a deck: the order in which words are
//! put before the user, the recording of a review, and the words that are
//! due.

use crate::models::{DeckWithWords, DeckWord, StudyWord, StudyWordView, Word};
use crate::sort::{precedence, stable_sort, stable_sorted, Ranked};
use crate::srs::{
    due_for, find_review, scheduled, stored, valid_performance, SrsEngine, SrsError, SrsReview,
    Timestamp,
};
use vstd::prelude::*;

verus! {

impl Ranked for StudyWord {
    /// A new word comes before one that has been reviewed; of two that
    /// are alike in this, the one that is due earlier comes first; where
    /// a due date is missing, neither comes first.
    open spec fn before(&self, other: &Self) -> bool {
        if self.is_new != other.is_new {
            self.is_new
        } else {
            match (self.next_review, other.next_review) {
                (Some(a), Some(b)) => a.lt(b),
                _ => false,
            }
        }
    }

    fn is_before(&self, other: &Self) -> (r: bool) {
        if self.is_new != other.is_new {
            self.is_new
        } else {
            match (self.next_review, other.next_review) {
                (Some(a), Some(b)) => a.is_lt(&b),
                _ => false,
            }
        }
    }

    proof fn before_is_irreflexive(a: Self) {
    }

    proof fn before_is_transitive(a: Self, b: Self, c: Self) {
    }
}

/// A word of a deck as it is put before a user: new if the user has not
/// reviewed it in this deck, else with the rating and the due date of its
/// state.
pub open spec fn study_word(rows: Seq<SrsReview>, user_id: i32, deck_id: i32, word: DeckWord)
    -> StudyWord {
    match find_review(rows, user_id, deck_id, word.id) {
        None => StudyWord { word, is_new: true, last_performance: None, next_review: None },
        Some(r) => StudyWord {
            word,
            is_new: false,
            last_performance: Some(r.performance),
            next_review: Some(r.next_review_date),
        },
    }
}

/// [`study_word`] for a fixed user and deck.
pub open spec fn studied(rows: Seq<SrsReview>, user_id: i32, deck_id: i32) -> spec_fn(
    DeckWord,
) -> StudyWord {
    |word: DeckWord| study_word(rows, user_id, deck_id, word)
}

/// The words of a deck as they are put before a user, in the order of the
/// deck.
pub open spec fn study_words(
    rows: Seq<SrsReview>,
    user_id: i32,
    deck_id: i32,
    words: Seq<DeckWord>,
) -> Seq<StudyWord> {
    words.map_values(studied(rows, user_id, deck_id))
}

/// The words of a deck in the order of study: the words that the user has
/// not reviewed yet come first, then the reviewed ones, the one due
/// earliest first; words of equal rank keep the order of the deck.
pub fn start_study_session(engine: &SrsEngine, user_id: i32, deck: DeckWithWords) -> (out: Vec<
    StudyWord,
>)
    ensures
        out@ == stable_sorted(
            study_words(engine@, user_id, deck.id, deck.words@),
            precedence::<StudyWord>(),
        ),
        out@.to_multiset() == study_words(engine@, user_id, deck.id, deck.words@).to_multiset(),
        out.len() == deck.words.len(),
        forall|i: int, j: int|
            #![trigger out[i], out[j]]
            0 <= i < out.len() && 0 <= j < out.len() && out[i].is_new && !out[j].is_new ==> i < j,
        forall|i: int, j: int|
            #![trigger out[i], out[j]]
            0 <= i < j < out.len() && out[i].is_new == out[j].is_new ==> (
            out[i].next_review matches Some(a) ==> (out[j].next_review matches Some(b) ==> a.le(
                b,
            ))),
{
    let deck_id = deck.id;
    let ghost words = deck.words@;
    let ghost rows = engine@;
    let mut session: Vec<StudyWord> = Vec::new();
    for word in it: deck.words
        invariant
            it.seq() == words,
            rows == engine@,
            session@ == study_words(rows, user_id, deck_id, words.take(it.index() as int)),
    {
        let ghost head = words.take(it.index() as int);
        let ghost done = session@;
        let last = engine.get_last_review(user_id, deck_id, word.id);
        let item = match last {
            None => StudyWord { word, is_new: true, last_performance: None, next_review: None },
            Some(r) => StudyWord {
                word,
                is_new: false,
                last_performance: Some(r.performance),
                next_review: Some(r.next_review_date),
            },
        };
        session.push(item);
        proof {
            assert(words.take(it.index() + 1) =~= head.push(word));
            assert(study_words(rows, user_id, deck_id, head.push(word)) =~= done.push(item));
        }
    }
    proof {
        assert(words.take(words.len() as int) =~= words);
    }
    let out = stable_sort(session);
    proof {
        assert forall|i: int, j: int|
            #![trigger out[i], out[j]]
            0 <= i < out.len() && 0 <= j < out.len() && out[i].is_new
                && !out[j].is_new implies i < j by {
            if j < i {
                assert(precedence::<StudyWord>()(out[i], out[j]));
            }
        }
        assert forall|i: int, j: int|
            #![trigger out[i], out[j]]
            0 <= i < j < out.len() && out[i].is_new == out[j].is_new implies (
        out[i].next_review matches Some(a) ==> (out[j].next_review matches Some(b) ==> a.le(
            b,
        ))) by {
            assert(!precedence::<StudyWord>()(out[j], out[i]));
        }
    }
    out
}

/// A word with this number is among `words`.
pub open spec fn has_word(words: Seq<DeckWord>, word_id: i32) -> bool {
    exists|i: int| 0 <= i < words.len() && (#[trigger] words[i]).id == word_id
}

/// Whether a word with this number is among `words`.
pub fn contains_word(words: &Vec<DeckWord>, word_id: i32) -> (r: bool)
    ensures
        r == has_word(words@, word_id),
{
    for i in 0..words.len()
        invariant
            forall|k: int| 0 <= k < i ==> (#[trigger] words@[k]).id != word_id,
    {
        if words[i].id == word_id {
            return true;
        }
    }
    false
}

/// Records the review of a word of a deck at the time `now`.
///
/// A rating outside `1` to `5` is refused first; then a word that is not
/// in the deck. In both cases nothing changes. Otherwise the review is
/// recorded as [`SrsEngine::record_review_at`] says.
pub fn record_word_review(
    engine: &mut SrsEngine,
    deck: &DeckWithWords,
    user_id: i32,
    word_id: i32,
    performance: i32,
    now: Timestamp,
) -> (r: Result<SrsReview, SrsError>)
    requires
        now.reviewable(),
    ensures
        !valid_performance(performance as int) ==> r == Err::<SrsReview, SrsError>(
            SrsError::InvalidPerformance,
        ),
        valid_performance(performance as int) && !has_word(deck.words@, word_id) ==> r == Err::<
            SrsReview,
            SrsError,
        >(SrsError::NotFound),
        valid_performance(performance as int) && has_word(deck.words@, word_id) ==> r == Ok::<
            SrsReview,
            SrsError,
        >(
            scheduled(
                find_review(old(engine)@, user_id, deck.id, word_id),
                user_id,
                deck.id,
                word_id,
                performance,
                now,
            ),
        ),
        r is Err ==> final(engine)@ == old(engine)@,
        r matches Ok(s) ==> final(engine)@ == stored(old(engine)@, s) && s.wf(),
{
    if performance < 1 || performance > 5 {
        return Err(SrsError::InvalidPerformance);
    }
    if !contains_word(&deck.words, word_id) {
        return Err(SrsError::NotFound);
    }
    engine.record_review_at(user_id, deck.id, word_id, performance, now)
}

/// The position of the first word with this number, or the length of
/// `words` if there is none.
pub open spec fn word_position(words: Seq<Word>, word_id: i32) -> int
    decreases words.len(),
{
    if words.len() == 0 {
        0
    } else if words[0].id == word_id {
        0
    } else {
        1 + word_position(words.drop_first(), word_id)
    }
}

/// A due review as a study word: the first word with the number of the
/// review, as a member of the deck of the review, with the rating and the
/// due date of the review. There is none if no word has that number.
pub open spec fn due_item(words: Seq<Word>, review: SrsReview) -> Option<StudyWordView> {
    let at = word_position(words, review.word_id);
    if at < words.len() {
        Some(
            StudyWordView {
                word: words[at].in_deck(review.deck_id),
                is_new: false,
                last_performance: Some(review.performance),
                next_review: Some(review.next_review_date),
            },
        )
    } else {
        None
    }
}

/// The due reviews that have a word, as study words, in the order of the
/// reviews.
pub open spec fn due_items(words: Seq<Word>, due: Seq<SrsReview>) -> Seq<StudyWordView>
    decreases due.len(),
{
    if due.len() == 0 {
        Seq::empty()
    } else {
        let rest = due_items(words, due.drop_last());
        match due_item(words, due.last()) {
            None => rest,
            Some(item) => rest.push(item),
        }
    }
}

/// The text of each study word of a list.
pub open spec fn study_views(list: Seq<StudyWord>) -> Seq<StudyWordView> {
    list.map_values(|w: StudyWord| w@)
}

/// The position of the first word with this number.
fn locate_word(words: &Vec<Word>, word_id: i32) -> (at: usize)
    ensures
        at == word_position(words@, word_id),
        at <= words.len(),
        at < words.len() ==> words@[at as int].id == word_id,
{
    let mut at: usize = 0;
    proof {
        assert(words@.skip(0) =~= words@);
    }
    while at < words.len() && words[at].id != word_id
        invariant
            at <= words.len(),
            word_position(words@, word_id) == at + word_position(words@.skip(at as int), word_id),
        decreases words.len() - at,
    {
        proof {
            assert(words@.skip(at as int).drop_first() =~= words@.skip(at + 1));
        }
        at += 1;
    }
    proof {
        if at < words.len() {
            assert(words@.skip(at as int)[0] == words@[at as int]);
        }
    }
    at
}

/// The words of a user that are due for review at `now`, over all decks:
/// each due review with its word, in the order in which the reviews are
/// held.
pub fn get_all_due_words(engine: &SrsEngine, user_id: i32, words: &Vec<Word>, now: Timestamp) -> (out:
    Vec<StudyWord>)
    ensures
        study_views(out@) == due_items(words@, engine@.filter(due_for(user_id, None, now))),
        forall|i: int|
            0 <= i < out.len() ==> !(#[trigger] out[i]).is_new && (out[i].next_review matches Some(
                t,
            ) && t.le(now)),
{
    let due = engine.get_due_words_at(user_id, None, now);
    let ghost all = due@;
    let mut out: Vec<StudyWord> = Vec::new();
    for i in 0..due.len()
        invariant
            all == due@,
            all == engine@.filter(due_for(user_id, None, now)),
            study_views(out@) == due_items(words@, all.take(i as int)),
            forall|k: int|
                0 <= k < out.len() ==> !(#[trigger] out[k]).is_new && (
                out[k].next_review matches Some(t) && t.le(now)),
    {
        let review = due[i];
        proof {
            assert(all.take(i + 1).drop_last() =~= all.take(i as int));
            assert(all.contains(all[i as int]));
            crate::sequences::lemma_filter_members(engine@, due_for(user_id, None, now));
        }
        let at = locate_word(words, review.word_id);
        if at < words.len() {
            let ghost done = out@;
            let item = StudyWord {
                word: words[at].to_deck_word(review.deck_id),
                is_new: false,
                last_performance: Some(review.performance),
                next_review: Some(review.next_review_date),
            };
            out.push(item);
            proof {
                assert(study_views(done.push(item)) =~= study_views(done).push(item@));
            }
        }
    }
    proof {
        assert(all.take(all.len() as int) =~= all);
    }
    out
}

/// The number of reviews of a user that are due at `now`, over all decks.
pub fn get_due_words_count(engine: &SrsEngine, user_id: i32, now: Timestamp) -> (n: usize)
    ensures
        n == engine@.filter(due_for(user_id, None, now)).len(),
{
    engine.get_due_words_at(user_id, None, now).len()
}

} // verus!
