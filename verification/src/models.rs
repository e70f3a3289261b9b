//! The dictionary data that searches run over, and the search request and
//! reply.

use crate::srs::Timestamp;
use vstd::prelude::*;

verus! {

/// One dictionary entry: a word in both scripts, its romanisation and its
/// translated definitions.
#[derive(Debug)]
pub struct DictEntry {
    pub traditional: String,
    pub simplified: String,
    pub pinyin: String,
    pub definitions: Vec<String>,
}

/// The text of a [`DictEntry`].
pub struct DictEntryView {
    pub traditional: Seq<char>,
    pub simplified: Seq<char>,
    pub pinyin: Seq<char>,
    pub definitions: Seq<Seq<char>>,
}

/// The text of each string of a list.
pub open spec fn texts(list: Seq<String>) -> Seq<Seq<char>> {
    list.map_values(|s: String| s@)
}

impl View for DictEntry {
    type V = DictEntryView;

    open spec fn view(&self) -> DictEntryView {
        DictEntryView {
            traditional: self.traditional@,
            simplified: self.simplified@,
            pinyin: self.pinyin@,
            definitions: texts(self.definitions@),
        }
    }
}

impl Clone for DictEntry {
    fn clone(&self) -> (r: DictEntry)
        ensures
            r@ == self@,
    {
        let mut definitions: Vec<String> = Vec::new();
        for i in 0..self.definitions.len()
            invariant
                definitions@.len() == i,
                texts(definitions@) == texts(self.definitions@.take(i as int)),
        {
            let ghost done = definitions@;
            let ghost head = self.definitions@.take(i as int);
            let d = self.definitions[i].clone();
            definitions.push(d);
            proof {
                assert(self.definitions@.take(i + 1) =~= head.push(self.definitions@[i as int]));
                assert(texts(head.push(self.definitions@[i as int])) =~= texts(head).push(d@));
                assert(texts(done.push(d)) =~= texts(done).push(d@));
            }
        }
        proof {
            assert(self.definitions@.take(self.definitions@.len() as int) =~= self.definitions@);
        }
        DictEntry {
            traditional: self.traditional.clone(),
            simplified: self.simplified.clone(),
            pinyin: self.pinyin.clone(),
            definitions,
        }
    }
}

/// A search request: the text to look for and, optionally, the language
/// family to match it against.
#[derive(Debug)]
pub struct SearchParams {
    pub q: String,
    pub lang: Option<String>,
}

/// A search reply: the request's text and the entries found, best first.
#[derive(Debug)]
pub struct SearchResult {
    pub query: String,
    pub results: Vec<DictEntry>,
}

/// The text of each entry of a list.
pub open spec fn entry_views(list: Seq<DictEntry>) -> Seq<DictEntryView> {
    list.map_values(|e: DictEntry| e@)
}

/// The text of an optional string.
pub open spec fn optional_text(s: Option<String>) -> Option<Seq<char>> {
    match s {
        None => None,
        Some(t) => Some(t@),
    }
}

/// A word as the word list holds it.
#[derive(Debug)]
pub struct Word {
    pub id: i32,
    pub simplified: String,
    pub traditional: Option<String>,
    pub pinyin: String,
    pub definition: String,
}

/// A word as a member of a deck.
#[derive(Debug)]
pub struct DeckWord {
    pub id: i32,
    pub simplified: String,
    pub traditional: Option<String>,
    pub pinyin: String,
    pub definition: String,
    pub deck_id: i32,
}

/// The text of a [`DeckWord`].
pub struct DeckWordView {
    pub id: i32,
    pub simplified: Seq<char>,
    pub traditional: Option<Seq<char>>,
    pub pinyin: Seq<char>,
    pub definition: Seq<char>,
    pub deck_id: i32,
}

impl View for DeckWord {
    type V = DeckWordView;

    open spec fn view(&self) -> DeckWordView {
        DeckWordView {
            id: self.id,
            simplified: self.simplified@,
            traditional: optional_text(self.traditional),
            pinyin: self.pinyin@,
            definition: self.definition@,
            deck_id: self.deck_id,
        }
    }
}

impl Word {
    /// The word as a member of the deck `deck_id`.
    pub open spec fn in_deck(self, deck_id: i32) -> DeckWordView {
        DeckWordView {
            id: self.id,
            simplified: self.simplified@,
            traditional: optional_text(self.traditional),
            pinyin: self.pinyin@,
            definition: self.definition@,
            deck_id,
        }
    }

    /// A copy of the word as a member of the deck `deck_id`.
    pub fn to_deck_word(&self, deck_id: i32) -> (w: DeckWord)
        ensures
            w@ == self.in_deck(deck_id),
    {
        DeckWord {
            id: self.id,
            simplified: self.simplified.clone(),
            traditional: match &self.traditional {
                None => None,
                Some(t) => Some(t.clone()),
            },
            pinyin: self.pinyin.clone(),
            definition: self.definition.clone(),
            deck_id,
        }
    }
}

/// A deck with the words in it.
#[derive(Debug)]
pub struct DeckWithWords {
    pub id: i32,
    pub name: String,
    pub words: Vec<DeckWord>,
}

/// A word put before the user for study.
#[derive(Debug)]
pub struct StudyWord {
    pub word: DeckWord,
    /// The word has not been reviewed yet.
    pub is_new: bool,
    /// The rating of the last review.
    pub last_performance: Option<i32>,
    /// When the next review is due.
    pub next_review: Option<Timestamp>,
}

/// The text of a [`StudyWord`].
pub struct StudyWordView {
    pub word: DeckWordView,
    pub is_new: bool,
    pub last_performance: Option<i32>,
    pub next_review: Option<Timestamp>,
}

impl View for StudyWord {
    type V = StudyWordView;

    open spec fn view(&self) -> StudyWordView {
        StudyWordView {
            word: self.word@,
            is_new: self.is_new,
            last_performance: self.last_performance,
            next_review: self.next_review,
        }
    }
}

} // verus!
