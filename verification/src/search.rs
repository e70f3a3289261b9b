//! Fuzzy dictionary search: the similarity of two strings, the score of a
//! dictionary entry against a query, and the ranked list of matches.

use crate::models::{
    entry_views, optional_text, DictEntry, DictEntryView, SearchParams, SearchResult,
};
use crate::score::{lemma_order_chain, Ratio, Score};
use crate::sequences::lemma_filter_members;
use crate::sort::{
    lemma_stable_sorted_len, lemma_stable_sorted_maps, lemma_stable_sorted_permutes, precedence,
    stable_sort, stable_sorted, Ranked,
};
use crate::text::{
    chars_of, normalize_for_match, normalized, remove_tones, same_chars, same_text,
    strip_punctuation, toneless, unpunctuated,
};
use vstd::prelude::*;
use vstd::utf8::{encode_scalar, encode_utf8};

verus! {

/// The length of a string in bytes of UTF-8.
pub open spec fn utf8_len(s: Seq<char>) -> nat {
    encode_utf8(s).len()
}

/// `needle` occurs in `hay` as a run of consecutive characters.
pub open spec fn occurs_in(needle: Seq<char>, hay: Seq<char>) -> bool {
    exists|i: int| occurs_at(needle, hay, i)
}

/// `needle` occurs in `hay` at position `i`.
pub open spec fn occurs_at(needle: Seq<char>, hay: Seq<char>, i: int) -> bool {
    0 <= i <= hay.len() - needle.len() && hay.subrange(i, i + needle.len()) == needle
}

/// The byte length of a concatenation is the sum of the byte lengths.
pub proof fn lemma_utf8_len_concat(x: Seq<char>, y: Seq<char>)
    ensures
        utf8_len(x + y) == utf8_len(x) + utf8_len(y),
    decreases x.len(),
{
    if x.len() == 0 {
        assert(x + y =~= y);
    } else {
        assert((x + y).drop_first() =~= x.drop_first() + y);
        assert((x + y)[0] == x[0]);
        lemma_utf8_len_concat(x.drop_first(), y);
    }
}

/// Every character takes at least one byte.
pub proof fn lemma_utf8_len_bounds(s: Seq<char>)
    ensures
        utf8_len(s) >= s.len(),
    decreases s.len(),
{
    if s.len() != 0 {
        assert(encode_scalar(s[0] as u32).len() >= 1);
        lemma_utf8_len_bounds(s.drop_first());
    }
}

/// A string that occurs in another is no longer than it, in bytes.
pub proof fn lemma_occurrence_is_shorter(needle: Seq<char>, hay: Seq<char>)
    requires
        occurs_in(needle, hay),
    ensures
        utf8_len(needle) <= utf8_len(hay),
{
    let i = choose|i: int| occurs_at(needle, hay, i);
    let before = hay.subrange(0, i);
    let after = hay.subrange(i + needle.len(), hay.len() as int);
    assert(hay =~= before + needle + after);
    lemma_utf8_len_concat(before + needle, after);
    lemma_utf8_len_concat(before, needle);
}

/// Bit pattern of the IEEE 754 double `0.5`.
pub const HALF_BITS: u64 = 0x3FE0_0000_0000_0000;

/// Bit pattern of the IEEE 754 double `1.0`.
pub const ONE_BITS: u64 = 0x3FF0_0000_0000_0000;

/// Bit pattern of the largest IEEE 754 double that does not exceed `0.85`.
pub const CONFIDENCE_BITS: u64 = 0x3FEB_3333_3333_3333;

/// The number that the IEEE 754 double with bit pattern `bits` stands for,
/// for the doubles from one half to one. Such a double has the exponent
/// of one half and a mantissa of `bits - HALF_BITS`, so it stands for
/// `(2^52 + mantissa) / 2^53`; the pattern of `1.0` continues that series.
pub open spec fn double_value(bits: u64) -> Ratio
    recommends
        HALF_BITS <= bits <= ONE_BITS,
{
    Ratio { num: bits - 0x3FD0_0000_0000_0000, den: 0x20_0000_0000_0000 }
}

/// `bits` is the pattern of a double between zero and one that exceeds
/// `0.85`: the Jaro-Winkler similarities that are taken as scores.
pub open spec fn is_confident(bits: u64) -> bool {
    HALF_BITS <= bits <= ONE_BITS && double_value(bits).gt(Ratio { num: 85, den: 100 })
}

/// The bit pattern of the double that `strsim::jaro_winkler` returns for
/// two strings.
pub uninterp spec fn jaro_winkler_of(a: Seq<char>, b: Seq<char>) -> u64;

/// `strsim::jaro_winkler`: the Jaro-Winkler similarity of `a` and `b`, a
/// double, handed on as its bit pattern. Nothing is claimed of its value.
#[verifier::external_body]
fn jaro_winkler_bits(a: &str, b: &str) -> (bits: u64)
    ensures
        bits == jaro_winkler_of(a@, b@),
{
    strsim::jaro_winkler(a, b).to_bits()
}

/// The score of the rules that look at the two strings alone, where one
/// of them applies:
/// an empty string scores `0`; equal strings score `1`; `a` inside `b`
/// scores `0.6 + 0.4 * len(a) / len(b)`; `b` inside `a` scores
/// `0.5 + 0.3 * len(b) / len(a)`. Lengths are in bytes.
pub open spec fn containment_score(a: Seq<char>, b: Seq<char>) -> Option<Ratio> {
    let la = utf8_len(a) as int;
    let lb = utf8_len(b) as int;
    if a.len() == 0 || b.len() == 0 {
        Some(Ratio::zero())
    } else if a == b {
        Some(Ratio::one())
    } else if occurs_in(a, b) {
        Some(Ratio { num: 6 * lb + 4 * la, den: 10 * lb })
    } else if occurs_in(b, a) {
        Some(Ratio { num: 5 * la + 3 * lb, den: 10 * la })
    } else {
        None
    }
}

/// The score of two strings of `la` and `lb` bytes to which no rule of
/// [`containment_score`] applies: their Jaro-Winkler similarity where that
/// exceeds `0.85`, else `(1 - |la - lb| / (la + lb)) * 0.3`.
pub open spec fn fuzzy_score(la: int, lb: int, jw_bits: u64) -> Ratio {
    if is_confident(jw_bits) {
        double_value(jw_bits)
    } else {
        let diff = if la >= lb {
            la - lb
        } else {
            lb - la
        };
        Ratio { num: 3 * ((la + lb) - diff), den: 10 * (la + lb) }
    }
}

/// The similarity of `a` to `b`, given the bit pattern of their
/// Jaro-Winkler similarity.
pub open spec fn similarity_of(a: Seq<char>, b: Seq<char>, jw_bits: u64) -> Ratio {
    match containment_score(a, b) {
        Some(r) => r,
        None => fuzzy_score(utf8_len(a) as int, utf8_len(b) as int, jw_bits),
    }
}

/// The similarity of `a` to `b`.
pub open spec fn similarity(a: Seq<char>, b: Seq<char>) -> Ratio {
    similarity_of(a, b, jaro_winkler_of(a, b))
}

/// A string is as similar to itself as can be.
pub proof fn lemma_similarity_reflexive(a: Seq<char>, jw_bits: u64)
    requires
        a.len() > 0,
    ensures
        similarity_of(a, a, jw_bits) == Ratio::one(),
        similarity(a, a) == Ratio::one(),
{
}

/// Every similarity is a fraction between zero and one.
pub proof fn lemma_similarity_is_unit(a: Seq<char>, b: Seq<char>, jw_bits: u64)
    ensures
        similarity_of(a, b, jw_bits).is_unit(),
{
    lemma_utf8_len_bounds(a);
    lemma_utf8_len_bounds(b);
    if a.len() != 0 && b.len() != 0 && a != b {
        if occurs_in(a, b) {
            lemma_occurrence_is_shorter(a, b);
        } else if occurs_in(b, a) {
            lemma_occurrence_is_shorter(b, a);
        }
    }
}

/// The best similarity of `a` to any of `options`, and `0` if there is
/// none: each option in turn replaces the best so far if it scores
/// strictly higher.
pub open spec fn best_of(a: Seq<char>, options: Seq<Seq<char>>) -> Ratio
    decreases options.len(),
{
    if options.len() == 0 {
        Ratio::zero()
    } else {
        let best = best_of(a, options.drop_last());
        let s = similarity(a, options.last());
        if s.gt(best) {
            s
        } else {
            best
        }
    }
}

/// The keys of an entry that a query in script or romanisation is held
/// against: both script forms, and the romanisation without tones, with
/// its punctuation stripped first and as it stands.
pub open spec fn script_keys(e: DictEntryView) -> Seq<Seq<char>> {
    seq![e.simplified, e.traditional, toneless(unpunctuated(e.pinyin)), toneless(e.pinyin)]
}

/// The keys of an entry that a query in the language of the definitions
/// is held against: each definition, normalised.
pub open spec fn gloss_keys(e: DictEntryView) -> Seq<Seq<char>> {
    e.definitions.map_values(|d: Seq<char>| normalized(d))
}

/// The score of an entry against a normalised query.
pub open spec fn entry_score(query: Seq<char>, e: DictEntryView, by_script: bool) -> Ratio {
    if by_script {
        best_of(query, script_keys(e))
    } else {
        best_of(query, gloss_keys(e))
    }
}

/// The entries that count as matches: those that score above `0.8`.
pub open spec fn is_hit(query: Seq<char>, by_script: bool) -> spec_fn(DictEntryView) -> bool {
    |e: DictEntryView| entry_score(query, e, by_script).gt(Ratio::cutoff())
}

/// An entry together with its score.
pub open spec fn scored(query: Seq<char>, by_script: bool) -> spec_fn(DictEntryView) -> (
    DictEntryView,
    Ratio,
) {
    |e: DictEntryView| (e, entry_score(query, e, by_script))
}

/// The matches of a normalised query among `dict`, each with its score,
/// in the order of `dict`.
pub open spec fn hits(query: Seq<char>, dict: Seq<DictEntryView>, by_script: bool) -> Seq<
    (DictEntryView, Ratio),
> {
    dict.filter(is_hit(query, by_script)).map_values(scored(query, by_script))
}

/// The order of a result list: the higher score first.
pub open spec fn higher_first() -> spec_fn((DictEntryView, Ratio), (DictEntryView, Ratio)) -> bool {
    |a: (DictEntryView, Ratio), b: (DictEntryView, Ratio)|
        a.1.is_unit() && b.1.is_unit() && a.1.gt(b.1)
}

/// Whether a search with this language selection goes by script and
/// romanisation: it does when none is given and when `"chinese"` is;
/// any other selection goes by the definitions.
pub open spec fn goes_by_script(lang: Option<Seq<char>>) -> bool {
    match lang {
        None => true,
        Some(l) => l == "chinese"@,
    }
}

/// The text of an optional string slice.
pub open spec fn str_text(s: Option<&str>) -> Option<Seq<char>> {
    match s {
        None => None,
        Some(l) => Some(l@),
    }
}

/// The result of a search: the matches of the normalised query, the
/// highest score first, matches of equal score in the order of `dict`.
pub open spec fn ranked(query: Seq<char>, dict: Seq<DictEntryView>, by_script: bool) -> Seq<
    (DictEntryView, Ratio),
> {
    stable_sorted(hits(normalized(query), dict, by_script), higher_first())
}

/// The most entries that a search reply holds.
pub const RESULT_LIMIT: usize = 15;

/// The entry of a scored entry.
pub open spec fn entry_of() -> spec_fn((DictEntryView, Ratio)) -> DictEntryView {
    |p: (DictEntryView, Ratio)| p.0
}

/// The entries of the first `n` items of a scored list, or of all where
/// there are fewer.
pub open spec fn first_entries(list: Seq<(DictEntryView, Ratio)>, n: int) -> Seq<DictEntryView> {
    list.take(
        if list.len() < n {
            list.len() as int
        } else {
            n
        },
    ).map_values(entry_of())
}

/// The text and the value of a scored entry.
pub open spec fn scored_view() -> spec_fn((DictEntry, Score)) -> (DictEntryView, Ratio) {
    |p: (DictEntry, Score)| (p.0@, p.1@)
}

/// The text and the value of each scored entry of a list.
pub open spec fn scored_views(list: Seq<(DictEntry, Score)>) -> Seq<(DictEntryView, Ratio)> {
    list.map_values(scored_view())
}

/// The result of a search holds the matches and nothing else: an entry
/// stands in it, with a score, exactly if it is an entry of `dict`, the
/// score is its score against the normalised query, and that score lies
/// above `0.8`.
pub proof fn lemma_ranked_members(query: Seq<char>, dict: Seq<DictEntryView>, by_script: bool)
    ensures
        ranked(query, dict, by_script).len() == dict.filter(
            is_hit(normalized(query), by_script),
        ).len(),
        forall|e: DictEntryView, s: Ratio|
            #![trigger ranked(query, dict, by_script).contains((e, s))]
            ranked(query, dict, by_script).contains((e, s)) <==> dict.contains(e) && s
                == entry_score(normalized(query), e, by_script) && s.gt(Ratio::cutoff()),
{
    let q = normalized(query);
    let kept = dict.filter(is_hit(q, by_script));
    let found = hits(q, dict, by_script);
    let out = ranked(query, dict, by_script);
    lemma_stable_sorted_permutes(found, higher_first());
    lemma_stable_sorted_len(found, higher_first());
    lemma_filter_members(dict, is_hit(q, by_script));
    assert forall|e: DictEntryView, s: Ratio| #![trigger out.contains((e, s))] out.contains((e, s))
        <==> dict.contains(e) && s == entry_score(q, e, by_script) && s.gt(Ratio::cutoff()) by {
        vstd::seq_lib::to_multiset_contains(out, (e, s));
        vstd::seq_lib::to_multiset_contains(found, (e, s));
        if found.contains((e, s)) {
            let i = choose|i: int| 0 <= i < found.len() && found[i] == (e, s);
            assert(kept.contains(kept[i]));
        }
        if dict.contains(e) && s == entry_score(q, e, by_script) && s.gt(Ratio::cutoff()) {
            assert(kept.contains(e));
            let i = choose|i: int| 0 <= i < kept.len() && kept[i] == e;
            assert(found[i] == (e, s));
        }
    }
}

/// The best of some similarities is a fraction between zero and one, and
/// none of them exceeds it.
pub proof fn lemma_best_of(a: Seq<char>, options: Seq<Seq<char>>)
    ensures
        best_of(a, options).is_unit(),
        forall|i: int| 0 <= i < options.len() ==> similarity(a, #[trigger] options[i]).le(best_of(a, options)),
    decreases options.len(),
{
    if options.len() != 0 {
        let head = options.drop_last();
        let best = best_of(a, head);
        let s = similarity(a, options.last());
        lemma_best_of(a, head);
        lemma_similarity_is_unit(a, options.last(), jaro_winkler_of(a, options.last()));
        assert forall|i: int| 0 <= i < options.len() implies similarity(a, #[trigger] options[i]).le(
            best_of(a, options),
        ) by {
            if i < options.len() - 1 {
                assert(options[i] == head[i]);
                lemma_similarity_is_unit(a, options[i], jaro_winkler_of(a, options[i]));
                lemma_order_chain(similarity(a, options[i]), best, best_of(a, options));
            }
        }
    }
}

impl Ranked for (DictEntry, Score) {
    open spec fn before(&self, other: &Self) -> bool {
        self.1@.is_unit() && other.1@.is_unit() && self.1@.gt(other.1@)
    }

    fn is_before(&self, other: &Self) -> (r: bool) {
        self.1.is_gt(&other.1)
    }

    proof fn before_is_irreflexive(a: Self) {
    }

    proof fn before_is_transitive(a: Self, b: Self, c: Self) {
        lemma_order_chain(c.1@, b.1@, a.1@);
    }
}

/// Whether `needle` stands in `hay` at position `at`.
fn matches_at(needle: &Vec<char>, hay: &Vec<char>, at: usize) -> (r: bool)
    requires
        at + needle.len() <= hay.len(),
    ensures
        r == occurs_at(needle@, hay@, at as int),
{
    let mut k: usize = 0;
    while k < needle.len()
        invariant
            k <= needle.len(),
            at + needle.len() <= hay.len(),
            forall|j: int| 0 <= j < k ==> hay@[at + j] == needle@[j],
        decreases needle.len() - k,
    {
        if hay[at + k] != needle[k] {
            proof {
                let window = hay@.subrange(at as int, at + needle@.len());
                assert(window[k as int] != needle@[k as int]);
            }
            return false;
        }
        k += 1;
    }
    proof {
        assert(hay@.subrange(at as int, at + needle@.len()) =~= needle@);
    }
    true
}

/// Whether `needle` occurs in `hay`.
pub fn occurs(needle: &Vec<char>, hay: &Vec<char>) -> (r: bool)
    ensures
        r == occurs_in(needle@, hay@),
{
    if needle.len() > hay.len() {
        return false;
    }
    let last: usize = hay.len() - needle.len();
    let mut at: usize = 0;
    loop
        invariant
            last == hay.len() - needle.len(),
            at <= last,
            forall|i: int| 0 <= i < at ==> !occurs_at(needle@, hay@, i),
        decreases last - at,
    {
        if matches_at(needle, hay, at) {
            return true;
        }
        if at == last {
            return false;
        }
        at += 1;
    }
}

/// The text of each string slice of a list.
pub open spec fn slice_texts(list: Seq<&str>) -> Seq<Seq<char>> {
    list.map_values(|s: &str| s@)
}

/// The higher of two scores; the first where neither is higher.
pub fn higher(best: Score, s: Score) -> (r: Score)
    ensures
        r@ == if s@.gt(best@) {
            s@
        } else {
            best@
        },
{
    if s.is_gt(&best) {
        s
    } else {
        best
    }
}

/// The search engine: similarity of strings and ranking of entries.
pub struct SearchEngine;

impl SearchEngine {
    /// The score of `a` against `b` by the rules that need no measure of
    /// likeness: emptiness, equality and containment.
    fn containment(a: &str, b: &str) -> (r: Option<Score>)
        ensures
            r is Some == containment_score(a@, b@) is Some,
            r matches Some(s) ==> Some(s@) == containment_score(a@, b@),
    {
        let va = chars_of(a);
        let vb = chars_of(b);
        if va.len() == 0 || vb.len() == 0 {
            return Some(Score::zero());
        }
        if same_chars(&va, &vb) {
            return Some(Score::one());
        }
        let la: u128 = a.as_bytes().len() as u128;
        let lb: u128 = b.as_bytes().len() as u128;
        proof {
            lemma_utf8_len_bounds(a@);
            lemma_utf8_len_bounds(b@);
        }
        if occurs(&va, &vb) {
            proof {
                lemma_occurrence_is_shorter(a@, b@);
            }
            return Some(Score::ratio(6 * lb + 4 * la, 10 * lb));
        }
        if occurs(&vb, &va) {
            proof {
                lemma_occurrence_is_shorter(b@, a@);
            }
            return Some(Score::ratio(5 * la + 3 * lb, 10 * la));
        }
        None
    }

    /// The score of two strings of `la` and `lb` bytes that neither are
    /// equal nor contain one another, from the bit pattern of their
    /// Jaro-Winkler similarity. A pattern that is not that of a double
    /// between zero and one counts as no similarity.
    fn fuzzy(la: usize, lb: usize, jw_bits: u64) -> (s: Score)
        requires
            la + lb > 0,
        ensures
            s@ == fuzzy_score(la as int, lb as int, jw_bits),
    {
        if jw_bits > CONFIDENCE_BITS && jw_bits <= ONE_BITS {
            Score::ratio((jw_bits - 0x3FD0_0000_0000_0000) as u128, 0x20_0000_0000_0000)
        } else {
            let la: u128 = la as u128;
            let lb: u128 = lb as u128;
            let diff: u128 = if la >= lb {
                la - lb
            } else {
                lb - la
            };
            Score::ratio(3 * ((la + lb) - diff), 10 * (la + lb))
        }
    }

    /// The similarity of `a` to `b`, where `jw_bits` is the bit pattern of
    /// their Jaro-Winkler similarity.
    pub fn similarity_from(a: &str, b: &str, jw_bits: u64) -> (s: Score)
        ensures
            s@ == similarity_of(a@, b@, jw_bits),
    {
        match Self::containment(a, b) {
            Some(s) => s,
            None => {
                proof {
                    lemma_utf8_len_bounds(a@);
                }
                Self::fuzzy(a.as_bytes().len(), b.as_bytes().len(), jw_bits)
            },
        }
    }

    /// The similarity of `a` to `b`: `0` if either is empty, `1` if they
    /// are equal, a containment score if one holds the other, else their
    /// Jaro-Winkler similarity if that exceeds `0.85`, else a low score
    /// from the ratio of their lengths.
    pub fn similarity(a: &str, b: &str) -> (s: Score)
        ensures
            s@ == similarity(a@, b@),
    {
        match Self::containment(a, b) {
            Some(s) => s,
            None => {
                proof {
                    lemma_utf8_len_bounds(a@);
                }
                Self::fuzzy(a.as_bytes().len(), b.as_bytes().len(), jaro_winkler_bits(a, b))
            },
        }
    }

    /// The best similarity of `a` to any of `options`; `0` for no options.
    pub fn max_similarity(a: &str, options: &[&str]) -> (best: Score)
        ensures
            best@ == best_of(a@, slice_texts(options@)),
            best@.is_unit(),
            forall|i: int|
                0 <= i < options@.len() ==> similarity(a@, (#[trigger] options@[i])@).le(best@),
    {
        let mut best = Score::zero();
        let ghost keys = slice_texts(options@);
        for i in 0..options.len()
            invariant
                keys == slice_texts(options@),
                best@ == best_of(a@, keys.take(i as int)),
        {
            proof {
                assert(keys.take(i + 1).drop_last() =~= keys.take(i as int));
            }
            let s = Self::similarity(a, options[i]);
            best = higher(best, s);
        }
        proof {
            assert(keys.take(keys.len() as int) =~= keys);
            lemma_best_of(a@, keys);
            assert forall|i: int| 0 <= i < options@.len() implies similarity(
                a@,
                (#[trigger] options@[i])@,
            ).le(best@) by {
                assert(keys[i] == options@[i]@);
            }
        }
        best
    }

    /// The score of an entry against a normalised query, by script and
    /// romanisation.
    pub fn script_score(query: &str, entry: &DictEntry) -> (s: Score)
        ensures
            s@ == entry_score(query@, entry@, true),
    {
        let bare = strip_punctuation(entry.pinyin.as_str());
        let key3 = remove_tones(bare.as_str());
        let key4 = remove_tones(entry.pinyin.as_str());
        let options: [&str; 4] = [
            entry.simplified.as_str(),
            entry.traditional.as_str(),
            key3.as_str(),
            key4.as_str(),
        ];
        proof {
            assert(slice_texts(options@) =~= script_keys(entry@));
        }
        Self::max_similarity(query, options.as_slice())
    }

    /// The score of an entry against a normalised query, by its
    /// definitions.
    pub fn gloss_score(query: &str, entry: &DictEntry) -> (s: Score)
        ensures
            s@ == entry_score(query@, entry@, false),
    {
        let mut best = Score::zero();
        let ghost keys = gloss_keys(entry@);
        for i in 0..entry.definitions.len()
            invariant
                keys == gloss_keys(entry@),
                best@ == best_of(query@, keys.take(i as int)),
        {
            proof {
                assert(keys.take(i + 1).drop_last() =~= keys.take(i as int));
                assert(keys[i as int] == normalized(entry.definitions@[i as int]@));
            }
            let clean = normalize_for_match(entry.definitions[i].as_str());
            let s = Self::similarity(query, clean.as_str());
            best = higher(best, s);
        }
        proof {
            assert(keys.take(keys.len() as int) =~= keys);
        }
        best
    }

    /// Ranks the entries of `dict` against `query`.
    ///
    /// The query is normalised; each entry is scored, by script and
    /// romanisation when `lang` is absent or `"chinese"` and by its
    /// definitions otherwise; entries that score above `0.8` are kept and
    /// returned with their scores, the highest first, entries of equal
    /// score in the order of `dict`.
    pub fn search_entries(query: &str, dict: &[DictEntry], lang: Option<&str>) -> (out: Vec<
        (DictEntry, Score),
    >)
        ensures
            scored_views(out@) == ranked(query@, entry_views(dict@), goes_by_script(str_text(lang))),
            forall|i: int| 0 <= i < out.len() ==> (#[trigger] out[i]).1@.gt(Ratio::cutoff()),
            forall|i: int, j: int|
                #![trigger out[i], out[j]]
                0 <= i < j < out.len() ==> out[i].1@.ge(out[j].1@),
            forall|i: int|
                0 <= i < out.len() ==> entry_views(dict@).contains((#[trigger] out[i]).0@)
                    && out[i].1@ == entry_score(
                    normalized(query@),
                    out[i].0@,
                    goes_by_script(str_text(lang)),
                ),
            forall|k: int|
                0 <= k < dict.len() && entry_score(
                    normalized(query@),
                    (#[trigger] dict[k])@,
                    goes_by_script(str_text(lang)),
                ).gt(Ratio::cutoff()) ==> exists|i: int|
                    0 <= i < out.len() && (#[trigger] out[i]).0@ == dict[k]@,
    {
        let by_script = match lang {
            None => true,
            Some(l) => same_text(l, "chinese"),
        };
        let normal = normalize_for_match(query);
        let ghost q = normalized(query@);
        let ghost views = entry_views(dict@);
        let mut results: Vec<(DictEntry, Score)> = Vec::new();
        for i in 0..dict.len()
            invariant
                q == normal@,
                views == entry_views(dict@),
                scored_views(results@) == hits(q, views.take(i as int), by_script),
                forall|k: int|
                    0 <= k < results.len() ==> (#[trigger] results[k]).1@.is_unit()
                        && results[k].1@.gt(Ratio::cutoff()),
        {
            let entry = &dict[i];
            let score = if by_script {
                Self::script_score(normal.as_str(), entry)
            } else {
                Self::gloss_score(normal.as_str(), entry)
            };
            proof {
                let head = views.take(i as int);
                assert(views.take(i + 1) =~= head.push(entry@));
                head.lemma_filter_push(entry@, is_hit(q, by_script));
                assert(head.filter(is_hit(q, by_script)).push(entry@).map_values(
                    scored(q, by_script),
                ) =~= hits(q, head, by_script).push((entry@, score@)));
            }
            if score.is_gt(&Score::cutoff()) {
                let ghost before = results@;
                let copy = entry.clone();
                results.push((copy, score));
                proof {
                    assert(scored_views(before.push((copy, score))) =~= scored_views(before).push(
                        (entry@, score@),
                    ));
                }
            }
        }
        proof {
            assert(views.take(views.len() as int) =~= views);
        }
        let ghost found = results@;
        let out = stable_sort(results);
        proof {
            lemma_stable_sorted_maps(
                found,
                scored_view(),
                precedence::<(DictEntry, Score)>(),
                higher_first(),
            );
            assert forall|k: int| 0 <= k < out.len() implies (#[trigger] out[k]).1@.is_unit()
                && out[k].1@.gt(Ratio::cutoff()) by {
                vstd::seq_lib::to_multiset_contains(out@, out[k]);
                vstd::seq_lib::to_multiset_contains(found, out[k]);
                assert(out@.contains(out[k]));
                let j = choose|j: int| 0 <= j < found.len() && found[j] == out[k];
                assert(found[j].1@.is_unit());
            }
            assert forall|i: int, j: int|
                #![trigger out[i], out[j]]
                0 <= i < j < out.len() implies out[i].1@.ge(out[j].1@) by {
                assert(!precedence::<(DictEntry, Score)>()(out[j], out[i]));
            }
            let listed = ranked(query@, views, by_script);
            lemma_ranked_members(query@, views, by_script);
            assert forall|i: int| 0 <= i < out.len() implies views.contains((#[trigger] out[i]).0@)
                && out[i].1@ == entry_score(q, out[i].0@, by_script) by {
                assert(listed[i] == (out[i].0@, out[i].1@));
                assert(listed.contains((out[i].0@, out[i].1@)));
            }
            assert forall|k: int|
                0 <= k < dict.len() && entry_score(q, (#[trigger] dict[k])@, by_script).gt(
                    Ratio::cutoff(),
                ) implies exists|i: int| 0 <= i < out.len() && (#[trigger] out[i]).0@ == dict[k]@ by {
                let e = dict[k]@;
                assert(views[k] == e);
                assert(views.contains(e));
                assert(listed.contains((e, entry_score(q, e, by_script))));
                let i = choose|i: int|
                    0 <= i < listed.len() && listed[i] == (e, entry_score(q, e, by_script));
                assert(out[i].0@ == e);
            }
        }
        out
    }

    /// Answers a search request: the entries that match, best first, at
    /// most fifteen of them.
    pub fn search_api(params: SearchParams, dict: &[DictEntry]) -> (reply: SearchResult)
        ensures
            reply.query@ == params.q@,
            entry_views(reply.results@) == first_entries(
                ranked(params.q@, entry_views(dict@), goes_by_script(optional_text(params.lang))),
                RESULT_LIMIT as int,
            ),
    {
        let lang: Option<&str> = match &params.lang {
            None => None,
            Some(l) => Some(l.as_str()),
        };
        let mut found = Self::search_entries(params.q.as_str(), dict, lang);
        let ghost all = scored_views(found@);
        found.truncate(RESULT_LIMIT);
        let ghost kept = found@;
        proof {
            assert(scored_views(kept) =~= all.take(kept.len() as int));
        }
        let mut results: Vec<DictEntry> = Vec::new();
        for p in it: found
            invariant
                it.seq() == kept,
                entry_views(results@) == scored_views(kept.take(it.index() as int)).map_values(
                    entry_of(),
                ),
        {
            let ghost before = results@;
            let ghost head = kept.take(it.index() as int);
            results.push(p.0);
            proof {
                assert(kept.take(it.index() + 1) =~= head.push(p));
                assert(entry_views(before.push(p.0)) =~= entry_views(before).push(p.0@));
                assert(scored_views(head.push(p)).map_values(entry_of()) =~= scored_views(
                    head,
                ).map_values(entry_of()).push(p.0@));
            }
        }
        proof {
            assert(kept.take(kept.len() as int) =~= kept);
        }
        SearchResult { query: params.q, results }
    }
}

} // verus!
