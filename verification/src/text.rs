//! Text normalisation: the string keys under which queries and dictionary
//! fields are compared.
//!
//! Every function here is total and pure. Each has a mathematical model over
//! `Seq<char>`; the executable function returns exactly the model's value.

use crate::sequences::lemma_filter_keeps_all;
use vstd::prelude::*;

verus! {

/// `c` is one of the 52 unaccented Latin letters.
pub open spec fn is_latin_letter(c: char) -> bool {
    ('a' <= c && c <= 'z') || ('A' <= c && c <= 'Z')
}

/// `c` lies in the block of unified CJK ideographs, U+4E00 to U+9FFF.
pub open spec fn is_cjk_ideograph(c: char) -> bool {
    '\u{4e00}' <= c && c <= '\u{9fff}'
}

/// `c` is one of the six sentence punctuation marks `. , ; : ! ?`.
pub open spec fn is_sentence_punctuation(c: char) -> bool {
    c == '.' || c == ',' || c == ';' || c == ':' || c == '!' || c == '?'
}

/// The lower-case form of an unaccented Latin capital; any other character
/// is left as it is.
pub open spec fn lower_char(c: char) -> char {
    if 'A' <= c && c <= 'Z' {
        ((c as u32) + 32) as char
    } else {
        c
    }
}

/// Characters that survive [`normalize_for_match`].
pub open spec fn match_chars() -> spec_fn(char) -> bool {
    |c: char| is_latin_letter(c) || is_cjk_ideograph(c)
}

/// Characters that survive [`strip_punctuation`].
pub open spec fn unpunctuated_chars() -> spec_fn(char) -> bool {
    |c: char| !is_sentence_punctuation(c)
}

/// Characters that survive [`remove_tones`].
pub open spec fn letter_chars() -> spec_fn(char) -> bool {
    |c: char| is_latin_letter(c)
}

/// Case folding as a function value.
pub open spec fn lowering() -> spec_fn(char) -> char {
    |c: char| lower_char(c)
}

/// Every character of `s` is ASCII.
pub open spec fn all_ascii(s: Seq<char>) -> bool {
    forall|i: int| 0 <= i < s.len() ==> (#[trigger] s[i]) <= '\u{7f}'
}

/// Model of [`normalize_for_match`]: keep Latin letters and CJK ideographs,
/// then fold the Latin letters to lower case.
pub open spec fn normalized(s: Seq<char>) -> Seq<char> {
    s.filter(match_chars()).map_values(lowering())
}

/// Model of [`strip_punctuation`]: drop the six sentence punctuation marks.
pub open spec fn unpunctuated(s: Seq<char>) -> Seq<char> {
    s.filter(unpunctuated_chars())
}

/// The ASCII transliteration that the `unidecode` crate gives for a string.
pub uninterp spec fn unidecode_of(s: Seq<char>) -> Seq<char>;

/// Transliteration to ASCII: an ASCII string is its own transliteration;
/// any other goes through the transliteration table.
pub open spec fn transliterated(s: Seq<char>) -> Seq<char> {
    if all_ascii(s) {
        s
    } else {
        unidecode_of(s)
    }
}

/// Model of [`remove_tones`]: transliterate to ASCII, fold to lower case,
/// keep the letters.
pub open spec fn toneless(s: Seq<char>) -> Seq<char> {
    transliterated(s).map_values(lowering()).filter(letter_chars())
}

/// `String::push` of the standard library: appends one character.
#[verifier::external_body]
pub(crate) fn push_char(s: &mut String, c: char)
    ensures
        final(s)@ == old(s)@.push(c),
{
    s.push(c)
}

/// `unidecode::unidecode`: the transliteration of `s`, character by
/// character. The crate documents that the result is ASCII and that every
/// ASCII character is mapped to itself. What its table gives for other
/// characters is not stated here; it goes by the name [`unidecode_of`].
#[verifier::external_body]
fn unidecode_text(s: &str) -> (r: String)
    ensures
        r@ == unidecode_of(s@),
        all_ascii(r@),
        all_ascii(s@) ==> r@ == s@,
{
    unidecode::unidecode(s)
}

/// Whether `c` is a Latin letter or a CJK ideograph.
pub fn is_match_char(c: char) -> (r: bool)
    ensures
        r == (is_latin_letter(c) || is_cjk_ideograph(c)),
{
    (c >= 'a' && c <= 'z') || (c >= 'A' && c <= 'Z') || (c >= '\u{4e00}' && c <= '\u{9fff}')
}

/// Whether `c` is one of the six sentence punctuation marks.
pub fn is_punctuation(c: char) -> (r: bool)
    ensures
        r == is_sentence_punctuation(c),
{
    c == '.' || c == ',' || c == ';' || c == ':' || c == '!' || c == '?'
}

/// The lower-case form of `c`, see [`lower_char`].
pub fn to_lower(c: char) -> (r: char)
    ensures
        r == lower_char(c),
{
    if c >= 'A' && c <= 'Z' {
        let b: u8 = c as u8;
        (b + 32) as char
    } else {
        c
    }
}

/// Strips every character that is neither a Latin letter nor a CJK
/// ideograph and folds the remaining Latin letters to lower case.
pub fn normalize_for_match(text: &str) -> (r: String)
    ensures
        r@ == normalized(text@),
{
    let mut out = String::new();
    for c in it: text.chars()
        invariant
            it.seq() == text@,
            out@ == normalized(text@.take(it.index() as int)),
    {
        proof {
            let i = it.index() as int;
            let head = text@.take(i);
            assert(text@.take(i + 1) =~= head.push(c));
            head.lemma_filter_push(c, match_chars());
            if match_chars()(c) {
                assert(head.filter(match_chars()).push(c).map_values(lowering())
                    =~= head.filter(match_chars()).map_values(lowering()).push(lower_char(c)));
            }
        }
        if is_match_char(c) {
            push_char(&mut out, to_lower(c));
        }
    }
    proof {
        assert(text@.take(text@.len() as int) =~= text@);
    }
    out
}

/// Removes the sentence punctuation marks `. , ; : ! ?`.
pub fn strip_punctuation(text: &str) -> (r: String)
    ensures
        r@ == unpunctuated(text@),
{
    let mut out = String::new();
    for c in it: text.chars()
        invariant
            it.seq() == text@,
            out@ == unpunctuated(text@.take(it.index() as int)),
    {
        proof {
            let i = it.index() as int;
            let head = text@.take(i);
            assert(text@.take(i + 1) =~= head.push(c));
            head.lemma_filter_push(c, unpunctuated_chars());
        }
        if !is_punctuation(c) {
            push_char(&mut out, c);
        }
    }
    proof {
        assert(text@.take(text@.len() as int) =~= text@);
    }
    out
}

/// Removes tone marks and other diacritics, folds to lower case and drops
/// every character that is not a letter: a tone-insensitive ASCII key.
pub fn remove_tones(pinyin: &str) -> (r: String)
    ensures
        r@ == toneless(pinyin@),
{
    let plain = unidecode_text(pinyin);
    let ghost src = plain@;
    assert(src == transliterated(pinyin@));
    let mut out = String::new();
    for c in it: plain.as_str().chars()
        invariant
            it.seq() == src,
            out@ == src.take(it.index() as int).map_values(lowering()).filter(letter_chars()),
    {
        proof {
            let i = it.index() as int;
            let head = src.take(i);
            assert(src.take(i + 1) =~= head.push(c));
            assert(head.push(c).map_values(lowering()) =~= head.map_values(lowering()).push(
                lower_char(c),
            ));
            head.map_values(lowering()).lemma_filter_push(lower_char(c), letter_chars());
        }
        let l = to_lower(c);
        if (l >= 'a' && l <= 'z') || (l >= 'A' && l <= 'Z') {
            push_char(&mut out, l);
        }
    }
    proof {
        assert(src.take(src.len() as int) =~= src);
    }
    out
}

/// The characters of a string.
pub fn chars_of(s: &str) -> (v: Vec<char>)
    ensures
        v@ == s@,
{
    let mut v: Vec<char> = Vec::new();
    for c in it: s.chars()
        invariant
            it.seq() == s@,
            v@ == s@.take(it.index() as int),
    {
        proof {
            assert(s@.take(it.index() + 1) =~= s@.take(it.index() as int).push(c));
        }
        v.push(c);
    }
    proof {
        assert(s@.take(s@.len() as int) =~= s@);
    }
    v
}

/// Whether two character sequences are the same.
pub fn same_chars(a: &Vec<char>, b: &Vec<char>) -> (r: bool)
    ensures
        r == (a@ == b@),
{
    if a.len() != b.len() {
        return false;
    }
    let mut k: usize = 0;
    while k < a.len()
        invariant
            k <= a.len(),
            a.len() == b.len(),
            forall|j: int| 0 <= j < k ==> a@[j] == b@[j],
        decreases a.len() - k,
    {
        if a[k] != b[k] {
            return false;
        }
        k += 1;
    }
    proof {
        assert(a@ =~= b@);
    }
    true
}

/// Whether two strings are the same.
pub fn same_text(a: &str, b: &str) -> (r: bool)
    ensures
        r == (a@ == b@),
{
    let va = chars_of(a);
    let vb = chars_of(b);
    same_chars(&va, &vb)
}

/// Normalising is idempotent: a normalised string is its own normal form.
pub proof fn lemma_normalized_idempotent(s: Seq<char>)
    ensures
        normalized(normalized(s)) == normalized(s),
{
    let kept = s.filter(match_chars());
    let t = normalized(s);
    assert forall|i: int| 0 <= i < t.len() implies match_chars()(#[trigger] t[i]) && lower_char(
        t[i],
    ) == t[i] by {
        s.lemma_filter_pred(match_chars(), i);
        assert(t[i] == lower_char(kept[i]));
    }
    lemma_filter_keeps_all(t, match_chars());
    assert(t.map_values(lowering()) =~= t);
}

/// Every character of a toneless key is a lower-case Latin letter.
pub proof fn lemma_toneless_is_lower_case(s: Seq<char>)
    ensures
        forall|i: int|
            0 <= i < toneless(s).len() ==> 'a' <= (#[trigger] toneless(s)[i]) && toneless(s)[i]
                <= 'z',
{
    let folded = transliterated(s).map_values(lowering());
    let t = toneless(s);
    assert forall|i: int| 0 <= i < t.len() implies 'a' <= (#[trigger] t[i]) && t[i] <= 'z' by {
        folded.lemma_filter_pred(letter_chars(), i);
        assert(t.contains(t[i]));
        folded.lemma_filter_contains_rev(letter_chars(), t[i]);
        let j = choose|j: int| 0 <= j < folded.len() && folded[j] == t[i];
        assert(t[i] == lower_char(transliterated(s)[j]));
    }
}

/// Removing tones is idempotent: a toneless key is its own toneless key.
pub proof fn lemma_toneless_idempotent(s: Seq<char>)
    ensures
        toneless(toneless(s)) == toneless(s),
{
    let t = toneless(s);
    lemma_toneless_is_lower_case(s);
    assert(all_ascii(t));
    assert(t.map_values(lowering()) =~= t);
    lemma_filter_keeps_all(t, letter_chars());
}

/// Stripping punctuation is idempotent.
pub proof fn lemma_unpunctuated_idempotent(s: Seq<char>)
    ensures
        unpunctuated(unpunctuated(s)) == unpunctuated(s),
{
    let t = unpunctuated(s);
    assert forall|i: int| 0 <= i < t.len() implies unpunctuated_chars()(#[trigger] t[i]) by {
        s.lemma_filter_pred(unpunctuated_chars(), i);
    }
    lemma_filter_keeps_all(t, unpunctuated_chars());
}

} // verus!
