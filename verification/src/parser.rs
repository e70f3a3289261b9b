//! Reading the dictionary: the text of a CC-CEDICT file, line by line.
//!
//! A line of the dictionary reads
//! `traditional simplified [pin1 yin1] /first definition/second definition/`.
//! Lines that are empty, that start with `#` or that hold no ` /` are passed
//! over. A line that has definitions but lacks the two words or the
//! bracket in front of them is malformed.

use crate::models::{entry_views, texts, DictEntry, DictEntryView};
use crate::text::{chars_of, push_char};
use vstd::prelude::*;

verus! {

/// `c` is white space as Unicode defines it.
pub open spec fn is_white(c: char) -> bool {
    ('\u{9}' <= c && c <= '\u{d}') || c == ' ' || c == '\u{85}' || c == '\u{a0}' || c
        == '\u{1680}' || ('\u{2000}' <= c && c <= '\u{200a}') || c == '\u{2028}' || c
        == '\u{2029}' || c == '\u{202f}' || c == '\u{205f}' || c == '\u{3000}'
}

/// The first position from `from` on at which `s` holds `c`, or the
/// length of `s` if there is none.
pub open spec fn next_index(s: Seq<char>, c: char, from: int) -> int
    decreases s.len() - from,
{
    if from >= s.len() {
        s.len() as int
    } else if s[from] == c {
        from
    } else {
        next_index(s, c, from + 1)
    }
}

/// The first position from `from` on at which `s` holds white space, if
/// `white`, or anything else, if not; the length of `s` if there is none.
pub open spec fn next_blank(s: Seq<char>, white: bool, from: int) -> int
    decreases s.len() - from,
{
    if from >= s.len() {
        s.len() as int
    } else if is_white(s[from]) == white {
        from
    } else {
        next_blank(s, white, from + 1)
    }
}

/// The first position at which `s` holds a space followed by a slash, or
/// the length of `s` if there is none.
pub open spec fn next_break(s: Seq<char>, from: int) -> int
    decreases s.len() - from,
{
    if from + 1 >= s.len() {
        s.len() as int
    } else if s[from] == ' ' && s[from + 1] == '/' {
        from
    } else {
        next_break(s, from + 1)
    }
}

/// `s` without the white space at its end.
pub open spec fn trimmed_end(s: Seq<char>) -> Seq<char>
    decreases s.len(),
{
    if s.len() > 0 && is_white(s.last()) {
        trimmed_end(s.drop_last())
    } else {
        s
    }
}

/// `s` without the white space at its start and at its end.
pub open spec fn trimmed(s: Seq<char>) -> Seq<char> {
    trimmed_end(s.skip(next_blank(s, false, 0)))
}

/// `s` without the closing brackets at its end.
pub open spec fn unbracketed(s: Seq<char>) -> Seq<char>
    decreases s.len(),
{
    if s.len() > 0 && s.last() == ']' {
        unbracketed(s.drop_last())
    } else {
        s
    }
}

/// The definitions in the part of a line from `from` on: the pieces
/// between slashes, trimmed, without the empty ones.
pub open spec fn definitions_from(s: Seq<char>, from: int) -> Seq<Seq<char>>
    decreases s.len() + 1 - from,
{
    if from > s.len() || from < 0 {
        Seq::empty()
    } else {
        let end = next_index(s, '/', from);
        proof {
            lemma_next_index(s, '/', from);
        }
        let piece = trimmed(s.subrange(from, end));
        let rest = definitions_from(s, end + 1);
        if piece.len() == 0 {
            rest
        } else {
            seq![piece] + rest
        }
    }
}

/// What a line of the dictionary holds.
pub enum Line {
    /// Nothing: the line is empty, a comment, or without definitions.
    Skipped,
    /// An entry.
    Entry(DictEntryView),
    /// Definitions behind a head that cannot be read.
    Malformed,
}

/// What `line` holds.
///
/// The head of the line ends before the first ` /`. Its first two words
/// are the traditional and the simplified form; the romanisation stands
/// between the first `[` and the next, without closing brackets at its
/// end. The definitions follow the first ` /`.
pub open spec fn read_line(line: Seq<char>) -> Line {
    let cut = next_break(line, 0);
    if line.len() == 0 || line[0] == '#' || cut >= line.len() {
        Line::Skipped
    } else {
        let head = line.take(cut);
        let open = next_index(head, '[', 0);
        let words = head.take(open);
        let first = next_blank(words, false, 0);
        let first_end = next_blank(words, true, first);
        let second = next_blank(words, false, first_end);
        let second_end = next_blank(words, true, second);
        if open >= head.len() || second >= words.len() {
            Line::Malformed
        } else {
            Line::Entry(
                DictEntryView {
                    traditional: words.subrange(first, first_end),
                    simplified: words.subrange(second, second_end),
                    pinyin: unbracketed(
                        head.subrange(open + 1, next_index(head, '[', open + 1)),
                    ),
                    definitions: definitions_from(line, cut + 2),
                },
            )
        }
    }
}

/// The lines of a text from `from` on. A line ends at a line feed; a
/// carriage return in front of the line feed belongs to the line ending.
/// After the last line feed there is a further line only if there is
/// further text.
pub open spec fn lines_from(s: Seq<char>, from: int) -> Seq<Seq<char>>
    decreases s.len() + 1 - from,
{
    if from >= s.len() || from < 0 {
        Seq::empty()
    } else {
        let end = next_index(s, '\n', from);
        proof {
            lemma_next_index(s, '\n', from);
        }
        let line = s.subrange(from, end);
        let line = if end < s.len() && line.len() > 0 && line.last() == '\r' {
            line.drop_last()
        } else {
            line
        };
        seq![line] + lines_from(s, end + 1)
    }
}

/// The entries that the lines hold, in the order of the lines.
pub open spec fn entries_of(lines: Seq<Seq<char>>) -> Seq<DictEntryView>
    decreases lines.len(),
{
    if lines.len() == 0 {
        Seq::empty()
    } else {
        let rest = entries_of(lines.drop_last());
        match read_line(lines.last()) {
            Line::Entry(e) => rest.push(e),
            _ => rest,
        }
    }
}

/// The number of the first malformed line, counted from zero, or the
/// number of lines if there is none.
pub open spec fn first_malformed(lines: Seq<Seq<char>>) -> int
    decreases lines.len(),
{
    if lines.len() == 0 {
        0
    } else if read_line(lines[0]) is Malformed {
        0
    } else {
        1 + first_malformed(lines.drop_first())
    }
}

/// A dictionary text that cannot be read.
#[derive(Clone, Copy, Debug, PartialEq, Eq, Structural)]
pub struct CedictError {
    /// The number of the first malformed line, counted from zero.
    pub line: usize,
}

/// Where the next `c` stands.
pub proof fn lemma_next_index(s: Seq<char>, c: char, from: int)
    requires
        0 <= from <= s.len(),
    ensures
        from <= next_index(s, c, from) <= s.len(),
        next_index(s, c, from) < s.len() ==> s[next_index(s, c, from)] == c,
        forall|k: int| from <= k < next_index(s, c, from) ==> s[k] != c,
    decreases s.len() - from,
{
    if from < s.len() && s[from] != c {
        lemma_next_index(s, c, from + 1);
    }
}

/// Where the next white space, or the next other character, stands.
pub proof fn lemma_next_blank(s: Seq<char>, white: bool, from: int)
    requires
        0 <= from <= s.len(),
    ensures
        from <= next_blank(s, white, from) <= s.len(),
        next_blank(s, white, from) < s.len() ==> is_white(s[next_blank(s, white, from)]) == white,
    decreases s.len() - from,
{
    if from < s.len() && is_white(s[from]) != white {
        lemma_next_blank(s, white, from + 1);
    }
}

/// Whether `c` is white space.
pub fn is_blank(c: char) -> (r: bool)
    ensures
        r == is_white(c),
{
    (c >= '\u{9}' && c <= '\u{d}') || c == ' ' || c == '\u{85}' || c == '\u{a0}' || c
        == '\u{1680}' || (c >= '\u{2000}' && c <= '\u{200a}') || c == '\u{2028}' || c
        == '\u{2029}' || c == '\u{202f}' || c == '\u{205f}' || c == '\u{3000}'
}

/// Finds the next `c` in `s[..limit]` from `from` on.
fn find_char(s: &Vec<char>, limit: usize, c: char, from: usize) -> (at: usize)
    requires
        from <= limit <= s.len(),
    ensures
        at == next_index(s@.take(limit as int), c, from as int),
        from <= at <= limit,
{
    let ghost view = s@.take(limit as int);
    let mut at = from;
    while at < limit && s[at] != c
        invariant
            from <= at <= limit <= s.len(),
            view == s@.take(limit as int),
            next_index(view, c, from as int) == next_index(view, c, at as int),
        decreases limit - at,
    {
        at += 1;
    }
    at
}

/// Finds the next white space, or the next other character, in
/// `s[..limit]` from `from` on.
fn find_blank(s: &Vec<char>, limit: usize, want_white: bool, from: usize) -> (at: usize)
    requires
        from <= limit <= s.len(),
    ensures
        at == next_blank(s@.take(limit as int), want_white, from as int),
        from <= at <= limit,
{
    let ghost view = s@.take(limit as int);
    let mut at = from;
    while at < limit && is_blank(s[at]) != want_white
        invariant
            from <= at <= limit <= s.len(),
            view == s@.take(limit as int),
            next_blank(view, want_white, from as int) == next_blank(view, want_white, at as int),
        decreases limit - at,
    {
        at += 1;
    }
    at
}

/// Finds the first space followed by a slash.
fn find_break(s: &Vec<char>) -> (at: usize)
    ensures
        at == next_break(s@, 0),
        at <= s.len(),
        at < s.len() ==> at + 2 <= s.len(),
{
    let mut at: usize = 0;
    while s.len() - at > 1 && !(s[at] == ' ' && s[at + 1] == '/')
        invariant
            at <= s.len(),
            next_break(s@, 0) == next_break(s@, at as int),
        decreases s.len() - at,
    {
        at += 1;
    }
    if s.len() - at > 1 {
        at
    } else {
        s.len()
    }
}

/// The position behind the last character of `s[from..to]` that is not
/// white space.
fn trim_end(s: &Vec<char>, from: usize, to: usize) -> (end: usize)
    requires
        from <= to <= s.len(),
    ensures
        from <= end <= to,
        s@.subrange(from as int, end as int) == trimmed_end(s@.subrange(from as int, to as int)),
{
    let mut end = to;
    while end > from && is_blank(s[end - 1])
        invariant
            from <= end <= to <= s.len(),
            trimmed_end(s@.subrange(from as int, end as int)) == trimmed_end(
                s@.subrange(from as int, to as int),
            ),
        decreases end - from,
    {
        proof {
            assert(s@.subrange(from as int, end as int).drop_last() =~= s@.subrange(
                from as int,
                end - 1,
            ));
        }
        end -= 1;
    }
    end
}

/// The position behind the last character of `s[from..to]` that is not a
/// closing bracket.
fn trim_brackets(s: &Vec<char>, from: usize, to: usize) -> (end: usize)
    requires
        from <= to <= s.len(),
    ensures
        from <= end <= to,
        s@.subrange(from as int, end as int) == unbracketed(s@.subrange(from as int, to as int)),
{
    let mut end = to;
    while end > from && s[end - 1] == ']'
        invariant
            from <= end <= to <= s.len(),
            unbracketed(s@.subrange(from as int, end as int)) == unbracketed(
                s@.subrange(from as int, to as int),
            ),
        decreases end - from,
    {
        proof {
            assert(s@.subrange(from as int, end as int).drop_last() =~= s@.subrange(
                from as int,
                end - 1,
            ));
        }
        end -= 1;
    }
    end
}

/// The characters `s[from..to]` as a string.
fn string_of(s: &Vec<char>, from: usize, to: usize) -> (r: String)
    requires
        from <= to <= s.len(),
    ensures
        r@ == s@.subrange(from as int, to as int),
{
    let mut out = String::new();
    let mut at = from;
    while at < to
        invariant
            from <= at <= to <= s.len(),
            out@ == s@.subrange(from as int, at as int),
        decreases to - at,
    {
        push_char(&mut out, s[at]);
        proof {
            assert(s@.subrange(from as int, at + 1) =~= s@.subrange(from as int, at as int).push(
                s@[at as int],
            ));
        }
        at += 1;
    }
    out
}

/// The characters `s[from..to]`.
fn copy_range(s: &Vec<char>, from: usize, to: usize) -> (r: Vec<char>)
    requires
        from <= to <= s.len(),
    ensures
        r@ == s@.subrange(from as int, to as int),
{
    let mut out: Vec<char> = Vec::new();
    let mut at = from;
    while at < to
        invariant
            from <= at <= to <= s.len(),
            out@ == s@.subrange(from as int, at as int),
        decreases to - at,
    {
        out.push(s[at]);
        proof {
            assert(s@.subrange(from as int, at + 1) =~= s@.subrange(from as int, at as int).push(
                s@[at as int],
            ));
        }
        at += 1;
    }
    out
}

/// The definitions in `line` from `from` on.
fn read_definitions(line: &Vec<char>, from: usize) -> (r: Vec<String>)
    requires
        from <= line.len(),
    ensures
        texts(r@) == definitions_from(line@, from as int),
{
    let mut stack: Vec<(usize, usize)> = Vec::new();
    let mut out: Vec<String> = Vec::new();
    let mut at = from;
    let ghost whole = line@;
    proof {
        assert(whole.take(whole.len() as int) =~= whole);
    }
    loop
        invariant
            whole == line@,
            whole.take(whole.len() as int) == whole,
            from <= at <= line.len(),
            definitions_from(whole, from as int) == texts(out@) + definitions_from(
                whole,
                at as int,
            ),
        decreases line.len() - at,
    {
        let end = find_char(line, line.len(), '/', at);
        let ghost piece = whole.subrange(at as int, end as int);
        let start = find_blank(line, end, false, at);
        proof {
            lemma_next_blank(piece, false, 0);
            lemma_blank_in_range(whole, at as int, end as int, false);
            assert(piece.skip(next_blank(piece, false, 0)) =~= whole.subrange(
                start as int,
                end as int,
            ));
        }
        let stop = trim_end(line, start, end);
        let ghost done = out@;
        if stop > start {
            let text = string_of(line, start, stop);
            out.push(text);
            proof {
                assert(texts(done.push(text)) =~= texts(done) + seq![text@]);
                assert(texts(done) + (seq![text@] + definitions_from(whole, end + 1)) =~= texts(
                    done.push(text),
                ) + definitions_from(whole, end + 1));
            }
        }
        if end >= line.len() {
            proof {
                assert(definitions_from(whole, end + 1) =~= Seq::<Seq<char>>::empty());
                assert(texts(out@) + Seq::<Seq<char>>::empty() =~= texts(out@));
            }
            return out;
        }
        at = end + 1;
    }
}

/// Searching for a blank within a range of `s` is searching in the range
/// taken on its own.
proof fn lemma_blank_in_range(s: Seq<char>, from: int, to: int, white: bool)
    requires
        0 <= from <= to <= s.len(),
    ensures
        next_blank(s.take(to), white, from) == from + next_blank(s.subrange(from, to), white, 0),
    decreases to - from,
{
    let piece = s.subrange(from, to);
    if from < to {
        assert(s.take(to)[from] == piece[0]);
        if is_white(piece[0]) != white {
            lemma_blank_in_range(s, from + 1, to, white);
            lemma_blank_shift(piece, white, 1);
            assert(piece.skip(1) =~= s.subrange(from + 1, to));
            assert(next_blank(piece, white, 0) == next_blank(piece, white, 1));
            assert(next_blank(s.take(to), white, from) == next_blank(s.take(to), white, from + 1));
        }
    }
}

/// Searching from a position on is searching in what follows it.
proof fn lemma_blank_shift(s: Seq<char>, white: bool, from: int)
    requires
        0 <= from <= s.len(),
    ensures
        next_blank(s, white, from) == from + next_blank(s.skip(from), white, 0),
    decreases s.len() - from,
{
    let tail = s.skip(from);
    if from < s.len() {
        assert(tail[0] == s[from]);
        if is_white(s[from]) != white {
            lemma_blank_shift(s, white, from + 1);
            lemma_blank_shift(tail, white, 1);
            assert(tail.skip(1) =~= s.skip(from + 1));
            assert(next_blank(tail, white, 0) == next_blank(tail, white, 1));
            assert(next_blank(s, white, from) == next_blank(s, white, from + 1));
        }
    }
}

/// What a line holds, as read by [`read_entry`].
pub enum LineRead {
    Skipped,
    Entry(DictEntry),
    Malformed,
}

impl View for LineRead {
    type V = Line;

    open spec fn view(&self) -> Line {
        match self {
            LineRead::Skipped => Line::Skipped,
            LineRead::Entry(e) => Line::Entry(e@),
            LineRead::Malformed => Line::Malformed,
        }
    }
}

/// Reads one line of the dictionary.
pub fn read_entry(line: &Vec<char>) -> (r: LineRead)
    ensures
        r@ == read_line(line@),
{
    if line.len() == 0 || line[0] == '#' {
        return LineRead::Skipped;
    }
    let cut = find_break(line);
    if cut >= line.len() {
        return LineRead::Skipped;
    }
    let ghost head = line@.take(cut as int);
    let open = find_char(line, cut, '[', 0);
    let ghost words = head.take(open as int);
    proof {
        assert(line@.take(open as int) =~= words);
    }
    let first = find_blank(line, open, false, 0);
    let first_end = find_blank(line, open, true, first);
    let second = find_blank(line, open, false, first_end);
    let second_end = find_blank(line, open, true, second);
    if open >= cut || second >= open {
        return LineRead::Malformed;
    }
    let close = find_char(line, cut, '[', open + 1);
    let pinyin_end = trim_brackets(line, open + 1, close);
    proof {
        assert(line@.subrange(first as int, first_end as int) =~= words.subrange(
            first as int,
            first_end as int,
        ));
        assert(line@.subrange(second as int, second_end as int) =~= words.subrange(
            second as int,
            second_end as int,
        ));
        assert(line@.subrange(open + 1, close as int) =~= head.subrange(open + 1, close as int));
    }
    LineRead::Entry(
        DictEntry {
            traditional: string_of(line, first, first_end),
            simplified: string_of(line, second, second_end),
            pinyin: string_of(line, open + 1, pinyin_end),
            definitions: read_definitions(line, cut + 2),
        },
    )
}

/// The lines of `text`, see [`lines_from`].
pub open spec fn lines_of(text: Seq<char>) -> Seq<Seq<char>> {
    lines_from(text, 0)
}

/// Reads the text of a dictionary.
///
/// Gives the entries of the lines in their order, or, where a line is
/// malformed, the number of the first such line.
pub fn parse_cedict(content: &str) -> (r: Result<Vec<DictEntry>, CedictError>)
    ensures
        match r {
            Ok(entries) => first_malformed(lines_of(content@)) == lines_of(content@).len()
                && entry_views(entries@) == entries_of(lines_of(content@)),
            Err(e) => e.line == first_malformed(lines_of(content@)) && e.line < lines_of(
                content@,
            ).len(),
        },
{
    let text = chars_of(content);
    let ghost whole = text@;
    let ghost lines = lines_of(whole);
    let mut entries: Vec<DictEntry> = Vec::new();
    if text.len() == 0 {
        return Ok(entries);
    }
    let mut at: usize = 0;
    let mut count: usize = 0;
    let ghost mut seen: Seq<Seq<char>> = Seq::empty();
    proof {
        assert(whole.take(whole.len() as int) =~= whole);
        assert(seen + lines_from(whole, 0) =~= lines);
    }
    loop
        invariant
            whole == text@,
            whole == content@,
            whole.take(whole.len() as int) == whole,
            lines == lines_of(whole),
            at < text.len(),
            lines == seen + lines_from(whole, at as int),
            count == seen.len(),
            count <= at,
            first_malformed(seen) == seen.len(),
            entry_views(entries@) == entries_of(seen),
        decreases text.len() - at,
    {
        let end = find_char(&text, text.len(), '\n', at);
        let stop = if end < text.len() && end > at && text[end - 1] == '\r' {
            end - 1
        } else {
            end
        };
        let line = copy_range(&text, at, stop);
        proof {
            let raw = whole.subrange(at as int, end as int);
            if end < text.len() && end > at && text[end - 1] == '\r' {
                assert(raw.drop_last() =~= line@);
            }
            assert(lines_from(whole, at as int) =~= seq![line@] + lines_from(whole, end + 1));
            assert(seen + (seq![line@] + lines_from(whole, end + 1)) =~= seen.push(line@)
                + lines_from(whole, end + 1));
            assert(seen.push(line@).drop_last() =~= seen);
            lemma_first_malformed_push(seen, line@);
        }
        let read = read_entry(&line);
        match read {
            LineRead::Malformed => {
                proof {
                    lemma_first_malformed_prefix(seen.push(line@), lines_from(whole, end + 1));
                }
                return Err(CedictError { line: count });
            },
            LineRead::Entry(e) => {
                let ghost before = entries@;
                entries.push(e);
                proof {
                    assert(entry_views(before.push(e)) =~= entry_views(before).push(e@));
                }
            },
            LineRead::Skipped => {},
        }
        proof {
            seen = seen.push(line@);
        }
        if text.len() - end <= 1 {
            proof {
                assert(lines_from(whole, end + 1) =~= Seq::<Seq<char>>::empty());
                assert(seen + Seq::<Seq<char>>::empty() =~= seen);
            }
            return Ok(entries);
        }
        count += 1;
        at = end + 1;
    }
}

/// A further line moves the first malformed line only if it is the first.
proof fn lemma_first_malformed_push(lines: Seq<Seq<char>>, line: Seq<char>)
    requires
        first_malformed(lines) == lines.len(),
    ensures
        first_malformed(lines.push(line)) == if read_line(line) is Malformed {
            lines.len() as int
        } else {
            lines.len() as int + 1
        },
    decreases lines.len(),
{
    let more = lines.push(line);
    if lines.len() == 0 {
        assert(more.drop_first() =~= Seq::<Seq<char>>::empty());
        assert(more[0] == line);
        assert(first_malformed(more.drop_first()) == 0);
    } else {
        assert(more.drop_first() =~= lines.drop_first().push(line));
        assert(more[0] == lines[0]);
        assert(!(read_line(lines[0]) is Malformed));
        assert(first_malformed(lines) == 1 + first_malformed(lines.drop_first()));
        lemma_first_malformed_push(lines.drop_first(), line);
        assert(first_malformed(more) == 1 + first_malformed(more.drop_first()));
    }
}

/// Lines behind a malformed one do not move the first malformed line.
proof fn lemma_first_malformed_prefix(lines: Seq<Seq<char>>, more: Seq<Seq<char>>)
    requires
        first_malformed(lines) < lines.len(),
    ensures
        first_malformed(lines + more) == first_malformed(lines),
    decreases lines.len(),
{
    if lines.len() != 0 && !(read_line(lines[0]) is Malformed) {
        assert((lines + more).drop_first() =~= lines.drop_first() + more);
        lemma_first_malformed_prefix(lines.drop_first(), more);
    }
}

} // verus!
