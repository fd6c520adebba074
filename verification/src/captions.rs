//! Transcripts as caption clips.

use vstd::prelude::*;
use vstd::utf8::encode_utf8;
use crate::document::{Clip, ClipView, Element, ElementView, TextAlign, Transform};
use crate::fixed::{larger, max, within, UNIT};
use crate::json::{denotes, fixed_of, parse_json, readable, Json, NESTING};
use crate::text::{decimal, decimal_text, joined};
use crate::views::views;
use crate::words::{trim, trimmed};

verus! {

broadcast use crate::views::group_views;

/// A hundredth of a second.
pub const CENTI: i128 = 10_000_000;

/// A time rounded to hundredths of a second, halves away from zero.
pub open spec fn to_centi(t: int) -> int {
    if t >= 0 {
        ((t + CENTI / 2) / (CENTI as int)) * CENTI
    } else {
        -(((-t + CENTI / 2) / (CENTI as int)) * CENTI)
    }
}

/// A time rounded to hundredths of a second.
pub fn round_centi(t: i128) -> (r: i128)
    requires
        within(t as int, 16),
    ensures
        r == to_centi(t as int),
{
    if t >= 0 {
        ((t + CENTI / 2) / CENTI) * CENTI
    } else {
        -(((-t + CENTI / 2) / CENTI) * CENTI)
    }
}

/// A transcript segment without visible text.
pub open spec fn blank(text: Seq<char>) -> bool {
    trimmed(text).len() == 0
}

/// Caption clip number `i`.
pub open spec fn caption(i: nat, segment: (i128, i128, Seq<char>)) -> ClipView {
    ClipView {
        id: "sub-"@ + decimal(i),
        start: to_centi(segment.0 as int),
        duration: max(to_centi(segment.1 - segment.0), CENTI as int),
        element: ElementView::Text {
            text: trimmed(segment.2),
            font: "Sans Semi-Bold 22"@,
            color: "#ffffff"@,
            align: Some(TextAlign::Center),
            outline: Some("#000000"@),
            shadow: false,
        },
        transform: Transform::plain(),
        animations: Seq::empty(),
        effects: Seq::empty(),
    }
}

/// The caption clips of the first `n` segments: blank ones are passed over
/// and do not count.
pub open spec fn captions(segments: Seq<(i128, i128, Seq<char>)>, n: int) -> Seq<ClipView>
    decreases n,
{
    if n <= 0 {
        Seq::empty()
    } else {
        let before = captions(segments, n - 1);
        if blank(segments[n - 1].2) {
            before
        } else {
            before.push(caption(before.len(), segments[n - 1]))
        }
    }
}

pub open spec fn times_fit(segments: Seq<(i128, i128, Seq<char>)>) -> bool {
    forall|i: int|
        0 <= i < segments.len() ==> within((#[trigger] segments[i]).0 as int, 1) && within(
            segments[i].1 as int,
            1,
        )
}

/// Convert timed transcript segments `(start, end, text)` into styled
/// subtitle clips: centered, outlined text readable over any footage. Blank
/// segments are dropped; times are rounded to 10 ms.
pub fn captions_to_clips(segments: &Vec<(i128, i128, String)>) -> (r: Vec<Clip>)
    requires
        times_fit(views(segments@)),
    ensures
        views(r@) == captions(views(segments@), segments@.len() as int),
{
    let ghost all = views(segments@);
    let mut out: Vec<Clip> = Vec::new();
    let mut n: usize = 0;
    while n < segments.len()
        invariant
            n <= segments.len(),
            all == views(segments@),
            times_fit(all),
            views(out@) == captions(all, n as int),
            out.len() <= n,
        decreases segments.len() - n,
    {
        let segment: &(i128, i128, String) = &segments[n];
        proof {
            assert(all[n as int] == (segment.0, segment.1, segment.2@));
            assert(within(all[n as int].0 as int, 1));
        }
        let text: String = trim(segment.2.as_str());
        if !text.as_str().is_empty() {
            let clip: Clip = Clip {
                id: joined("sub-", decimal_text(out.len() as u128).as_str()),
                start: round_centi(segment.0),
                duration: larger(round_centi(segment.1 - segment.0), CENTI),
                element: Element::Text {
                    text,
                    font: "Sans Semi-Bold 22".to_owned(),
                    color: "#ffffff".to_owned(),
                    align: Some(TextAlign::Center),
                    outline: Some("#000000".to_owned()),
                    shadow: false,
                },
                transform: Transform { x: 0, y: 0, width: 0, height: 0, opacity: UNIT },
                animations: Vec::new(),
                effects: Vec::new(),
            };
            assert(clip@ =~= caption(out@.len(), all[n as int]));
            out.push(clip);
        }
        n += 1;
    }
    out
}

/// A word of a caption line: start, end, text.
pub type Word = (i128, i128, Seq<char>);

/// Length of a line in characters, with a space between its words.
pub open spec fn line_length(line: Seq<Word>) -> int
    decreases line.len(),
{
    if line.len() == 0 {
        0
    } else if line.len() == 1 {
        line[0].2.len() as int
    } else {
        line_length(line.drop_last()) + 1 + line.last().2.len()
    }
}

/// A word that ends a sentence.
pub open spec fn ends_sentence(word: Seq<char>) -> bool {
    word.len() > 0 && (word.last() == '.' || word.last() == '?' || word.last() == '!')
}

/// A word does not fit on the line: it comes after too long a pause, or the
/// line would get too long.
pub open spec fn breaks(line: Seq<Word>, w: Word, max_chars: int, max_gap: int) -> bool {
    line.len() > 0 && (w.0 - line.last().1 > max_gap || line_length(line) + 1 + w.2.len()
        > max_chars)
}

/// Caption lines that are complete, and the one that is being filled.
pub struct Grouped {
    pub lines: Seq<Seq<Word>>,
    pub current: Seq<Word>,
}

/// The lines after one more word.
pub open spec fn with_word(g: Grouped, w: Word, max_chars: int, max_gap: int) -> Grouped {
    let word = (w.0, w.1, trimmed(w.2));
    if word.2.len() == 0 {
        g
    } else {
        let broken = breaks(g.current, word, max_chars, max_gap);
        let lines = if broken {
            g.lines.push(g.current)
        } else {
            g.lines
        };
        let current = if broken {
            seq![word]
        } else {
            g.current.push(word)
        };
        if ends_sentence(word.2) {
            Grouped { lines: lines.push(current), current: Seq::empty() }
        } else {
            Grouped { lines, current }
        }
    }
}

/// The lines after the first `n` words.
pub open spec fn grouped(words: Seq<Word>, max_chars: int, max_gap: int, n: int) -> Grouped
    decreases n,
{
    if n <= 0 {
        Grouped { lines: Seq::empty(), current: Seq::empty() }
    } else {
        with_word(grouped(words, max_chars, max_gap, n - 1), words[n - 1], max_chars, max_gap)
    }
}

/// The caption lines of a run of words.
pub open spec fn lines_of_words(words: Seq<Word>, max_chars: int, max_gap: int) -> Seq<Seq<Word>> {
    let g = grouped(words, max_chars, max_gap, words.len() as int);
    if g.current.len() > 0 {
        g.lines.push(g.current)
    } else {
        g.lines
    }
}

/// The views of lists of words.
pub open spec fn line_views(v: Seq<Vec<(i128, i128, String)>>) -> Seq<Seq<Word>> {
    Seq::new(v.len(), |i: int| views(v[i]@))
}

proof fn lemma_line_views_push(v: Seq<Vec<(i128, i128, String)>>, x: Vec<(i128, i128, String)>)
    ensures
        line_views(v.push(x)) == line_views(v).push(views(x@)),
{
    assert(line_views(v.push(x)) =~= line_views(v).push(views(x@)));
}

fn is_sentence_end(word: &str) -> (r: bool)
    ensures
        r == ends_sentence(word@),
{
    let n: usize = word.unicode_len();
    if n == 0 {
        return false;
    }
    let c: char = word.get_char(n - 1);
    c == '.' || c == '?' || c == '!'
}

/// Group flat word-level `(start, end, word)` segments back into caption
/// lines. A line breaks when adding the next word would exceed `max_chars`
/// characters, when the gap since the previous word exceeds `max_gap` seconds (a pause is
/// a natural phrase boundary), or after a word ending a sentence
/// (`.`/`?`/`!`). Blank words are skipped.
pub fn group_words_into_lines(
    words: &Vec<(i128, i128, String)>,
    max_chars: usize,
    max_gap: i128,
) -> (r: Vec<Vec<(i128, i128, String)>>)
    requires
        times_fit(views(words@)),
    ensures
        line_views(r@) == lines_of_words(views(words@), max_chars as int, max_gap as int),
{
    let ghost all = views(words@);
    let mut lines: Vec<Vec<(i128, i128, String)>> = Vec::new();
    let mut current: Vec<(i128, i128, String)> = Vec::new();
    let mut length: u128 = 0;
    let mut last_end: i128 = 0;
    let mut n: usize = 0;
    proof {
        assert(line_views(lines@) =~= Seq::<Seq<Word>>::empty());
    }
    while n < words.len()
        invariant
            n <= words.len(),
            all == views(words@),
            times_fit(all),
            line_views(lines@) == grouped(all, max_chars as int, max_gap as int, n as int).lines,
            views(current@) == grouped(all, max_chars as int, max_gap as int, n as int).current,
            length == line_length(views(current@)),
            length <= 18_446_744_073_709_551_616 * n,
            within(last_end as int, 1),
            current@.len() > 0 ==> last_end == views(current@).last().1,
        decreases words.len() - n,
    {
        let (start, end): (i128, i128) = (words[n].0, words[n].1);
        proof {
            assert(all[n as int] == (words@[n as int].0, words@[n as int].1, words@[n as int].2@));
            assert(within(all[n as int].0 as int, 1));
            assert(usize::MAX <= 18_446_744_073_709_551_615);
        }
        let word: String = trim(words[n].2.as_str());
        if !word.as_str().is_empty() {
            let chars: usize = word.as_str().unicode_len();
            let ghost w = (start, end, word@);
            let ghost before = views(current@);
            let gap: bool = current.len() > 0 && start - last_end > max_gap;
            let long: bool = current.len() > 0 && length + 1 + chars as u128 > max_chars as u128;
            if gap || long {
                proof {
                    lemma_line_views_push(lines@, current);
                }
                lines.push(current);
                current = Vec::new();
                length = 0;
                assert(views(current@) =~= Seq::<Word>::empty());
            }
            let sentence: bool = is_sentence_end(word.as_str());
            length = if current.len() == 0 {
                chars as u128
            } else {
                length + 1 + chars as u128
            };
            last_end = end;
            let ghost line = views(current@);
            current.push((start, end, word));
            proof {
                assert(views(current@) == line.push(w));
                lemma_line_push(line, w);
                assert(Seq::<Word>::empty().push(w) =~= seq![w]);
            }
            if sentence {
                proof {
                    lemma_line_views_push(lines@, current);
                }
                lines.push(current);
                current = Vec::new();
                length = 0;
                assert(views(current@) =~= Seq::<Word>::empty());
            }
        }
        n += 1;
    }
    if current.len() > 0 {
        proof {
            lemma_line_views_push(lines@, current);
        }
        lines.push(current);
    }
    lines
}

/// All words of some lines, one line after the other.
pub open spec fn flat(lines: Seq<Seq<Word>>) -> Seq<Word>
    decreases lines.len(),
{
    if lines.len() == 0 {
        Seq::empty()
    } else {
        flat(lines.drop_last()) + lines.last()
    }
}

/// The first `n` words that are not blank, trimmed.
pub open spec fn spoken(words: Seq<Word>, n: int) -> Seq<Word>
    decreases n,
{
    if n <= 0 {
        Seq::empty()
    } else {
        let before = spoken(words, n - 1);
        let text = trimmed(words[n - 1].2);
        if text.len() == 0 {
            before
        } else {
            before.push((words[n - 1].0, words[n - 1].1, text))
        }
    }
}

proof fn lemma_flat_push(lines: Seq<Seq<Word>>, line: Seq<Word>)
    ensures
        flat(lines.push(line)) == flat(lines) + line,
{
    assert(lines.push(line).drop_last() =~= lines);
}

proof fn lemma_grouped_words(words: Seq<Word>, max_chars: int, max_gap: int, n: int)
    ensures
        ({
            let g = grouped(words, max_chars, max_gap, n);
            flat(g.lines) + g.current == spoken(words, n)
        }),
    decreases n,
{
    if n > 0 {
        lemma_grouped_words(words, max_chars, max_gap, n - 1);
        let g = grouped(words, max_chars, max_gap, n - 1);
        let text = trimmed(words[n - 1].2);
        if text.len() > 0 {
            let word = (words[n - 1].0, words[n - 1].1, text);
            let h = grouped(words, max_chars, max_gap, n);
            let broken = breaks(g.current, word, max_chars, max_gap);
            let lines = if broken {
                g.lines.push(g.current)
            } else {
                g.lines
            };
            let current = if broken {
                seq![word]
            } else {
                g.current.push(word)
            };
            lemma_flat_push(g.lines, g.current);
            lemma_flat_push(lines, current);
            assert(flat(lines) + current =~= spoken(words, n));
            assert(flat(h.lines) + h.current =~= spoken(words, n));
        }
    } else {
        assert(flat(Seq::<Seq<Word>>::empty()) + Seq::<Word>::empty() =~= Seq::<Word>::empty());
    }
}

/// Grouping into lines neither loses nor reorders nor changes a word, but for
/// the blank ones, which are dropped.
pub proof fn law_lines_keep_words(words: Seq<Word>, max_chars: int, max_gap: int)
    ensures
        flat(lines_of_words(words, max_chars, max_gap)) == spoken(words, words.len() as int),
{
    let g = grouped(words, max_chars, max_gap, words.len() as int);
    lemma_grouped_words(words, max_chars, max_gap, words.len() as int);
    lemma_flat_push(g.lines, g.current);
    if g.current.len() == 0 {
        assert(flat(g.lines) + g.current =~= flat(g.lines));
    }
}

/// A line is short enough, or holds a single word.
pub open spec fn line_ok(line: Seq<Word>, max_chars: int) -> bool {
    line.len() == 1 || (line.len() > 1 && line_length(line) <= max_chars)
}

proof fn lemma_line_push(line: Seq<Word>, w: Word)
    ensures
        line_length(line.push(w)) == (if line.len() == 0 {
            w.2.len() as int
        } else {
            line_length(line) + 1 + w.2.len()
        }),
{
    assert(line.push(w).drop_last() =~= line);
}

proof fn lemma_grouped_ok(words: Seq<Word>, max_chars: int, max_gap: int, n: int)
    ensures
        ({
            let g = grouped(words, max_chars, max_gap, n);
            &&& forall|i: int| 0 <= i < g.lines.len() ==> line_ok(#[trigger] g.lines[i], max_chars)
            &&& g.current.len() == 0 || line_ok(g.current, max_chars)
        }),
    decreases n,
{
    if n > 0 {
        lemma_grouped_ok(words, max_chars, max_gap, n - 1);
        let g = grouped(words, max_chars, max_gap, n - 1);
        let text = trimmed(words[n - 1].2);
        if text.len() > 0 {
            lemma_line_push(g.current, (words[n - 1].0, words[n - 1].1, text));
        }
    }
}

/// No line is empty, and none is longer than `max_chars` unless it holds a
/// single word.
pub proof fn law_lines_fit(words: Seq<Word>, max_chars: int, max_gap: int, i: int)
    requires
        0 <= i < lines_of_words(words, max_chars, max_gap).len(),
    ensures
        line_ok(lines_of_words(words, max_chars, max_gap)[i], max_chars),
{
    lemma_grouped_ok(words, max_chars, max_gap, words.len() as int);
}

/// Where the word number `i` of a line begins in the line's text, in bytes.
pub open spec fn word_offset(words: Seq<Seq<char>>, i: int) -> int
    decreases i,
{
    if i <= 0 {
        0
    } else {
        word_offset(words, i - 1) + encode_utf8(words[i - 1]).len() + 1
    }
}

/// The stretch of a line's text, in bytes, that holds word `active`; the
/// words are joined by single spaces.
pub fn active_range(words: &Vec<String>, active: usize) -> (r: (u128, u128))
    ensures
        active < words@.len() ==> r.0 == word_offset(views(words@), active as int) && r.1 == r.0
            + encode_utf8(views(words@)[active as int]).len(),
        active >= words@.len() ==> r == (0u128, 0u128),
{
    if active >= words.len() {
        return (0, 0);
    }
    let mut offset: u128 = 0;
    let mut i: usize = 0;
    while i < active
        invariant
            i <= active < words.len(),
            offset == word_offset(views(words@), i as int),
            offset <= 18_446_744_073_709_551_616 * i,
        decreases active - i,
    {
        assert(views(words@)[i as int] == words@[i as int]@);
        assert(usize::MAX <= 18_446_744_073_709_551_615);
        offset = offset + words[i].as_str().as_bytes().len() as u128 + 1;
        i += 1;
    }
    assert(views(words@)[i as int] == words@[i as int]@);
    assert(usize::MAX <= 18_446_744_073_709_551_615);
    (offset, offset + words[active].as_str().as_bytes().len() as u128)
}

/// The widest that a karaoke line may be on a frame.
pub fn karaoke_width(canvas_w: u32) -> (r: u32)
    ensures
        r == (canvas_w * 9) / 10,
{
    ((canvas_w as u64) * 9 / 10) as u32
}

/// The clip that shows one highlight state: word `word` of line `line`, as an
/// image of width `png_w`, centered near the bottom of the frame and timed to
/// the word's own span.
pub fn karaoke_clip(
    line: usize,
    word: usize,
    span: (i128, i128),
    src: String,
    png_w: u32,
    canvas_w: u32,
    canvas_h: u32,
) -> (r: Clip)
    requires
        within(span.0 as int, 1),
        within(span.1 as int, 1),
    ensures
        r@ == (ClipView {
            id: "sub-"@ + decimal(line as nat) + "-"@ + decimal(word as nat),
            start: to_centi(span.0 as int),
            duration: max(to_centi(span.1 - span.0), CENTI as int),
            element: ElementView::Image { src: src@ },
            transform: Transform {
                x: ((canvas_w - png_w) * 500_000_000) as i128,
                y: (canvas_h * 780_000_000) as i128,
                width: 0,
                height: 0,
                opacity: UNIT,
            },
            animations: Seq::empty(),
            effects: Seq::empty(),
        }),
{
    let mut id: String = joined("sub-", decimal_text(line as u128).as_str());
    id.append("-");
    id.append(decimal_text(word as u128).as_str());
    Clip {
        id,
        start: round_centi(span.0),
        duration: larger(round_centi(span.1 - span.0), CENTI),
        element: Element::Image { src },
        transform: Transform {
            x: (canvas_w as i128 - png_w as i128) * 500_000_000,
            y: (canvas_h as i128) * 780_000_000,
            width: 0,
            height: 0,
            opacity: UNIT,
        },
        animations: Vec::new(),
        effects: Vec::new(),
    }
}

/// Why a transcript cannot be read.
#[derive(Debug, Clone, Copy, PartialEq, Eq, Structural)]
pub enum TranscriptError {
    /// The text is no JSON.
    BadJson,
    /// The value has no transcription array.
    NoTranscription,
}

/// Milliseconds of a number, as fixed-point seconds.
pub open spec fn millis(j: Option<Json>) -> Option<int> {
    match j {
        Some(Json::Number(s)) => match fixed_of(s@) {
            Some(x) => Some(
                if x >= 0 {
                    x / 1000
                } else {
                    -((-x) / 1000)
                },
            ),
            None => None,
        },
        _ => None,
    }
}

pub open spec fn member_of(j: Option<Json>, key: Seq<char>) -> Option<Json> {
    match j {
        Some(v) => v.member(key),
        None => None,
    }
}

/// One segment of a transcript: `offsets.from` and `offsets.to` in
/// milliseconds, and `text`.
pub open spec fn segment_of(j: Json) -> Option<Word> {
    let offsets = j.member("offsets"@);
    match (
        millis(member_of(offsets, "from"@)),
        millis(member_of(offsets, "to"@)),
        j.member("text"@),
    ) {
        (Some(a), Some(b), Some(Json::Text(t))) => Some((a as i128, b as i128, t@)),
        _ => None,
    }
}

/// The first `n` segments that are complete.
pub open spec fn segments_of(items: Seq<Json>, n: int) -> Seq<Word>
    decreases n,
{
    if n <= 0 {
        Seq::empty()
    } else {
        match segment_of(items[n - 1]) {
            Some(w) => segments_of(items, n - 1).push(w),
            None => segments_of(items, n - 1),
        }
    }
}

fn member_millis(j: Option<&Json>) -> (r: Option<i128>)
    ensures
        match r {
            Some(x) => j is Some && millis(Some(*j->0)) == Some(x as int),
            None => j is None || millis(Some(*j->0)) is None,
        },
{
    match j {
        Some(v) => match v.as_fixed() {
            Some(x) => if x >= 0 {
                Some(x / 1000)
            } else {
                Some(-((-x) / 1000))
            },
            None => None,
        },
        None => None,
    }
}

/// The segments of a transcript that was parsed; incomplete ones are passed
/// over.
pub fn whisper_segments(value: &Json) -> (r: Result<Vec<(i128, i128, String)>, TranscriptError>)
    ensures
        match r {
            Ok(v) => value.member("transcription"@) matches Some(Json::Array(items)) && views(v@)
                == segments_of(items@, items@.len() as int),
            Err(e) => e == TranscriptError::NoTranscription && !(value.member("transcription"@)
                matches Some(Json::Array(items))),
        },
{
    let items: &Vec<Json> = match value.get("transcription") {
        Some(j) => match j.as_array() {
            Some(v) => v,
            None => return Err(TranscriptError::NoTranscription),
        },
        None => return Err(TranscriptError::NoTranscription),
    };
    let mut out: Vec<(i128, i128, String)> = Vec::new();
    let mut n: usize = 0;
    while n < items.len()
        invariant
            n <= items.len(),
            views(out@) == segments_of(items@, n as int),
        decreases items.len() - n,
    {
        let j: &Json = &items[n];
        let offsets: Option<&Json> = j.get("offsets");
        let from: Option<i128> = match offsets {
            Some(o) => member_millis(o.get("from")),
            None => None,
        };
        let to: Option<i128> = match offsets {
            Some(o) => member_millis(o.get("to")),
            None => None,
        };
        let text: Option<&String> = match j.get("text") {
            Some(t) => t.as_text(),
            None => None,
        };
        if let (Some(a), Some(b), Some(t)) = (from, to, text) {
            out.push((a, b, t.clone()));
        }
        n += 1;
    }
    Ok(out)
}

/// Parse a whisper.cpp JSON transcript into (start, end, text) seconds:
/// `transcription[].offsets.{from,to}` in milliseconds plus `text`.
pub fn parse_whisper_segments(json: &str) -> (r: Result<
    Vec<(i128, i128, String)>,
    TranscriptError,
>)
    ensures
        readable(json@, NESTING as nat) ==> exists|value: Json|
            #![trigger denotes(json@, value, NESTING as nat)]
            denotes(json@, value, NESTING as nat) && match r {
                Ok(v) => value.member("transcription"@) matches Some(Json::Array(items)) && views(
                    v@,
                ) == segments_of(items@, items@.len() as int),
                Err(e) => e == TranscriptError::NoTranscription && !(value.member(
                    "transcription"@,
                ) matches Some(Json::Array(items))),
            },
        !readable(json@, NESTING as nat) ==> r == Err::<
            Vec<(i128, i128, String)>,
            TranscriptError,
        >(TranscriptError::BadJson),
{
    match parse_json(json) {
        Some(value) => whisper_segments(&value),
        None => Err(TranscriptError::BadJson),
    }
}

/// A time rounded to hundredths of a second is a whole number of them, at
/// most half a hundredth away; the half goes away from zero, and a time before
/// zero mirrors the one after it.
pub proof fn law_to_centi(t: int)
    ensures
        to_centi(t) % 10_000_000 == 0,
        t >= 0 ==> to_centi(t) - t <= 5_000_000 && t - to_centi(t) < 5_000_000,
        to_centi(-t) == -to_centi(t),
{
    if t >= 0 {
        let q = (t + 5_000_000) / 10_000_000;
        assert(10_000_000 * q <= t + 5_000_000 < 10_000_000 * q + 10_000_000);
    } else {
        let q = (-t + 5_000_000) / 10_000_000;
        assert(10_000_000 * q <= -t + 5_000_000 < 10_000_000 * q + 10_000_000);
        assert((-(q * 10_000_000)) % 10_000_000 == 0) by (nonlinear_arith);
    }
}

/// The segments of a transcript that say something.
pub open spec fn said(segments: Seq<(i128, i128, Seq<char>)>) -> Seq<(i128, i128, Seq<char>)> {
    segments.filter(|s: (i128, i128, Seq<char>)| trimmed(s.2).len() > 0)
}

/// Every segment that says something becomes one caption, in order: numbered
/// from 0, shown from the hundredth of a second nearest to its start, for its
/// length in hundredths but never less than one, with its text as it is but
/// for the white space around it: centered, white with a black outline.
pub proof fn law_captions(segments: Seq<(i128, i128, Seq<char>)>, i: int)
    ensures
        captions(segments, segments.len() as int).len() == said(segments).len(),
        0 <= i < said(segments).len() ==> {
            let c = captions(segments, segments.len() as int)[i];
            let s = said(segments)[i];
            let length = s.1 - s.0;
            &&& c.id == "sub-"@ + decimal(i as nat)
            &&& c.start == to_centi(s.0 as int)
            &&& length >= 5_000_000 ==> c.duration == to_centi(length)
            &&& length < 5_000_000 ==> c.duration == 10_000_000
            &&& c.element matches ElementView::Text { text, font, color, align, outline, shadow }
                && text == trimmed(s.2) && align == Some(TextAlign::Center) && !shadow && font
                == "Sans Semi-Bold 22"@ && color == "#ffffff"@ && outline == Some("#000000"@)
            &&& c.transform == Transform::plain()
            &&& c.animations.len() == 0 && c.effects.len() == 0
        },
{
    let n = segments.len() as int;
    assert(segments.take(n) =~= segments);
    lemma_captions(segments, n);
    if 0 <= i < said(segments).len() {
        let s = said(segments)[i];
        assert(captions(segments, n)[i] == caption(i as nat, s));
        let length = s.1 - s.0;
        law_to_centi(length);
        law_to_centi(-length);
    }
}

proof fn lemma_captions(segments: Seq<(i128, i128, Seq<char>)>, n: int)
    requires
        0 <= n <= segments.len(),
    ensures
        captions(segments, n).len() == said(segments.take(n)).len(),
        forall|i: int|
            0 <= i < captions(segments, n).len() ==> #[trigger] captions(segments, n)[i] == caption(
                i as nat,
                said(segments.take(n))[i],
            ),
    decreases n,
{
    reveal(Seq::filter);
    if n > 0 {
        lemma_captions(segments, n - 1);
        let now = segments.take(n);
        assert(now.drop_last() =~= segments.take(n - 1));
        assert(now.last() == segments[n - 1]);
    }
}

/// A word that stands second or later in a line belongs there: it follows the
/// word before it within the longest pause allowed, and that word ends no
/// sentence.
pub open spec fn held_together(line: Seq<Word>, max_gap: int) -> bool {
    forall|k: int|
        0 < k < line.len() ==> {
            let w = #[trigger] line[k];
            w.0 - line[k - 1].1 <= max_gap && !ends_sentence(line[k - 1].2)
        }
}

/// Two lines are two for a reason: the first ends a sentence, a longer pause
/// than allowed lies between them, or the first word of the second would have
/// made the first too long.
pub open spec fn kept_apart(a: Seq<Word>, b: Seq<Word>, max_chars: int, max_gap: int) -> bool {
    &&& a.len() > 0
    &&& b.len() > 0
    &&& ends_sentence(a.last().2) || b[0].0 - a.last().1 > max_gap || line_length(a) + 1
        + b[0].2.len() > max_chars
}

/// Lines are broken where they must be and nowhere else.
pub proof fn law_lines_break(words: Seq<Word>, max_chars: int, max_gap: int, i: int)
    ensures
        ({
            let lines = lines_of_words(words, max_chars, max_gap);
            &&& 0 <= i < lines.len() ==> held_together(lines[i], max_gap)
            &&& 0 <= i < lines.len() - 1 ==> kept_apart(
                lines[i],
                lines[i + 1],
                max_chars,
                max_gap,
            )
        }),
{
    lemma_lines_break(words, max_chars, max_gap, words.len() as int);
    let g = grouped(words, max_chars, max_gap, words.len() as int);
    let lines = lines_of_words(words, max_chars, max_gap);
    if 0 <= i < lines.len() - 1 && i + 1 < g.lines.len() {
        assert(kept_apart(g.lines[i], g.lines[i + 1], max_chars, max_gap));
    }
    if 0 <= i < g.lines.len() {
        assert(held_together(g.lines[i], max_gap));
    }
}

proof fn lemma_held_longer(line: Seq<Word>, w: Word, max_gap: int)
    requires
        held_together(line, max_gap),
        line.len() > 0 ==> w.0 - line.last().1 <= max_gap && !ends_sentence(line.last().2),
    ensures
        held_together(line.push(w), max_gap),
{
    let longer = line.push(w);
    assert forall|k: int| 0 < k < longer.len() implies {
        let x = #[trigger] longer[k];
        x.0 - longer[k - 1].1 <= max_gap && !ends_sentence(longer[k - 1].2)
    } by {
        if k < line.len() {
            assert(line[k] == longer[k]);
        }
    }
}

#[verifier::rlimit(40)]
proof fn lemma_lines_break(words: Seq<Word>, max_chars: int, max_gap: int, n: int)
    ensures
        ({
            let g = grouped(words, max_chars, max_gap, n);
            &&& forall|i: int| 0 <= i < g.lines.len() ==> held_together(#[trigger] g.lines[i], max_gap)
            &&& forall|i: int, j: int|
                0 <= i && j == i + 1 && j < g.lines.len() ==> kept_apart(
                    #[trigger] g.lines[i],
                    #[trigger] g.lines[j],
                    max_chars,
                    max_gap,
                )
            &&& forall|i: int| 0 <= i < g.lines.len() ==> (#[trigger] g.lines[i]).len() > 0
            &&& held_together(g.current, max_gap)
            &&& g.current.len() > 0 ==> !ends_sentence(g.current.last().2)
            &&& g.lines.len() > 0 && g.current.len() > 0 ==> kept_apart(
                g.lines.last(),
                g.current,
                max_chars,
                max_gap,
            )
            &&& g.lines.len() > 0 && g.current.len() == 0 ==> ends_sentence(
                g.lines.last().last().2,
            )
        }),
    decreases n,
{
    if n > 0 {
        lemma_lines_break(words, max_chars, max_gap, n - 1);
        let was = grouped(words, max_chars, max_gap, n - 1);
        let g = grouped(words, max_chars, max_gap, n);
        let w = words[n - 1];
        let word = (w.0, w.1, trimmed(w.2));
        if word.2.len() > 0 {
            let broken = breaks(was.current, word, max_chars, max_gap);
            if !broken {
                lemma_held_longer(was.current, word, max_gap);
            }
            assert(held_together(seq![word], max_gap));
        }
    }
}

/// A line is as long as its words with one space between any two.
pub proof fn law_line_length(line: Seq<Word>, w: Word)
    ensures
        line.len() == 0 ==> line_length(line) == 0 && line_length(line.push(w)) == w.2.len(),
        line.len() > 0 ==> line_length(line.push(w)) == line_length(line) + 1 + w.2.len(),
{
    lemma_line_push(line, w);
}

/// A number of milliseconds stands for a thousandth of as many seconds, cut
/// off toward zero.
pub proof fn law_millis(j: Json)
    ensures
        match (j, millis(Some(j))) {
            (Json::Number(s), Some(t)) => fixed_of(s@) is Some && {
                let x = fixed_of(s@)->0;
                if x >= 0 {
                    1000 * t <= x < 1000 * t + 1000
                } else {
                    1000 * t - 1000 < x <= 1000 * t
                }
            },
            (Json::Number(s), None) => fixed_of(s@) is None,
            (_, t) => t is None,
        },
        millis(None) is None,
{
}

/// The segments of a transcript are its complete items, in order.
pub proof fn law_segments(items: Seq<Json>)
    ensures
        ({
            let whole = items.filter(|j: Json| segment_of(j) is Some);
            let got = segments_of(items, items.len() as int);
            &&& got.len() == whole.len()
            &&& forall|i: int| 0 <= i < got.len() ==> segment_of(whole[i]) == Some(#[trigger] got[i])
        }),
{
    assert(items.take(items.len() as int) =~= items);
    lemma_segments(items, items.len() as int);
}

proof fn lemma_segments(items: Seq<Json>, n: int)
    requires
        0 <= n <= items.len(),
    ensures
        ({
            let whole = items.take(n).filter(|j: Json| segment_of(j) is Some);
            let got = segments_of(items, n);
            &&& got.len() == whole.len()
            &&& forall|i: int| 0 <= i < got.len() ==> segment_of(whole[i]) == Some(#[trigger] got[i])
        }),
    decreases n,
{
    reveal(Seq::filter);
    if n > 0 {
        lemma_segments(items, n - 1);
        let now = items.take(n);
        assert(now.drop_last() =~= items.take(n - 1));
        assert(now.last() == items[n - 1]);
    }
}

} // verus!
