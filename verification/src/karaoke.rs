//! Karaoke captions: one picture per highlighted word.

use vstd::prelude::*;
use vstd::utf8::encode_utf8;
use crate::captions::{active_range, flat, group_words_into_lines, karaoke_clip, line_views,
    lines_of_words, spoken, times_fit, to_centi, word_offset, Word, CENTI};
use crate::document::{Clip, ClipView, ElementView, Transform};
use crate::fixed::{max, within, UNIT};
use crate::text::decimal;
use crate::views::views;

verus! {

broadcast use crate::views::group_views;

/// Longest line of a karaoke caption, in characters.
pub const LINE: usize = 42;

/// Longest pause within a line.
pub const PAUSE: i128 = 600_000_000;

/// A picture to draw: line `line` with its word `word` highlighted, shown
/// from `start` to `end`.
#[derive(Debug)]
pub struct Frame {
    pub line: usize,
    pub word: usize,
    pub words: Vec<String>,
    pub start: i128,
    pub end: i128,
}

#[verifier::ext_equal]
pub struct FrameView {
    pub line: int,
    pub word: int,
    pub words: Seq<Seq<char>>,
    pub start: int,
    pub end: int,
}

impl View for Frame {
    type V = FrameView;

    open spec fn view(&self) -> FrameView {
        FrameView {
            line: self.line as int,
            word: self.word as int,
            words: views(self.words@),
            start: self.start as int,
            end: self.end as int,
        }
    }
}

/// The texts of the words of a line.
pub open spec fn texts(line: Seq<Word>) -> Seq<Seq<char>> {
    Seq::new(line.len(), |i: int| line[i].2)
}

/// The picture of line number `k` with its word `i` highlighted.
pub open spec fn frame(line: Seq<Word>, k: int, i: int) -> FrameView {
    FrameView {
        line: k,
        word: i,
        words: texts(line),
        start: line[i].0 as int,
        end: line[i].1 as int,
    }
}

/// The pictures of the first `n` words of line number `k`.
pub open spec fn line_frames(line: Seq<Word>, k: int, n: nat) -> Seq<FrameView> {
    Seq::new(n, |i: int| frame(line, k, i))
}

/// The pictures of the first `n` lines.
pub open spec fn frames(lines: Seq<Seq<Word>>, n: int) -> Seq<FrameView>
    decreases n,
{
    if n <= 0 {
        Seq::empty()
    } else {
        frames(lines, n - 1) + line_frames(lines[n - 1], n - 1, lines[n - 1].len())
    }
}

proof fn lemma_spoken_fit(words: Seq<Word>, n: int)
    requires
        0 <= n <= words.len(),
        times_fit(words),
    ensures
        times_fit(spoken(words, n)),
    decreases n,
{
    if n > 0 {
        lemma_spoken_fit(words, n - 1);
    }
}

proof fn lemma_flat_fit(lines: Seq<Seq<Word>>, n: int)
    requires
        0 <= n <= lines.len(),
        times_fit(flat(lines.take(n))),
    ensures
        forall|k: int| 0 <= k < n ==> times_fit(#[trigger] lines[k]),
    decreases n,
{
    if n > 0 {
        let before = flat(lines.take(n - 1));
        let all = flat(lines.take(n));
        assert(lines.take(n).drop_last() =~= lines.take(n - 1));
        assert(all == before + lines[n - 1]);
        assert forall|i: int| 0 <= i < before.len() implies within(
            (#[trigger] before[i]).0 as int,
            1,
        ) && within(before[i].1 as int, 1) by {
            assert(all[i] == before[i]);
        }
        assert forall|i: int| 0 <= i < lines[n - 1].len() implies within(
            (#[trigger] lines[n - 1][i]).0 as int,
            1,
        ) && within(lines[n - 1][i].1 as int, 1) by {
            assert(all[before.len() + i] == lines[n - 1][i]);
        }
        lemma_flat_fit(lines, n - 1);
    }
}

/// A frame that a caption can be made of.
pub open spec fn frame_fits(f: FrameView) -> bool {
    within(f.start, 1) && within(f.end, 1)
}

/// The pictures that karaoke captions of some words need, in order.
pub fn karaoke_frames(words: &Vec<(i128, i128, String)>) -> (r: Vec<Frame>)
    requires
        times_fit(views(words@)),
    ensures
        ({
            let lines = lines_of_words(views(words@), LINE as int, PAUSE as int);
            views(r@) == frames(lines, lines.len() as int)
        }),
        forall|i: int| 0 <= i < r@.len() ==> frame_fits(#[trigger] views(r@)[i]),
{
    let lines: Vec<Vec<(i128, i128, String)>> = group_words_into_lines(words, LINE, PAUSE);
    let ghost all = line_views(lines@);
    proof {
        lemma_spoken_fit(views(words@), words@.len() as int);
        crate::captions::law_lines_keep_words(views(words@), LINE as int, PAUSE as int);
        assert(all.take(all.len() as int) =~= all);
        lemma_flat_fit(all, all.len() as int);
    }
    let mut out: Vec<Frame> = Vec::new();
    let mut k: usize = 0;
    while k < lines.len()
        invariant
            k <= lines.len(),
            all == line_views(lines@),
            forall|j: int| 0 <= j < all.len() ==> times_fit(#[trigger] all[j]),
            views(out@) == frames(all, k as int),
            forall|i: int| 0 <= i < out@.len() ==> frame_fits(#[trigger] views(out@)[i]),
        decreases lines.len() - k,
    {
        let line: &Vec<(i128, i128, String)> = &lines[k];
        let ghost view = all[k as int];
        assert(view == views(line@));
        assert(times_fit(view));
        let ghost before = views(out@);
        let mut i: usize = 0;
        while i < line.len()
            invariant
                i <= line.len(),
                view == views(line@),
                times_fit(view),
                views(out@) == before + line_frames(view, k as int, i as nat),
                forall|j: int| 0 <= j < out@.len() ==> frame_fits(#[trigger] views(out@)[j]),
            decreases line.len() - i,
        {
            let ghost was = views(out@);
            assert(view[i as int] == line@[i as int]@);
            let f: Frame = Frame {
                line: k,
                word: i,
                words: words_of(line),
                start: line[i].0,
                end: line[i].1,
            };
            assert(f@ == frame(view, k as int, i as int));
            out.push(f);
            assert(views(out@) =~= was.push(frame(view, k as int, i as int)));
            assert(views(out@) =~= before + line_frames(view, k as int, i as nat + 1));
            i += 1;
        }
        k += 1;
    }
    out
}

fn words_of(line: &Vec<(i128, i128, String)>) -> (r: Vec<String>)
    ensures
        views(r@) == texts(views(line@)),
{
    let mut out: Vec<String> = Vec::new();
    let mut i: usize = 0;
    while i < line.len()
        invariant
            i <= line.len(),
            views(out@) == texts(views(line@)).take(i as int),
        decreases line.len() - i,
    {
        let ghost was = views(out@);
        out.push(line[i].2.clone());
        assert(views(line@)[i as int] == line@[i as int]@);
        assert(views(out@) =~= was.push(texts(views(line@))[i as int]));
        assert(views(out@) =~= texts(views(line@)).take(i + 1));
        i += 1;
    }
    assert(views(out@) =~= texts(views(line@)));
    out
}

/// The clip that shows a picture of the given file and width.
pub open spec fn frame_clip(
    f: FrameView,
    src: Seq<char>,
    png_w: int,
    canvas_w: int,
    canvas_h: int,
) -> ClipView {
    ClipView {
        id: "sub-"@ + decimal(f.line as nat) + "-"@ + decimal(f.word as nat),
        start: to_centi(f.start),
        duration: max(to_centi(f.end - f.start), CENTI as int),
        element: ElementView::Image { src },
        transform: Transform {
            x: ((canvas_w - png_w) * 500_000_000) as i128,
            y: (canvas_h * 780_000_000) as i128,
            width: 0,
            height: 0,
            opacity: UNIT,
        },
        animations: Seq::empty(),
        effects: Seq::empty(),
    }
}

/// The karaoke caption clips: one image clip per highlighted word, centered
/// near the bottom of the frame and timed to the word's own span. `drawn`
/// holds the file and the width of each picture.
pub fn karaoke_captions_to_clips(
    frames: &Vec<Frame>,
    drawn: &Vec<(String, u32)>,
    canvas_w: u32,
    canvas_h: u32,
) -> (r: Vec<Clip>)
    requires
        frames@.len() == drawn@.len(),
        forall|i: int| 0 <= i < frames@.len() ==> frame_fits(#[trigger] views(frames@)[i]),
    ensures
        views(r@) == Seq::new(
            frames@.len(),
            |i: int|
                frame_clip(
                    views(frames@)[i],
                    drawn@[i].0@,
                    drawn@[i].1 as int,
                    canvas_w as int,
                    canvas_h as int,
                ),
        ),
{
    let ghost wanted = Seq::new(
        frames@.len(),
        |i: int|
            frame_clip(
                views(frames@)[i],
                drawn@[i].0@,
                drawn@[i].1 as int,
                canvas_w as int,
                canvas_h as int,
            ),
    );
    let mut out: Vec<Clip> = Vec::new();
    let mut i: usize = 0;
    while i < frames.len()
        invariant
            i <= frames.len(),
            frames@.len() == drawn@.len(),
            forall|k: int| 0 <= k < frames@.len() ==> frame_fits(#[trigger] views(frames@)[k]),
            wanted == Seq::new(
                frames@.len(),
                |i: int|
                    frame_clip(
                        views(frames@)[i],
                        drawn@[i].0@,
                        drawn@[i].1 as int,
                        canvas_w as int,
                        canvas_h as int,
                    ),
            ),
            views(out@) == wanted.take(i as int),
        decreases frames.len() - i,
    {
        let f: &Frame = &frames[i];
        assert(views(frames@)[i as int] == f@);
        assert(frame_fits(views(frames@)[i as int]));
        let ghost was = views(out@);
        let c: Clip = karaoke_clip(
            f.line,
            f.word,
            (f.start, f.end),
            drawn[i].0.clone(),
            drawn[i].1,
            canvas_w,
            canvas_h,
        );
        assert(c@ == wanted[i as int]);
        out.push(c);
        assert(views(out@) =~= was.push(wanted[i as int]));
        assert(views(out@) =~= wanted.take(i + 1));
        i += 1;
    }
    assert(views(out@) =~= wanted);
    out
}

proof fn lemma_frames_len(lines: Seq<Seq<Word>>, n: int)
    requires
        0 <= n <= lines.len(),
    ensures
        frames(lines, n).len() == flat(lines.take(n)).len(),
        forall|i: int|
            0 <= i < frames(lines, n).len() ==> {
                &&& (#[trigger] frames(lines, n)[i]).start == flat(lines.take(n))[i].0
                &&& frames(lines, n)[i].end == flat(lines.take(n))[i].1
                &&& 0 <= frames(lines, n)[i].word < frames(lines, n)[i].words.len()
                &&& frames(lines, n)[i].words[frames(lines, n)[i].word] == flat(lines.take(n))[i].2
            },
    decreases n,
{
    if n > 0 {
        lemma_frames_len(lines, n - 1);
        assert(lines.take(n).drop_last() =~= lines.take(n - 1));
    } else {
        assert(lines.take(n) =~= Seq::empty());
    }
}

/// Every spoken word gets exactly one picture, in order: the one in which it
/// is highlighted, shown while it is spoken.
pub proof fn law_a_frame_per_word(words: Seq<Word>, i: int)
    requires
        0 <= i < spoken(words, words.len() as int).len(),
    ensures
        ({
            let lines = lines_of_words(words, LINE as int, PAUSE as int);
            let all = frames(lines, lines.len() as int);
            let said = spoken(words, words.len() as int);
            &&& all.len() == said.len()
            &&& all[i].start == said[i].0
            &&& all[i].end == said[i].1
            &&& 0 <= all[i].word < all[i].words.len()
            &&& all[i].words[all[i].word] == said[i].2
        }),
{
    let lines = lines_of_words(words, LINE as int, PAUSE as int);
    crate::captions::law_lines_keep_words(words, LINE as int, PAUSE as int);
    assert(lines.take(lines.len() as int) =~= lines);
    lemma_frames_len(lines, lines.len() as int);
}

/// Space around the ink of a picture, in pixels.
pub const MARGIN: i32 = 20;

/// Words joined by single spaces.
pub open spec fn sentence(words: Seq<Seq<char>>, n: int) -> Seq<char>
    decreases n,
{
    if n <= 0 {
        Seq::empty()
    } else if n == 1 {
        words[0]
    } else {
        sentence(words, n - 1) + " "@ + words[n - 1]
    }
}

/// How to draw a picture: the text, the bytes of it that are gold rather than
/// white, the size in pixels, and where the text's origin lies in it.
#[derive(Debug)]
pub struct Layout {
    pub text: String,
    pub gold: (u128, u128),
    pub width: i32,
    pub height: i32,
    pub x: i32,
    pub y: i32,
}

/// The width at which the text of a picture is wrapped.
pub fn wrap_width(max_width: u32) -> (r: i64)
    ensures
        r == max_width - 2 * MARGIN,
        r + 20 + 20 == max_width,
{
    max_width as i64 - 40
}

fn sized(ink: i32) -> (r: i32)
    requires
        ink <= i32::MAX - 2 * MARGIN,
    ensures
        r == max(ink + 2 * MARGIN, 10),
{
    if ink < -30 {
        10
    } else {
        ink + 40
    }
}

/// The words of a line joined by single spaces.
pub fn line_text(line_words: &Vec<String>) -> (r: String)
    ensures
        r@ == sentence(views(line_words@), line_words@.len() as int),
{
    let mut text: String = "".to_owned();
    let mut i: usize = 0;
    proof {
        reveal_strlit("");
        assert(text@ =~= Seq::empty());
    }
    while i < line_words.len()
        invariant
            i <= line_words.len(),
            text@ == sentence(views(line_words@), i as int),
        decreases line_words.len() - i,
    {
        let ghost was = text@;
        assert(views(line_words@)[i as int] == line_words@[i as int]@);
        if i > 0 {
            text.append(" ");
        }
        text.append(line_words[i].as_str());
        assert(i == 0 ==> text@ =~= views(line_words@)[0]);
        i += 1;
    }
    text
}

/// Lay out one highlight state: the words of a line joined with spaces, the
/// word `active_idx` gold and the others white. `ink` is the measured box of
/// the text: left, top, width and height. The picture is only as large as the
/// text, plus a small margin.
pub fn render_karaoke_frame(
    line_words: &Vec<String>,
    active_idx: usize,
    ink: (i32, i32, i32, i32),
) -> (r: Layout)
    requires
        i32::MIN + 2 * MARGIN <= ink.0,
        i32::MIN + 2 * MARGIN <= ink.1,
        ink.2 <= i32::MAX - 2 * MARGIN,
        ink.3 <= i32::MAX - 2 * MARGIN,
    ensures
        r.text@ == sentence(views(line_words@), line_words@.len() as int),
        active_idx < line_words@.len() ==> r.gold.0 == word_offset(
            views(line_words@),
            active_idx as int,
        ) && r.gold.1 == r.gold.0 + encode_utf8(views(line_words@)[active_idx as int]).len(),
        active_idx >= line_words@.len() ==> r.gold == (0u128, 0u128),
        r.width == max(ink.2 + 2 * MARGIN, 10),
        r.height == max(ink.3 + 2 * MARGIN, 10),
        r.x == MARGIN - ink.0,
        r.y == MARGIN - ink.1,
        r.x + ink.0 == 20 && r.y + ink.1 == 20,
        ink.2 >= 0 ==> r.width == 20 + ink.2 + 20,
        ink.3 >= 0 ==> r.height == 20 + ink.3 + 20,
{
    Layout {
        text: line_text(line_words),
        gold: active_range(line_words, active_idx),
        width: sized(ink.2),
        height: sized(ink.3),
        x: 20 - ink.0,
        y: 20 - ink.1,
    }
}

proof fn lemma_encode_concat(a: Seq<char>, b: Seq<char>)
    ensures
        encode_utf8(a + b) == encode_utf8(a) + encode_utf8(b),
    decreases a.len(),
{
    if a.len() == 0 {
        assert(a + b =~= b);
        assert(encode_utf8(a) + encode_utf8(b) =~= encode_utf8(b));
    } else {
        assert((a + b).drop_first() =~= a.drop_first() + b);
        lemma_encode_concat(a.drop_first(), b);
        assert(encode_utf8(a + b) =~= encode_utf8(a) + encode_utf8(b));
    }
}

proof fn lemma_space()
    ensures
        encode_utf8(" "@).len() == 1,
{
    reveal_strlit(" ");
    assert(" "@ =~= seq![' ']);
    assert(vstd::utf8::is_ascii_chars(" "@));
    vstd::utf8::is_ascii_chars_encode_utf8(" "@);
}

proof fn lemma_sentence_bytes(words: Seq<Seq<char>>, n: int, i: int)
    requires
        0 <= i < n <= words.len(),
    ensures
        ({
            let text = encode_utf8(sentence(words, n));
            let from = word_offset(words, i);
            let to = from + encode_utf8(words[i]).len();
            &&& 0 <= from <= to <= text.len()
            &&& text.subrange(from, to) == encode_utf8(words[i])
            &&& i == n - 1 ==> to == text.len()
        }),
    decreases n,
{
    let text = encode_utf8(sentence(words, n));
    if n == 1 {
        assert(text.subrange(0, text.len() as int) =~= text);
    } else {
        let head = sentence(words, n - 1);
        lemma_space();
        lemma_encode_concat(head, " "@);
        lemma_encode_concat(head + " "@, words[n - 1]);
        let front = encode_utf8(head);
        assert(text == front + encode_utf8(" "@) + encode_utf8(words[n - 1]));
        if i < n - 1 {
            lemma_sentence_bytes(words, n - 1, i);
            let from = word_offset(words, i);
            let to = from + encode_utf8(words[i]).len();
            assert(text.subrange(from, to) =~= front.subrange(from, to));
        } else {
            lemma_sentence_bytes(words, n - 1, n - 2);
            let from = word_offset(words, i);
            assert(from == front.len() + 1);
            assert(text.subrange(from, from + encode_utf8(words[i]).len()) =~= encode_utf8(
                words[i],
            ));
        }
    }
}

/// The gold bytes of a picture's text are those of the highlighted word.
pub proof fn law_gold_is_the_word(words: Seq<Seq<char>>, i: int)
    requires
        0 <= i < words.len(),
    ensures
        ({
            let text = encode_utf8(sentence(words, words.len() as int));
            let from = word_offset(words, i);
            let to = from + encode_utf8(words[i]).len();
            0 <= from <= to <= text.len() && text.subrange(from, to) == encode_utf8(words[i])
        }),
{
    lemma_sentence_bytes(words, words.len() as int, i);
}

/// A caption picture stands in the middle of the frame, as far from its left
/// as from its right edge, 78 hundredths of the way down, at its own size; it
/// is shown from the hundredth of a second nearest to where its word begins.
pub proof fn law_frame_clip(f: FrameView, src: Seq<char>, png_w: u32, canvas_w: u32, canvas_h: u32)
    ensures
        ({
            let c = frame_clip(f, src, png_w as int, canvas_w as int, canvas_h as int);
            &&& c.element == (ElementView::Image { src })
            &&& 2 * c.transform.x + png_w * 1_000_000_000 == canvas_w * 1_000_000_000
            &&& 100 * c.transform.y == 78 * canvas_h * 1_000_000_000
            &&& c.transform.width == 0 && c.transform.height == 0
            &&& c.transform.opacity == 1_000_000_000
            &&& c.start == to_centi(f.start)
            &&& f.end - f.start >= 5_000_000 ==> c.duration == to_centi(f.end - f.start)
            &&& f.end - f.start < 5_000_000 ==> c.duration == 10_000_000
            &&& c.id == "sub-"@ + decimal(f.line as nat) + "-"@ + decimal(f.word as nat)
            &&& c.animations.len() == 0 && c.effects.len() == 0
        }),
{
    let length = f.end - f.start;
    crate::captions::law_to_centi(length);
    crate::captions::law_to_centi(-length);
}

/// Each picture shows the whole line of its word, and says which line and
/// which word of it that is.
pub proof fn law_frame_line(lines: Seq<Seq<Word>>, n: int, j: int)
    requires
        0 <= n <= lines.len(),
        0 <= j < frames(lines, n).len(),
    ensures
        ({
            let f = frames(lines, n)[j];
            &&& 0 <= f.line < n
            &&& 0 <= f.word < lines[f.line].len()
            &&& f.words.len() == lines[f.line].len()
            &&& forall|k: int|
                0 <= k < f.words.len() ==> #[trigger] f.words[k] == lines[f.line][k].2
            &&& f.start == lines[f.line][f.word].0
            &&& f.end == lines[f.line][f.word].1
        }),
    decreases n,
{
    if n > 0 {
        let before = frames(lines, n - 1);
        if j < before.len() {
            law_frame_line(lines, n - 1, j);
        }
    }
}

/// A line of karaoke captions of more than one word has at most 42 characters,
/// and no pause in it is longer than 0.6 seconds; it is broken nowhere but at
/// the end of a sentence, at a longer pause, or where it would get too long.
pub proof fn law_karaoke_lines(words: Seq<Word>, i: int)
    ensures
        ({
            let lines = lines_of_words(words, LINE as int, PAUSE as int);
            &&& 0 <= i < lines.len() && lines[i].len() > 1 ==> crate::captions::line_length(lines[i])
                <= 42
            &&& 0 <= i < lines.len() ==> crate::captions::held_together(lines[i], 600_000_000)
            &&& 0 <= i < lines.len() - 1 ==> crate::captions::kept_apart(
                lines[i],
                lines[i + 1],
                42,
                600_000_000,
            )
        }),
{
    let lines = lines_of_words(words, LINE as int, PAUSE as int);
    crate::captions::law_lines_break(words, LINE as int, PAUSE as int, i);
    if 0 <= i < lines.len() {
        crate::captions::law_lines_fit(words, LINE as int, PAUSE as int, i);
    }
}

} // verus!
