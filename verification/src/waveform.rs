//! Pictures of sound, and the descriptions of the pipelines that read media.

use vstd::prelude::*;
use crate::silence::FULL_SCALE;
use crate::text::{decimal, decimal_text, joined};

verus! {

/// Width of a waveform, pixels.
pub const WAVE_W: u32 = 240;

/// Height of a waveform, pixels.
pub const WAVE_H: u32 = 28;

/// Samples per second of decoded sound.
pub const SAMPLE_RATE: u32 = 8000;

pub open spec fn magnitude(x: int) -> int {
    if x < 0 {
        -x
    } else {
        x
    }
}

/// The loudest of the samples from `from` up to `to`.
pub open spec fn peak(samples: Seq<i32>, from: int, to: int) -> int
    decreases to - from,
{
    if to <= from {
        0
    } else {
        crate::fixed::max(peak(samples, from, to - 1), magnitude(samples[to - 1] as int))
    }
}

/// Samples per column of the picture.
pub open spec fn bucket(len: int) -> int {
    crate::fixed::max(len / 240, 1)
}

/// The samples that column `x` shows: where they begin and end. Past the end,
/// it is the last one.
pub open spec fn column(len: int, x: int) -> (int, int) {
    (
        crate::fixed::min(x * bucket(len), len - 1),
        crate::fixed::min((x + 1) * bucket(len), len),
    )
}

/// Half the height of a bar: 13 pixels at full volume, and 1 at least.
pub open spec fn half_height(peak: int) -> int {
    crate::fixed::max(crate::fixed::min(peak, FULL_SCALE as int) * 13 / (FULL_SCALE as int), 1)
}

/// Half the height of the bar of column `x`.
pub open spec fn bar(samples: Seq<i32>, x: int) -> int {
    let c = column(samples.len() as int, x);
    half_height(peak(samples, c.0, c.1))
}

/// Pixel number `n` of a waveform, row by row, is painted.
pub open spec fn painted(samples: Seq<i32>, n: int) -> bool {
    let half = bar(samples, n % 240);
    14 - half <= n / 240 < 14 + half
}

/// Byte number `i` of a waveform: red, green, blue and alpha of each pixel.
pub open spec fn wave_byte(samples: Seq<i32>, i: int) -> u8 {
    if painted(samples, i / 4) {
        if i % 4 == 0 {
            0x5d
        } else if i % 4 == 1 {
            0xd3
        } else if i % 4 == 2 {
            0x9e
        } else {
            0xff
        }
    } else {
        0
    }
}

fn peak_of(samples: &Vec<i32>, from: usize, to: usize) -> (r: i64)
    requires
        from <= to <= samples@.len(),
    ensures
        r == peak(samples@, from as int, to as int),
{
    let mut m: i64 = 0;
    let mut i: usize = from;
    while i < to
        invariant
            from <= i <= to <= samples@.len(),
            m == peak(samples@, from as int, i as int),
        decreases to - i,
    {
        let s: i64 = samples[i] as i64;
        let a: i64 = if s < 0 {
            -s
        } else {
            s
        };
        if a > m {
            m = a;
        }
        i += 1;
    }
    m
}

proof fn lemma_peak_positive(samples: Seq<i32>, from: int, to: int)
    ensures
        peak(samples, from, to) >= 0,
    decreases to - from,
{
    if to > from {
        lemma_peak_positive(samples, from, to - 1);
    }
}

/// The bars of a waveform, one per column.
fn bars(samples: &Vec<i32>) -> (r: Vec<u32>)
    requires
        samples@.len() > 0,
    ensures
        r@.len() == 240,
        forall|x: int| 0 <= x < 240 ==> #[trigger] r@[x] == bar(samples@, x),
{
    let len: usize = samples.len();
    let per: usize = if len / 240 > 1 {
        len / 240
    } else {
        1
    };
    let mut out: Vec<u32> = Vec::new();
    let mut x: usize = 0;
    while x < 240
        invariant
            x <= 240,
            len == samples@.len(),
            len > 0,
            per == bucket(len as int),
            out@.len() == x,
            forall|k: int| 0 <= k < x ==> #[trigger] out@[k] == bar(samples@, k),
        decreases 240 - x,
    {
        proof {
            assert(x * per <= 240 * 18_446_744_073_709_551_615 && (x + 1) * per <= 241
                * 18_446_744_073_709_551_615) by (nonlinear_arith)
                requires
                    x < 240,
                    per <= 18_446_744_073_709_551_615,
            ;
        }
        let a: u128 = x as u128 * per as u128;
        let b: u128 = (x as u128 + 1) * per as u128;
        let from: usize = if a < len as u128 {
            a as usize
        } else {
            len - 1
        };
        let to: usize = if b < len as u128 {
            b as usize
        } else {
            len
        };
        proof {
            assert(b == a + per) by (nonlinear_arith)
                requires
                    a == x * per,
                    b == (x + 1) * per,
            ;
            lemma_peak_positive(samples@, from as int, to as int);
        }
        let p: i64 = peak_of(samples, from, to);
        let capped: i64 = if p > 16_777_216 {
            16_777_216
        } else {
            p
        };
        let h: i64 = capped * 13 / 16_777_216;
        let half: u32 = if h > 1 {
            h as u32
        } else {
            1
        };
        assert(half == bar(samples@, x as int));
        out.push(half);
        x += 1;
    }
    out
}

/// The picture of a sound: 240 bars, 28 pixels high, around the middle, in
/// red, green, blue and alpha bytes, row by row.
pub fn render_waveform(samples: &Vec<i32>) -> (r: Vec<u8>)
    requires
        samples@.len() > 0,
    ensures
        r@ == Seq::new(240 * 28 * 4, |i: int| wave_byte(samples@, i)),
{
    let heights: Vec<u32> = bars(samples);
    let ghost wanted = Seq::new(240 * 28 * 4, |i: int| wave_byte(samples@, i));
    let mut out: Vec<u8> = Vec::new();
    let mut n: u32 = 0;
    while n < 6720
        invariant
            n <= 6720,
            heights@.len() == 240,
            forall|x: int| 0 <= x < 240 ==> #[trigger] heights@[x] == bar(samples@, x),
            wanted == Seq::new(240 * 28 * 4, |i: int| wave_byte(samples@, i)),
            out@ == wanted.take(4 * n),
        decreases 6720 - n,
    {
        let half: u32 = heights[(n % 240) as usize];
        let row: u32 = n / 240;
        proof {
            lemma_bar(samples@, (n % 240) as int);
        }
        let on: bool = 14 <= row + half && row < 14 + half;
        assert(on == painted(samples@, n as int));
        let ghost was = out@;
        if on {
            out.push(0x5d);
            out.push(0xd3);
            out.push(0x9e);
            out.push(0xff);
        } else {
            out.push(0);
            out.push(0);
            out.push(0);
            out.push(0);
        }
        assert forall|i: int| 0 <= i < 4 * n + 4 implies out@[i] == wanted[i] by {
            if i < 4 * n {
                assert(was[i] == wanted[i]);
            }
        }
        assert(out@ =~= wanted.take(4 * (n + 1)));
        n += 1;
    }
    assert(out@ =~= wanted);
    out
}

proof fn lemma_bar(samples: Seq<i32>, x: int)
    ensures
        1 <= bar(samples, x) <= 13,
{
    let c = column(samples.len() as int, x);
    lemma_peak_positive(samples, c.0, c.1);
}

/// A waveform shows something in every column, and keeps clear of the top and
/// the bottom row.
pub proof fn law_waveform(samples: Seq<i32>, x: int)
    requires
        samples.len() > 0,
        0 <= x < 240,
    ensures
        painted(samples, 14 * 240 + x),
        !painted(samples, x),
        !painted(samples, 27 * 240 + x),
{
    lemma_bar(samples, x);
    assert((14 * 240 + x) % 240 == x && (14 * 240 + x) / 240 == 14);
    assert(x % 240 == x && x / 240 == 0);
    assert((27 * 240 + x) % 240 == x && (27 * 240 + x) / 240 == 27);
}

/// The pipeline that decodes the first frame of a media file to a picture of
/// 128 by 72 pixels.
pub fn thumbnail_pipeline(uri: &str) -> (r: String)
    ensures
        r@ == "uridecodebin uri=\""@ + uri@
            + "\" ! videoconvert ! videoscale ! video/x-raw,format=RGB,width=128,height=72,pixel-aspect-ratio=1/1 ! appsink name=sink sync=false"@,
{
    let mut s: String = joined("uridecodebin uri=\"", uri);
    s.append(
        "\" ! videoconvert ! videoscale ! video/x-raw,format=RGB,width=128,height=72,pixel-aspect-ratio=1/1 ! appsink name=sink sync=false",
    );
    s
}

/// The pipeline that decodes the sound of a media file to one channel of
/// samples.
pub fn sound_pipeline(uri: &str) -> (r: String)
    ensures
        r@ == "uridecodebin uri=\""@ + uri@
            + "\" ! audioconvert ! audioresample ! audio/x-raw,format=F32LE,channels=1,rate="@
            + decimal(SAMPLE_RATE as nat) + " ! appsink name=sink sync=false"@,
{
    let mut s: String = joined("uridecodebin uri=\"", uri);
    s.append("\" ! audioconvert ! audioresample ! audio/x-raw,format=F32LE,channels=1,rate=");
    s.append(decimal_text(SAMPLE_RATE as u128).as_str());
    s.append(" ! appsink name=sink sync=false");
    s
}

/// The part of a proxy's pipeline that carries the picture.
pub open spec fn proxy_picture(uri: Seq<char>, part: Seq<char>) -> Seq<char> {
    "uridecodebin uri=\""@ + uri
        + "\" name=d d. ! queue ! videoconvert ! videoscale ! video/x-raw,width=960,pixel-aspect-ratio=1/1 ! jpegenc quality=70 ! queue ! matroskamux name=m ! filesink location=\""@
        + part + "\""@
}

/// The pipeline that makes a proxy of a media file: 960 pixels wide, every
/// frame a picture of its own. A file without sound has no sound branch.
pub fn proxy_pipeline(uri: &str, part: &str, has_audio: bool) -> (r: String)
    ensures
        r@ == proxy_picture(uri@, part@) + (if has_audio {
            " d. ! queue ! audioconvert ! audioresample ! vorbisenc ! queue ! m."@
        } else {
            ""@
        }),
{
    let mut s: String = joined("uridecodebin uri=\"", uri);
    s.append(
        "\" name=d d. ! queue ! videoconvert ! videoscale ! video/x-raw,width=960,pixel-aspect-ratio=1/1 ! jpegenc quality=70 ! queue ! matroskamux name=m ! filesink location=\"",
    );
    s.append(part);
    s.append("\"");
    s.append(if has_audio {
        " d. ! queue ! audioconvert ! audioresample ! vorbisenc ! queue ! m."
    } else {
        ""
    });
    s
}

/// The samples of column `x`: of a sound with as many samples as columns or
/// more, the stretch of a 240th that lies there, left over ones being passed
/// over at the end.
pub open spec fn in_column(len: int, x: int, i: int) -> bool {
    x * (len / 240) <= i < (x + 1) * (len / 240)
}

/// Sample `s` reaches `n` pixels from the middle, at 13 pixels for full
/// volume.
pub open spec fn reaches(s: i32, n: int) -> bool {
    s * 13 >= n * 16_777_216 || -s * 13 >= n * 16_777_216
}

proof fn lemma_peak(samples: Seq<i32>, from: int, to: int)
    requires
        0 <= from <= to <= samples.len(),
    ensures
        forall|i: int| from <= i < to ==> magnitude(#[trigger] samples[i] as int) <= peak(
            samples,
            from,
            to,
        ),
        to > from ==> exists|i: int|
            from <= i < to && magnitude(#[trigger] samples[i] as int) == peak(samples, from, to),
    decreases to - from,
{
    if to > from {
        lemma_peak(samples, from, to - 1);
        let last = magnitude(samples[to - 1] as int);
        assert(last >= 0);
        if peak(samples, from, to - 1) > last {
            assert(to - 1 > from);
            let i = choose|i: int|
                from <= i < to - 1 && magnitude(#[trigger] samples[i] as int) == peak(
                    samples,
                    from,
                    to - 1,
                );
            assert(magnitude(samples[i] as int) == peak(samples, from, to));
        } else {
            assert(last == peak(samples, from, to));
        }
    }
}

/// A pixel `n` above or below the middle is painted where the sound of its
/// column is that loud somewhere, the two in the middle always, and the
/// picture is the same upside down.
pub proof fn law_wave_height(samples: Seq<i32>, x: int, n: int)
    requires
        samples.len() >= 240,
        0 <= x < 240,
        0 <= n < 14,
    ensures
        painted(samples, (14 + n) * 240 + x) <==> painted(samples, (13 - n) * 240 + x),
        painted(samples, (14 + n) * 240 + x) <==> n == 0 || (n < 13 && exists|i: int|
            0 <= i < samples.len() && in_column(samples.len() as int, x, i) && reaches(
                #[trigger] samples[i],
                n + 1,
            )),
{
    let len = samples.len() as int;
    let per = len / 240;
    assert(per >= 1);
    assert(bucket(len) == per);
    let a = x * per;
    let b = (x + 1) * per;
    assert(0 <= a && b == a + per && b <= len) by (nonlinear_arith)
        requires
            0 <= x < 240,
            per >= 1,
            240 * per <= len,
            a == x * per,
            b == (x + 1) * per,
    ;
    assert(column(len, x) == (a, b));
    lemma_peak(samples, a, b);
    lemma_peak_positive(samples, a, b);
    lemma_bar(samples, x);
    let p = peak(samples, a, b);
    assert(((14 + n) * 240 + x) % 240 == x && ((14 + n) * 240 + x) / 240 == 14 + n);
    assert(((13 - n) * 240 + x) % 240 == x && ((13 - n) * 240 + x) / 240 == 13 - n);
    assert(bar(samples, x) == half_height(p));
    if painted(samples, (14 + n) * 240 + x) && n > 0 {
        let i = choose|i: int| a <= i < b && magnitude(#[trigger] samples[i] as int) == p;
        assert(reaches(samples[i], n + 1));
    }
    if n < 13 && exists|i: int|
        0 <= i < samples.len() && in_column(samples.len() as int, x, i) && reaches(
            #[trigger] samples[i],
            n + 1,
        ) {
        let i = choose|i: int|
            0 <= i < samples.len() && in_column(samples.len() as int, x, i) && reaches(
                #[trigger] samples[i],
                n + 1,
            );
        assert(magnitude(samples[i] as int) <= p);
    }
}

/// A painted pixel is green and opaque, any other is clear.
pub proof fn law_wave_color(samples: Seq<i32>, n: int)
    requires
        0 <= n,
    ensures
        painted(samples, n) ==> wave_byte(samples, 4 * n) == 0x5d && wave_byte(samples, 4 * n + 1)
            == 0xd3 && wave_byte(samples, 4 * n + 2) == 0x9e && wave_byte(samples, 4 * n + 3)
            == 0xff,
        !painted(samples, n) ==> forall|k: int|
            0 <= k < 4 ==> #[trigger] wave_byte(samples, 4 * n + k) == 0,
{
    assert((4 * n + 1) / 4 == n && (4 * n + 2) / 4 == n && (4 * n + 3) / 4 == n);
}

} // verus!
