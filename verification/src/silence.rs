//! Finding silent stretches in a mono audio stream.

use vstd::prelude::*;
use crate::fixed::{within, UNIT};

verus! {

/// Full scale of a sample: amplitude 1.0.
pub const FULL_SCALE: i32 = 16_777_216;

/// Sum of the squares of samples `from..to`.
pub open spec fn energy(samples: Seq<i32>, from: int, to: int) -> int
    decreases to - from,
{
    if to <= from {
        0
    } else {
        energy(samples, from, to - 1) + samples[to - 1] * samples[to - 1]
    }
}

/// Samples of a 20 ms window.
pub open spec fn window_size(sample_rate: int) -> int {
    if sample_rate < 50 {
        1
    } else {
        sample_rate / 50
    }
}

/// First sample of window `k`, held to the end of the stream.
pub open spec fn window_start(samples: Seq<i32>, w: int, k: int) -> int {
    if k * w <= samples.len() {
        k * w
    } else {
        samples.len() as int
    }
}

/// Number of windows; the last one may be short.
pub open spec fn window_count(samples: Seq<i32>, w: int) -> int {
    (samples.len() + w - 1) / w
}

/// The root mean square of window `k` stays below `threshold`.
pub open spec fn quiet(samples: Seq<i32>, w: int, threshold: int, k: int) -> bool {
    let from = window_start(samples, w, k);
    let to = window_start(samples, w, k + 1);
    energy(samples, from, to) < threshold * threshold * (to - from)
}

/// Where the run of quiet windows that ends before window `k` began; `k` if
/// there is none.
pub open spec fn run_from(samples: Seq<i32>, w: int, threshold: int, k: int) -> int
    decreases k,
{
    if k <= 0 || !quiet(samples, w, threshold, k - 1) {
        k
    } else {
        run_from(samples, w, threshold, k - 1)
    }
}

/// A stretch of samples as seconds.
pub open spec fn seconds(from: int, to: int, sample_rate: int) -> (int, int) {
    ((from * UNIT) / sample_rate, (to * UNIT) / sample_rate)
}

/// A stretch of samples lasts long enough.
pub open spec fn lasts(from: int, to: int, sample_rate: int, min_duration: int) -> bool {
    (to - from) * UNIT >= min_duration * sample_rate
}

/// The stretch from sample `from` to `to`, if it lasts long enough.
pub open spec fn stretch(from: int, to: int, sample_rate: int, min_duration: int) -> Seq<
    (int, int),
> {
    if lasts(from, to, sample_rate, min_duration) {
        seq![seconds(from, to, sample_rate)]
    } else {
        Seq::empty()
    }
}

/// The silent stretches that have ended before window `k`.
pub open spec fn ended(
    samples: Seq<i32>,
    sample_rate: int,
    threshold: int,
    min_duration: int,
    k: int,
) -> Seq<(int, int)>
    decreases k,
{
    let w = window_size(sample_rate);
    if k <= 0 {
        Seq::empty()
    } else {
        let before = ended(samples, sample_rate, threshold, min_duration, k - 1);
        let from = run_from(samples, w, threshold, k - 1);
        if !quiet(samples, w, threshold, k - 1) && from < k - 1 {
            before + stretch(
                window_start(samples, w, from),
                window_start(samples, w, k - 1),
                sample_rate,
                min_duration,
            )
        } else {
            before
        }
    }
}

/// The silent stretches of a stream: the longest runs of quiet windows that
/// last at least `min_duration`, in order.
pub open spec fn silences(
    samples: Seq<i32>,
    sample_rate: int,
    threshold: int,
    min_duration: int,
) -> Seq<(int, int)> {
    if samples.len() == 0 || sample_rate == 0 {
        Seq::empty()
    } else {
        let w = window_size(sample_rate);
        let n = window_count(samples, w);
        let before = ended(samples, sample_rate, threshold, min_duration, n);
        let from = run_from(samples, w, threshold, n);
        if from < n {
            before + stretch(
                window_start(samples, w, from),
                samples.len() as int,
                sample_rate,
                min_duration,
            )
        } else {
            before
        }
    }
}

pub open spec fn pair_views(v: Seq<(i128, i128)>) -> Seq<(int, int)> {
    Seq::new(v.len(), |i: int| (v[i].0 as int, v[i].1 as int))
}

fn push_range(
    ranges: &mut Vec<(i128, i128)>,
    from: usize,
    to: usize,
    sample_rate: u32,
    min_duration: i128,
)
    requires
        sample_rate > 0,
        from <= to,
        within(min_duration as int, 16),
    ensures
        pair_views(final(ranges)@) == pair_views(old(ranges)@) + stretch(
            from as int,
            to as int,
            sample_rate as int,
            min_duration as int,
        ),
{
    let ghost before = pair_views(ranges@);
    proof {
        assert(-10_000_000_000_000_000_000_000_000_000 <= min_duration * sample_rate
            <= 10_000_000_000_000_000_000_000_000_000) by (nonlinear_arith)
            requires
                -1_600_000_000_000_000_000 <= min_duration <= 1_600_000_000_000_000_000,
                0 <= sample_rate <= 4_294_967_295,
        ;
        assert(usize::MAX <= 18_446_744_073_709_551_615);
    }
    let rate: i128 = sample_rate as i128;
    let span: i128 = ((to - from) as i128) * UNIT;
    if span >= min_duration * rate {
        let s: i128 = (from as i128) * UNIT / rate;
        let e: i128 = (to as i128) * UNIT / rate;
        ranges.push((s, e));
        assert(pair_views(ranges@) =~= before + seq![
            seconds(from as int, to as int, sample_rate as int),
        ]);
    } else {
        assert(before + Seq::<(int, int)>::empty() =~= before);
    }
}

fn window_energy(samples: &Vec<i32>, from: usize, to: usize) -> (r: u128)
    requires
        from <= to <= samples.len(),
    ensures
        r == energy(samples@, from as int, to as int),
{
    let mut sum: u128 = 0;
    let mut i: usize = from;
    while i < to
        invariant
            from <= i <= to <= samples.len(),
            sum == energy(samples@, from as int, i as int),
            sum <= 4_611_686_018_427_387_904 * (i - from),
        decreases to - i,
    {
        let s: i128 = samples[i] as i128;
        proof {
            assert(0 <= s * s <= 4_611_686_018_427_387_904) by (nonlinear_arith)
                requires
                    -2_147_483_648 <= s <= 2_147_483_647,
            ;
            assert(usize::MAX <= 18_446_744_073_709_551_615);
        }
        sum = sum + (s * s) as u128;
        i += 1;
    }
    sum
}

proof fn lemma_windows(samples: Seq<i32>, w: int, k: int)
    requires
        w >= 1,
        0 <= k,
    ensures
        k < window_count(samples, w) <==> k * w < samples.len(),
        k >= window_count(samples, w) ==> window_start(samples, w, k) == samples.len(),
        (k + 1) * w == k * w + w,
        k * w >= 0,
{
    let n = samples.len() as int;
    let c = window_count(samples, w);
    assert((k + 1) * w == k * w + w) by (nonlinear_arith);
    assert(k * w >= 0) by (nonlinear_arith)
        requires
            k >= 0,
            w >= 1,
    ;
    assert(c * w >= n && (c - 1) * w < n) by (nonlinear_arith)
        requires
            c == (n + w - 1) / w,
            w >= 1,
            n >= 0,
    ;
    if k < c {
        assert(k * w <= (c - 1) * w) by (nonlinear_arith)
            requires
                k <= c - 1,
                w >= 1,
        ;
    } else {
        assert(k * w >= c * w) by (nonlinear_arith)
            requires
                k >= c,
                w >= 1,
        ;
    }
}

/// Detect silent stretches in a mono stream. `samples` and `threshold` are
/// amplitudes of which [`FULL_SCALE`] stands for 1.0; `sample_rate` is in Hz.
/// A stretch is silent when its root mean square over windows of 20 ms stays
/// below the threshold for at least `min_duration` seconds. Returns (start,
/// end) in seconds, in order.
pub fn detect_silence(samples: &Vec<i32>, sample_rate: u32, threshold: u32, min_duration: i128) -> (r:
    Vec<(i128, i128)>)
    requires
        within(min_duration as int, 16),
    ensures
        pair_views(r@) == silences(
            samples@,
            sample_rate as int,
            threshold as int,
            min_duration as int,
        ),
{
    let mut ranges: Vec<(i128, i128)> = Vec::new();
    assert(pair_views(ranges@) =~= Seq::<(int, int)>::empty());
    if samples.len() == 0 || sample_rate == 0 {
        return ranges;
    }
    let w: usize = if sample_rate < 50 {
        1
    } else {
        (sample_rate / 50) as usize
    };
    let ghost all = samples@;
    let ghost rate = sample_rate as int;
    let ghost limit = threshold as int;
    let ghost least = min_duration as int;
    let mut run: Option<usize> = None;
    let mut i: usize = 0;
    let ghost mut k: int = 0;
    proof {
        lemma_windows(all, w as int, 0);
    }
    while i < samples.len()
        invariant
            all == samples@,
            rate == sample_rate,
            rate > 0,
            limit == threshold,
            least == min_duration,
            within(least, 16),
            w == window_size(rate),
            w >= 1,
            w <= 85_899_345,
            0 <= k <= window_count(all, w as int),
            i == window_start(all, w as int, k),
            i < samples.len() ==> i == k * w,
            match run {
                Some(s) => run_from(all, w as int, limit, k) < k && s == window_start(
                    all,
                    w as int,
                    run_from(all, w as int, limit, k),
                ) && s <= i,
                None => run_from(all, w as int, limit, k) == k,
            },
            pair_views(ranges@) == ended(all, rate, limit, least, k),
            i >= samples.len() ==> k == window_count(all, w as int),
        decreases samples.len() - i,
    {
        let end: usize = if samples.len() - i <= w {
            samples.len()
        } else {
            i + w
        };
        proof {
            lemma_windows(all, w as int, k);
            lemma_windows(all, w as int, k + 1);
            assert(end == window_start(all, w as int, k + 1));
            assert(threshold * threshold * (end - i) <= 2_000_000_000_000_000_000_000_000_000)
                by (nonlinear_arith)
                requires
                    0 <= threshold <= 4_294_967_295,
                    0 <= end - i <= 85_899_345,
            ;
            assert(threshold * threshold <= 18_446_744_073_709_551_616) by (nonlinear_arith)
                requires
                    0 <= threshold <= 4_294_967_295,
            ;
        }
        let energy_here: u128 = window_energy(samples, i, end);
        let bound: u128 = (threshold as u128) * (threshold as u128) * ((end - i) as u128);
        if energy_here < bound {
            assert(quiet(all, w as int, limit, k));
            if run.is_none() {
                run = Some(i);
            }
        } else {
            assert(!quiet(all, w as int, limit, k));
            if let Some(s) = run {
                push_range(&mut ranges, s, i, sample_rate, min_duration);
            }
            run = None;
        }
        i = end;
        proof {
            k = k + 1;
        }
    }
    if let Some(s) = run {
        push_range(&mut ranges, s, samples.len(), sample_rate, min_duration);
    }
    ranges
}

proof fn lemma_run_from(samples: Seq<i32>, w: int, threshold: int, k: int)
    requires
        k >= 0,
    ensures
        0 <= run_from(samples, w, threshold, k) <= k,
        forall|j: int|
            run_from(samples, w, threshold, k) <= j < k ==> #[trigger] quiet(
                samples,
                w,
                threshold,
                j,
            ),
        run_from(samples, w, threshold, k) > 0 ==> !quiet(
            samples,
            w,
            threshold,
            run_from(samples, w, threshold, k) - 1,
        ),
    decreases k,
{
    if k > 0 && quiet(samples, w, threshold, k - 1) {
        lemma_run_from(samples, w, threshold, k - 1);
    }
}

/// Every run that is reported is quiet throughout and cannot be extended
/// backward; it ends at a loud window or at the end of the stream.
pub proof fn law_runs_are_quiet(samples: Seq<i32>, w: int, threshold: int, k: int)
    requires
        k >= 0,
    ensures
        ({
            let from = run_from(samples, w, threshold, k);
            &&& 0 <= from <= k
            &&& forall|j: int| from <= j < k ==> #[trigger] quiet(samples, w, threshold, j)
            &&& from == 0 || !quiet(samples, w, threshold, from - 1)
        }),
{
    lemma_run_from(samples, w, threshold, k);
}

/// There are fifty windows in a second, or as many as samples if those are
/// fewer.
pub proof fn law_window_size(sample_rate: int)
    requires
        sample_rate >= 0,
    ensures
        window_size(sample_rate) >= 1,
        sample_rate >= 50 ==> 50 * window_size(sample_rate) <= sample_rate < 50 * window_size(
            sample_rate,
        ) + 50,
        sample_rate < 50 ==> window_size(sample_rate) == 1,
{
}

/// What energy is: that of one sample is its square, and that of a stretch is
/// that of its parts together.
pub proof fn law_energy(samples: Seq<i32>, from: int, mid: int, to: int)
    requires
        0 <= from <= mid <= to <= samples.len(),
    ensures
        energy(samples, from, to) == energy(samples, from, mid) + energy(samples, mid, to),
        mid < to ==> energy(samples, mid, mid + 1) == samples[mid] * samples[mid],
        energy(samples, from, from) == 0,
    decreases to - mid,
{
    reveal_with_fuel(energy, 2);
    if mid < to {
        law_energy(samples, from, mid, to - 1);
    }
}

proof fn lemma_energy_bound(samples: Seq<i32>, from: int, to: int, level: int)
    requires
        0 <= from <= to <= samples.len(),
        level >= 0,
    ensures
        (forall|i: int| from <= i < to ==> -level < #[trigger] samples[i] < level) ==> energy(
            samples,
            from,
            to,
        ) <= level * level * (to - from) && (from < to ==> energy(samples, from, to) < level * level
            * (to - from)),
        (forall|i: int|
            from <= i < to ==> #[trigger] samples[i] <= -level || samples[i] >= level) ==> energy(
            samples,
            from,
            to,
        ) >= level * level * (to - from),
    decreases to - from,
{
    let s = level * level;
    if from < to {
        lemma_energy_bound(samples, from, to - 1, level);
        let x = samples[to - 1] as int;
        assert(s * (to - from) == s * (to - 1 - from) + s) by (nonlinear_arith);
        if -level < x < level {
            assert(x * x < s) by (nonlinear_arith)
                requires
                    -level < x < level,
                    s == level * level,
            ;
        } else {
            assert(x * x >= s) by (nonlinear_arith)
                requires
                    x <= -level || x >= level,
                    level >= 0,
                    s == level * level,
            ;
        }
    } else {
        assert(s * 0 == 0);
    }
}

/// Which windows are quiet: those whose mean square stays below that of the
/// threshold. A window whose samples all stay below the threshold is quiet, and
/// one in which none does is not.
pub proof fn law_quiet(samples: Seq<i32>, w: int, threshold: int, k: int)
    requires
        w >= 1,
        k >= 0,
        k * w < samples.len(),
        threshold >= 0,
    ensures
        ({
            let from = k * w;
            let to = if from + w < samples.len() {
                from + w
            } else {
                samples.len() as int
            };
            &&& quiet(samples, w, threshold, k) <==> energy(samples, from, to) < threshold
                * threshold * (to - from)
            &&& (forall|i: int| from <= i < to ==> -threshold < #[trigger] samples[i] < threshold)
                ==> quiet(samples, w, threshold, k)
            &&& (forall|i: int|
                from <= i < to ==> #[trigger] samples[i] <= -threshold || samples[i] >= threshold)
                ==> !quiet(samples, w, threshold, k)
        }),
{
    lemma_windows(samples, w, k);
    let from = k * w;
    let to = if from + w < samples.len() {
        from + w
    } else {
        samples.len() as int
    };
    lemma_energy_bound(samples, from, to, threshold);
}

/// Windows `a..b` are a run of quiet ones that cannot be extended.
pub open spec fn quiet_run(samples: Seq<i32>, w: int, threshold: int, a: int, b: int) -> bool {
    &&& 0 <= a < b && (b - 1) * w < samples.len()
    &&& forall|j: int| a <= j < b ==> #[trigger] quiet(samples, w, threshold, j)
    &&& a == 0 || !quiet(samples, w, threshold, a - 1)
    &&& b * w >= samples.len() || !quiet(samples, w, threshold, b)
}

/// The last sample of window `b - 1`, and one.
pub open spec fn run_end(samples: Seq<i32>, w: int, b: int) -> int {
    if b * w < samples.len() {
        b * w
    } else {
        samples.len() as int
    }
}

/// `r` are the seconds of samples `from..to`, rounded down to billionths.
pub open spec fn timed(r: (int, int), from: int, to: int, sample_rate: int) -> bool {
    &&& r.0 * sample_rate <= from * UNIT < (r.0 + 1) * sample_rate
    &&& r.1 * sample_rate <= to * UNIT < (r.1 + 1) * sample_rate
}

proof fn lemma_timed(from: int, to: int, sample_rate: int)
    requires
        sample_rate > 0,
    ensures
        timed(seconds(from, to, sample_rate), from, to, sample_rate),
{
    let (x, y) = seconds(from, to, sample_rate);
    vstd::arithmetic::div_mod::lemma_fundamental_div_mod(from * UNIT, sample_rate);
    vstd::arithmetic::div_mod::lemma_mod_bound(from * UNIT, sample_rate);
    vstd::arithmetic::div_mod::lemma_fundamental_div_mod(to * UNIT, sample_rate);
    vstd::arithmetic::div_mod::lemma_mod_bound(to * UNIT, sample_rate);
    assert((x + 1) * sample_rate == x * sample_rate + sample_rate && (y + 1) * sample_rate == y
        * sample_rate + sample_rate && x * sample_rate == sample_rate * x && y * sample_rate
        == sample_rate * y) by (nonlinear_arith);
}

proof fn lemma_run_starts(samples: Seq<i32>, w: int, threshold: int, a: int, k: int)
    requires
        0 <= a < k,
        forall|j: int| a <= j < k ==> #[trigger] quiet(samples, w, threshold, j),
        a == 0 || !quiet(samples, w, threshold, a - 1),
    ensures
        run_from(samples, w, threshold, k) == a,
{
    lemma_run_from(samples, w, threshold, k);
    let from = run_from(samples, w, threshold, k);
    if from < a {
        assert(quiet(samples, w, threshold, a - 1));
    } else if from > a {
        assert(quiet(samples, w, threshold, from - 1));
    }
}

proof fn lemma_ended_has(
    samples: Seq<i32>,
    sample_rate: int,
    threshold: int,
    min_duration: int,
    k: int,
    a: int,
    b: int,
)
    requires
        0 <= a < b < k,
        forall|j: int|
            a <= j < b ==> #[trigger] quiet(samples, window_size(sample_rate), threshold, j),
        a == 0 || !quiet(samples, window_size(sample_rate), threshold, a - 1),
        !quiet(samples, window_size(sample_rate), threshold, b),
        lasts(
            window_start(samples, window_size(sample_rate), a),
            window_start(samples, window_size(sample_rate), b),
            sample_rate,
            min_duration,
        ),
    ensures
        ended(samples, sample_rate, threshold, min_duration, k).contains(
            seconds(
                window_start(samples, window_size(sample_rate), a),
                window_start(samples, window_size(sample_rate), b),
                sample_rate,
            ),
        ),
    decreases k,
{
    let w = window_size(sample_rate);
    let r = seconds(window_start(samples, w, a), window_start(samples, w, b), sample_rate);
    let all = ended(samples, sample_rate, threshold, min_duration, k);
    if b == k - 1 {
        lemma_run_starts(samples, w, threshold, a, b);
        assert(all.last() == r);
    } else {
        lemma_ended_has(samples, sample_rate, threshold, min_duration, k - 1, a, b);
        let before = ended(samples, sample_rate, threshold, min_duration, k - 1);
        let i = choose|i: int| 0 <= i < before.len() && before[i] == r;
        assert(all[i] == r);
    }
}

/// Every pause is found: each run of quiet windows that cannot be extended and
/// lasts long enough is reported, with its time.
pub proof fn law_pauses_found(
    samples: Seq<i32>,
    sample_rate: int,
    threshold: int,
    min_duration: int,
    a: int,
    b: int,
)
    requires
        sample_rate > 0,
        quiet_run(samples, window_size(sample_rate), threshold, a, b),
        ({
            let w = window_size(sample_rate);
            (run_end(samples, w, b) - a * w) * UNIT >= min_duration * sample_rate
        }),
    ensures
        ({
            let w = window_size(sample_rate);
            let found = silences(samples, sample_rate, threshold, min_duration);
            exists|i: int|
                0 <= i < found.len() && timed(
                    #[trigger] found[i],
                    a * w,
                    run_end(samples, w, b),
                    sample_rate,
                )
        }),
{
    let w = window_size(sample_rate);
    let n = window_count(samples, w);
    let found = silences(samples, sample_rate, threshold, min_duration);
    let (from, to) = (a * w, run_end(samples, w, b));
    let r = seconds(from, to, sample_rate);
    lemma_windows(samples, w, a);
    lemma_windows(samples, w, b);
    lemma_windows(samples, w, b - 1);
    lemma_timed(from, to, sample_rate);
    assert(a * w <= (b - 1) * w) by (nonlinear_arith)
        requires
            a <= b - 1,
            w >= 1,
    ;
    assert(samples.len() > 0);
    if b < n {
        lemma_ended_has(samples, sample_rate, threshold, min_duration, n, a, b);
        let before = ended(samples, sample_rate, threshold, min_duration, n);
        let i = choose|i: int| 0 <= i < before.len() && before[i] == r;
        assert(found[i] == r);
    } else {
        assert(b == n);
        lemma_run_starts(samples, w, threshold, a, n);
        assert(found.last() == r);
        assert(found[found.len() - 1] == r);
    }
}

/// What `ended` holds: runs in order, each over before the last loud window.
proof fn lemma_ended_is(
    samples: Seq<i32>,
    sample_rate: int,
    threshold: int,
    min_duration: int,
    k: int,
)
    requires
        sample_rate > 0,
        0 <= k <= window_count(samples, window_size(sample_rate)),
    ensures
        ({
            let w = window_size(sample_rate);
            let all = ended(samples, sample_rate, threshold, min_duration, k);
            let since = run_from(samples, w, threshold, k);
            &&& forall|i: int|
                0 <= i < all.len() ==> is_pause(
                    samples,
                    sample_rate,
                    threshold,
                    min_duration,
                    #[trigger] all[i],
                ) && all[i].1 <= (window_start(samples, w, since) * UNIT) / sample_rate
            &&& forall|i: int, j: int|
                0 <= i < j < all.len() ==> (#[trigger] all[i]).1 <= (#[trigger] all[j]).0
        }),
    decreases k,
{
    let w = window_size(sample_rate);
    if k > 0 {
        lemma_ended_is(samples, sample_rate, threshold, min_duration, k - 1);
        let before = ended(samples, sample_rate, threshold, min_duration, k - 1);
        let all = ended(samples, sample_rate, threshold, min_duration, k);
        let from = run_from(samples, w, threshold, k - 1);
        let since = run_from(samples, w, threshold, k);
        lemma_run_from(samples, w, threshold, k - 1);
        lemma_run_from(samples, w, threshold, k);
        lemma_windows(samples, w, k - 1);
        lemma_windows(samples, w, from);
        lemma_windows(samples, w, since);
        assert(from <= since);
        lemma_start_order(samples, w, sample_rate, from, since);
        if !quiet(samples, w, threshold, k - 1) {
            assert(since == k);
            lemma_start_order(samples, w, sample_rate, k - 1, k);
            if from < k - 1 {
                let r = seconds(
                    window_start(samples, w, from),
                    window_start(samples, w, k - 1),
                    sample_rate,
                );
                lemma_windows(samples, w, k - 2);
                if lasts(
                    window_start(samples, w, from),
                    window_start(samples, w, k - 1),
                    sample_rate,
                    min_duration,
                ) {
                    lemma_timed(
                        window_start(samples, w, from),
                        window_start(samples, w, k - 1),
                        sample_rate,
                    );
                    assert(quiet_run(samples, w, threshold, from, k - 1));
                    assert(is_pause(samples, sample_rate, threshold, min_duration, r));
                    assert(all == before.push(r));
                } else {
                    assert(all =~= before);
                }
            }
        }
    }
}

proof fn lemma_start_order(samples: Seq<i32>, w: int, sample_rate: int, a: int, b: int)
    requires
        w >= 1,
        sample_rate > 0,
        0 <= a <= b,
    ensures
        (window_start(samples, w, a) * UNIT) / sample_rate <= (window_start(samples, w, b) * UNIT)
            / sample_rate,
{
    assert(a * w <= b * w) by (nonlinear_arith)
        requires
            a <= b,
            w >= 1,
    ;
    vstd::arithmetic::div_mod::lemma_div_is_ordered(
        window_start(samples, w, a) * UNIT,
        window_start(samples, w, b) * UNIT,
        sample_rate,
    );
}

/// `r` is the time of a run of quiet windows that cannot be extended and lasts
/// long enough.
pub open spec fn is_pause(
    samples: Seq<i32>,
    sample_rate: int,
    threshold: int,
    min_duration: int,
    r: (int, int),
) -> bool {
    let w = window_size(sample_rate);
    exists|a: int, b: int| #[trigger]
        quiet_run(samples, w, threshold, a, b) && (run_end(samples, w, b) - a * w) * UNIT
            >= min_duration * sample_rate && timed(
            r,
            a * w,
            run_end(samples, w, b),
            sample_rate,
        )
}

/// Nothing but pauses is reported, and in their order.
pub proof fn law_only_pauses(
    samples: Seq<i32>,
    sample_rate: int,
    threshold: int,
    min_duration: int,
)
    requires
        sample_rate >= 0,
    ensures
        ({
            let found = silences(samples, sample_rate, threshold, min_duration);
            &&& forall|i: int|
                0 <= i < found.len() ==> sample_rate > 0 && is_pause(
                    samples,
                    sample_rate,
                    threshold,
                    min_duration,
                    #[trigger] found[i],
                )
            &&& forall|i: int, j: int|
                0 <= i < j < found.len() ==> (#[trigger] found[i]).1 <= (#[trigger] found[j]).0
        }),
{
    if samples.len() > 0 && sample_rate > 0 {
        let w = window_size(sample_rate);
        let n = window_count(samples, w);
        let found = silences(samples, sample_rate, threshold, min_duration);
        let before = ended(samples, sample_rate, threshold, min_duration, n);
        let from = run_from(samples, w, threshold, n);
        lemma_windows(samples, w, 0);
        lemma_windows(samples, w, n);
        lemma_ended_is(samples, sample_rate, threshold, min_duration, n);
        lemma_run_from(samples, w, threshold, n);
        if from < n {
            lemma_windows(samples, w, from);
            lemma_windows(samples, w, n - 1);
            let end = samples.len() as int;
            let r = seconds(window_start(samples, w, from), end, sample_rate);
            if lasts(window_start(samples, w, from), end, sample_rate, min_duration) {
                lemma_timed(window_start(samples, w, from), end, sample_rate);
                assert(quiet_run(samples, w, threshold, from, n));
                assert(is_pause(samples, sample_rate, threshold, min_duration, r));
                assert(found == before.push(r));
            } else {
                assert(found =~= before);
            }
        }
    }
}

} // verus!
