use std::sync::Arc;
use vstd::prelude::*;
use crate::progress::{fraction_position, shown_position, ProgressState, Status};

verus! {

/// Half of `d`, rounded toward zero (Rust's `/` on signed integers).
pub open spec fn half_toward_zero(d: int) -> int {
    if d >= 0 {
        d / 2
    } else {
        -((-d) / 2)
    }
}

/// Scene audio format: frame rate `fps_numer / fps_denom` (reduced, as the
/// host reports it) and sample rate.
#[derive(Clone, Copy, Debug, PartialEq, Eq, Structural)]
pub struct Format {
    pub fps_numer: i32,
    pub fps_denom: i32,
    pub sample_rate: u32,
}

impl Format {
    /// A rate with a non-zero numerator and a positive denominator.
    pub open spec fn wf(self) -> bool {
        self.fps_numer != 0 && self.fps_denom > 0
    }

    /// The first sample of `frame`: `frame * rate / fps`, rounded to nearest.
    pub open spec fn position(self, frame: int) -> int {
        let n = frame * self.sample_rate * self.fps_denom;
        let d = self.fps_numer as int;
        (n + half_toward_zero(d)) / d
    }

    pub open spec fn position_fits(self, frame: int) -> bool {
        i64::MIN <= self.position(frame) <= i64::MAX
    }

    pub fn sample_at(self, frame: i64) -> (r: i64)
        requires
            self.wf(),
        ensures
            r == self.position(frame as int) as i64,
    {
        let f = frame as i128;
        let rate = self.sample_rate as i128;
        let den = self.fps_denom as i128;
        proof {
            assert(-0x8000_0000_0000_0000_0000_0000 <= f * rate <= 0x8000_0000_0000_0000_0000_0000) by (nonlinear_arith)
                requires
                    i64::MIN <= f <= i64::MAX,
                    0 <= rate <= u32::MAX,
            ;
        }
        let a: i128 = f * rate;
        proof {
            assert(-0x4000_0000_0000_0000_0000_0000_0000_0000 <= a * den <= 0x4000_0000_0000_0000_0000_0000_0000_0000) by (nonlinear_arith)
                requires
                    -0x8000_0000_0000_0000_0000_0000 <= a <= 0x8000_0000_0000_0000_0000_0000,
                    0 < den <= i32::MAX,
            ;
        }
        let numerator: i128 = a * den;
        let denominator: i128 = self.fps_numer as i128;
        let half: i128 = denominator / 2;
        assert(numerator as int == frame as int * self.sample_rate as int * self.fps_denom as int) by (nonlinear_arith)
            requires
                numerator == a * den,
                a == f * rate,
                f == frame,
                rate == self.sample_rate,
                den == self.fps_denom,
        ;
        assert(half as int == half_toward_zero(denominator as int));
        let total: i128 = numerator + half;
        assert(-0x4000_0000_0000_0000_0000_0000_0000_0000 - 0x8000_0000 <= total as int / denominator as int <= 0x4000_0000_0000_0000_0000_0000_0000_0000 + 0x8000_0000) by (nonlinear_arith)
            requires
                -0x4000_0000_0000_0000_0000_0000_0000_0000 - 0x8000_0000 <= total <= 0x4000_0000_0000_0000_0000_0000_0000_0000 + 0x8000_0000,
                denominator != 0,
        ;
        let q = total.checked_div_euclid(denominator);
        match q {
            Some(q) => {
                assert((numerator as int + half as int) / (denominator as int) == self.position(frame as int));
                assert(q as int == self.position(frame as int));
                let r = #[verifier::truncate] (q as i64);
                assert(r == (q as int) as i64);
                r
            },
            None => 0,
        }
    }

    /// Number of samples in `frame`: the distance to the next frame's first sample.
    pub open spec fn count(self, frame: int) -> int {
        self.position(frame + 1) - self.position(frame)
    }

    /// Both ends of `frame` and their distance fit the host's 64-bit sample positions.
    pub open spec fn count_fits(self, frame: int) -> bool {
        &&& self.position_fits(frame)
        &&& self.position_fits(frame + 1)
        &&& i64::MIN <= self.count(frame) <= i64::MAX
    }

    pub fn sample_count(self, frame: i64) -> (r: usize)
        requires
            self.wf(),
            frame < i64::MAX,
            self.count_fits(frame as int),
        ensures
            r == self.count(frame as int) as usize,
    {
        let next = self.sample_at(frame + 1);
        let current = self.sample_at(frame);
        let difference = next - current;
        #[verifier::truncate]
        (difference as usize)
    }
}

/// Sample positions never run backwards when the frame rate is positive.
pub proof fn lemma_position_monotonic(format: Format, a: int, b: int)
    requires
        format.wf(),
        format.fps_numer > 0,
        a <= b,
    ensures
        format.position(a) <= format.position(b),
{
    let d = format.fps_numer as int;
    assert(a * format.sample_rate * format.fps_denom <= b * format.sample_rate * format.fps_denom) by (nonlinear_arith)
        requires
            a <= b,
            format.sample_rate >= 0,
            format.fps_denom > 0,
    ;
    let h = half_toward_zero(d);
    vstd::arithmetic::div_mod::lemma_div_is_ordered(
        a * format.sample_rate * format.fps_denom + h,
        b * format.sample_rate * format.fps_denom + h,
        d,
    );
}

/// Sum of the sample counts of the frames `from..to`.
pub open spec fn total_count(format: Format, from: int, to: int) -> int
    decreases to - from,
{
    if to <= from {
        0
    } else {
        total_count(format, from, to - 1) + format.count(to - 1)
    }
}

/// Per-frame sample counts add up to the distance between the range's end
/// positions: consecutive frames neither overlap nor leave gaps.
pub proof fn lemma_counts_telescope(format: Format, from: int, to: int)
    requires
        from <= to,
    ensures
        total_count(format, from, to) == format.position(to) - format.position(from),
    decreases to - from,
{
    if to > from {
        lemma_counts_telescope(format, from, to - 1);
    }
}

/// Audio rendered for a range of frames. `frames[k]` holds the left and
/// right samples of frame `start + k`, as many as the host returned.
pub struct BakedAudio<S> {
    pub scene: i32,
    pub revision: u64,
    pub generation: u64,
    pub format: Format,
    pub start: u32,
    pub frames: Vec<[Vec<S>; 2]>,
}

impl<S> BakedAudio<S> {
    pub open spec fn covers(&self, frame: int) -> bool {
        self.start <= frame < self.start + self.frames@.len()
    }
}

/// Index of the buffer that `frame_samples` reads among the first `n`
/// snapshots: the newest generation covering `frame`, the later one on ties.
pub open spec fn newest_covering<S>(snapshots: Seq<Arc<BakedAudio<S>>>, frame: int, n: int) -> Option<int>
    decreases n,
{
    if n <= 0 {
        None
    } else {
        let previous = newest_covering(snapshots, frame, n - 1);
        if snapshots[n - 1].covers(frame) && (previous is None || snapshots[previous->0].generation
            <= snapshots[n - 1].generation) {
            Some(n - 1)
        } else {
            previous
        }
    }
}

pub open spec fn selected<S>(snapshots: Seq<Arc<BakedAudio<S>>>, frame: int) -> Option<int> {
    newest_covering(snapshots, frame, snapshots.len() as int)
}

/// The selected buffer covers the frame, has the greatest generation among
/// those that do, and no later covering buffer shares that generation.
pub proof fn lemma_newest_covering_is_newest<S>(snapshots: Seq<Arc<BakedAudio<S>>>, frame: int, n: int)
    requires
        0 <= n <= snapshots.len(),
    ensures
        match newest_covering(snapshots, frame, n) {
            Some(i) => {
                &&& 0 <= i < n
                &&& snapshots[i].covers(frame)
                &&& forall|j: int| 0 <= j < n && #[trigger] snapshots[j].covers(frame) ==> snapshots[j].generation <= snapshots[i].generation
                &&& forall|j: int| i < j < n && #[trigger] snapshots[j].covers(frame) ==> snapshots[j].generation < snapshots[i].generation
            },
            None => forall|j: int| 0 <= j < n ==> !#[trigger] snapshots[j].covers(frame),
        },
    decreases n,
{
    if n > 0 {
        lemma_newest_covering_is_newest(snapshots, frame, n - 1);
    }
}

/// Whatever the order of the buffers, the same one is selected for a frame,
/// provided no two buffers share a generation.
proof fn lemma_selected_same<S>(snapshots: Seq<Arc<BakedAudio<S>>>, reordered: Seq<Arc<BakedAudio<S>>>, frame: int)
    requires
        reordered.to_multiset() == snapshots.to_multiset(),
        forall|i: int, j: int| 0 <= i < j < snapshots.len() ==> snapshots[i].generation != snapshots[j].generation,
    ensures
        (selected(snapshots, frame) is Some) == (selected(reordered, frame) is Some),
        selected(snapshots, frame) is Some ==> snapshots[selected(snapshots, frame)->0] == reordered[selected(reordered, frame)->0],
{
    broadcast use vstd::seq_lib::to_multiset_contains;
    lemma_newest_covering_is_newest(snapshots, frame, snapshots.len() as int);
    lemma_newest_covering_is_newest(reordered, frame, reordered.len() as int);
    match selected(snapshots, frame) {
        Some(i) => {
            let x = snapshots[i];
            assert(snapshots.contains(x));
            assert(snapshots.to_multiset().count(x) > 0);
            assert(reordered.contains(x));
            let j0 = choose|j: int| 0 <= j < reordered.len() && reordered[j] == x;
            assert(reordered[j0].covers(frame));
            let j = selected(reordered, frame)->0;
            let y = reordered[j];
            assert(reordered.contains(y));
            assert(reordered.to_multiset().count(y) > 0);
            assert(snapshots.contains(y));
            let k = choose|k: int| 0 <= k < snapshots.len() && snapshots[k] == y;
            assert(snapshots[k].covers(frame));
            assert(y.generation <= x.generation);
            assert(x.generation <= y.generation);
            if k != i {
                if k < i {
                    assert(snapshots[k].generation != snapshots[i].generation);
                } else {
                    assert(snapshots[i].generation != snapshots[k].generation);
                }
            }
        },
        None => {
            if selected(reordered, frame) is Some {
                let j = selected(reordered, frame)->0;
                let y = reordered[j];
                assert(reordered.contains(y));
                assert(reordered.to_multiset().count(y) > 0);
                assert(snapshots.contains(y));
                let k = choose|k: int| 0 <= k < snapshots.len() && snapshots[k] == y;
                assert(snapshots[k].covers(frame));
            }
        },
    }
}

/// A read does not depend on the order in which the buffers were saved,
/// provided no two share a generation: any reordering finds the same samples
/// and the same format for every frame, so `read_pcm`, `pcm` and
/// `read_window` give the same result.
pub proof fn lemma_read_order_independent<S>(snapshots: Seq<Arc<BakedAudio<S>>>, reordered: Seq<Arc<BakedAudio<S>>>, format: Format, frame: int)
    requires
        reordered.to_multiset() == snapshots.to_multiset(),
        forall|i: int, j: int| 0 <= i < j < snapshots.len() ==> snapshots[i].generation != snapshots[j].generation,
    ensures
        found_samples(reordered, frame) == found_samples(snapshots, frame),
        format_changed(reordered, frame, format) == format_changed(snapshots, frame, format),
        window_samples(reordered, frame) == window_samples(snapshots, frame),
{
    lemma_selected_same(snapshots, reordered, frame);
}

#[derive(Clone, Copy, Debug, PartialEq, Eq, Structural)]
pub enum PcmError {
    /// The newest buffer for the frame was rendered with another scene format.
    FormatChanged,
    /// The requested size is zero or exceeds the frame's sample count.
    InvalidSize { count: usize },
    /// The frame is outside the 32-bit frame range.
    FrameOutOfRange,
}

/// Finds the buffer that holds `frame`, if any: the newest covering one.
pub fn frame_samples<'a, S>(snapshots: &'a [Arc<BakedAudio<S>>], format: Format, frame: i64) -> (r: Result<Option<&'a [Vec<S>; 2]>, PcmError>)
    ensures
        match selected(snapshots@, frame as int) {
            None => r matches Ok(None),
            Some(i) => if snapshots@[i].format == format {
                r matches Ok(Some(samples)) && *samples == snapshots@[i].frames@[frame - snapshots@[i].start]
            } else {
                r is Err && r->Err_0 is FormatChanged
            },
        },
{
    let mut best: Option<usize> = None;
    let mut k: usize = 0;
    while k < snapshots.len()
        invariant
            k <= snapshots@.len(),
            best == (match newest_covering(snapshots@, frame as int, k as int) {
                Some(i) => Some(i as usize),
                None => None::<usize>,
            }),
            match newest_covering(snapshots@, frame as int, k as int) {
                Some(i) => 0 <= i < k,
                None => true,
            },
        decreases snapshots@.len() - k,
    {
        proof {
            lemma_newest_covering_is_newest(snapshots@, frame as int, k as int);
        }
        let audio = &snapshots[k];
        let start = audio.start as i64;
        let covers = frame >= start && ((frame - start) as u64) < (audio.frames.len() as u64);
        if covers {
            match best {
                None => {
                    best = Some(k);
                },
                Some(b) => {
                    if snapshots[b].generation <= audio.generation {
                        best = Some(k);
                    }
                },
            }
        }
        k = k + 1;
    }
    proof {
        lemma_newest_covering_is_newest(snapshots@, frame as int, snapshots@.len() as int);
    }
    assert(k == snapshots@.len());
    assert(best is None ==> selected(snapshots@, frame as int) is None);
    match best {
        None => {
            let r: Result<Option<&'a [Vec<S>; 2]>, PcmError> = Ok(None);
            assert(selected(snapshots@, frame as int) is None);
            assert(r matches Ok(None));
            r
        },
        Some(b) => {
            assert(selected(snapshots@, frame as int) == Some(b as int));
            let audio = &snapshots[b];
            if audio.format == format {
                assert(audio.covers(frame as int));
                let len = audio.frames.len();
                assert(frame - audio.start < len);
                let index = (frame - audio.start as i64) as usize;
                assert(index == frame - audio.start);
                Ok(Some(&audio.frames[index]))
            } else {
                Err(PcmError::FormatChanged)
            }
        },
    }
}

/// Sample `k` of a `size`-sample read of a frame holding `count` samples.
pub open spec fn spread_index(k: int, count: int, size: int) -> int {
    k * count / size
}

pub proof fn lemma_spread_index_bounds(k: int, count: int, size: int)
    requires
        0 <= k < size,
        0 < size <= count,
    ensures
        0 <= spread_index(k, count, size) < count,
{
    assert(0 <= k * count) by (nonlinear_arith)
        requires
            0 <= k,
            0 < count,
    ;
    assert(k * count < size * count) by (nonlinear_arith)
        requires
            0 <= k < size,
            0 < count,
    ;
    vstd::arithmetic::div_mod::lemma_multiply_divide_lt(k * count, size, count);
    vstd::arithmetic::div_mod::lemma_div_pos_is_pos(k * count, size);
}

/// The number of samples a read of `frame` spans, with `samples` the
/// selected buffer's frame if there is one.
pub open spec fn frame_count<S>(format: Format, frame: int, samples: Option<[Vec<S>; 2]>) -> int {
    match samples {
        Some(s) => s[0]@.len() as int,
        None => format.count(frame),
    }
}

/// What a read of `frame` finds: `None` when no buffer covers it, the
/// frame's samples from the selected buffer otherwise.
pub open spec fn found_samples<S>(snapshots: Seq<Arc<BakedAudio<S>>>, frame: int) -> Option<[Vec<S>; 2]> {
    match selected(snapshots, frame) {
        Some(i) => Some(snapshots[i].frames@[frame - snapshots[i].start]),
        None => None,
    }
}

pub open spec fn format_changed<S>(snapshots: Seq<Arc<BakedAudio<S>>>, frame: int, format: Format) -> bool {
    match selected(snapshots, frame) {
        Some(i) => snapshots[i].format != format,
        None => false,
    }
}

/// A channel of a read: `size` samples spread evenly over the frame's
/// `count` samples, or `size` copies of `silence` where nothing was rendered.
pub open spec fn spread_channel<S>(samples: Option<[Vec<S>; 2]>, channel: int, count: int, size: int, silence: S) -> Seq<S> {
    Seq::new(
        size as nat,
        |k: int|
            match samples {
                Some(s) => s[channel]@[spread_index(k, count, size)],
                None => silence,
            },
    )
}

/// The right channel of the frame a read finds holds every sample the read
/// takes from it: reads that fail before taking samples ask nothing.
pub open spec fn pcm_readable<S>(snapshots: Seq<Arc<BakedAudio<S>>>, format: Format, frame: int, size: Option<usize>) -> bool {
    match found_samples(snapshots, frame) {
        None => true,
        Some(s) => format_changed(snapshots, frame, format) || {
            let count = s[0]@.len() as int;
            match size {
                Some(n) => !(0 < n <= count) || spread_index(n - 1, count, n as int) < s[1]@.len(),
                None => count == 0 || spread_index(count - 1, count, count) < s[1]@.len(),
            }
        },
    }
}

proof fn lemma_spread_index_ordered(k: int, count: int, size: int)
    requires
        0 <= k < size,
        0 <= count,
    ensures
        spread_index(k, count, size) <= spread_index(size - 1, count, size),
{
    assert(k * count <= (size - 1) * count) by (nonlinear_arith)
        requires
            0 <= k <= size - 1,
            0 <= count,
    ;
    vstd::arithmetic::div_mod::lemma_div_is_ordered(k * count, (size - 1) * count, size);
}

/// Reads the rendered samples of `frame`, `size` of them spread evenly over
/// the frame (all of them when `size` is `None`). Frames that no buffer
/// covers read as silence of the frame's nominal length.
pub fn read_pcm<S: Copy>(
    snapshots: &[Arc<BakedAudio<S>>],
    format: Format,
    frame: i64,
    size: Option<usize>,
    silence: S,
) -> (r: Result<(Vec<S>, Vec<S>), PcmError>)
    requires
        format.wf(),
        frame < i64::MAX,
        pcm_readable(snapshots@, format, frame as int, size),
        found_samples(snapshots@, frame as int) is None ==> format.count_fits(frame as int),
    ensures
        ({
            let samples = found_samples(snapshots@, frame as int);
            let count = if samples is None {
                format.count(frame as int) as usize as int
            } else {
                frame_count(format, frame as int, samples)
            };
            if format_changed(snapshots@, frame as int, format) {
                r matches Err(PcmError::FormatChanged)
            } else {
                match size {
                    Some(n) if !(0 < n <= count) => r matches Err(PcmError::InvalidSize { count: c }) && c == count,
                    _ => {
                        let n = match size {
                            Some(n) => n as int,
                            None => count,
                        };
                        r matches Ok((left, right))
                            && left@ == spread_channel(samples, 0, count, n, silence)
                            && right@ == spread_channel(samples, 1, count, n, silence)
                    },
                }
            }
        }),
{
    let samples = match frame_samples(snapshots, format, frame) {
        Ok(samples) => samples,
        Err(error) => return Err(error),
    };
    let ghost found = found_samples(snapshots@, frame as int);
    proof {
        lemma_newest_covering_is_newest(snapshots@, frame as int, snapshots@.len() as int);
    }
    assert(samples is Some <==> found is Some);
    assert(samples is Some ==> *samples->0 == found->0);
    let count = match samples {
        Some(samples) => samples[0].len(),
        None => format.sample_count(frame),
    };
    let size = match size {
        Some(size) => {
            if !(size > 0 && size <= count) {
                return Err(PcmError::InvalidSize { count });
            }
            size
        },
        None => count,
    };
    proof {
        if found is Some {
            assert(!format_changed(snapshots@, frame as int, format));
        }
    }
    let mut left: Vec<S> = Vec::new();
    let mut right: Vec<S> = Vec::new();
    let mut k: usize = 0;
    while k < size
        invariant
            k <= size,
            size <= count,
            left@.len() == k,
            right@.len() == k,
            samples is Some <==> found is Some,
            samples is Some ==> *samples->0 == found->0,
            found is Some ==> found->0[0]@.len() == count,
            found is Some && size > 0 ==> spread_index(size - 1, count as int, size as int) < found->0[1]@.len(),
            forall|j: int| 0 <= j < k ==> left@[j] == #[trigger] spread_channel(found, 0, count as int, size as int, silence)[j],
            forall|j: int| 0 <= j < k ==> right@[j] == #[trigger] spread_channel(found, 1, count as int, size as int, silence)[j],
        decreases size - k,
    {
        match samples {
            Some(samples) => {
                assert((k as u128) * (count as u128) < 0x1_0000_0000_0000_0000_0000_0000_0000_0000) by (nonlinear_arith)
                    requires
                        k < size,
                        size <= count,
                        count <= usize::MAX,
                        usize::MAX <= u64::MAX,
                ;
                let product: u128 = (k as u128) * (count as u128);
                let index = (product / (size as u128)) as usize;
                proof {
                    lemma_spread_index_bounds(k as int, count as int, size as int);
                    assert(product / (size as u128) == spread_index(k as int, count as int, size as int));
                }
                proof {
                    lemma_spread_index_bounds(k as int, count as int, size as int);
                    lemma_spread_index_ordered(k as int, count as int, size as int);
                }
                left.push(samples[0][index]);
                right.push(samples[1][index]);
            },
            None => {
                left.push(silence);
                right.push(silence);
            },
        }
        k = k + 1;
    }
    Ok((left, right))
}

/// Reads `frame` like `read_pcm`, after checking that it lies in the
/// 32-bit frame range the host uses. Callers pass no snapshots for frames
/// outside the scene.
pub fn pcm<S: Copy>(
    snapshots: &[Arc<BakedAudio<S>>],
    format: Format,
    frame: i64,
    size: Option<usize>,
    silence: S,
) -> (r: Result<(Vec<S>, Vec<S>), PcmError>)
    requires
        format.wf(),
        i32::MIN <= frame < i32::MAX ==> pcm_readable(snapshots@, format, frame as int, size),
        i32::MIN <= frame < i32::MAX ==> (found_samples(snapshots@, frame as int) is None ==> format.count_fits(frame as int)),
    ensures
        !(i32::MIN <= frame < i32::MAX) ==> r matches Err(PcmError::FrameOutOfRange),
        i32::MIN <= frame < i32::MAX ==> {
            let samples = found_samples(snapshots@, frame as int);
            let count = if samples is None {
                format.count(frame as int) as usize as int
            } else {
                frame_count(format, frame as int, samples)
            };
            if format_changed(snapshots@, frame as int, format) {
                r matches Err(PcmError::FormatChanged)
            } else {
                match size {
                    Some(n) if !(0 < n <= count) => r matches Err(PcmError::InvalidSize { count: c }) && c == count,
                    _ => {
                        let n = match size {
                            Some(n) => n as int,
                            None => count,
                        };
                        r matches Ok((left, right))
                            && left@ == spread_channel(samples, 0, count, n, silence)
                            && right@ == spread_channel(samples, 1, count, n, silence)
                    },
                }
            }
        },
{
    if !(frame >= i32::MIN as i64 && frame < i32::MAX as i64) {
        return Err(PcmError::FrameOutOfRange);
    }
    read_pcm(snapshots, format, frame, size, silence)
}

/// The samples of `frame` that a contiguous read finds: none before the
/// scene's first frame, otherwise those of the selected buffer, if any.
pub open spec fn window_samples<S>(snapshots: Seq<Arc<BakedAudio<S>>>, frame: int) -> Option<[Vec<S>; 2]> {
    if frame < 0 {
        None
    } else {
        found_samples(snapshots, frame)
    }
}

pub open spec fn window_count<S>(snapshots: Seq<Arc<BakedAudio<S>>>, format: Format, frame: int) -> int {
    match window_samples(snapshots, frame) {
        Some(s) => s[0]@.len() as int,
        None => format.count(frame) as usize as int,
    }
}

/// The contiguous read of `remaining` samples from the start of `frame` on,
/// stopping after `last`: each frame contributes its samples (or silence of
/// its length) until the window is full; the rest stays silent. `None` when a
/// frame that contributes was rendered in another format.
pub open spec fn window<S>(
    snapshots: Seq<Arc<BakedAudio<S>>>,
    format: Format,
    frame: int,
    last: int,
    remaining: int,
    silence: S,
) -> Option<(Seq<S>, Seq<S>)>
    decreases remaining, last - frame + 1,
{
    if remaining <= 0 {
        Some((Seq::empty(), Seq::empty()))
    } else if frame > last {
        Some((Seq::new(remaining as nat, |i: int| silence), Seq::new(remaining as nat, |i: int| silence)))
    } else if frame >= 0 && format_changed(snapshots, frame, format) {
        None
    } else {
        let samples = window_samples(snapshots, frame);
        let count = window_count(snapshots, format, frame);
        let take = if count < remaining {
            count
        } else {
            remaining
        };
        let head: (Seq<S>, Seq<S>) = match samples {
            Some(s) => (s[0]@.subrange(0, take), s[1]@.subrange(0, take)),
            None => (Seq::new(take as nat, |i: int| silence), Seq::new(take as nat, |i: int| silence)),
        };
        if take > 0 {
            match window(snapshots, format, frame + 1, last, remaining - take, silence) {
                Some(rest) => Some((head.0 + rest.0, head.1 + rest.1)),
                None => None,
            }
        } else {
            match window(snapshots, format, frame + 1, last, remaining, silence) {
                Some(rest) => Some((head.0 + rest.0, head.1 + rest.1)),
                None => None,
            }
        }
    }
}

/// The right channel of every frame that a contiguous read takes samples
/// from holds as many samples as the read takes from its left channel.
pub open spec fn window_readable<S>(
    snapshots: Seq<Arc<BakedAudio<S>>>,
    format: Format,
    frame: int,
    last: int,
    remaining: int,
) -> bool
    decreases remaining, last - frame + 1,
{
    if remaining <= 0 || frame > last {
        true
    } else if frame >= 0 && format_changed(snapshots, frame, format) {
        true
    } else {
        let count = window_count(snapshots, format, frame);
        let take = if count < remaining {
            count
        } else {
            remaining
        };
        &&& (window_samples(snapshots, frame) matches Some(s) ==> take <= s[1]@.len())
        &&& if take > 0 {
            window_readable(snapshots, format, frame + 1, last, remaining - take)
        } else {
            window_readable(snapshots, format, frame + 1, last, remaining)
        }
    }
}

/// Appends the first `take` samples of `source`.
pub fn push_prefix<S: Copy>(destination: &mut Vec<S>, source: &Vec<S>, take: usize)
    requires
        take <= source@.len(),
    ensures
        final(destination)@ == old(destination)@ + source@.subrange(0, take as int),
{
    let mut i: usize = 0;
    while i < take
        invariant
            i <= take <= source@.len(),
            destination@ == old(destination)@ + source@.subrange(0, i as int),
        decreases take - i,
    {
        destination.push(source[i]);
        i = i + 1;
        assert(source@.subrange(0, i as int) == source@.subrange(0, i - 1) + seq![source@[i - 1]]);
    }
}

/// Appends `n` copies of `silence`.
pub fn push_silence<S: Copy>(destination: &mut Vec<S>, n: usize, silence: S)
    ensures
        final(destination)@ == old(destination)@ + Seq::new(n as nat, |i: int| silence),
{
    let mut i: usize = 0;
    while i < n
        invariant
            i <= n,
            destination@ == old(destination)@ + Seq::new(i as nat, |j: int| silence),
        decreases n - i,
    {
        destination.push(silence);
        i = i + 1;
        assert(Seq::new(i as nat, |j: int| silence) == Seq::new((i - 1) as nat, |j: int| silence) + seq![silence]);
    }
}

/// Reads `count` contiguous samples per channel from the start of `frame`,
/// continuing into the following frames up to `last_frame`, so that
/// neighbouring buffers and silent gaps join seamlessly.
pub fn read_window<S: Copy>(
    snapshots: &[Arc<BakedAudio<S>>],
    format: Format,
    frame: i64,
    last_frame: i64,
    count: usize,
    silence: S,
) -> (r: Result<[Vec<S>; 2], PcmError>)
    requires
        format.wf(),
        window_readable(snapshots@, format, frame as int, last_frame as int, count as int),
        last_frame < i64::MAX,
        forall|f: int| frame <= f <= last_frame && window_samples(snapshots@, f) is None ==> #[trigger] format.count_fits(f),
    ensures
        match window(snapshots@, format, frame as int, last_frame as int, count as int, silence) {
            Some((left, right)) => r matches Ok(out) && out[0]@ == left && out[1]@ == right,
            None => r matches Err(PcmError::FormatChanged),
        },
{
    let mut left: Vec<S> = Vec::new();
    let mut right: Vec<S> = Vec::new();
    let mut current = frame;
    let mut offset: usize = 0;
    let ghost whole = window(snapshots@, format, frame as int, last_frame as int, count as int, silence);
    while offset < count && current <= last_frame
        invariant
            offset <= count,
            frame <= current,
            current <= last_frame + 1 || current == frame,
            left@.len() == offset,
            right@.len() == offset,
            format.wf(),
            window_readable(snapshots@, format, current as int, last_frame as int, (count - offset) as int),
            last_frame < i64::MAX,
            forall|f: int| frame <= f <= last_frame && window_samples(snapshots@, f) is None ==> #[trigger] format.count_fits(f),
            whole == window(snapshots@, format, frame as int, last_frame as int, count as int, silence),
            whole == match window(snapshots@, format, current as int, last_frame as int, (count - offset) as int, silence) {
                Some(rest) => Some((left@ + rest.0, right@ + rest.1)),
                None => None::<(Seq<S>, Seq<S>)>,
            },
        decreases count - offset, last_frame - current + 1,
    {
        proof {
            lemma_newest_covering_is_newest(snapshots@, current as int, snapshots@.len() as int);
        }
        let samples = if current < 0 {
            None
        } else {
            match frame_samples(snapshots, format, current) {
                Ok(samples) => samples,
                Err(error) => return Err(error),
            }
        };
        let frame_count = match samples {
            Some(samples) => samples[0].len(),
            None => format.sample_count(current),
        };
        let take = if frame_count < count - offset {
            frame_count
        } else {
            count - offset
        };
        let ghost before = (left@, right@);
        match samples {
            Some(samples) => {
                push_prefix(&mut left, &samples[0], take);
                push_prefix(&mut right, &samples[1], take);
            },
            None => {
                push_silence(&mut left, take, silence);
                push_silence(&mut right, take, silence);
            },
        }
        proof {
            let rest = window(snapshots@, format, current + 1, last_frame as int, (count - offset - take) as int, silence);
            if let Some(rest) = rest {
                assert(before.0 + (left@.subrange(offset as int, (offset + take) as int) + rest.0) == left@ + rest.0);
                assert(before.1 + (right@.subrange(offset as int, (offset + take) as int) + rest.1) == right@ + rest.1);
            }
        }
        offset = offset + take;
        current = current + 1;
    }
    if offset < count {
        let ghost before = (left@, right@);
        push_silence(&mut left, count - offset, silence);
        push_silence(&mut right, count - offset, silence);
    }
    Ok([left, right])
}

/// The PCM channel count and sample rate reported to scripts.
pub fn info(sample_rate: i32) -> (r: (u32, u32))
    ensures
        r == (2u32, sample_rate as u32),
{
    (2, sample_rate as u32)
}

/// Saved audio rendered at `revision` is dropped when a reset happened after
/// it, or when its owner discards audio on update and the scene changed since.
pub open spec fn spec_discards(revision: u64, discard_on_update: bool, current: u64, reset: u64) -> bool {
    revision < reset || (discard_on_update && revision != current)
}

/// A render of an object's frame range into its audio buffer.
pub struct Capture<S> {
    pub id: u64,
    pub scene: i32,
    pub effect: i64,
    pub end: u32,
    pub frame: u32,
    pub audio: BakedAudio<S>,
    /// The target effect's buffer has been bound (at its first audio call).
    pub attached: bool,
    pub progress: ProgressState,
}

impl<S> Capture<S> {
    pub open spec fn wf(&self) -> bool {
        self.audio.start <= self.end
    }
}

/// The buffer of one audio buffer effect: whether it discards its audio
/// after an edit, and the audio last rendered into it.
pub struct SavedAudio<S> {
    pub effect: i64,
    pub discard_on_update: bool,
    pub audio: Option<Arc<BakedAudio<S>>>,
}

/// Counters of scene edits and resets, the capture in progress, the
/// buffers of the effects that exist, and the scene index: the pairs of a
/// scene and an effect whose buffer was bound by a capture in that scene.
pub struct Store<S> {
    pub revision: u64,
    pub reset_revision: u64,
    pub next_id: u64,
    pub capture: Option<Capture<S>>,
    pub saved: Vec<SavedAudio<S>>,
    pub scenes: Vec<(i32, i64)>,
}

/// `after` is `before` with one more frame holding `left` and `right`.
pub open spec fn appended<S>(before: Seq<[Vec<S>; 2]>, after: Seq<[Vec<S>; 2]>, left: Seq<S>, right: Seq<S>) -> bool {
    &&& after.len() == before.len() + 1
    &&& forall|k: int| 0 <= k < before.len() ==> #[trigger] after[k] == before[k]
    &&& after[before.len() as int][0]@ == left
    &&& after[before.len() as int][1]@ == right
}

/// What a render callback for a capture leads to.
pub enum Finish<S> {
    /// The callback belongs to no current capture.
    Ignored,
    /// The capture was cancelled and dropped; nothing is saved.
    Cancelled,
    /// Render this frame next.
    Next(u32),
    /// The last frame arrived: save this audio into the target buffer.
    Done(BakedAudio<S>),
}

#[derive(Clone, Copy, Debug, PartialEq, Eq, Structural)]
pub enum CaptureError {
    /// The host returned no samples.
    RenderFailed,
    /// The target buffer was never bound or is gone.
    NoDestination,
}

/// What to do about a frame request.
#[derive(Clone, Copy, Debug, PartialEq, Eq, Structural)]
pub enum Request {
    /// No current capture has this id.
    Ignore,
    /// The capture was cancelled or its scene is no longer shown; it was dropped.
    Cancelled,
    /// Ask the host for the frame's audio in this scene.
    Render(i32),
}

impl<S: Copy> Store<S> {
    /// Takes the host's samples for `frame` of capture `id`. `destination_alive`
    /// tells whether the bound buffer still exists. Intermediate frames move
    /// the progress to the share of frames done; the last one completes it
    /// and hands the audio over, unless it was cancelled meanwhile.
    pub fn finish_frame(
        &mut self,
        id: u64,
        frame: u32,
        left: &[S],
        right: &[S],
        destination_alive: bool,
    ) -> (r: Result<Finish<S>, CaptureError>)
        requires
            old(self).wf(),
            old(self).holds(id) && frame != old(self).capture->0.end ==> {
                let c = old(self).capture->0;
                c.progress.status == Status::Running && left@.len() > 0 && c.attached && destination_alive
                    ==> c.audio.start <= frame && c.frame < u32::MAX
            },
        ensures
            final(self).wf(),
            final(self).revision == old(self).revision,
            final(self).reset_revision == old(self).reset_revision,
            final(self).next_id == old(self).next_id,
            final(self).scenes == old(self).scenes,
            final(self).saved == old(self).saved,
            !old(self).holds(id) ==> (r matches Ok(Finish::Ignored) && final(self).capture == old(self).capture),
            old(self).holds(id) ==> {
                let c = old(self).capture->0;
                if c.progress.status != Status::Running {
                    r matches Ok(Finish::Cancelled) && final(self).capture is None
                } else if left@.len() == 0 {
                    r matches Err(CaptureError::RenderFailed) && final(self).capture == old(self).capture
                } else if !(c.attached && destination_alive) {
                    r matches Err(CaptureError::NoDestination) && final(self).capture == old(self).capture
                } else if frame == c.end {
                    &&& final(self).capture is None
                    &&& r matches Ok(Finish::Done(audio))
                    &&& appended(c.audio.frames@, audio.frames@, left@, right@)
                    &&& audio.scene == c.audio.scene && audio.revision == c.audio.revision
                    &&& audio.generation == c.audio.generation && audio.format == c.audio.format
                    &&& audio.start == c.audio.start
                } else {
                    &&& r matches Ok(Finish::Next(next)) && next == c.frame + 1
                    &&& final(self).capture matches Some(d)
                    &&& d.id == c.id && d.scene == c.scene && d.effect == c.effect && d.end == c.end
                    &&& d.frame == c.frame + 1 && d.attached == c.attached
                    &&& d.progress.status == Status::Running
                    &&& d.progress.position == shown_position(frame - c.audio.start + 1, c.end - c.audio.start + 1)
                    &&& appended(c.audio.frames@, d.audio.frames@, left@, right@)
                    &&& d.audio.scene == c.audio.scene && d.audio.revision == c.audio.revision
                    &&& d.audio.generation == c.audio.generation && d.audio.format == c.audio.format
                    &&& d.audio.start == c.audio.start
                }
            },
    {
        let mut capture = match self.capture.take() {
            Some(capture) => capture,
            None => {
                return Ok(Finish::Ignored);
            },
        };
        if capture.id != id {
            self.capture = Some(capture);
            return Ok(Finish::Ignored);
        }
        if !capture.progress.running() {
            return Ok(Finish::Cancelled);
        }
        if left.len() == 0 {
            self.capture = Some(capture);
            return Err(CaptureError::RenderFailed);
        }
        if !(capture.attached && destination_alive) {
            self.capture = Some(capture);
            return Err(CaptureError::NoDestination);
        }
        capture.audio.frames.push([vstd::slice::slice_to_vec(left), vstd::slice::slice_to_vec(right)]);
        if frame == capture.end {
            if !capture.progress.update(10000, true) {
                return Ok(Finish::Cancelled);
            }
            Ok(Finish::Done(capture.audio))
        } else {
            let done = (frame - capture.audio.start) as u64 + 1;
            let total = (capture.end - capture.audio.start) as u64 + 1;
            let position = (done * 10000 + total / 2) / total;
            assert(position == fraction_position(done as int, total as int));
            let position = if position > u32::MAX as u64 {
                u32::MAX
            } else {
                position as u32
            };
            capture.progress.update(position, false);
            capture.frame = capture.frame + 1;
            let next = capture.frame;
            self.capture = Some(capture);
            Ok(Finish::Next(next))
        }
    }
}

impl<S> Store<S> {
    pub open spec fn wf(&self) -> bool {
        self.capture matches Some(c) ==> c.wf()
    }

    pub open spec fn holds(&self, id: u64) -> bool {
        self.capture matches Some(c) && c.id == id
    }

    pub fn new() -> (r: Store<S>)
        ensures
            r.wf(),
            r.revision == 0,
            r.reset_revision == 0,
            r.next_id == 0,
            r.capture is None,
            r.saved@.len() == 0,
            r.scenes@.len() == 0,
    {
        Store { revision: 0, reset_revision: 0, next_id: 0, capture: None, saved: Vec::new(), scenes: Vec::new() }
    }

    pub fn busy(&self) -> (r: bool)
        ensures
            r == self.capture is Some,
    {
        self.capture.is_some()
    }

    /// Records a scene edit and cancels the running capture; the capture
    /// itself stays until its pending callback arrives.
    pub fn invalidate(&mut self)
        requires
            old(self).revision < u64::MAX,
        ensures
            final(self).saved == old(self).saved,
            final(self).scenes == old(self).scenes,
            final(self).revision == old(self).revision + 1,
            final(self).reset_revision == old(self).reset_revision,
            final(self).next_id == old(self).next_id,
            match (old(self).capture, final(self).capture) {
                (Some(a), Some(b)) => b == (Capture { progress: b.progress, ..a })
                    && b.progress.position == a.progress.position
                    && b.progress.status == (if a.progress.status == Status::Running { Status::Cancelled } else { a.progress.status }),
                (None, None) => true,
                _ => false,
            },
    {
        self.revision = self.revision + 1;
        if let Some(capture) = &mut self.capture {
            capture.progress.cancel();
        }
    }

    /// Invalidates, then drops every audio saved so far and empties the
    /// scene index; the buffers keep their settings.
    pub fn reset(&mut self)
        requires
            old(self).revision < u64::MAX,
        ensures
            final(self).scenes@.len() == 0,
            final(self).saved@ == Seq::new(old(self).saved@.len(), |i: int| emptied(old(self).saved@[i])),
            forall|i: int| 0 <= i < final(self).saved@.len() ==> #[trigger] final(self).saved@[i].audio is None,
            final(self).revision == old(self).revision + 1,
            final(self).reset_revision == final(self).revision,
            final(self).next_id == old(self).next_id,
            match (old(self).capture, final(self).capture) {
                (Some(a), Some(b)) => b == (Capture { progress: b.progress, ..a })
                    && b.progress.position == a.progress.position
                    && b.progress.status == (if a.progress.status == Status::Running { Status::Cancelled } else { a.progress.status }),
                (None, None) => true,
                _ => false,
            },
    {
        self.invalidate();
        self.reset_revision = self.revision;
        let mut kept: Vec<SavedAudio<S>> = Vec::new();
        let mut i: usize = 0;
        while i < self.saved.len()
            invariant
                i <= self.saved@.len(),
                kept@.len() == i,
                forall|j: int| 0 <= j < i ==> #[trigger] kept@[j] == emptied(self.saved@[j]),
            decreases self.saved@.len() - i,
        {
            let e = &self.saved[i];
            kept.push(SavedAudio { effect: e.effect, discard_on_update: e.discard_on_update, audio: None });
            i = i + 1;
        }
        self.saved = kept;
        self.scenes = Vec::new();
    }

    /// Takes the capture out, whatever its state.
    pub fn shutdown(&mut self) -> (r: Option<Capture<S>>)
        ensures
            r == old(self).capture,
            final(self).capture is None,
            final(self).revision == old(self).revision,
            final(self).reset_revision == old(self).reset_revision,
            final(self).next_id == old(self).next_id,
            final(self).scenes == old(self).scenes,
            final(self).saved == old(self).saved,
    {
        self.capture.take()
    }

    /// Whether saved audio rendered at `revision` must be dropped now.
    pub fn discards(&self, revision: u64, discard_on_update: bool) -> (r: bool)
        ensures
            r == spec_discards(revision, discard_on_update, self.revision, self.reset_revision),
    {
        revision < self.reset_revision || (discard_on_update && revision != self.revision)
    }

    /// Starts capturing frames `start..=end` of `scene` for `effect`; answers
    /// the new capture's id.
    pub fn begin(&mut self, scene: i32, effect: i64, start: u32, end: u32, format: Format) -> (id: u64)
        requires
            old(self).next_id < u64::MAX,
            start <= end,
        ensures
            id == old(self).next_id + 1,
            final(self).next_id == id,
            final(self).scenes == old(self).scenes,
            final(self).saved == old(self).saved,
            final(self).revision == old(self).revision,
            final(self).reset_revision == old(self).reset_revision,
            final(self).wf(),
            final(self).capture matches Some(c) && c.id == id && c.scene == scene && c.effect == effect
                && c.end == end && c.frame == start && !c.attached && c.progress == (ProgressState { status: Status::Running, position: 0 })
                && c.audio.scene == scene && c.audio.revision == old(self).revision && c.audio.generation == id
                && c.audio.format == format && c.audio.start == start && c.audio.frames@.len() == 0,
    {
        self.next_id = self.next_id + 1;
        let id = self.next_id;
        self.capture = Some(Capture {
            id,
            scene,
            effect,
            end,
            frame: start,
            audio: BakedAudio {
                scene,
                revision: self.revision,
                generation: id,
                format,
                start,
                frames: Vec::new(),
            },
            attached: false,
            progress: ProgressState::new(),
        });
        id
    }

    /// Drops the capture if it is the one with `id`, and returns it.
    pub fn cancel(&mut self, id: u64) -> (r: Option<Capture<S>>)
        ensures
            old(self).holds(id) ==> r == old(self).capture && final(self).capture is None,
            !old(self).holds(id) ==> r is None && final(self).capture == old(self).capture,
            final(self).revision == old(self).revision,
            final(self).reset_revision == old(self).reset_revision,
            final(self).next_id == old(self).next_id,
            final(self).scenes == old(self).scenes,
            final(self).saved == old(self).saved,
    {
        let matches = match &self.capture {
            Some(capture) => capture.id == id,
            None => false,
        };
        if matches {
            self.capture.take()
        } else {
            None
        }
    }

    /// Decides on a request for the next frame of capture `id` while the
    /// host shows `current_scene`.
    pub fn request_frame(&mut self, id: u64, current_scene: i32) -> (r: Request)
        ensures
            final(self).revision == old(self).revision,
            final(self).reset_revision == old(self).reset_revision,
            final(self).next_id == old(self).next_id,
            final(self).scenes == old(self).scenes,
            final(self).saved == old(self).saved,
            !old(self).holds(id) ==> r is Ignore && final(self).capture == old(self).capture,
            old(self).holds(id) ==> {
                let c = old(self).capture->0;
                if c.progress.status == Status::Running && c.scene == current_scene {
                    r == Request::Render(c.scene) && final(self).capture == old(self).capture
                } else {
                    r is Cancelled && final(self).capture is None
                }
            },
    {
        let scene = match &self.capture {
            Some(capture) => {
                if capture.id != id {
                    return Request::Ignore;
                }
                if !capture.progress.running() || capture.scene != current_scene {
                    None
                } else {
                    Some(capture.scene)
                }
            },
            None => {
                return Request::Ignore;
            },
        };
        match scene {
            Some(scene) => Request::Render(scene),
            None => {
                self.capture = None;
                Request::Cancelled
            },
        }
    }

    /// Binds the target buffer when `effect`'s audio is processed during a
    /// running capture, filing it under the capture's scene; answers that
    /// scene.
    pub fn attach(&mut self, effect: i64) -> (r: Option<i32>)
        requires
            old(self).wf(),
        ensures
            final(self).wf(),
            final(self).saved == old(self).saved,
            final(self).revision == old(self).revision,
            final(self).reset_revision == old(self).reset_revision,
            final(self).next_id == old(self).next_id,
            match old(self).capture {
                Some(c) if c.effect == effect && c.progress.status == Status::Running => r == Some(c.scene)
                    && final(self).capture == Some(Capture { attached: true, ..c })
                    && final(self).scenes@ == filed_into(old(self).scenes@, c.scene, effect),
                _ => r is None && final(self).capture == old(self).capture && final(self).scenes == old(self).scenes,
            },
    {
        let scene = match &mut self.capture {
            Some(capture) => {
                if capture.effect == effect && capture.progress.running() {
                    capture.attached = true;
                    capture.scene
                } else {
                    return None;
                }
            },
            None => {
                return None;
            },
        };
        if !is_filed(&self.scenes, scene, effect) {
            self.scenes.push((scene, effect));
        }
        Some(scene)
    }
}

/// A buffer with its audio dropped.
pub open spec fn emptied<S>(e: SavedAudio<S>) -> SavedAudio<S> {
    SavedAudio { effect: e.effect, discard_on_update: e.discard_on_update, audio: None }
}

/// A buffer after the discard rules: audio rendered before the last reset,
/// or before the last edit where the effect discards on update, is dropped.
pub open spec fn pruned<S>(e: SavedAudio<S>, revision: u64, reset_revision: u64) -> SavedAudio<S> {
    match e.audio {
        Some(a) => if spec_discards(a.revision, e.discard_on_update, revision, reset_revision) {
            emptied(e)
        } else {
            e
        },
        None => e,
    }
}

/// Whether the scene index files `effect`'s buffer under `scene`.
pub open spec fn filed(scenes: Seq<(i32, i64)>, scene: i32, effect: i64) -> bool {
    exists|i: int| 0 <= i < scenes.len() && #[trigger] scenes[i] == (scene, effect)
}

/// The scene index with `effect`'s buffer filed under `scene`.
pub open spec fn filed_into(scenes: Seq<(i32, i64)>, scene: i32, effect: i64) -> Seq<(i32, i64)> {
    if filed(scenes, scene, effect) {
        scenes
    } else {
        scenes.push((scene, effect))
    }
}

/// The scene index without the entries of `effect`.
pub open spec fn unfiled(scenes: Seq<(i32, i64)>, effect: i64) -> Seq<(i32, i64)>
    decreases scenes.len(),
{
    if scenes.len() == 0 {
        Seq::empty()
    } else {
        let rest = unfiled(scenes.drop_last(), effect);
        if scenes.last().1 == effect { rest } else { rest.push(scenes.last()) }
    }
}

/// The buffers after a look at `scene`: those filed under it go through the
/// discard rules, the others stay as they are.
pub open spec fn refreshed<S>(saved: Seq<SavedAudio<S>>, scenes: Seq<(i32, i64)>, scene: i32, revision: u64, reset_revision: u64) -> Seq<SavedAudio<S>> {
    Seq::new(
        saved.len(),
        |i: int|
            if filed(scenes, scene, saved[i].effect) {
                pruned(saved[i], revision, reset_revision)
            } else {
                saved[i]
            },
    )
}

/// The audio rendered in `scene` of the buffers filed under it, in buffer
/// order.
pub open spec fn scene_audio<S>(saved: Seq<SavedAudio<S>>, scenes: Seq<(i32, i64)>, scene: i32) -> Seq<Arc<BakedAudio<S>>>
    decreases saved.len(),
{
    if saved.len() == 0 {
        Seq::empty()
    } else {
        let rest = scene_audio(saved.drop_last(), scenes, scene);
        match saved.last().audio {
            Some(a) => if a.scene == scene && filed(scenes, scene, saved.last().effect) { rest.push(a) } else { rest },
            None => rest,
        }
    }
}

pub open spec fn has_effect<S>(saved: Seq<SavedAudio<S>>, effect: i64) -> bool {
    exists|i: int| 0 <= i < saved.len() && #[trigger] saved[i].effect == effect
}

/// The buffers with `effect`'s set by `f`, or a new buffer `e` added where
/// the effect has none.
pub open spec fn upserted<S>(saved: Seq<SavedAudio<S>>, effect: i64, f: spec_fn(SavedAudio<S>) -> SavedAudio<S>, e: SavedAudio<S>) -> Seq<SavedAudio<S>> {
    if has_effect(saved, effect) {
        Seq::new(saved.len(), |i: int| if saved[i].effect == effect { f(saved[i]) } else { saved[i] })
    } else {
        saved.push(e)
    }
}

/// The buffers without `effect`'s.
pub open spec fn without<S>(saved: Seq<SavedAudio<S>>, effect: i64) -> Seq<SavedAudio<S>>
    decreases saved.len(),
{
    if saved.len() == 0 {
        Seq::empty()
    } else {
        let rest = without(saved.drop_last(), effect);
        if saved.last().effect == effect { rest } else { rest.push(saved.last()) }
    }
}

impl<S> Store<S> {
    /// Whether `effect`'s buffer exists.
    pub fn registered(&self, effect: i64) -> (r: bool)
        ensures
            r == has_effect(self.saved@, effect),
    {
        let mut i: usize = 0;
        while i < self.saved.len()
            invariant
                i <= self.saved@.len(),
                forall|j: int| 0 <= j < i ==> #[trigger] self.saved@[j].effect != effect,
            decreases self.saved@.len() - i,
        {
            if self.saved[i].effect == effect {
                return true;
            }
            i = i + 1;
        }
        false
    }

    /// Records whether `effect` discards its audio on update, adding its
    /// buffer where it has none.
    pub fn configure(&mut self, effect: i64, discard_on_update: bool)
        ensures
            final(self).saved@ == upserted(
                old(self).saved@,
                effect,
                |e: SavedAudio<S>| SavedAudio { effect: e.effect, discard_on_update, audio: e.audio },
                SavedAudio { effect, discard_on_update, audio: None },
            ),
            final(self).revision == old(self).revision,
            final(self).reset_revision == old(self).reset_revision,
            final(self).next_id == old(self).next_id,
            final(self).scenes == old(self).scenes,
            final(self).capture == old(self).capture,
    {
        let ghost f = |e: SavedAudio<S>| SavedAudio { effect: e.effect, discard_on_update, audio: e.audio };
        let mut out: Vec<SavedAudio<S>> = Vec::new();
        let mut found = false;
        let mut saved: Vec<SavedAudio<S>> = Vec::new();
        std::mem::swap(&mut saved, &mut self.saved);
        let ghost before = saved@;
        let mut i: usize = 0;
        while i < saved.len()
            invariant
                before == saved@,
                i <= saved@.len(),
                out@.len() == i,
                found == has_effect(saved@.take(i as int), effect),
                forall|j: int| 0 <= j < i ==> #[trigger] out@[j] == (if saved@[j].effect == effect { SavedAudio { effect: saved@[j].effect, discard_on_update, audio: saved@[j].audio } } else { saved@[j] }),
            decreases saved@.len() - i,
        {
            let e = &saved[i];
            let audio = match &e.audio {
                Some(a) => Some(crate::text::share(a)),
                None => None,
            };
            assert(audio == e.audio);
            let ghost prev = out@;
            if e.effect == effect {
                out.push(SavedAudio { effect: e.effect, discard_on_update, audio });
                found = true;
                assert(out@[i as int] == SavedAudio { effect: saved@[i as int].effect, discard_on_update, audio: saved@[i as int].audio });
            } else {
                out.push(SavedAudio { effect: e.effect, discard_on_update: e.discard_on_update, audio });
                assert(out@[i as int] == saved@[i as int]);
            }
            proof {
                assert forall|j: int| 0 <= j < i implies out@[j] == prev[j] by {};
                assert(saved@.take(i + 1) =~= saved@.take(i as int).push(saved@[i as int]));
                if has_effect(saved@.take(i + 1), effect) && !has_effect(saved@.take(i as int), effect) {
                    let j = choose|j: int| 0 <= j < i + 1 && #[trigger] saved@.take(i + 1)[j].effect == effect;
                    assert(j == i);
                }
                if has_effect(saved@.take(i as int), effect) {
                    let j = choose|j: int| 0 <= j < i && #[trigger] saved@.take(i as int)[j].effect == effect;
                    assert(saved@.take(i + 1)[j].effect == effect);
                }
                if e.effect == effect {
                    assert(saved@.take(i + 1)[i as int].effect == effect);
                }
            }
            i = i + 1;
        }
        proof {
            assert(saved@.take(saved@.len() as int) =~= saved@);
        }
        if !found {
            out.push(SavedAudio { effect, discard_on_update, audio: None });
        }
        self.saved = out;
        proof {
            assert(self.saved@ =~= upserted(before, effect, f, SavedAudio { effect, discard_on_update, audio: None }));
        }
    }

    /// Saves `audio` into `effect`'s buffer, adding the buffer where it has
    /// none.
    pub fn keep(&mut self, effect: i64, audio: Arc<BakedAudio<S>>)
        ensures
            final(self).saved@ == upserted(
                old(self).saved@,
                effect,
                |e: SavedAudio<S>| SavedAudio { effect: e.effect, discard_on_update: e.discard_on_update, audio: Some(audio) },
                SavedAudio { effect, discard_on_update: false, audio: Some(audio) },
            ),
            final(self).revision == old(self).revision,
            final(self).reset_revision == old(self).reset_revision,
            final(self).next_id == old(self).next_id,
            final(self).scenes == old(self).scenes,
            final(self).capture == old(self).capture,
    {
        let ghost f = |e: SavedAudio<S>| SavedAudio { effect: e.effect, discard_on_update: e.discard_on_update, audio: Some(audio) };
        let mut out: Vec<SavedAudio<S>> = Vec::new();
        let mut found = false;
        let mut saved: Vec<SavedAudio<S>> = Vec::new();
        std::mem::swap(&mut saved, &mut self.saved);
        let ghost before = saved@;
        let mut i: usize = 0;
        while i < saved.len()
            invariant
                before == saved@,
                i <= saved@.len(),
                out@.len() == i,
                found == has_effect(saved@.take(i as int), effect),
                forall|j: int| 0 <= j < i ==> #[trigger] out@[j] == (if saved@[j].effect == effect { SavedAudio { effect: saved@[j].effect, discard_on_update: saved@[j].discard_on_update, audio: Some(audio) } } else { saved@[j] }),
            decreases saved@.len() - i,
        {
            let e = &saved[i];
            let ghost prev = out@;
            if e.effect == effect {
                out.push(SavedAudio { effect: e.effect, discard_on_update: e.discard_on_update, audio: Some(crate::text::share(&audio)) });
                found = true;
                assert(out@[i as int] == SavedAudio { effect: saved@[i as int].effect, discard_on_update: saved@[i as int].discard_on_update, audio: Some(audio) });
            } else {
                let kept = match &e.audio {
                    Some(a) => Some(crate::text::share(a)),
                    None => None,
                };
                assert(kept == e.audio);
                out.push(SavedAudio { effect: e.effect, discard_on_update: e.discard_on_update, audio: kept });
                assert(out@[i as int] == saved@[i as int]);
            }
            proof {
                assert forall|j: int| 0 <= j < i implies out@[j] == prev[j] by {};
                assert(saved@.take(i + 1) =~= saved@.take(i as int).push(saved@[i as int]));
                if has_effect(saved@.take(i + 1), effect) && !has_effect(saved@.take(i as int), effect) {
                    let j = choose|j: int| 0 <= j < i + 1 && #[trigger] saved@.take(i + 1)[j].effect == effect;
                    assert(j == i);
                }
                if has_effect(saved@.take(i as int), effect) {
                    let j = choose|j: int| 0 <= j < i && #[trigger] saved@.take(i as int)[j].effect == effect;
                    assert(saved@.take(i + 1)[j].effect == effect);
                }
                if e.effect == effect {
                    assert(saved@.take(i + 1)[i as int].effect == effect);
                }
            }
            i = i + 1;
        }
        proof {
            assert(saved@.take(saved@.len() as int) =~= saved@);
        }
        if !found {
            out.push(SavedAudio { effect, discard_on_update: false, audio: Some(audio) });
        }
        self.saved = out;
        proof {
            assert(self.saved@ =~= upserted(before, effect, f, SavedAudio { effect, discard_on_update: false, audio: Some(audio) }));
        }
    }

    /// Drops `effect`'s buffer and its entries in the scene index: the
    /// effect is gone.
    pub fn forget(&mut self, effect: i64)
        ensures
            final(self).saved@ == without(old(self).saved@, effect),
            final(self).scenes@ == unfiled(old(self).scenes@, effect),
            final(self).revision == old(self).revision,
            final(self).reset_revision == old(self).reset_revision,
            final(self).next_id == old(self).next_id,
            final(self).capture == old(self).capture,
    {
        let mut out: Vec<SavedAudio<S>> = Vec::new();
        let mut saved: Vec<SavedAudio<S>> = Vec::new();
        std::mem::swap(&mut saved, &mut self.saved);
        let mut i: usize = 0;
        while i < saved.len()
            invariant
                i <= saved@.len(),
                out@ == without(saved@.take(i as int), effect),
            decreases saved@.len() - i,
        {
            proof {
                assert(saved@.take(i + 1).drop_last() =~= saved@.take(i as int));
            }
            if saved[i].effect != effect {
                let e = &saved[i];
                let audio = match &e.audio {
                    Some(a) => Some(crate::text::share(a)),
                    None => None,
                };
                out.push(SavedAudio { effect: e.effect, discard_on_update: e.discard_on_update, audio });
            }
            i = i + 1;
        }
        proof {
            assert(saved@.take(saved@.len() as int) =~= saved@);
        }
        self.saved = out;
        let mut index: Vec<(i32, i64)> = Vec::new();
        let mut j: usize = 0;
        while j < self.scenes.len()
            invariant
                j <= self.scenes@.len(),
                self.scenes@ == old(self).scenes@,
                index@ == unfiled(self.scenes@.take(j as int), effect),
            decreases self.scenes@.len() - j,
        {
            proof {
                assert(self.scenes@.take(j + 1).drop_last() =~= self.scenes@.take(j as int));
            }
            if self.scenes[j].1 != effect {
                index.push(self.scenes[j]);
            }
            j = j + 1;
        }
        proof {
            assert(self.scenes@.take(self.scenes@.len() as int) =~= self.scenes@);
        }
        self.scenes = index;
    }

    /// The audio saved for `scene`, after dropping what the discard rules
    /// drop from the buffers filed under it.
    pub fn snapshots(&mut self, scene: i32) -> (r: Vec<Arc<BakedAudio<S>>>)
        ensures
            final(self).saved@ == refreshed(old(self).saved@, old(self).scenes@, scene, old(self).revision, old(self).reset_revision),
            r@ == scene_audio(final(self).saved@, old(self).scenes@, scene),
            final(self).scenes == old(self).scenes,
            final(self).revision == old(self).revision,
            final(self).reset_revision == old(self).reset_revision,
            final(self).next_id == old(self).next_id,
            final(self).capture == old(self).capture,
    {
        let revision = self.revision;
        let reset_revision = self.reset_revision;
        let mut out: Vec<SavedAudio<S>> = Vec::new();
        let mut found: Vec<Arc<BakedAudio<S>>> = Vec::new();
        let mut saved: Vec<SavedAudio<S>> = Vec::new();
        std::mem::swap(&mut saved, &mut self.saved);
        let ghost before = saved@;
        let ghost scenes = self.scenes@;
        let mut i: usize = 0;
        while i < saved.len()
            invariant
                before == saved@,
                scenes == self.scenes@,
                i <= saved@.len(),
                out@.len() == i,
                forall|j: int| 0 <= j < i ==> #[trigger] out@[j] == (if filed(scenes, scene, saved@[j].effect) {
                    pruned(saved@[j], revision, reset_revision)
                } else {
                    saved@[j]
                }),
                found@ == scene_audio(out@, scenes, scene),
            decreases saved@.len() - i,
        {
            let e = &saved[i];
            let here = is_filed(&self.scenes, scene, e.effect);
            let kept = match &e.audio {
                Some(a) => if here && revision_discarded(a.revision, e.discard_on_update, revision, reset_revision) {
                    None
                } else {
                    Some(crate::text::share(a))
                },
                None => None,
            };
            let ghost prev = out@;
            match &kept {
                Some(a) => {
                    if here && a.scene == scene {
                        found.push(crate::text::share(a));
                    }
                },
                None => {},
            }
            out.push(SavedAudio { effect: e.effect, discard_on_update: e.discard_on_update, audio: kept });
            proof {
                assert(out@.drop_last() =~= prev);
            }
            i = i + 1;
        }
        self.saved = out;
        proof {
            assert(self.saved@ =~= refreshed(before, scenes, scene, revision, reset_revision));
        }
        found
    }
}

/// After a reset, every scene reads nothing saved until a new render: the
/// scene index files no buffer.
pub proof fn lemma_reset_reads_nothing<S>(saved: Seq<SavedAudio<S>>, scenes: Seq<(i32, i64)>, scene: i32)
    requires
        scenes.len() == 0,
    ensures
        scene_audio(saved, scenes, scene).len() == 0,
    decreases saved.len(),
{
    if saved.len() > 0 {
        assert(!filed(scenes, scene, saved.last().effect));
        lemma_reset_reads_nothing(saved.drop_last(), scenes, scene);
    }
}

/// Whether `scenes` files `effect`'s buffer under `scene`.
fn is_filed(scenes: &Vec<(i32, i64)>, scene: i32, effect: i64) -> (r: bool)
    ensures
        r == filed(scenes@, scene, effect),
{
    let mut i: usize = 0;
    while i < scenes.len()
        invariant
            i <= scenes@.len(),
            forall|j: int| 0 <= j < i ==> #[trigger] scenes@[j] != (scene, effect),
        decreases scenes@.len() - i,
    {
        if scenes[i].0 == scene && scenes[i].1 == effect {
            assert(scenes@[i as int] == (scene, effect));
            return true;
        }
        i = i + 1;
    }
    false
}

fn revision_discarded(revision: u64, discard_on_update: bool, current: u64, reset: u64) -> (r: bool)
    ensures
        r == spec_discards(revision, discard_on_update, current, reset),
{
    revision < reset || (discard_on_update && revision != current)
}

} // verus!
