use vstd::prelude::*;
use crate::progress::{fraction_position, shown_position, ProgressState, Status};

verus! {

/// The object whose sound is captured: its scene, layer and frame range.
#[derive(Clone, Copy, Debug, PartialEq, Eq, Structural)]
pub struct Target {
    pub scene: i32,
    pub layer: u32,
    pub start: u32,
    pub end: u32,
}

/// Scene audio format: frame rate `fps_numer / fps_denom` and sample rate.
#[derive(Clone, Copy, Debug, PartialEq, Eq, Structural)]
pub struct Format {
    pub fps_numer: i32,
    pub fps_denom: i32,
    pub sample_rate: u32,
}

impl Format {
    pub open spec fn wf(self) -> bool {
        self.fps_numer != 0 && self.fps_denom > 0
    }

    /// The first sample of `frame`, rounded to nearest, computed in unsigned
    /// 128-bit arithmetic from the rate's parts.
    pub open spec fn position(self, frame: int) -> int {
        let d = (self.fps_numer as u128) as int;
        (frame * self.sample_rate * ((self.fps_denom as u128) as int) + d / 2) / d
    }

    pub fn sample_at(self, frame: u32) -> (r: usize)
        requires
            self.wf(),
        ensures
            r == self.position(frame as int) as usize,
    {
        let f = frame as u128;
        let rate = self.sample_rate as u128;
        let den = self.fps_denom as u128;
        let d = self.fps_numer as u128;
        assert(f * rate <= 0xffff_ffff_ffff_ffff_ffff_ffff) by (nonlinear_arith)
            requires
                f <= u32::MAX,
                rate <= u32::MAX,
        ;
        let a = f * rate;
        assert(a * den <= 0x7fff_ffff_ffff_ffff_ffff_ffff_ffff_ffff) by (nonlinear_arith)
            requires
                a <= 0xffff_ffff_ffff_ffff_ffff_ffff,
                den <= i32::MAX,
        ;
        let numerator = a * den;
        assert(numerator as int == frame as int * self.sample_rate as int * den as int) by (nonlinear_arith)
            requires
                numerator == a * den,
                a == f * rate,
                f == frame,
                rate == self.sample_rate,
        ;
        let n = self.fps_numer;
        assert(n != 0i32 ==> (n as u128) != 0u128) by (bit_vector);
        assert((n as u128) <= 0xffff_ffff_ffff_ffff_ffff_ffff_ffff_ffffu128) by (bit_vector);
        let total = numerator + d / 2;
        let q = total / d;
        #[verifier::truncate]
        (q as usize)
    }
}

/// Sound rendered for a target, both channels from the target's first frame.
pub struct BakedSound<S> {
    pub revision: u64,
    pub format: Format,
    pub samples: [Vec<S>; 2],
}

/// A capture of a target's sound, frame by frame. Scripts register sounds
/// (`requests`) while a frame is being evaluated.
pub struct Capture<S, R> {
    pub id: u64,
    pub target: Target,
    pub frame: u32,
    pub accepting: bool,
    pub requests: Vec<R>,
    pub sound: BakedSound<S>,
    /// The target effect's sound slot has been bound.
    pub attached: bool,
    pub progress: ProgressState,
}

pub struct SoundStore<S, R> {
    pub revision: u64,
    pub reset_revision: u64,
    pub next_capture_id: u64,
    pub capture: Option<Capture<S, R>>,
}

#[derive(Clone, Copy, Debug, PartialEq, Eq, Structural)]
pub enum SoundError {
    /// Another capture is in progress.
    Busy,
    /// The target's sound was never processed, so nothing is bound.
    NoDestination,
}

/// What a request for the next frame leads to.
#[derive(Clone, Copy, Debug, PartialEq, Eq, Structural)]
pub enum Request {
    /// No current capture has this id.
    Ignore,
    /// The capture was cancelled; it was dropped.
    Cancelled,
    /// Ask the host to evaluate the frame.
    Render,
}

/// What the end of a frame's evaluation leads to.
pub enum Finish<S> {
    Ignored,
    Cancelled,
    Next(u32),
    Done(BakedSound<S>),
}

/// Saved sound rendered at `revision` is dropped after a later reset, or
/// when its owner discards sound on update and the scene changed since.
pub open spec fn spec_discards(revision: u64, discard_on_update: bool, current: u64, reset: u64) -> bool {
    revision < reset || (discard_on_update && revision != current)
}

impl<S, R> SoundStore<S, R> {
    pub open spec fn holds(&self, id: u64) -> bool {
        self.capture matches Some(c) && c.id == id
    }

    pub open spec fn spec_receiving(&self, frame: u32) -> bool {
        self.capture matches Some(c) && c.accepting && c.frame == frame && c.progress.status == Status::Running
    }

    /// The counters and the capture's identity stay as they were.
    pub open spec fn same_counters(&self, other: &Self) -> bool {
        &&& self.revision == other.revision
        &&& self.reset_revision == other.reset_revision
        &&& self.next_capture_id == other.next_capture_id
    }

    pub fn new() -> (r: Self)
        ensures
            r.revision == 0,
            r.reset_revision == 0,
            r.next_capture_id == 0,
            r.capture is None,
    {
        SoundStore { revision: 0, reset_revision: 0, next_capture_id: 0, capture: None }
    }

    pub fn busy(&self) -> (r: bool)
        ensures
            r == self.capture is Some,
    {
        self.capture.is_some()
    }

    /// Whether a capture is running; a capturing object stays silent.
    pub fn capturing(&self) -> (r: bool)
        ensures
            r == (self.capture matches Some(c) && c.progress.status == Status::Running),
    {
        match &self.capture {
            Some(capture) => capture.progress.running(),
            None => false,
        }
    }

    /// Records an edit and cancels the running capture (deleting the object
    /// that registers sounds also comes here).
    pub fn invalidate(&mut self)
        requires
            old(self).revision < u64::MAX,
        ensures
            final(self).revision == old(self).revision + 1,
            final(self).reset_revision == old(self).reset_revision,
            final(self).next_capture_id == old(self).next_capture_id,
            match (old(self).capture, final(self).capture) {
                (Some(a), Some(b)) => b == (Capture { progress: b.progress, ..a })
                    && b.progress.position == a.progress.position
                    && b.progress.status == (if a.progress.status == Status::Running { Status::Cancelled } else { a.progress.status }),
                (None, None) => true,
                _ => false,
            },
    {
        self.revision = self.revision + 1;
        if let Some(capture) = &mut self.capture {
            capture.progress.cancel();
        }
    }

    pub fn reset(&mut self)
        requires
            old(self).revision < u64::MAX,
        ensures
            final(self).revision == old(self).revision + 1,
            final(self).reset_revision == final(self).revision,
            final(self).next_capture_id == old(self).next_capture_id,
            match (old(self).capture, final(self).capture) {
                (Some(a), Some(b)) => b == (Capture { progress: b.progress, ..a })
                    && b.progress.position == a.progress.position
                    && b.progress.status == (if a.progress.status == Status::Running { Status::Cancelled } else { a.progress.status }),
                (None, None) => true,
                _ => false,
            },
    {
        self.invalidate();
        self.reset_revision = self.revision;
    }

    pub fn shutdown(&mut self) -> (r: Option<Capture<S, R>>)
        ensures
            r == old(self).capture,
            final(self).capture is None,
            final(self).same_counters(old(self)),
    {
        self.capture.take()
    }

    /// Whether scripts may register sounds for `frame` now.
    pub fn receiving(&self, frame: u32) -> (r: bool)
        ensures
            r == self.spec_receiving(frame),
    {
        match &self.capture {
            Some(capture) => capture.accepting && capture.frame == frame && capture.progress.running(),
            None => false,
        }
    }

    /// Registers a sound for `frame`. `audible` tells whether its volume and
    /// speed are positive; silent sounds are not kept.
    pub fn register(&mut self, frame: u32, sound: R, audible: bool) -> (r: bool)
        ensures
            final(self).same_counters(old(self)),
            r == (old(self).spec_receiving(frame) && audible),
            !r ==> final(self).capture == old(self).capture,
            r ==> {
                let c = old(self).capture->0;
                final(self).capture == Some(Capture { requests: final(self).capture->0.requests, ..c })
                    && final(self).capture->0.requests@ == c.requests@.push(sound)
            },
    {
        if !self.receiving(frame) || !audible {
            return false;
        }
        match &mut self.capture {
            Some(capture) => {
                capture.requests.push(sound);
                true
            },
            None => false,
        }
    }

    /// Whether saved sound rendered at `revision` must be dropped now.
    pub fn discards(&self, revision: u64, discard_on_update: bool) -> (r: bool)
        ensures
            r == spec_discards(revision, discard_on_update, self.revision, self.reset_revision),
    {
        revision < self.reset_revision || (discard_on_update && revision != self.revision)
    }

    /// Starts capturing `target`'s sound unless a capture is in progress.
    pub fn begin(&mut self, target: Target, format: Format, samples: [Vec<S>; 2]) -> (r: Result<u64, SoundError>)
        requires
            old(self).next_capture_id < u64::MAX,
        ensures
            old(self).capture is Some ==> (r matches Err(SoundError::Busy) && *final(self) == *old(self)),
            old(self).capture is None ==> {
                &&& r == Ok::<u64, SoundError>((old(self).next_capture_id + 1) as u64)
                &&& final(self).next_capture_id == old(self).next_capture_id + 1
                &&& final(self).revision == old(self).revision
                &&& final(self).reset_revision == old(self).reset_revision
                &&& final(self).capture matches Some(c)
                &&& c.id == final(self).next_capture_id && c.target == target && c.frame == target.start
                &&& !c.accepting && c.requests@.len() == 0 && !c.attached
                &&& c.progress == (ProgressState { status: Status::Running, position: 0 })
                &&& c.sound.revision == old(self).revision && c.sound.format == format
                &&& c.sound.samples == samples
            },
    {
        if self.capture.is_some() {
            return Err(SoundError::Busy);
        }
        let revision = self.revision;
        self.next_capture_id = self.next_capture_id + 1;
        let id = self.next_capture_id;
        self.capture = Some(Capture {
            id,
            target,
            frame: target.start,
            accepting: false,
            requests: Vec::new(),
            sound: BakedSound { revision, format, samples },
            attached: false,
            progress: ProgressState::new(),
        });
        Ok(id)
    }

    /// Binds the target's sound slot when its audio is processed during a
    /// running capture that has none yet; answers whether it did.
    pub fn attach(&mut self, target: Target) -> (r: bool)
        ensures
            final(self).same_counters(old(self)),
            r == (old(self).capture matches Some(c) && c.target == target && !c.attached && c.progress.status == Status::Running),
            r ==> final(self).capture == Some(Capture { attached: true, ..old(self).capture->0 }),
            !r ==> final(self).capture == old(self).capture,
    {
        match &mut self.capture {
            Some(capture) => {
                if capture.target == target && !capture.attached && capture.progress.running() {
                    capture.attached = true;
                    true
                } else {
                    false
                }
            },
            None => false,
        }
    }

    pub fn cancel(&mut self, id: u64) -> (r: Option<Capture<S, R>>)
        ensures
            final(self).same_counters(old(self)),
            old(self).holds(id) ==> (r == old(self).capture && final(self).capture is None),
            !old(self).holds(id) ==> (r is None && final(self).capture == old(self).capture),
    {
        let matches = match &self.capture {
            Some(capture) => capture.id == id,
            None => false,
        };
        if matches {
            self.capture.take()
        } else {
            None
        }
    }

    /// After the first audio call: the capture starts accepting sounds for
    /// its first frame, whose evaluation is requested next.
    pub fn begin_capture(&mut self, id: u64) -> (r: Result<Option<u32>, SoundError>)
        ensures
            final(self).same_counters(old(self)),
            !old(self).holds(id) ==> (r matches Ok(None) && final(self).capture == old(self).capture),
            old(self).holds(id) ==> {
                let c = old(self).capture->0;
                if c.progress.status != Status::Running {
                    r matches Ok(None) && final(self).capture is None
                } else if !c.attached {
                    r matches Err(SoundError::NoDestination) && final(self).capture == old(self).capture
                } else {
                    r == Ok::<Option<u32>, SoundError>(Some(c.frame))
                        && final(self).capture == Some(Capture { accepting: true, ..c })
                }
            },
    {
        let cancelled = match &mut self.capture {
            Some(capture) => {
                if capture.id != id {
                    return Ok(None);
                }
                if !capture.progress.running() {
                    true
                } else {
                    if !capture.attached {
                        return Err(SoundError::NoDestination);
                    }
                    capture.accepting = true;
                    return Ok(Some(capture.frame));
                }
            },
            None => {
                return Ok(None);
            },
        };
        self.capture = None;
        Ok(None)
    }

    /// Decides on a request to evaluate the next frame of capture `id`.
    pub fn request_frame(&mut self, id: u64) -> (r: Request)
        ensures
            final(self).same_counters(old(self)),
            !old(self).holds(id) ==> (r is Ignore && final(self).capture == old(self).capture),
            old(self).holds(id) ==> if old(self).capture->0.progress.status == Status::Running {
                r is Render && final(self).capture == old(self).capture
            } else {
                r is Cancelled && final(self).capture is None
            },
    {
        let running = match &self.capture {
            Some(capture) => {
                if capture.id != id {
                    return Request::Ignore;
                }
                capture.progress.running()
            },
            None => {
                return Request::Ignore;
            },
        };
        if running {
            Request::Render
        } else {
            self.capture = None;
            Request::Cancelled
        }
    }

    /// The frame's evaluation is over: stop accepting sounds and hand the
    /// registered ones over for mixing, with the capture's format.
    pub fn take_requests(&mut self, id: u64, frame: u32) -> (r: Option<(Format, Vec<R>)>)
        requires
            old(self).holds(id) ==> old(self).capture->0.frame == frame,
        ensures
            final(self).same_counters(old(self)),
            !old(self).holds(id) ==> (r is None && final(self).capture == old(self).capture),
            old(self).holds(id) ==> {
                let c = old(self).capture->0;
                &&& r matches Some((format, requests))
                &&& format == c.sound.format && requests == c.requests
                &&& final(self).capture matches Some(d)
                &&& d == (Capture { accepting: false, requests: d.requests, ..c })
                &&& d.requests@.len() == 0
            },
    {
        match &mut self.capture {
            Some(capture) => {
                if capture.id != id {
                    return None;
                }
                capture.accepting = false;
                let mut requests = Vec::new();
                std::mem::swap(&mut requests, &mut capture.requests);
                Some((capture.sound.format, requests))
            },
            None => None,
        }
    }

    /// Whether capture `id` is still current and running.
    pub fn running(&self, id: u64) -> (r: bool)
        ensures
            r == (self.holds(id) && self.capture->0.progress.status == Status::Running),
    {
        match &self.capture {
            Some(capture) => capture.id == id && capture.progress.running(),
            None => false,
        }
    }
}

/// `after` is `before` followed by `chunk`.
pub open spec fn extended<S>(before: [Vec<S>; 2], after: [Vec<S>; 2], chunk: [Vec<S>; 2]) -> bool {
    &&& after[0]@ == before[0]@ + chunk[0]@
    &&& after[1]@ == before[1]@ + chunk[1]@
}

impl<S: Copy, R> SoundStore<S, R> {
    /// Appends the mixed `samples` of `frame`. The last frame completes the
    /// capture and hands the sound over, unless it was cancelled meanwhile;
    /// earlier frames move on to the next one, accepting sounds again.
    pub fn commit_frame(&mut self, id: u64, frame: u32, samples: [Vec<S>; 2]) -> (r: Finish<S>)
        requires
            old(self).holds(id) && frame != old(self).capture->0.target.end ==> {
                let c = old(self).capture->0;
                c.target.start <= frame && c.target.start <= c.target.end && c.frame < u32::MAX
            },
        ensures
            final(self).same_counters(old(self)),
            !old(self).holds(id) ==> (r is Ignored && final(self).capture == old(self).capture),
            old(self).holds(id) ==> {
                let c = old(self).capture->0;
                if c.progress.status != Status::Running {
                    r is Cancelled && final(self).capture is None
                } else if frame == c.target.end {
                    &&& final(self).capture is None
                    &&& r matches Finish::Done(sound)
                    &&& sound.revision == c.sound.revision && sound.format == c.sound.format
                    &&& extended(c.sound.samples, sound.samples, samples)
                } else {
                    &&& r == Finish::<S>::Next((c.frame + 1) as u32)
                    &&& final(self).capture matches Some(d)
                    &&& d.id == c.id && d.target == c.target && d.frame == c.frame + 1 && d.accepting
                    &&& d.requests == c.requests && d.attached == c.attached
                    &&& d.sound.revision == c.sound.revision && d.sound.format == c.sound.format
                    &&& extended(c.sound.samples, d.sound.samples, samples)
                    &&& d.progress.status == Status::Running
                    &&& d.progress.position == shown_position(frame - c.target.start + 1, c.target.end - c.target.start + 1)
                }
            },
    {
        let mut capture = match self.capture.take() {
            Some(capture) => capture,
            None => {
                return Finish::Ignored;
            },
        };
        if capture.id != id {
            self.capture = Some(capture);
            return Finish::Ignored;
        }
        if !capture.progress.running() {
            return Finish::Cancelled;
        }
        let ghost saved = capture.sound.samples;
        let mut left = Vec::new();
        let mut right = Vec::new();
        std::mem::swap(&mut left, &mut capture.sound.samples[0]);
        std::mem::swap(&mut right, &mut capture.sound.samples[1]);
        extend(&mut left, &samples[0]);
        extend(&mut right, &samples[1]);
        capture.sound.samples = [left, right];
        if frame == capture.target.end {
            if !capture.progress.update(10000, true) {
                return Finish::Cancelled;
            }
            Finish::Done(capture.sound)
        } else {
            let done = (frame - capture.target.start) as u64 + 1;
            let total = (capture.target.end - capture.target.start) as u64 + 1;
            let position = (done * 10000 + total / 2) / total;
            assert(position == fraction_position(done as int, total as int));
            let position = if position > u32::MAX as u64 {
                u32::MAX
            } else {
                position as u32
            };
            capture.progress.update(position, false);
            capture.frame = capture.frame + 1;
            capture.accepting = true;
            let next = capture.frame;
            self.capture = Some(capture);
            Finish::Next(next)
        }
    }
}

/// Appends all of `source`.
pub fn extend<S: Copy>(destination: &mut Vec<S>, source: &Vec<S>)
    ensures
        final(destination)@ == old(destination)@ + source@,
{
    let mut i: usize = 0;
    while i < source.len()
        invariant
            i <= source@.len(),
            destination@ == old(destination)@ + source@.subrange(0, i as int),
        decreases source@.len() - i,
    {
        destination.push(source[i]);
        i = i + 1;
        assert(source@.subrange(0, i as int) == source@.subrange(0, i - 1) + seq![source@[i - 1]]);
    }
    assert(source@.subrange(0, source@.len() as int) == source@);
}

/// The part of a saved channel played in an audio call: `count` samples from
/// `start`, silent past the end of the sound.
pub open spec fn played<S>(source: Seq<S>, start: int, count: int, silence: S) -> Seq<S> {
    Seq::new(count as nat, |i: int| if start + i < source.len() { source[start + i] } else { silence })
}

/// Copies the samples an audio call plays from a saved channel.
pub fn play<S: Copy>(source: &Vec<S>, start: usize, count: usize, silence: S) -> (r: Vec<S>)
    ensures
        r@ == played(source@, start as int, count as int, silence),
{
    let mut output: Vec<S> = Vec::new();
    let mut i: usize = 0;
    while i < count
        invariant
            i <= count,
            output@ == played(source@, start as int, i as int, silence),
        decreases count - i,
    {
        let value = if start < source.len() && i < source.len() - start {
            source[start + i]
        } else {
            silence
        };
        output.push(value);
        i = i + 1;
        assert(output@ =~= played(source@, start as int, i as int, silence));
    }
    output
}

} // verus!
