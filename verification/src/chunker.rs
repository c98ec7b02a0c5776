//! Splitting 16 kHz mono speech into chunks separated by silence.
//!
//! The audio is cut into frames of 20 ms (320 samples); a frame is silent when all
//! of its samples are zero or when the voice activity detector says it holds no
//! voice. Runs of silence long enough to reach the chunker's threshold close the
//! current chunk.
use vstd::prelude::*;

verus! {

/// Samples per millisecond of 16 kHz audio.
pub const SAMPLES_PER_MS: usize = 16;

/// Length of one analysis frame in milliseconds.
pub const FRAME_MS: usize = 20;

/// Number of samples in one analysis frame (`SAMPLES_PER_MS * FRAME_MS`).
pub const FRAME_SAMPLES: usize = 320;

// ---------------------------------------------------------------------------
// The model: frames, decisions and the chunking state machine.
// ---------------------------------------------------------------------------

/// Ghost state of the chunking walk over the frame decisions.
pub ghost struct FrameState {
    /// First frame of the chunk being gathered.
    pub start: nat,
    /// One past the last voiced frame of the chunk being gathered.
    pub stop: nat,
    /// Silent frames counted since the last voiced frame.
    pub silence: nat,
    /// Closed chunks, as half-open frame ranges.
    pub spans: Seq<(nat, nat)>,
}

pub open spec fn initial_frame_state() -> FrameState {
    FrameState { start: 0, stop: 0, silence: 0, spans: Seq::empty() }
}

/// Whether `silence` silent frames, of `FRAME_MS` milliseconds each, last at least
/// the threshold.
pub open spec fn silence_reached(silence: nat, threshold_ms: nat) -> bool {
    silence * FRAME_MS >= threshold_ms
}

/// One step of the walk: frame `i` with decision `silent`.
pub open spec fn frame_step(s: FrameState, i: nat, silent: bool, threshold_ms: nat) -> FrameState {
    if silent && silence_reached(s.silence, threshold_ms) {
        FrameState {
            start: i + 1,
            stop: s.stop,
            silence: s.silence,
            spans: if s.stop > s.start { s.spans.push((s.start, s.stop)) } else { s.spans },
        }
    } else if silent {
        FrameState { start: s.start, stop: s.stop, silence: s.silence + 1, spans: s.spans }
    } else {
        FrameState { start: s.start, stop: i + 1, silence: 0, spans: s.spans }
    }
}

/// The state after walking over all decisions `silent` (one per frame, in order).
pub open spec fn frame_walk(silent: Seq<bool>, threshold_ms: nat) -> FrameState
    decreases silent.len(),
{
    if silent.len() == 0 {
        initial_frame_state()
    } else {
        frame_step(
            frame_walk(silent.drop_last(), threshold_ms),
            (silent.len() - 1) as nat,
            silent.last(),
            threshold_ms,
        )
    }
}

/// The chunks, as half-open frame ranges, that the decisions `silent` give: the
/// closed ones, then the one still open at the end if it holds a voiced frame.
pub open spec fn frame_spans(silent: Seq<bool>, threshold_ms: nat) -> Seq<(nat, nat)> {
    let s = frame_walk(silent, threshold_ms);
    if s.stop > s.start {
        s.spans.push((s.start, s.stop))
    } else {
        s.spans
    }
}

/// Frame `i` of `samples` consists of zero samples only.
pub open spec fn frame_is_zero(samples: Seq<i16>, i: int) -> bool {
    forall|j: int| i * FRAME_SAMPLES <= j < (i + 1) * FRAME_SAMPLES ==> samples[j] == 0
}

/// `silent` holds one decision per whole frame of `samples`, and every frame of
/// zeros is silent.
pub open spec fn decisions_fit(silent: Seq<bool>, samples: Seq<i16>) -> bool {
    &&& silent.len() == samples.len() / (FRAME_SAMPLES as nat)
    &&& forall|i: int| 0 <= i < silent.len() && frame_is_zero(samples, i) ==> #[trigger] silent[i]
}


/// Frame `j` lies in one of `spans`.
pub open spec fn covered_by(spans: Seq<(nat, nat)>, j: int) -> bool {
    exists|k: int| 0 <= k < spans.len() && #[trigger] spans[k].0 <= j && j < spans[k].1
}

/// The frame ranges `spans` are non-empty, lie within the first `n` frames, are in
/// order, and consecutive ones are apart by more silence than the threshold: the
/// silent frames between them, less one, last at least the threshold.
pub open spec fn spans_ordered(spans: Seq<(nat, nat)>, n: nat, threshold_ms: nat) -> bool {
    &&& forall|k: int| #![trigger spans[k]] 0 <= k < spans.len() ==> spans[k].0 < spans[k].1 && spans[k].1 <= n
    &&& forall|k: int| #![trigger spans[k + 1]]
        0 <= k && k + 1 < spans.len() ==> spans[k].1 < spans[k + 1].0 && silence_reached(
            (spans[k + 1].0 - spans[k].1 - 1) as nat,
            threshold_ms,
        )
}

/// What holds of the walk after the decisions `d`.
spec fn walk_inv(d: Seq<bool>, threshold_ms: nat, s: FrameState) -> bool {
    &&& s.start <= d.len()
    &&& s.stop <= d.len()
    &&& s.stop > 0 ==> !d[s.stop - 1]
    &&& s.stop > s.start ==> s.silence == d.len() - s.stop
    &&& spans_ordered(s.spans, d.len(), threshold_ms)
    &&& ends_voiced(d, s.spans)
    &&& s.spans.len() > 0 ==> {
        &&& s.spans.last().1 < s.start
        &&& silence_reached((s.start - s.spans.last().1 - 1) as nat, threshold_ms)
    }
    &&& voice_covered(d, s)
}

/// Each of `spans` ends on a voiced frame of `d`.
pub open spec fn ends_voiced(d: Seq<bool>, spans: Seq<(nat, nat)>) -> bool {
    forall|k: int| #![trigger spans[k]] 0 <= k < spans.len() ==> !d[spans[k].1 - 1]
}

/// Every voiced frame of `d` lies in a closed range of `s` or in the open one.
spec fn voice_covered(d: Seq<bool>, s: FrameState) -> bool {
    forall|j: int| 0 <= j < d.len() && !#[trigger] d[j] ==> covered_by(s.spans, j) || (s.start <= j < s.stop)
}

/// `covered_by` keeps holding when ranges are appended.
proof fn lemma_covered_push(spans: Seq<(nat, nat)>, extra: (nat, nat), j: int)
    requires
        covered_by(spans, j),
    ensures
        covered_by(spans.push(extra), j),
{
    let k = choose|k: int| 0 <= k < spans.len() && #[trigger] spans[k].0 <= j && j < spans[k].1;
    assert(spans.push(extra)[k] == spans[k]);
}

/// A frame inside `extra` is covered once `extra` is appended.
proof fn lemma_covered_last(spans: Seq<(nat, nat)>, extra: (nat, nat), j: int)
    requires
        extra.0 <= j < extra.1,
    ensures
        covered_by(spans.push(extra), j),
{
    assert(spans.push(extra)[spans.len() as int] == extra);
}

/// A silent frame that reaches the threshold while a chunk holds voice closes that
/// chunk and keeps `walk_inv`.
proof fn lemma_step_close(p: Seq<bool>, b: FrameState, threshold_ms: nat)
    requires
        walk_inv(p, threshold_ms, b),
        silence_reached(b.silence, threshold_ms),
        b.stop > b.start,
    ensures
        walk_inv(p.push(true), threshold_ms, frame_step(b, p.len(), true, threshold_ms)),
{
    let d = p.push(true);
    let i = p.len();
    let a = frame_step(b, i, true, threshold_ms);
    let e = (b.start, b.stop);
    assert(a.spans == b.spans.push(e));
    assert(forall|j: int| 0 <= j < p.len() ==> d[j] == p[j]);
    assert(ends_voiced(d, a.spans)) by {
        assert forall|k: int| #![trigger a.spans[k]] 0 <= k < a.spans.len() implies !d[a.spans[k].1 - 1] by {
            if k < b.spans.len() {
                assert(a.spans[k] == b.spans[k]);
                assert(!p[b.spans[k].1 - 1]);
            } else {
                assert(!p[b.stop - 1]);
            }
        }
    }
    assert(spans_ordered(a.spans, d.len(), threshold_ms)) by {
        assert forall|k: int| #![trigger a.spans[k]] 0 <= k < a.spans.len() implies a.spans[k].0 < a.spans[k].1
            && a.spans[k].1 <= d.len() by {
            if k < b.spans.len() {
                assert(a.spans[k] == b.spans[k]);
            }
        }
        assert forall|k: int| #![trigger a.spans[k + 1]] 0 <= k && k + 1 < a.spans.len() implies a.spans[k].1 < a.spans[k + 1].0
            && silence_reached((a.spans[k + 1].0 - a.spans[k].1 - 1) as nat, threshold_ms) by {
            if k + 1 < b.spans.len() {
                assert(a.spans[k] == b.spans[k]);
                assert(a.spans[k + 1] == b.spans[k + 1]);
            } else {
                assert(a.spans[k] == b.spans.last());
                assert(a.spans[k + 1] == e);
            }
        }
    }
    assert(voice_covered(d, a)) by {
        assert forall|j: int| 0 <= j < d.len() && !#[trigger] d[j] implies covered_by(a.spans, j) || (
        a.start <= j < a.stop) by {
            assert(!p[j]);
            if covered_by(b.spans, j) {
                lemma_covered_push(b.spans, e, j);
            } else {
                lemma_covered_last(b.spans, e, j);
            }
        }
    }
}

/// A silent frame that reaches the threshold while no chunk holds voice moves the
/// chunk start and keeps `walk_inv`.
proof fn lemma_step_skip(p: Seq<bool>, b: FrameState, threshold_ms: nat)
    requires
        walk_inv(p, threshold_ms, b),
        silence_reached(b.silence, threshold_ms),
        b.stop <= b.start,
    ensures
        walk_inv(p.push(true), threshold_ms, frame_step(b, p.len(), true, threshold_ms)),
{
    let d = p.push(true);
    let i = p.len();
    let a = frame_step(b, i, true, threshold_ms);
    assert(forall|j: int| 0 <= j < p.len() ==> d[j] == p[j]);
    assert(ends_voiced(d, a.spans)) by {
        assert forall|k: int| #![trigger a.spans[k]] 0 <= k < a.spans.len() implies !d[a.spans[k].1 - 1] by {
            assert(!p[b.spans[k].1 - 1]);
        }
    }
    assert(voice_covered(d, a)) by {
        assert forall|j: int| 0 <= j < d.len() && !#[trigger] d[j] implies covered_by(a.spans, j) || (
        a.start <= j < a.stop) by {
            assert(!p[j]);
        }
    }
}

/// A silent frame below the threshold keeps `walk_inv`.
proof fn lemma_step_count(p: Seq<bool>, b: FrameState, threshold_ms: nat)
    requires
        walk_inv(p, threshold_ms, b),
        !silence_reached(b.silence, threshold_ms),
    ensures
        walk_inv(p.push(true), threshold_ms, frame_step(b, p.len(), true, threshold_ms)),
{
    let d = p.push(true);
    let i = p.len();
    let a = frame_step(b, i, true, threshold_ms);
    assert forall|j: int| 0 <= j < p.len() implies d[j] == p[j] by {}
    assert forall|k: int| #![trigger a.spans[k]] 0 <= k < a.spans.len() implies !d[a.spans[k].1 - 1] by {
        assert(!p[b.spans[k].1 - 1]);
    }
    assert forall|j: int| 0 <= j < d.len() && !#[trigger] d[j] implies covered_by(a.spans, j) || (
    a.start <= j < a.stop) by {
        assert(!p[j]);
    }
}

/// A voiced frame keeps `walk_inv`.
proof fn lemma_step_voice(p: Seq<bool>, b: FrameState, threshold_ms: nat)
    requires
        walk_inv(p, threshold_ms, b),
    ensures
        walk_inv(p.push(false), threshold_ms, frame_step(b, p.len(), false, threshold_ms)),
{
    let d = p.push(false);
    let i = p.len();
    let a = frame_step(b, i, false, threshold_ms);
    assert forall|j: int| 0 <= j < p.len() implies d[j] == p[j] by {}
    assert forall|k: int| #![trigger a.spans[k]] 0 <= k < a.spans.len() implies !d[a.spans[k].1 - 1] by {
        assert(!p[b.spans[k].1 - 1]);
    }
    assert forall|j: int| 0 <= j < d.len() && !#[trigger] d[j] implies covered_by(a.spans, j) || (
    a.start <= j < a.stop) by {
        if j < i {
            assert(!p[j]);
        }
    }
}

proof fn lemma_walk_inv(d: Seq<bool>, threshold_ms: nat)
    ensures
        walk_inv(d, threshold_ms, frame_walk(d, threshold_ms)),
    decreases d.len(),
{
    if d.len() > 0 {
        let p = d.drop_last();
        lemma_walk_inv(p, threshold_ms);
        let b = frame_walk(p, threshold_ms);
        if !d.last() {
            lemma_step_voice(p, b, threshold_ms);
        } else if silence_reached(b.silence, threshold_ms) && b.stop > b.start {
            lemma_step_close(p, b, threshold_ms);
        } else if silence_reached(b.silence, threshold_ms) {
            lemma_step_skip(p, b, threshold_ms);
        } else {
            lemma_step_count(p, b, threshold_ms);
        }
        assert(p.push(d.last()) =~= d);
    }
}

/// The chunks' frame ranges are non-empty, lie within the frames, come in order, and
/// consecutive chunks are apart by more silence than the threshold.
pub proof fn lemma_chunk_spans_ordered(silent: Seq<bool>, threshold_ms: nat)
    ensures
        spans_ordered(frame_spans(silent, threshold_ms), silent.len(), threshold_ms),
{
    lemma_walk_inv(silent, threshold_ms);
}

/// No voice is lost: every voiced frame lies in one of the chunks.
pub proof fn lemma_voiced_frames_covered(silent: Seq<bool>, threshold_ms: nat)
    ensures
        forall|j: int| 0 <= j < silent.len() && !#[trigger] silent[j] ==> covered_by(frame_spans(silent, threshold_ms), j),
{
    lemma_walk_inv(silent, threshold_ms);
    let s = frame_walk(silent, threshold_ms);
    let spans = frame_spans(silent, threshold_ms);
    assert forall|j: int| 0 <= j < silent.len() && !#[trigger] silent[j] implies covered_by(spans, j) by {
        if s.stop > s.start {
            if covered_by(s.spans, j) {
                lemma_covered_push(s.spans, (s.start, s.stop), j);
            } else {
                lemma_covered_last(s.spans, (s.start, s.stop), j);
            }
        }
    }
}

/// Every chunk ends on a voiced frame.
pub proof fn lemma_chunks_end_voiced(silent: Seq<bool>, threshold_ms: nat)
    ensures
        ends_voiced(silent, frame_spans(silent, threshold_ms)),
{
    lemma_walk_inv(silent, threshold_ms);
    let s = frame_walk(silent, threshold_ms);
    let spans = frame_spans(silent, threshold_ms);
    assert forall|k: int| #![trigger spans[k]] 0 <= k < spans.len() implies !silent[spans[k].1 - 1] by {
        if k < s.spans.len() {
            assert(spans[k] == s.spans[k]);
        }
    }
}

/// A chunk never ends on a frame of zero samples, whatever the detector says.
pub proof fn lemma_chunks_never_end_on_zeros(silent: Seq<bool>, samples: Seq<i16>, threshold_ms: nat)
    requires
        decisions_fit(silent, samples),
    ensures
        forall|k: int| #![trigger frame_spans(silent, threshold_ms)[k]]
            0 <= k < frame_spans(silent, threshold_ms).len() ==> !frame_is_zero(
                samples,
                frame_spans(silent, threshold_ms)[k].1 - 1,
            ),
{
    lemma_chunks_end_voiced(silent, threshold_ms);
    lemma_chunk_spans_ordered(silent, threshold_ms);
    let spans = frame_spans(silent, threshold_ms);
    assert forall|k: int| #![trigger spans[k]] 0 <= k < spans.len() implies !frame_is_zero(samples, spans[k].1 - 1) by {
        assert(!silent[spans[k].1 - 1]);
    }
}

// ---------------------------------------------------------------------------
// Chunks.
// ---------------------------------------------------------------------------

/// A chunk of voiced audio: its samples, and where it lies in the input, in
/// milliseconds from the start.
#[derive(Debug, PartialEq, Eq)]
pub struct Chunk<'a> {
    pub buf: &'a [i16],
    /// Start of the chunk, in milliseconds.
    pub start: u64,
    /// End of the chunk (exclusive), in milliseconds.
    pub stop: u64,
}

/// `c` is the chunk of `samples` that covers the frames `span.0 .. span.1`.
pub open spec fn chunk_matches(c: Chunk, samples: Seq<i16>, span: (nat, nat)) -> bool {
    &&& c.buf@ == samples.subrange(span.0 * FRAME_SAMPLES, span.1 * FRAME_SAMPLES)
    &&& c.start == span.0 * FRAME_MS
    &&& c.stop == span.1 * FRAME_MS
}

/// `chunks` are, in order, the chunks of `samples` that cover the frame ranges `spans`.
pub open spec fn chunks_match(chunks: Seq<Chunk>, samples: Seq<i16>, spans: Seq<(nat, nat)>) -> bool {
    &&& chunks.len() == spans.len()
    &&& forall|k: int| 0 <= k < chunks.len() ==> chunk_matches(#[trigger] chunks[k], samples, spans[k])
}

/// A chunk holds the samples of its time range, 16 per millisecond.
pub proof fn lemma_chunk_samples_match_times(c: Chunk, samples: Seq<i16>, span: (nat, nat))
    requires
        chunk_matches(c, samples, span),
        span.0 <= span.1,
        span.1 * FRAME_SAMPLES <= samples.len(),
    ensures
        c.start <= c.stop,
        c.buf@.len() == (c.stop - c.start) * SAMPLES_PER_MS,
        c.buf@ == samples.subrange(c.start * SAMPLES_PER_MS, c.stop * SAMPLES_PER_MS),
{
}

/// The chunk of `samples` covering the frames `start_frame .. stop_frame`.
fn frame_range_chunk<'b>(samples: &'b [i16], start_frame: usize, stop_frame: usize) -> (c: Chunk<'b>)
    requires
        start_frame <= stop_frame,
        stop_frame * FRAME_SAMPLES <= samples@.len(),
    ensures
        chunk_matches(c, samples@, (start_frame as nat, stop_frame as nat)),
{
    let len = samples.len();
    assert(len == samples@.len());
    assert(stop_frame * FRAME_MS <= u64::MAX);
    let first = start_frame * FRAME_SAMPLES;
    let last = stop_frame * FRAME_SAMPLES;
    Chunk {
        buf: &samples[first..last],
        start: start_frame as u64 * FRAME_MS as u64,
        stop: stop_frame as u64 * FRAME_MS as u64,
    }
}

/// The running state of the chunking walk.
pub struct State<'a> {
    pub chunks: Vec<Chunk<'a>>,
    pub curr_segment_start: usize,
    pub curr_segment_stop: usize,
    pub curr_silence_len: usize,
}

impl<'a> State<'a> {
    /// Whether the chunk being gathered holds a voiced frame.
    pub fn current_has_sound(&self) -> (b: bool)
        ensures
            b == (self.curr_segment_stop > self.curr_segment_start),
    {
        self.curr_segment_stop > self.curr_segment_start
    }

    /// This state is the exec form of `fs` over `samples`.
    pub open spec fn models(&self, fs: FrameState, samples: Seq<i16>) -> bool {
        &&& self.curr_segment_start == fs.start
        &&& self.curr_segment_stop == fs.stop
        &&& self.curr_silence_len == fs.silence
        &&& chunks_match(self.chunks@, samples, fs.spans)
    }
}

/// The chunks of `samples` that the per-frame decisions `silent` give, with
/// `silence_threshold_ms` as the silence needed to close a chunk.
pub fn chunks_from_decisions<'b>(samples: &'b [i16], silent: &Vec<bool>, silence_threshold_ms: u64) -> (res: Vec<Chunk<'b>>)
    requires
        silent@.len() <= samples@.len() / (FRAME_SAMPLES as nat),
    ensures
        chunks_match(res@, samples@, frame_spans(silent@, silence_threshold_ms as nat)),
{
    let ghost thr = silence_threshold_ms as nat;
    let mut state = State { chunks: Vec::new(), curr_segment_start: 0, curr_segment_stop: 0, curr_silence_len: 0 };
    let n = silent.len();
    let mut i: usize = 0;
    let len = samples.len();
    assert(len == samples@.len());
    assert(silent@.take(0) =~= Seq::<bool>::empty());
    while i < n
        invariant
            n == silent@.len(),
            n * FRAME_SAMPLES <= samples@.len(),
            len == samples@.len(),
            thr == silence_threshold_ms as nat,
            i <= n,
            state.curr_segment_start <= i,
            state.curr_segment_stop <= i,
            state.curr_silence_len <= i,
            state.models(frame_walk(silent@.take(i as int), thr), samples@),
        decreases n - i,
    {
        let ghost before = frame_walk(silent@.take(i as int), thr);
        assert(silent@.take(i + 1).drop_last() =~= silent@.take(i as int));
        assert(silent@.take(i + 1).last() == silent@[i as int]);
        let ghost after = frame_step(before, i as nat, silent@[i as int], thr);
        assert(frame_walk(silent@.take(i + 1), thr) == after);
        let ghost old_chunks = state.chunks@;
        let is_silent = silent[i];
        let silence_ms = state.curr_silence_len * FRAME_MS;
        assert(silence_ms as u64 == silence_ms);
        let reached = is_silent && silence_ms as u64 >= silence_threshold_ms;
        if is_silent && reached {
            if state.current_has_sound() {
                let c = frame_range_chunk(samples, state.curr_segment_start, state.curr_segment_stop);
                state.chunks.push(c);
                assert(state.chunks@ == old_chunks.push(c));
            }
            state.curr_segment_start = i + 1;
        } else if is_silent {
            state.curr_silence_len = state.curr_silence_len + 1;
        } else {
            state.curr_silence_len = 0;
            state.curr_segment_stop = i + 1;
        }
        i = i + 1;
    }
    assert(silent@.take(n as int) =~= silent@);
    if state.current_has_sound() {
        let c = frame_range_chunk(samples, state.curr_segment_start, state.curr_segment_stop);
        state.chunks.push(c);
    }
    state.chunks
}

// ---------------------------------------------------------------------------
// The voice activity detector.
// ---------------------------------------------------------------------------

#[verifier::external_type_specification]
#[verifier::external_body]
pub struct ExVad(webrtc_vad::Vad);

/// The sample rate, in Hz, that the voice activity detector `vad` was set to.
pub uninterp spec fn vad_sample_rate(vad: webrtc_vad::Vad) -> int;

/// The operating mode, 0 to 3, that the voice activity detector `vad` was set to.
pub uninterp spec fn vad_mode_level(vad: webrtc_vad::Vad) -> int;

/// The frames that the voice activity detector `vad` has judged since it was made,
/// in order.
pub uninterp spec fn vad_frames(vad: webrtc_vad::Vad) -> Seq<Seq<i16>>;

/// Whether a detector made at `rate` Hz in mode `mode` finds voice in the last of
/// `frames`, having judged all of them in order since it was made.
pub uninterp spec fn vad_voice_verdict(rate: int, mode: int, frames: Seq<Seq<i16>>) -> bool;

/// Sample rates that the voice activity detector accepts.
#[derive(Clone, Copy, Debug, PartialEq, Eq)]
pub enum SampleRate {
    Rate8kHz,
    Rate16kHz,
    Rate32kHz,
    Rate48kHz,
}

pub open spec fn sample_rate_hz(rate: SampleRate) -> int {
    match rate {
        SampleRate::Rate8kHz => 8000,
        SampleRate::Rate16kHz => 16000,
        SampleRate::Rate32kHz => 32000,
        SampleRate::Rate48kHz => 48000,
    }
}

/// Operating modes of the voice activity detector, from the one that reports voice
/// most readily to the most restrictive.
#[derive(Clone, Copy, Debug, PartialEq, Eq)]
pub enum VadMode {
    Quality,
    LowBitrate,
    Aggressive,
    VeryAggressive,
}

/// The detector's number for a mode.
pub open spec fn mode_level(mode: VadMode) -> int {
    match mode {
        VadMode::Quality => 0,
        VadMode::LowBitrate => 1,
        VadMode::Aggressive => 2,
        VadMode::VeryAggressive => 3,
    }
}

/// A frame of `len` samples is one that the detector accepts at `rate` Hz: 10, 20 or
/// 30 ms of audio.
pub open spec fn valid_frame_len(rate: int, len: int) -> bool {
    len == rate / 1000 * 10 || len == rate / 1000 * 20 || len == rate / 1000 * 30
}

/// `webrtc_vad::Vad::new_with_rate_and_mode`: a new detector set to `rate` and `mode`,
/// which has judged no frame yet. Its source panics only when the C allocation fails.
#[verifier::external_body]
fn vad_new(rate: SampleRate, mode: VadMode) -> (vad: webrtc_vad::Vad)
    ensures
        vad_sample_rate(vad) == sample_rate_hz(rate),
        vad_mode_level(vad) == mode_level(mode),
        vad_frames(vad) == Seq::<Seq<i16>>::empty(),
{
    let rate = match rate {
        SampleRate::Rate8kHz => webrtc_vad::SampleRate::Rate8kHz,
        SampleRate::Rate16kHz => webrtc_vad::SampleRate::Rate16kHz,
        SampleRate::Rate32kHz => webrtc_vad::SampleRate::Rate32kHz,
        SampleRate::Rate48kHz => webrtc_vad::SampleRate::Rate48kHz,
    };
    let mode = match mode {
        VadMode::Quality => webrtc_vad::VadMode::Quality,
        VadMode::LowBitrate => webrtc_vad::VadMode::LowBitrate,
        VadMode::Aggressive => webrtc_vad::VadMode::Aggressive,
        VadMode::VeryAggressive => webrtc_vad::VadMode::VeryAggressive,
    };
    webrtc_vad::Vad::new_with_rate_and_mode(rate, mode)
}

/// `webrtc_vad::Vad::is_voice_segment`: whether `frame` holds voice. The source
/// indexes the first sample (so `frame` must not be empty) and answers `Err`, judging
/// nothing, exactly when the frame is not 10, 20 or 30 ms long at the detector's
/// rate. Otherwise the detector judges the frame, which updates its state: its
/// answer rests on its rate, its mode and every frame it has judged, named by
/// `vad_voice_verdict`.
#[verifier::external_body]
fn vad_is_voice(vad: &mut webrtc_vad::Vad, frame: &[i16]) -> (res: Result<bool, ()>)
    requires
        frame@.len() > 0,
    ensures
        vad_sample_rate(*final(vad)) == vad_sample_rate(*old(vad)),
        vad_mode_level(*final(vad)) == vad_mode_level(*old(vad)),
        res is Err <==> !valid_frame_len(vad_sample_rate(*old(vad)), frame@.len() as int),
        res is Err ==> vad_frames(*final(vad)) == vad_frames(*old(vad)),
        res is Ok ==> vad_frames(*final(vad)) == vad_frames(*old(vad)).push(frame@),
        res is Ok ==> res == Ok::<bool, ()>(
            vad_voice_verdict(
                vad_sample_rate(*old(vad)),
                vad_mode_level(*old(vad)),
                vad_frames(*old(vad)).push(frame@),
            ),
        ),
{
    vad.is_voice_segment(frame)
}

/// Whether every sample of `frame` is zero.
fn all_zero(frame: &[i16]) -> (b: bool)
    ensures
        b == (forall|j: int| 0 <= j < frame@.len() ==> frame@[j] == 0),
{
    let mut i: usize = 0;
    while i < frame.len()
        invariant
            i <= frame@.len(),
            forall|j: int| 0 <= j < i ==> frame@[j] == 0,
        decreases frame@.len() - i,
    {
        if frame[i] != 0 {
            return false;
        }
        i = i + 1;
    }
    true
}

/// The samples of frame `i`.
pub open spec fn frame_at(samples: Seq<i16>, i: int) -> Seq<i16> {
    samples.subrange(i * FRAME_SAMPLES, (i + 1) * FRAME_SAMPLES)
}

/// Judging the first `n` frames of `samples` with a detector at `rate` and `mode`
/// that has judged `heard` before: frames of zeros are silent and not handed to
/// the detector; each other frame is handed to it and is silent when it finds no
/// voice. Gives the decisions and the frames the detector has judged afterwards.
pub open spec fn detector_walk(heard: Seq<Seq<i16>>, samples: Seq<i16>, n: nat, rate: int, mode: int) -> (Seq<bool>, Seq<Seq<i16>>)
    decreases n,
{
    if n == 0 {
        (Seq::empty(), heard)
    } else {
        let (d, h) = detector_walk(heard, samples, (n - 1) as nat, rate, mode);
        let f = frame_at(samples, n - 1);
        if frame_is_zero(samples, n - 1) {
            (d.push(true), h)
        } else {
            (d.push(!vad_voice_verdict(rate, mode, h.push(f))), h.push(f))
        }
    }
}

/// The decisions of a detector walk have one entry per frame, and frames of zeros
/// are silent.
pub proof fn lemma_detector_walk_fits(heard: Seq<Seq<i16>>, samples: Seq<i16>, rate: int, mode: int)
    ensures
        decisions_fit(
            detector_walk(heard, samples, samples.len() / (FRAME_SAMPLES as nat), rate, mode).0,
            samples,
        ),
{
    lemma_detector_walk_prefix(heard, samples, samples.len() / (FRAME_SAMPLES as nat), rate, mode);
}

proof fn lemma_detector_walk_prefix(heard: Seq<Seq<i16>>, samples: Seq<i16>, n: nat, rate: int, mode: int)
    ensures
        detector_walk(heard, samples, n, rate, mode).0.len() == n,
        forall|i: int| 0 <= i < n && frame_is_zero(samples, i) ==> #[trigger] detector_walk(heard, samples, n, rate, mode).0[i],
    decreases n,
{
    if n > 0 {
        lemma_detector_walk_prefix(heard, samples, (n - 1) as nat, rate, mode);
        let d = detector_walk(heard, samples, (n - 1) as nat, rate, mode).0;
        let dn = detector_walk(heard, samples, n, rate, mode).0;
        assert forall|i: int| 0 <= i < n - 1 implies #[trigger] dn[i] == d[i] by {}
        assert forall|i: int| 0 <= i < n && frame_is_zero(samples, i) implies #[trigger] dn[i] by {
            if i < n - 1 {
                assert(dn[i] == d[i]);
            }
        }
    }
}

/// The frames among the first `k` of `samples` that are not all zeros, in order.
pub open spec fn heard_frames(samples: Seq<i16>, k: nat) -> Seq<Seq<i16>> {
    Seq::new(k, |j: int| j).filter(|j: int| !frame_is_zero(samples, j)).map_values(|j: int| frame_at(samples, j))
}

/// One more frame adds itself to `heard_frames` exactly when it is not all zeros.
proof fn lemma_heard_frames_step(samples: Seq<i16>, k: nat)
    ensures
        heard_frames(samples, k + 1) == if frame_is_zero(samples, k as int) {
            heard_frames(samples, k)
        } else {
            heard_frames(samples, k).push(frame_at(samples, k as int))
        },
{
    let pred = |j: int| !frame_is_zero(samples, j);
    let idx = Seq::new(k + 1, |j: int| j);
    assert(idx.drop_last() =~= Seq::new(k, |j: int| j));
    assert(idx.last() == k as int);
    reveal(Seq::filter);
    assert(idx.filter(pred) == if pred(idx.last()) {
        idx.drop_last().filter(pred).push(idx.last())
    } else {
        idx.drop_last().filter(pred)
    });
    let f = Seq::new(k, |j: int| j).filter(pred);
    if !frame_is_zero(samples, k as int) {
        assert(f.push(k as int).map_values(|j: int| frame_at(samples, j)) =~= f.map_values(
            |j: int| frame_at(samples, j),
        ).push(frame_at(samples, k as int)));
    }
}

/// What the detector decides: every frame that is not all zeros is handed to the
/// detector, in order, after the frames it had heard before; such a frame is silent
/// exactly when the detector finds no voice in it, having heard the earlier ones; a
/// frame of zeros is silent and is not handed over. Afterwards the detector has
/// heard the frames it had heard before, then the frames that are not all zeros.
pub proof fn lemma_detector_walk_verdicts(heard: Seq<Seq<i16>>, samples: Seq<i16>, n: nat, rate: int, mode: int)
    ensures
        detector_walk(heard, samples, n, rate, mode).1 == heard + heard_frames(samples, n),
        detector_walk(heard, samples, n, rate, mode).0.len() == n,
        forall|i: int| #![trigger detector_walk(heard, samples, n, rate, mode).0[i]]
            0 <= i < n ==> detector_walk(heard, samples, n, rate, mode).0[i] == (frame_is_zero(samples, i)
                || !vad_voice_verdict(rate, mode, heard + heard_frames(samples, (i + 1) as nat))),
    decreases n,
{
    if n == 0 {
        assert(Seq::new(0, |j: int| j).filter(|j: int| !frame_is_zero(samples, j)) =~= Seq::<int>::empty()) by {
            reveal(Seq::filter);
        }
        assert(heard + heard_frames(samples, 0) =~= heard);
    } else {
        let m = (n - 1) as nat;
        lemma_detector_walk_verdicts(heard, samples, m, rate, mode);
        lemma_heard_frames_step(samples, m);
        let prev = detector_walk(heard, samples, m, rate, mode);
        let cur = detector_walk(heard, samples, n, rate, mode);
        if !frame_is_zero(samples, m as int) {
            assert(heard + heard_frames(samples, n) =~= (heard + heard_frames(samples, m)).push(frame_at(samples, m as int)));
        }
        assert forall|i: int| 0 <= i < n implies #[trigger] cur.0[i] == (frame_is_zero(samples, i)
            || !vad_voice_verdict(rate, mode, heard + heard_frames(samples, (i + 1) as nat))) by {
            if i < m {
                assert(cur.0[i] == prev.0[i]);
            }
        }
    }
}

/// Splits 16 kHz mono audio into voiced chunks.
pub struct Chunker {
    /// Amount of voice inactivity, in milliseconds, required between sentences to
    /// create separate chunks.
    silence_threshold_ms: u64,
    vad: webrtc_vad::Vad,
}

impl Chunker {
    /// The silence, in milliseconds, that closes a chunk.
    pub closed spec fn silence_threshold(&self) -> nat {
        self.silence_threshold_ms as nat
    }

    /// The detector's mode.
    pub closed spec fn detector_mode(&self) -> int {
        vad_mode_level(self.vad)
    }

    /// The frames the detector has judged since the chunker was made.
    pub closed spec fn frames_heard(&self) -> Seq<Seq<i16>> {
        vad_frames(self.vad)
    }

    /// The detector works at 16 kHz.
    pub closed spec fn well_formed(&self) -> bool {
        vad_sample_rate(self.vad) == 16000
    }

    /// A chunker whose detector works at 16 kHz in `vad_mode`, closing chunks after
    /// `silence_threshold_ms` of silence.
    pub fn new(silence_threshold_ms: u64, vad_mode: VadMode) -> (c: Chunker)
        ensures
            c.well_formed(),
            c.silence_threshold() == silence_threshold_ms,
            c.detector_mode() == mode_level(vad_mode),
            c.frames_heard() == Seq::<Seq<i16>>::empty(),
    {
        let vad = vad_new(SampleRate::Rate16kHz, vad_mode);
        Chunker { silence_threshold_ms, vad }
    }

    /// The voiced chunks of `bytes`, in order. The audio is read in whole frames of
    /// `FRAME_SAMPLES` samples (a shorter tail is ignored); a frame of zeros is
    /// silent, and each other frame is handed to the detector, in order, and is
    /// silent when the detector finds no voice in it. The detector keeps its state
    /// from one call to the next.
    pub fn get_silence_chunks<'b>(&mut self, bytes: &'b [i16]) -> (res: Vec<Chunk<'b>>)
        requires
            old(self).well_formed(),
        ensures
            final(self).well_formed(),
            final(self).silence_threshold() == old(self).silence_threshold(),
            final(self).detector_mode() == old(self).detector_mode(),
            ({
                let walk = detector_walk(
                    old(self).frames_heard(),
                    bytes@,
                    bytes@.len() / (FRAME_SAMPLES as nat),
                    16000,
                    old(self).detector_mode(),
                );
                &&& final(self).frames_heard() == walk.1
                &&& chunks_match(res@, bytes@, frame_spans(walk.0, old(self).silence_threshold()))
            }),
            final(self).frames_heard() == old(self).frames_heard() + heard_frames(
                bytes@,
                bytes@.len() / (FRAME_SAMPLES as nat),
            ),
    {
        let len = bytes.len();
        let n = len / FRAME_SAMPLES;
        assert(n * FRAME_SAMPLES <= len);
        let ghost heard = self.frames_heard();
        let ghost mode = self.detector_mode();
        let mut silent: Vec<bool> = Vec::new();
        let mut i: usize = 0;
        assert(silent@ =~= Seq::<bool>::empty());
        while i < n
            invariant
                n == bytes@.len() / (FRAME_SAMPLES as nat),
                len == bytes@.len(),
                n * FRAME_SAMPLES <= len,
                i <= n,
                self.well_formed(),
                self.silence_threshold() == old(self).silence_threshold(),
                self.detector_mode() == mode,
                detector_walk(heard, bytes@, i as nat, 16000, mode) == (silent@, self.frames_heard()),
            decreases n - i,
        {
            let frame = &bytes[i * FRAME_SAMPLES..(i + 1) * FRAME_SAMPLES];
            assert(frame@ == frame_at(bytes@, i as int));
            let zero = all_zero(frame);
            proof {
                if zero {
                    assert forall|j: int| i * FRAME_SAMPLES <= j < (i + 1) * FRAME_SAMPLES implies bytes@[j] == 0 by {
                        assert(bytes@[j] == frame@[j - i * FRAME_SAMPLES]);
                    }
                } else {
                    let j = choose|j: int| 0 <= j < frame@.len() && frame@[j] != 0;
                    assert(bytes@[i * FRAME_SAMPLES + j] == frame@[j]);
                }
            }
            let is_silent = if zero {
                true
            } else {
                match vad_is_voice(&mut self.vad, frame) {
                    Ok(voice) => !voice,
                    Err(_) => {
                        // a 16 kHz detector takes 320-sample frames
                        assert(valid_frame_len(16000, FRAME_SAMPLES as int));
                        assert(false);
                        true
                    },
                }
            };
            silent.push(is_silent);
            i = i + 1;
        }
        proof {
            lemma_detector_walk_prefix(heard, bytes@, n as nat, 16000, mode);
            lemma_detector_walk_verdicts(heard, bytes@, n as nat, 16000, mode);
        }
        chunks_from_decisions(bytes, &silent, self.silence_threshold_ms)
    }
}

} // verus!
