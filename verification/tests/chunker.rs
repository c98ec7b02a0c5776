use jupiter_search::chunker::{chunks_from_decisions, Chunk, Chunker, VadMode, FRAME_SAMPLES};
use webrtc_vad::{SampleRate, Vad};

#[test]
fn test_name() {
    let sound1: [i16; FRAME_SAMPLES] = (0_i16..FRAME_SAMPLES as i16)
        .collect::<Vec<i16>>()
        .try_into()
        .expect("wrong size iterator");
    let sound2: [i16; FRAME_SAMPLES] = (1_i16..=FRAME_SAMPLES as i16)
        .collect::<Vec<i16>>()
        .try_into()
        .expect("wrong size iterator");
    let silence_vec = std::iter::repeat(0).take(FRAME_SAMPLES).collect::<Vec<i16>>();

    let silence: [i16; FRAME_SAMPLES] = silence_vec.clone().try_into().unwrap();

    let mut vad = Vad::new_with_rate_and_mode(SampleRate::Rate16kHz, webrtc_vad::VadMode::Quality);
    assert!(vad.is_voice_segment(&sound1).unwrap());
    assert!(vad.is_voice_segment(&sound2).unwrap());

    let mut c = Chunker::new(20, VadMode::Quality);
    assert!(c.get_silence_chunks(&[]).is_empty());
    assert_eq!(
        c.get_silence_chunks(&sound1),
        vec![Chunk { buf: &sound1, start: 0, stop: 20 }]
    );
    assert_eq!(
        c.get_silence_chunks(&[sound1, silence].concat()),
        vec![Chunk { buf: &sound1, start: 0, stop: 20 }]
    );
    assert_eq!(
        c.get_silence_chunks(&[sound1, silence, silence].concat()),
        vec![Chunk { buf: &sound1, start: 0, stop: 20 }]
    );
    assert_eq!(
        c.get_silence_chunks(&[sound1, silence, silence, sound2].concat()),
        vec![
            Chunk { buf: &sound1, start: 0, stop: 20 },
            Chunk { buf: &sound2, start: 60, stop: 80 }
        ]
    );

    let mut silence_in_between = sound1.clone();
    for i in 10..30 {
        silence_in_between[i] = i as i16;
    }

    assert_eq!(
        c.get_silence_chunks(&silence_in_between),
        vec![Chunk { buf: &silence_in_between, start: 0, stop: 20 }]
    );
}

fn ramp(frames: usize) -> Vec<i16> {
    (0..frames * FRAME_SAMPLES).map(|i| (i % 1000) as i16).collect()
}

#[test]
fn decisions_split_on_long_silence() {
    let samples = ramp(4);
    let chunks = chunks_from_decisions(&samples, &vec![false, true, true, false], 20);
    assert_eq!(
        chunks,
        vec![
            Chunk { buf: &samples[0..320], start: 0, stop: 20 },
            Chunk { buf: &samples[960..1280], start: 60, stop: 80 },
        ]
    );
}

#[test]
fn decisions_short_silence_stays_inside_chunk() {
    let samples = ramp(4);
    let chunks = chunks_from_decisions(&samples, &vec![false, true, true, false], 10_000);
    assert_eq!(chunks, vec![Chunk { buf: &samples[..], start: 0, stop: 80 }]);
}

#[test]
fn decisions_one_silent_frame_is_below_threshold() {
    // one silent frame counts as zero silence when it is met, so it never closes a chunk
    let samples = ramp(3);
    let chunks = chunks_from_decisions(&samples, &vec![false, true, false], 20);
    assert_eq!(chunks, vec![Chunk { buf: &samples[..], start: 0, stop: 60 }]);
}

#[test]
fn decisions_zero_threshold_moves_start_past_silence() {
    let samples = ramp(3);
    let chunks = chunks_from_decisions(&samples, &vec![true, false, true], 0);
    assert_eq!(chunks, vec![Chunk { buf: &samples[320..640], start: 20, stop: 40 }]);
}

#[test]
fn decisions_leading_silence_below_threshold_is_kept() {
    let samples = ramp(2);
    let chunks = chunks_from_decisions(&samples, &vec![true, false], 20);
    assert_eq!(chunks, vec![Chunk { buf: &samples[..], start: 0, stop: 40 }]);
}

#[test]
fn decisions_all_silent_give_no_chunk() {
    let samples = ramp(5);
    assert!(chunks_from_decisions(&samples, &vec![true; 5], 20).is_empty());
    assert!(chunks_from_decisions(&samples, &vec![], 20).is_empty());
}

#[test]
fn decisions_all_voiced_give_one_chunk() {
    let samples = ramp(5);
    let chunks = chunks_from_decisions(&samples, &vec![false; 5], 20);
    assert_eq!(chunks, vec![Chunk { buf: &samples[..], start: 0, stop: 100 }]);
}

#[test]
fn zeros_and_partial_frames_are_never_chunked() {
    let mut c = Chunker::new(20, VadMode::Quality);
    let zeros = vec![0i16; 3 * FRAME_SAMPLES];
    assert!(c.get_silence_chunks(&zeros).is_empty());
    let short: Vec<i16> = (1..FRAME_SAMPLES as i16).collect();
    assert!(c.get_silence_chunks(&short).is_empty());
}

#[test]
fn tail_shorter_than_a_frame_is_ignored() {
    let sound: Vec<i16> = (0..FRAME_SAMPLES as i16).collect();
    let mut input = sound.clone();
    input.extend_from_slice(&sound[..100]);
    let mut c = Chunker::new(20, VadMode::Quality);
    assert_eq!(
        c.get_silence_chunks(&input),
        vec![Chunk { buf: &input[..FRAME_SAMPLES], start: 0, stop: 20 }]
    );
}

#[test]
fn threshold_counts_twenty_ms_per_silent_frame() {
    let samples = ramp(7);
    let mut five = vec![false];
    five.extend(vec![true; 5]);
    five.push(false);
    let one = chunks_from_decisions(&samples, &five, 100);
    assert_eq!(one, vec![Chunk { buf: &samples[..], start: 0, stop: 140 }]);

    let samples = ramp(8);
    let mut six = vec![false];
    six.extend(vec![true; 6]);
    six.push(false);
    let two = chunks_from_decisions(&samples, &six, 100);
    assert_eq!(
        two,
        vec![
            Chunk { buf: &samples[0..320], start: 0, stop: 20 },
            Chunk { buf: &samples[7 * 320..8 * 320], start: 140, stop: 160 },
        ]
    );
}
