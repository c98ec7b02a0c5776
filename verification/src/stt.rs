//! Transcripts: the timed utterances that speech recognition gives for an audio file.
use vstd::prelude::*;
use std::time::Duration;

verus! {

/// One recognised utterance; times are in the recogniser's units (10 ms).
#[derive(Debug)]
pub struct Utternace {
    pub start: i64,
    pub stop: i64,
    pub text: String,
}

/// The utterances of an audio file, in order, and the time recognition took.
#[derive(Debug)]
pub struct Transcript {
    pub utterances: Vec<Utternace>,
    pub processing_time: Duration,
}

/// The model a transcript was made with.
#[derive(Debug)]
pub struct ModelInfo {
    pub file_name: String,
    pub size: usize,
    pub sha256: String,
}

/// Why no transcript was made.
#[derive(Clone, Copy, Debug, PartialEq, Eq, Structural)]
pub enum SttError {
    /// Recognition gave no segment at all.
    NoSegments,
}

impl SttError {
    /// A message for people.
    pub fn message(&self) -> (s: &'static str)
        ensures
            s@ == "failed to get any segments"@,
    {
        match self {
            SttError::NoSegments => "failed to get any segments",
        }
    }
}

/// The transcript made of the recognised `segments`, in order; recognition that
/// gave no segment gives no transcript.
pub fn transcript_from_segments(segments: Vec<Utternace>, processing_time: Duration) -> (res: Result<Transcript, SttError>)
    ensures
        res is Err <==> segments@.len() == 0,
        res matches Err(e) ==> e == SttError::NoSegments,
        res matches Ok(t) ==> t.utterances@ == segments@ && t.processing_time == processing_time,
{
    if segments.len() == 0 {
        return Err(SttError::NoSegments);
    }
    Ok(Transcript { utterances: segments, processing_time })
}

} // verus!
