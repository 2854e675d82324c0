//! Core data structures describing the state of an audio editing project.
//!
//! The model supports a three-phase workflow: an audio file is broken into
//! `Split`s based on silence and consolidated; each `Split` is transcribed
//! into a `Clip`; and `Clip`s are grouped into `Chunk`s for presentation.

use vstd::prelude::*;

verus! {

/// The entire state of a `shutri` project: the original source file and the
/// evolution of the audio data through splits, clips, and chunks.
pub struct Project {
    /// The name of the project, typically derived from the original audio file.
    pub name: String,
    /// The path to the original imported audio file.
    pub original_audio_path: String,
    /// The manifest of audio splits after pre-processing.
    pub splits: Vec<Split>,
    /// The list of transcribed clips generated from the splits.
    pub clips: Vec<Clip>,
    /// The structured list of chunks that group clips for presentation.
    pub chunks: Vec<Chunk>,
}

/// A segment of audio created by splitting the source file at silences,
/// tracked with its position within the original recording.
pub struct Split {
    /// The path to the audio file for this split.
    pub file_path: String,
    /// The duration of the split in milliseconds.
    pub duration_ms: u64,
    /// Start offset from the beginning of the original audio, in milliseconds.
    pub start_time_ms: u64,
    /// End offset from the beginning of the original audio, in milliseconds.
    pub end_time_ms: u64,
}

/// A transcribed piece of text corresponding to a `Split`. Its timestamps are
/// offsets from the start of the original recording, in whole milliseconds.
pub struct Clip {
    /// Start offset from the beginning of the original audio, in milliseconds.
    pub start_time_ms: u64,
    /// End offset from the beginning of the original audio, in milliseconds.
    pub end_time_ms: u64,
    /// The transcribed text of the clip.
    pub text: String,
}

/// A logical grouping of consecutive `Clip`s for presentation: not a separate
/// audio file, only a container bounded by a target duration.
pub struct Chunk {
    /// The start time of the chunk, determined by the first clip it contains.
    pub start_time_ms: u64,
    /// The end time of the chunk, determined by the last clip it contains.
    pub end_time_ms: u64,
    /// The clips that belong to this chunk.
    pub clips: Vec<Clip>,
}

impl Clone for Clip {
    /// A copy of the clip: the same timestamps and the same text.
    fn clone(&self) -> (r: Self)
        ensures
            r == *self,
    {
        Clip {
            start_time_ms: self.start_time_ms,
            end_time_ms: self.end_time_ms,
            text: self.text.clone(),
        }
    }
}

impl Clip {
    /// How long the clip lasts, as a mathematical integer.
    pub open spec fn spec_duration(self) -> int {
        self.end_time_ms - self.start_time_ms
    }

    /// A clip is well-formed when it does not end before it starts.
    pub open spec fn wf(self) -> bool {
        self.start_time_ms <= self.end_time_ms
    }
}

/// Total duration of a sequence of clips.
pub open spec fn clips_duration(clips: Seq<Clip>) -> int
    decreases clips.len(),
{
    if clips.len() == 0 {
        0
    } else {
        clips_duration(clips.drop_last()) + clips.last().spec_duration()
    }
}

/// A clip sequence is well-formed when every clip is well-formed and the
/// clips are contiguous: each clip starts exactly where its predecessor ends.
pub open spec fn clips_wf(clips: Seq<Clip>) -> bool {
    &&& forall|i: int| 0 <= i < clips.len() ==> (#[trigger] clips[i]).wf()
    &&& forall|i: int| 0 < i < clips.len() ==> (#[trigger] clips[i]).start_time_ms == clips[i - 1].end_time_ms
}

/// For a well-formed, non-empty clip sequence the total duration telescopes
/// to the distance between the first start and the last end.
pub proof fn lemma_clips_duration_telescopes(clips: Seq<Clip>)
    requires
        clips_wf(clips),
        clips.len() > 0,
    ensures
        clips_duration(clips) == clips.last().end_time_ms - clips[0].start_time_ms,
    decreases clips.len(),
{
    let d = clips.drop_last();
    assert(clips_duration(clips) == clips_duration(d) + clips.last().spec_duration());
    if clips.len() > 1 {
        assert(forall|i: int| 0 <= i < d.len() ==> (#[trigger] d[i]) == clips[i]);
        assert(clips_wf(d));
        lemma_clips_duration_telescopes(d);
        assert(clips_duration(d) == d.last().end_time_ms - d[0].start_time_ms);
        assert(d.last() == clips[clips.len() - 2]);
        assert(clips.last().start_time_ms == d.last().end_time_ms);
        assert(d[0] == clips[0]);
    } else {
        assert(clips_duration(d) == 0);
        assert(clips[0] == clips.last());
    }
}

} // verus!
