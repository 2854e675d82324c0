//! The text domain: turning probed split durations into time-stamped
//! transcription clips, grouping clips into bounded display chunks, and
//! rendering the result as a human-editable document.

use vstd::prelude::*;
use crate::project::Chunk;
use crate::project::Clip;
use crate::project::clips_duration;
use crate::project::clips_wf;
use crate::project::lemma_clips_duration_telescopes;
use crate::numerals::spec_dec;
use crate::numerals::spec_pad2;
use crate::numerals::spec_pad3;
use crate::numerals::all_digits;
use crate::numerals::dec_val;
use crate::numerals::append_dec;
use crate::numerals::append_pad2;
use crate::numerals::append_pad3;
use crate::numerals::digit_of_char;
use crate::numerals::digit_val;
use crate::numerals::lemma_dec_val_nonneg;
use crate::numerals::lemma_dec_val_of_spec_pad2;
use crate::numerals::lemma_dec_val_of_spec_pad3;
use crate::numerals::lemma_dec_val_prefix_le;
use crate::numerals::lemma_dec_val_take_step;

verus! {

/// Target duration of one display chunk, in milliseconds.
pub const TARGET_CHUNK_DURATION_MS: u64 = 60000;

// --- Chunking ---

/// The clips of a chunk sequence, concatenated in order.
pub open spec fn chunks_clips(chunks: Seq<Chunk>) -> Seq<Clip>
    decreases chunks.len(),
{
    if chunks.len() == 0 {
        Seq::empty()
    } else {
        chunks[0].clips@ + chunks_clips(chunks.drop_first())
    }
}

/// Appending a chunk appends its clips.
pub proof fn lemma_chunks_clips_push(chunks: Seq<Chunk>, c: Chunk)
    ensures
        chunks_clips(chunks.push(c)) == chunks_clips(chunks) + c.clips@,
    decreases chunks.len(),
{
    reveal_with_fuel(chunks_clips, 3);
    let p = chunks.push(c);
    if chunks.len() == 0 {
        assert(p.drop_first() =~= Seq::<Chunk>::empty());
        assert(chunks_clips(p) =~= chunks_clips(chunks) + c.clips@);
    } else {
        assert(p[0] == chunks[0]);
        assert(p.drop_first() =~= chunks.drop_first().push(c));
        lemma_chunks_clips_push(chunks.drop_first(), c);
        assert(chunks_clips(p) =~= chunks_clips(chunks) + c.clips@);
    }
}

/// A chunk is well-formed against a target duration: it holds at least one
/// clip, its start and end times are the first clip's start and the last
/// clip's end, and when it holds more than one clip its total duration is
/// within the target. A chunk with a single clip may exceed the target only
/// because that clip alone does: clips are never split.
pub open spec fn chunk_wf(c: Chunk, target_ms: u64) -> bool {
    &&& c.clips@.len() > 0
    &&& c.start_time_ms == c.clips@[0].start_time_ms
    &&& c.end_time_ms == c.clips@.last().end_time_ms
    &&& (c.clips@.len() > 1 ==> clips_duration(c.clips@) <= target_ms)
}

/// The greedy close-before-overflow rule leaves no room between chunks:
/// the first clip of each chunk would have overflowed the chunk before it.
pub open spec fn chunks_greedy(chunks: Seq<Chunk>, target_ms: u64) -> bool {
    forall|i: int|
        0 <= i < chunks.len() - 1 ==> clips_duration((#[trigger] chunks[i]).clips@)
            + chunks[i + 1].clips@[0].spec_duration() > target_ms
}

/// Groups a contiguous clip sequence into chunks, leaving the input
/// untouched.
///
/// A single forward pass accumulates a current chunk; when the chunk is
/// non-empty and the next clip would push its running duration past the
/// target, the chunk is finalized and a new one starts. The returned chunks
/// partition the input exactly: concatenating their clip sequences in order
/// reproduces the input, with no clip dropped, duplicated, or reordered.
pub fn chunk_clips(clips: &Vec<Clip>) -> (r: Vec<Chunk>)
    requires
        clips_wf(clips@),
    ensures
        chunks_clips(r@) == clips@,
        forall|i: int| 0 <= i < r@.len() ==> chunk_wf(#[trigger] r@[i], TARGET_CHUNK_DURATION_MS),
        chunks_greedy(r@, TARGET_CHUNK_DURATION_MS),
        r@.len() == 0 <==> clips@.len() == 0,
{
    let mut chunks: Vec<Chunk> = Vec::new();
    let mut current: Vec<Clip> = Vec::new();
    let mut current_duration: u64 = 0;
    let mut i: usize = 0;
    while i < clips.len()
        invariant
            i <= clips@.len(),
            clips_wf(clips@),
            clips_wf(current@),
            chunks_clips(chunks@) + current@ == clips@.take(i as int),
            current_duration == clips_duration(current@),
            current@.len() > 1 ==> current_duration <= TARGET_CHUNK_DURATION_MS,
            current@.len() > 0 && i < clips@.len() ==> clips@[i as int].start_time_ms
                == current@.last().end_time_ms,
            forall|k: int|
                0 <= k < chunks@.len() ==> chunk_wf(
                    #[trigger] chunks@[k],
                    TARGET_CHUNK_DURATION_MS,
                ),
            chunks_greedy(chunks@, TARGET_CHUNK_DURATION_MS),
            chunks@.len() > 0 && current@.len() > 0 ==> clips_duration(
                chunks@.last().clips@,
            ) + current@[0].spec_duration() > TARGET_CHUNK_DURATION_MS,
            chunks@.len() > 0 ==> current@.len() > 0,
            i > 0 ==> current@.len() > 0,
        decreases clips@.len() - i,
    {
        let clip = clips[i].clone();
        let d = clip.end_time_ms - clip.start_time_ms;
        proof {
            if current@.len() > 0 {
                lemma_clips_duration_telescopes(current@);
            }
        }
        if current.len() > 0 && current_duration + d > TARGET_CHUNK_DURATION_MS {
            let first_start = current[0].start_time_ms;
            let last_end = current[current.len() - 1].end_time_ms;
            let finished = Chunk {
                start_time_ms: first_start,
                end_time_ms: last_end,
                clips: current,
            };
            proof {
                lemma_chunks_clips_push(chunks@, finished);
            }
            chunks.push(finished);
            current = Vec::new();
            current_duration = 0;
        }
        let ghost cur_before_push = current@;
        current_duration = current_duration + d;
        current.push(clip);
        i = i + 1;
        proof {
            assert(current@.drop_last() =~= cur_before_push);
            assert(clips_duration(current@) == clips_duration(cur_before_push)
                + clip.spec_duration());
            assert(clips@.take(i as int) =~= clips@.take(i as int - 1).push(
                clips@[i as int - 1],
            ));
            assert(chunks_clips(chunks@) + current@ =~= clips@.take(i as int));
            assert(clips_wf(current@)) by {
                assert(forall|k: int|
                    0 <= k < current@.len() - 1 ==> (#[trigger] current@[k])
                        == cur_before_push[k]);
            }
        }
    }
    assert(clips@.take(i as int) =~= clips@);
    if current.len() > 0 {
        let first_start = current[0].start_time_ms;
        let last_end = current[current.len() - 1].end_time_ms;
        let finished = Chunk {
            start_time_ms: first_start,
            end_time_ms: last_end,
            clips: current,
        };
        proof {
            lemma_chunks_clips_push(chunks@, finished);
        }
        chunks.push(finished);
        assert(chunks_clips(chunks@) =~= clips@);
    } else {
        assert(chunks_clips(chunks@) =~= clips@);
    }
    chunks
}

// --- Mock clip creation ---

/// Total of a duration sequence, in milliseconds.
pub open spec fn durations_total(durations: Seq<u64>) -> int
    decreases durations.len(),
{
    if durations.len() == 0 {
        0
    } else {
        durations[0] + durations_total(durations.drop_first())
    }
}

/// A duration total splits at any point.
pub proof fn lemma_durations_total_split(durations: Seq<u64>, k: int)
    requires
        0 <= k <= durations.len(),
    ensures
        durations_total(durations) == durations_total(durations.take(k)) + durations_total(
            durations.skip(k),
        ),
    decreases k,
{
    if k == 0 {
        assert(durations.take(0) =~= Seq::<u64>::empty());
        assert(durations.skip(0) =~= durations);
    } else {
        let t = durations.take(k);
        assert(t[0] == durations[0]);
        assert(t.drop_first() =~= durations.drop_first().take(k - 1));
        assert(durations.skip(k) =~= durations.drop_first().skip(k - 1));
        lemma_durations_total_split(durations.drop_first(), k - 1);
    }
}

/// Duration totals are never negative.
pub proof fn lemma_durations_total_nonneg(durations: Seq<u64>)
    ensures
        durations_total(durations) >= 0,
    decreases durations.len(),
{
    if durations.len() > 0 {
        lemma_durations_total_nonneg(durations.drop_first());
    }
}

/// Reading one more duration adds it to the running total.
pub proof fn lemma_durations_total_take_step(durations: Seq<u64>, k: int)
    requires
        0 <= k < durations.len(),
    ensures
        durations_total(durations.take(k + 1)) == durations_total(durations.take(k))
            + durations[k],
{
    reveal_with_fuel(durations_total, 3);
    lemma_durations_total_split(durations.take(k + 1), k);
    assert(durations.take(k + 1).take(k) =~= durations.take(k));
    assert(durations.take(k + 1).skip(k) =~= seq![durations[k]]);
    assert(durations_total(seq![durations[k]]) == durations[k]) by {
        reveal_with_fuel(durations_total, 3);
        assert(seq![durations[k]].drop_first() =~= Seq::<u64>::empty());
    }
}

/// The text of the mock transcription for the split with the given
/// one-based number.
pub open spec fn mock_text(number: int) -> Seq<char> {
    "This is a mock transcription for split #"@ + spec_dec(number) + "."@
}

/// Builds one mock clip per split duration, in order. The clips are
/// contiguous from time zero: each clip starts where its predecessor ended,
/// lasts exactly its split's duration, and carries the mock text numbered
/// from one.
pub fn create_clips_from_splits(durations: &Vec<u64>) -> (r: Vec<Clip>)
    requires
        durations_total(durations@) <= u64::MAX,
    ensures
        r@.len() == durations@.len(),
        clips_wf(r@),
        r@.len() > 0 ==> r@[0].start_time_ms == 0,
        forall|i: int|
            0 <= i < r@.len() ==> (#[trigger] r@[i]).spec_duration() == durations@[i],
        forall|i: int| 0 <= i < r@.len() ==> (#[trigger] r@[i]).text@ == mock_text(i + 1),
    {
    let mut clips: Vec<Clip> = Vec::new();
    let mut current_time_ms: u64 = 0;
    let mut i: usize = 0;
    while i < durations.len()
        invariant
            durations_total(durations@) <= u64::MAX,
            i <= durations@.len(),
            clips@.len() == i,
            current_time_ms == durations_total(durations@.take(i as int)),
            clips_wf(clips@),
            clips@.len() > 0 ==> clips@[0].start_time_ms == 0,
            clips@.len() > 0 ==> clips@.last().end_time_ms == current_time_ms,
            forall|k: int|
                0 <= k < clips@.len() ==> (#[trigger] clips@[k]).spec_duration()
                    == durations@[k],
            forall|k: int| 0 <= k < clips@.len() ==> (#[trigger] clips@[k]).text@ == mock_text(k + 1),
        decreases durations@.len() - i,
    {
        let d = durations[i];
        proof {
            lemma_durations_total_take_step(durations@, i as int);
            lemma_durations_total_split(durations@, i as int + 1);
            lemma_durations_total_nonneg(durations@.skip(i as int + 1));
        }
        let end_time_ms = current_time_ms + d;
        let mut text = String::new();
        text.append("This is a mock transcription for split #");
        append_dec(&mut text, (i as u64) + 1);
        text.append(".");
        assert(text@ =~= mock_text(i as int + 1));
        let clip = Clip { start_time_ms: current_time_ms, end_time_ms, text };
        clips.push(clip);
        current_time_ms = end_time_ms;
        i = i + 1;
        proof {
            assert(forall|k: int|
                0 <= k < clips@.len() - 1 ==> (#[trigger] clips@[k])
                    == clips@.drop_last()[k]);
        }
    }
    clips
}

// --- Timestamps ---

/// The `MM:SS.mmm` rendering of a millisecond offset: minutes zero-padded
/// to at least two digits and unbounded beyond, seconds and milliseconds
/// zero-padded to exactly two and three digits.
pub open spec fn spec_timestamp(ms: int) -> Seq<char>
    recommends
        ms >= 0,
{
    let secs = ms / 1000;
    spec_pad2(secs / 60) + seq![':'] + spec_pad2(secs % 60) + seq!['.'] + spec_pad3(ms % 1000)
}

/// Appends the `MM:SS.mmm` rendering of a millisecond offset.
pub fn append_timestamp(out: &mut String, ms: u64)
    ensures
        final(out)@ == old(out)@ + spec_timestamp(ms as int),
{
    let secs = ms / 1000;
    let millis = ms % 1000;
    let minutes = secs / 60;
    let seconds = secs % 60;
    append_pad2(out, minutes);
    proof {
        reveal_strlit(":");
        reveal_strlit(".");
    }
    out.append(":");
    append_pad2(out, seconds);
    out.append(".");
    append_pad3(out, millis);
    assert(final(out)@ =~= old(out)@ + spec_timestamp(ms as int));
}

/// Formats a millisecond offset as `MM:SS.mmm`.
pub fn format_timestamp(ms: u64) -> (r: String)
    ensures
        r@ == spec_timestamp(ms as int),
{
    let mut out = String::new();
    append_timestamp(&mut out, ms);
    assert(out@ =~= spec_timestamp(ms as int));
    out
}

/// What a `MM:SS.mmm` string denotes: any run of minute digits, a colon,
/// exactly two second digits below sixty, a dot, exactly three millisecond
/// digits. Anything else denotes nothing.
pub open spec fn spec_parse_timestamp(s: Seq<char>) -> Option<int> {
    let n = s.len() as int;
    if n >= 8 && s[n - 7] == ':' && s[n - 4] == '.' && all_digits(s.take(n - 7)) && all_digits(
        s.subrange(n - 6, n - 4),
    ) && all_digits(s.subrange(n - 3, n)) && dec_val(s.subrange(n - 6, n - 4)) < 60 {
        Some(
            dec_val(s.take(n - 7)) * 60000 + dec_val(s.subrange(n - 6, n - 4)) * 1000 + dec_val(
                s.subrange(n - 3, n),
            ),
        )
    } else {
        None
    }
}

/// Formatting and then parsing a millisecond offset recovers it exactly.
pub proof fn lemma_timestamp_round_trip(ms: u64)
    ensures
        spec_parse_timestamp(spec_timestamp(ms as int)) == Some(ms as int),
{
    let m = (ms as int / 1000) / 60;
    let sec = (ms as int / 1000) % 60;
    let mil = ms as int % 1000;
    let a = spec_pad2(m);
    let b = spec_pad2(sec);
    let c = spec_pad3(mil);
    lemma_dec_val_of_spec_pad2(m);
    lemma_dec_val_of_spec_pad2(sec);
    lemma_dec_val_of_spec_pad3(mil);
    let s = spec_timestamp(ms as int);
    let n = s.len() as int;
    assert(b.len() == 2);
    assert(c.len() == 3);
    assert(n == a.len() + 7);
    assert(s.take(n - 7) =~= a);
    assert(s.subrange(n - 6, n - 4) =~= b);
    assert(s.subrange(n - 3, n) =~= c);
    assert(s[n - 7] == ':');
    assert(s[n - 4] == '.');
    assert(m * 60000 + sec * 1000 + mil == ms as int) by (nonlinear_arith)
        requires
            m == (ms as int / 1000) / 60,
            sec == (ms as int / 1000) % 60,
            mil == ms as int % 1000,
            ms as int >= 0,
    ;
}

/// Parses a `MM:SS.mmm` string back into a millisecond offset. Returns
/// `None` exactly when the string does not denote a timestamp or the
/// denoted value does not fit the millisecond type.
pub fn parse_timestamp(s: &str) -> (r: Option<u64>)
    ensures
        match spec_parse_timestamp(s@) {
            Some(v) => if v <= u64::MAX {
                r == Some(v as u64)
            } else {
                r is None
            },
            None => r is None,
        },
{
    let n = s.unicode_len();
    if n < 8 {
        return None;
    }
    if s.get_char(n - 7) != ':' || s.get_char(n - 4) != '.' {
        return None;
    }
    let ghost minutes_part = s@.take(n as int - 7);
    let mut acc: u64 = 0;
    let mut i: usize = 0;
    while i < n - 7
        invariant
            8 <= n == s@.len(),
            i <= n - 7,
            minutes_part == s@.take(n as int - 7),
            all_digits(minutes_part.take(i as int)),
            acc == dec_val(minutes_part.take(i as int)),
        decreases n - 7 - i,
    {
        let c = s.get_char(i);
        assert(minutes_part[i as int] == c);
        let d = match digit_of_char(c) {
            Some(d) => d,
            None => {
                return None;
            },
        };
        proof {
            lemma_dec_val_take_step(minutes_part, i as int);
            assert(forall|k: int|
                0 <= k < i + 1 ==> (#[trigger] minutes_part.take(i as int + 1)[k])
                    == minutes_part.take(i as int).push(c)[k]);
        }
        if acc > (u64::MAX - d) / 10 {
            // The minute digits alone already denote more milliseconds than
            // the type can hold, so the whole timestamp cannot fit.
            proof {
                assert(acc * 10 + d > u64::MAX) by (nonlinear_arith)
                    requires
                        acc > (u64::MAX - d) / 10,
                        acc >= 0,
                        0 <= d < 10,
                ;
                lemma_overflow_means_no_fit(s@, minutes_part, i as int, acc as int, d as int);
            }
            return None;
        }
        acc = acc * 10 + d;
        i = i + 1;
        assert(minutes_part.take(i as int) =~= minutes_part.take(i as int - 1).push(c));
    }
    assert(minutes_part.take(i as int) =~= minutes_part);
    let minutes = acc;
    proof {
        assert(s@.subrange(n as int - 6, n as int - 4)[0] == s@[n as int - 6]);
        assert(s@.subrange(n as int - 6, n as int - 4)[1] == s@[n as int - 5]);
        assert(s@.subrange(n as int - 3, n as int)[0] == s@[n as int - 3]);
        assert(s@.subrange(n as int - 3, n as int)[1] == s@[n as int - 2]);
        assert(s@.subrange(n as int - 3, n as int)[2] == s@[n as int - 1]);
    }
    let d1 = match digit_of_char(s.get_char(n - 6)) {
        Some(d) => d,
        None => {
            return None;
        },
    };
    let d2 = match digit_of_char(s.get_char(n - 5)) {
        Some(d) => d,
        None => {
            return None;
        },
    };
    let seconds = d1 * 10 + d2;
    let m1 = match digit_of_char(s.get_char(n - 3)) {
        Some(d) => d,
        None => {
            return None;
        },
    };
    let m2 = match digit_of_char(s.get_char(n - 2)) {
        Some(d) => d,
        None => {
            return None;
        },
    };
    let m3 = match digit_of_char(s.get_char(n - 1)) {
        Some(d) => d,
        None => {
            return None;
        },
    };
    let millis = (m1 * 10 + m2) * 10 + m3;
    proof {
        let sp = s@.subrange(n as int - 6, n as int - 4);
        assert(sp =~= seq![s@[n as int - 6], s@[n as int - 5]]);
        assert(sp.drop_last() =~= seq![s@[n as int - 6]]);
        assert(seq![s@[n as int - 6]].drop_last() =~= Seq::<char>::empty());
        reveal_with_fuel(dec_val, 4);
        let mp = s@.subrange(n as int - 3, n as int);
        assert(mp =~= seq![s@[n as int - 3], s@[n as int - 2], s@[n as int - 1]]);
        assert(mp.drop_last() =~= seq![s@[n as int - 3], s@[n as int - 2]]);
        assert(mp.drop_last().drop_last() =~= seq![s@[n as int - 3]]);
        assert(seq![s@[n as int - 3]].drop_last() =~= Seq::<char>::empty());
    }
    if seconds >= 60 {
        return None;
    }
    let rest = seconds * 1000 + millis;
    if minutes > (u64::MAX - rest) / 60000 {
        proof {
            assert(minutes * 60000 + rest > u64::MAX) by (nonlinear_arith)
                requires
                    minutes > (u64::MAX - rest) / 60000,
                    minutes >= 0,
                    0 <= rest <= u64::MAX,
            ;
        }
        return None;
    }
    proof {
        assert(minutes * 60000 <= u64::MAX - rest) by (nonlinear_arith)
            requires
                minutes <= (u64::MAX - rest) / 60000,
                minutes >= 0,
                rest <= u64::MAX,
        ;
    }
    Some(minutes * 60000 + rest)
}

/// When the minute digits read so far already exceed the millisecond type,
/// no timestamp the string could denote fits it.
proof fn lemma_overflow_means_no_fit(s: Seq<char>, minutes_part: Seq<char>, i: int, acc: int, d: int)
    requires
        s.len() >= 8,
        minutes_part == s.take(s.len() - 7),
        0 <= i < minutes_part.len(),
        all_digits(minutes_part.take(i)),
        acc == dec_val(minutes_part.take(i)),
        digit_val(minutes_part[i]) == d,
        0 <= d < 10,
        acc * 10 + d > u64::MAX,
    ensures
        spec_parse_timestamp(s) matches Some(v) ==> v > u64::MAX,
{
    if spec_parse_timestamp(s) is Some {
        let v = spec_parse_timestamp(s)->Some_0;
        let n = s.len() as int;
        assert(all_digits(minutes_part));
        lemma_dec_val_take_step(minutes_part, i);
        lemma_dec_val_prefix_le(minutes_part, i + 1);
        let m = dec_val(minutes_part);
        assert(m > u64::MAX);
        lemma_dec_val_nonneg(s.subrange(n - 6, n - 4));
        lemma_dec_val_nonneg(s.subrange(n - 3, n));
        assert(v >= m * 60000) by (nonlinear_arith)
            requires
                v == m * 60000 + dec_val(s.subrange(n - 6, n - 4)) * 1000 + dec_val(
                    s.subrange(n - 3, n),
                ),
                dec_val(s.subrange(n - 6, n - 4)) >= 0,
                dec_val(s.subrange(n - 3, n)) >= 0,
        ;
        assert(m * 60000 >= m) by (nonlinear_arith)
            requires m >= 0,
        ;
    }
}

// --- Document rendering ---

/// The fixed header block of a project document, for the given project name.
#[verifier::opaque]
pub open spec fn spec_header(name: Seq<char>) -> Seq<char> {
    "\" Project: "@ + name + ".mp3\n"@ + "\"\n"@ + "\" Keybindings:\n"@
        + "\"   <Leader>p : Play current clip (preview your edit)\n"@
        + "\"   <Leader>c : Play original chunk (hear the 'before')\n"@
        + "\"   <Leader>C : Play edited chunk (hear the 'after')\n"@
        + "\"   <Leader>s : Stop all playback\n"@
        + "\"   <Leader>[ : Nudge start time of current clip earlier\n"@
        + "\"   <Leader>] : Nudge start time of current clip later\n"@
        + "\"   <Leader>{ : Nudge end time of current clip earlier\n"@
        + "\"   <Leader>} : Nudge end time of current clip later\n"@
        + "\" =============================================================================\n\n"@
}

/// One rendered clip: its text between its bracketed start and end stamps.
pub open spec fn spec_clip_line(c: Clip) -> Seq<char> {
    "["@ + spec_timestamp(c.start_time_ms as int) + "] "@ + c.text@ + " ["@ + spec_timestamp(
        c.end_time_ms as int,
    ) + "]\n"@
}

/// The rendered lines of a clip sequence, in order.
pub open spec fn spec_clip_lines(clips: Seq<Clip>) -> Seq<char>
    decreases clips.len(),
{
    if clips.len() == 0 {
        Seq::empty()
    } else {
        spec_clip_line(clips[0]) + spec_clip_lines(clips.drop_first())
    }
}

/// Rendering one more clip appends its line.
pub proof fn lemma_spec_clip_lines_push(clips: Seq<Clip>, c: Clip)
    ensures
        spec_clip_lines(clips.push(c)) == spec_clip_lines(clips) + spec_clip_line(c),
    decreases clips.len(),
{
    reveal_with_fuel(spec_clip_lines, 3);
    let p = clips.push(c);
    if clips.len() == 0 {
        assert(p.drop_first() =~= Seq::<Clip>::empty());
        assert(spec_clip_lines(p) =~= spec_clip_lines(clips) + spec_clip_line(c));
    } else {
        assert(p[0] == clips[0]);
        assert(p.drop_first() =~= clips.drop_first().push(c));
        lemma_spec_clip_lines_push(clips.drop_first(), c);
        assert(spec_clip_lines(p) =~= spec_clip_lines(clips) + spec_clip_line(c));
    }
}

/// One rendered chunk: a banner with its one-based number and its time
/// range, its clip lines, and a blank line.
pub open spec fn spec_chunk_section(c: Chunk, number: int) -> Seq<char> {
    "// --- CHUNK "@ + spec_dec(number) + " ("@ + spec_timestamp(c.start_time_ms as int) + " - "@
        + spec_timestamp(c.end_time_ms as int) + ") ---\n"@ + spec_clip_lines(c.clips@) + "\n"@
}

/// The rendered sections of a chunk sequence, numbered consecutively from
/// `first_number`.
pub open spec fn spec_chunk_sections(chunks: Seq<Chunk>, first_number: int) -> Seq<char>
    decreases chunks.len(),
{
    if chunks.len() == 0 {
        Seq::empty()
    } else {
        spec_chunk_section(chunks[0], first_number) + spec_chunk_sections(
            chunks.drop_first(),
            first_number + 1,
        )
    }
}

/// Rendering one more chunk appends its section, numbered after the ones
/// before it.
#[verifier::rlimit(100)]
pub proof fn lemma_spec_chunk_sections_push(chunks: Seq<Chunk>, c: Chunk, first_number: int)
    ensures
        spec_chunk_sections(chunks.push(c), first_number) == spec_chunk_sections(
            chunks,
            first_number,
        ) + spec_chunk_section(c, first_number + chunks.len()),
    decreases chunks.len(),
{
    reveal_with_fuel(spec_chunk_sections, 3);
    let p = chunks.push(c);
    if chunks.len() == 0 {
        assert(p.drop_first() =~= Seq::<Chunk>::empty());
        assert(spec_chunk_sections(p, first_number) =~= spec_chunk_sections(chunks, first_number)
            + spec_chunk_section(c, first_number + chunks.len()));
    } else {
        assert(p[0] == chunks[0]);
        assert(p.drop_first() =~= chunks.drop_first().push(c));
        lemma_spec_chunk_sections_push(chunks.drop_first(), c, first_number + 1);
        assert(spec_chunk_sections(p, first_number) =~= spec_chunk_sections(chunks, first_number)
            + spec_chunk_section(c, first_number + chunks.len()));
    }
}

/// The whole project document: the header, then one section per chunk,
/// numbered from one.
pub open spec fn spec_shutri_file(name: Seq<char>, chunks: Seq<Chunk>) -> Seq<char> {
    spec_header(name) + spec_chunk_sections(chunks, 1)
}

/// Appends the fixed header block for the given project name.
fn append_header(out: &mut String, project_name: &str)
    ensures
        final(out)@ == old(out)@ + spec_header(project_name@),
{
    proof {
        reveal(spec_header);
    }
    out.append("\" Project: ");
    out.append(project_name);
    out.append(".mp3\n");
    out.append("\"\n");
    out.append("\" Keybindings:\n");
    out.append("\"   <Leader>p : Play current clip (preview your edit)\n");
    out.append("\"   <Leader>c : Play original chunk (hear the 'before')\n");
    out.append("\"   <Leader>C : Play edited chunk (hear the 'after')\n");
    out.append("\"   <Leader>s : Stop all playback\n");
    out.append("\"   <Leader>[ : Nudge start time of current clip earlier\n");
    out.append("\"   <Leader>] : Nudge start time of current clip later\n");
    out.append("\"   <Leader>{ : Nudge end time of current clip earlier\n");
    out.append("\"   <Leader>} : Nudge end time of current clip later\n");
    out.append("\" =============================================================================\n\n");
    assert(final(out)@ =~= old(out)@ + spec_header(project_name@));
}

/// Renders the project document that groups chunks and clips with timestamp
/// annotations: a header block, then one section per chunk, each clip on a
/// line of its own between its start and end stamps.
#[verifier::rlimit(100)]
pub fn format_shutri_file(project_name: &str, chunks: &Vec<Chunk>) -> (r: String)
    ensures
        r@ == spec_shutri_file(project_name@, chunks@),
{
    let mut out = String::new();
    append_header(&mut out, project_name);
    let mut i: usize = 0;
    while i < chunks.len()
        invariant
            i <= chunks@.len(),
            out@ == spec_header(project_name@) + spec_chunk_sections(chunks@.take(i as int), 1),
        decreases chunks@.len() - i,
    {
        let chunk = &chunks[i];
        let ghost out_at_chunk = out@;
        out.append("// --- CHUNK ");
        append_dec(&mut out, (i as u64) + 1);
        out.append(" (");
        append_timestamp(&mut out, chunk.start_time_ms);
        out.append(" - ");
        append_timestamp(&mut out, chunk.end_time_ms);
        out.append(") ---\n");
        let ghost banner = out@;
        let mut j: usize = 0;
        while j < chunk.clips.len()
            invariant
                j <= chunk.clips@.len(),
                out@ == banner + spec_clip_lines(chunk.clips@.take(j as int)),
            decreases chunk.clips@.len() - j,
        {
            let clip = &chunk.clips[j];
            out.append("[");
            append_timestamp(&mut out, clip.start_time_ms);
            out.append("] ");
            out.append(clip.text.as_str());
            out.append(" [");
            append_timestamp(&mut out, clip.end_time_ms);
            out.append("]\n");
            proof {
                lemma_spec_clip_lines_push(chunk.clips@.take(j as int), chunk.clips@[j as int]);
                assert(chunk.clips@.take(j as int + 1) =~= chunk.clips@.take(j as int).push(
                    chunk.clips@[j as int],
                ));
                assert(out@ =~= banner + spec_clip_lines(chunk.clips@.take(j as int + 1)));
            }
            j = j + 1;
        }
        out.append("\n");
        proof {
            assert(chunk.clips@.take(j as int) =~= chunk.clips@);
            lemma_spec_chunk_sections_push(chunks@.take(i as int), chunks@[i as int], 1);
            assert(chunks@.take(i as int + 1) =~= chunks@.take(i as int).push(chunks@[i as int]));
            assert(out@ =~= out_at_chunk + spec_chunk_section(chunks@[i as int], i as int + 1));
            assert(out@ =~= spec_header(project_name@) + spec_chunk_sections(
                chunks@.take(i as int + 1),
                1,
            ));
        }
        i = i + 1;
    }
    assert(chunks@.take(i as int) =~= chunks@);
    out
}

} // verus!
