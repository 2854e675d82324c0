use shutri::project::Clip;
use shutri::transcription::{
    chunk_clips, create_clips_from_splits, format_shutri_file, format_timestamp, parse_timestamp,
    TARGET_CHUNK_DURATION_MS,
};

fn contiguous_clips(durations: &[u64]) -> Vec<Clip> {
    let mut clips = Vec::new();
    let mut t: u64 = 0;
    for (i, d) in durations.iter().enumerate() {
        clips.push(Clip {
            start_time_ms: t,
            end_time_ms: t + d,
            text: format!("clip {}", i + 1),
        });
        t += d;
    }
    clips
}

#[test]
fn chunking_scenario_closes_before_overflow() {
    // Clips of [40s, 30s, 5s] with a 60s target: the 30s clip would
    // overflow the first chunk, so it opens the second, which the 5s clip
    // then joins.
    let clips = contiguous_clips(&[40000, 30000, 5000]);
    let chunks = chunk_clips(&clips);
    // The input clips are untouched.
    assert_eq!(clips.len(), 3);
    assert_eq!(clips[0].text, "clip 1");
    assert_eq!(clips[2].end_time_ms, 75000);
    assert_eq!(chunks.len(), 2);
    assert_eq!(chunks[0].clips.len(), 1);
    assert_eq!(chunks[0].start_time_ms, 0);
    assert_eq!(chunks[0].end_time_ms, 40000);
    assert_eq!(chunks[1].clips.len(), 2);
    assert_eq!(chunks[1].start_time_ms, 40000);
    assert_eq!(chunks[1].end_time_ms, 75000);
    assert_eq!(chunks[1].clips[0].text, "clip 2");
    assert_eq!(chunks[1].clips[1].text, "clip 3");
}

#[test]
fn chunking_empty_input_yields_no_chunks() {
    let clips: Vec<Clip> = Vec::new();
    let chunks = chunk_clips(&clips);
    assert!(chunks.is_empty());
}

#[test]
fn chunking_never_splits_an_oversized_clip() {
    // A clip longer than the target sits alone in its own chunk.
    let clips = contiguous_clips(&[70000, 65000, 1000]);
    let chunks = chunk_clips(&clips);
    assert_eq!(chunks.len(), 3);
    assert_eq!(chunks[0].clips.len(), 1);
    assert_eq!(chunks[1].clips.len(), 1);
    assert_eq!(chunks[2].clips.len(), 1);
    assert_eq!(chunks[2].clips[0].text, "clip 3");
}

#[test]
fn chunking_partitions_the_clip_sequence() {
    let durations = [10000, 20000, 25000, 30000, 1000, 2000, 61000, 500];
    let clips = contiguous_clips(&durations);
    let chunks = chunk_clips(&clips);
    let flattened: Vec<&Clip> = chunks.iter().flat_map(|c| c.clips.iter()).collect();
    assert_eq!(flattened.len(), clips.len());
    for (got, want) in flattened.iter().zip(clips.iter()) {
        assert_eq!(got.start_time_ms, want.start_time_ms);
        assert_eq!(got.end_time_ms, want.end_time_ms);
        assert_eq!(got.text, want.text);
    }
    // Every multi-clip chunk respects the target duration.
    for chunk in &chunks {
        if chunk.clips.len() > 1 {
            let total: u64 = chunk
                .clips
                .iter()
                .map(|c| c.end_time_ms - c.start_time_ms)
                .sum();
            assert!(total <= TARGET_CHUNK_DURATION_MS);
        }
    }
}

#[test]
fn create_clips_assigns_contiguous_times_and_mock_text() {
    let durations = vec![40000, 30000, 5000];
    let clips = create_clips_from_splits(&durations);
    assert_eq!(clips.len(), 3);
    assert_eq!(clips[0].start_time_ms, 0);
    assert_eq!(clips[0].end_time_ms, 40000);
    assert_eq!(clips[1].start_time_ms, 40000);
    assert_eq!(clips[1].end_time_ms, 70000);
    assert_eq!(clips[2].start_time_ms, 70000);
    assert_eq!(clips[2].end_time_ms, 75000);
    assert_eq!(clips[0].text, "This is a mock transcription for split #1.");
    assert_eq!(clips[2].text, "This is a mock transcription for split #3.");
}

#[test]
fn create_clips_empty_input() {
    let durations: Vec<u64> = Vec::new();
    let clips = create_clips_from_splits(&durations);
    assert!(clips.is_empty());
}

#[test]
fn format_timestamp_renders_padded_fields() {
    assert_eq!(format_timestamp(61005), "01:01.005");
    assert_eq!(format_timestamp(0), "00:00.000");
    assert_eq!(format_timestamp(999), "00:00.999");
    assert_eq!(format_timestamp(59999), "00:59.999");
    assert_eq!(format_timestamp(60000), "01:00.000");
    assert_eq!(format_timestamp(5999999), "99:59.999");
    // Minutes grow beyond two digits when needed.
    assert_eq!(format_timestamp(6000000), "100:00.000");
}

#[test]
fn parse_timestamp_inverts_formatting() {
    for ms in [0u64, 1, 999, 1000, 59999, 60000, 61005, 5999999, 6000000, 987654321] {
        assert_eq!(parse_timestamp(&format_timestamp(ms)), Some(ms));
    }
}

#[test]
fn parse_timestamp_rejects_malformed_input() {
    assert_eq!(parse_timestamp(""), None);
    assert_eq!(parse_timestamp("01:01"), None);
    assert_eq!(parse_timestamp("01-01.005"), None);
    assert_eq!(parse_timestamp("0a:01.005"), None);
    assert_eq!(parse_timestamp("01:0x.005"), None);
    assert_eq!(parse_timestamp("01:01.00x"), None);
    // Sixty seconds is not a valid second field.
    assert_eq!(parse_timestamp("00:60.000"), None);
    // A single minute digit is accepted.
    assert_eq!(parse_timestamp("0:00.000"), Some(0));
}

#[test]
fn format_shutri_file_renders_header_and_sections() {
    let clips = contiguous_clips(&[40000, 30000, 5000]);
    let chunks = chunk_clips(&clips);
    let out = format_shutri_file("episode", &chunks);
    let mut expected = String::new();
    expected.push_str("\" Project: episode.mp3\n");
    expected.push_str("\"\n");
    expected.push_str("\" Keybindings:\n");
    expected.push_str("\"   <Leader>p : Play current clip (preview your edit)\n");
    expected.push_str("\"   <Leader>c : Play original chunk (hear the 'before')\n");
    expected.push_str("\"   <Leader>C : Play edited chunk (hear the 'after')\n");
    expected.push_str("\"   <Leader>s : Stop all playback\n");
    expected.push_str("\"   <Leader>[ : Nudge start time of current clip earlier\n");
    expected.push_str("\"   <Leader>] : Nudge start time of current clip later\n");
    expected.push_str("\"   <Leader>{ : Nudge end time of current clip earlier\n");
    expected.push_str("\"   <Leader>} : Nudge end time of current clip later\n");
    expected.push_str(
        "\" =============================================================================\n\n",
    );
    expected.push_str("// --- CHUNK 1 (00:00.000 - 00:40.000) ---\n");
    expected.push_str("[00:00.000] clip 1 [00:40.000]\n");
    expected.push_str("\n");
    expected.push_str("// --- CHUNK 2 (00:40.000 - 01:15.000) ---\n");
    expected.push_str("[00:40.000] clip 2 [01:10.000]\n");
    expected.push_str("[01:10.000] clip 3 [01:15.000]\n");
    expected.push_str("\n");
    assert_eq!(out, expected);
}

#[test]
fn format_shutri_file_with_no_chunks_is_just_the_header() {
    let out = format_shutri_file("empty", &Vec::new());
    assert!(out.starts_with("\" Project: empty.mp3\n"));
    assert!(out.ends_with("=\n\n"));
    assert!(!out.contains("CHUNK"));
}
