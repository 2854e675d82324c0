use shutri::project::{Chunk, Clip, Project, Split};

/// Creates a mock `Project` instance for use in tests.
fn create_mock_project() -> Project {
    let split1 = Split {
        file_path: "/path/to/split1.mp3".to_string(),
        duration_ms: 10000,
        start_time_ms: 0,
        end_time_ms: 10000,
    };
    let clip1 = Clip {
        start_time_ms: 0,
        end_time_ms: 10000,
        text: "This is the first clip.".to_string(),
    };
    let clip_copy = Clip {
        start_time_ms: clip1.start_time_ms,
        end_time_ms: clip1.end_time_ms,
        text: clip1.text.clone(),
    };
    let chunk1 = Chunk {
        start_time_ms: 0,
        end_time_ms: 10000,
        clips: vec![clip_copy],
    };

    Project {
        name: "test_project".to_string(),
        original_audio_path: "/path/to/audio.mp3".to_string(),
        splits: vec![split1],
        clips: vec![clip1],
        chunks: vec![chunk1],
    }
}

/// Tests that a `Project` struct can be created successfully.
#[test]
fn test_project_creation() {
    let project = create_mock_project();
    assert_eq!(project.name, "test_project");
    assert_eq!(project.splits.len(), 1);
    assert_eq!(project.clips.len(), 1);
    assert_eq!(project.chunks.len(), 1);
    assert_eq!(
        project.clips[0].text,
        "This is the first clip.".to_string()
    );
}
