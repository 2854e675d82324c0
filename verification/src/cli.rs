//! The command surface of the application, as plain data. The binary parses
//! its arguments into these values before handing them to the library.

use vstd::prelude::*;

verus! {

/// A parsed command line: which command was asked for.
pub struct Cli {
    /// The command to run.
    pub command: Commands,
}

/// The commands the application offers.
pub enum Commands {
    /// Import an audio file and prepare it for editing.
    Import {
        /// The path to the MP3 audio file to import.
        file_path: String,
    },
    /// Transcribe an audio project.
    Transcribe {
        /// The name of the project to transcribe.
        project_name: String,
        /// Generate mock transcription data instead of calling an API.
        mock: bool,
        /// Force overwrite of an existing project file.
        force: bool,
    },
}

} // verus!
