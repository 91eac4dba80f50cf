//! The window's state: which file is open, what can be done with it, and what is being done.
use crate::cli::{is_vgm, is_vgm_path, refusal, Command};
use crate::text::{ascii_lower, lowercase, same_text, string_views, trim, trimmed};
use vstd::prelude::*;

verus! {

/// The extension is that of a tracker module.
pub open spec fn is_tracker(extension: Option<Seq<char>>) -> bool {
    match extension {
        Some(e) => {
            let lower = e.map_values(|c: char| ascii_lower(c));
            lower == "mod"@ || lower == "xm"@ || lower == "s3m"@
        },
        None => false,
    }
}

pub open spec fn text_in(o: Option<&str>) -> Option<Seq<char>> {
    match o {
        Some(s) => Some(s@),
        None => None,
    }
}

/// Whether a file with this extension can be opened.
pub fn is_supported_path(extension: Option<&str>) -> (r: bool)
    ensures
        r == (is_vgm(text_in(extension)) || is_tracker(text_in(extension))),
{
    if is_vgm_path(extension) {
        return true;
    }
    match extension {
        Some(e) => {
            let lower: String = lowercase(e);
            same_text(lower.as_str(), "mod") || same_text(lower.as_str(), "xm") || same_text(
                lower.as_str(),
                "s3m",
            )
        },
        None => false,
    }
}

/// What the window can start.
#[derive(Clone, Copy, Debug, PartialEq, Eq, Structural)]
pub enum Task {
    ConvertAls,
    ExtractMixedTrack,
    ExtractSeparatedTracks,
    ExtractSamples,
    ExtractMidi,
    Preview,
    ExportVideo,
}

impl Task {
    /// The task can be done with a chip rip, or with a module.
    pub open spec fn applies(self, vgm: bool) -> bool {
        match self {
            Task::ConvertAls => true,
            Task::ExtractMixedTrack | Task::ExtractSeparatedTracks | Task::Preview
            | Task::ExportVideo => vgm,
            Task::ExtractSamples | Task::ExtractMidi => !vgm,
        }
    }

    /// The name shown for it.
    pub open spec fn label(self) -> Seq<char> {
        match self {
            Task::ConvertAls => "Convert to ALS"@,
            Task::ExtractMixedTrack => "Extract mixed track"@,
            Task::ExtractSeparatedTracks => "Extract separated tracks"@,
            Task::ExtractSamples => "Extract samples"@,
            Task::ExtractMidi => "Extract MIDI"@,
            Task::Preview => "Preview"@,
            Task::ExportVideo => "Export Video"@,
        }
    }

    /// The arguments of the command that does it.
    pub open spec fn arguments(self, file: Seq<char>, output: Seq<char>) -> Seq<Seq<char>> {
        match self {
            Task::ConvertAls => seq!["convert-als"@, file, "-o"@, output],
            Task::ExtractMixedTrack => seq!["extract-mixed-tracks"@, file, "-o"@, output],
            Task::ExtractSeparatedTracks => seq![
                "extract-separated-tracks-wav"@,
                file,
                "-o"@,
                output,
            ],
            Task::ExtractSamples => seq!["extract-samples"@, file, "-o"@, output],
            Task::ExtractMidi => seq!["extract-midi"@, file, "-o"@, output],
            Task::Preview => seq!["preview"@, file],
            Task::ExportVideo => seq!["preview"@, file, "--record"@, output],
        }
    }

    /// What is shown while it is done.
    pub open spec fn running_text(self) -> Seq<char> {
        match self {
            Task::Preview => "Opening preview window…"@,
            Task::ExportVideo => "Rendering video…"@,
            _ => "Running "@ + self.label() + "…"@,
        }
    }

    /// Whether it can be done with a file of this kind.
    pub fn is_offered(&self, vgm: bool) -> (r: bool)
        ensures
            r == self.applies(vgm),
    {
        match self {
            Task::ConvertAls => true,
            Task::ExtractMixedTrack | Task::ExtractSeparatedTracks | Task::Preview
            | Task::ExportVideo => vgm,
            Task::ExtractSamples | Task::ExtractMidi => !vgm,
        }
    }

    pub fn name(&self) -> (r: &'static str)
        ensures
            r@ == self.label(),
    {
        match self {
            Task::ConvertAls => "Convert to ALS",
            Task::ExtractMixedTrack => "Extract mixed track",
            Task::ExtractSeparatedTracks => "Extract separated tracks",
            Task::ExtractSamples => "Extract samples",
            Task::ExtractMidi => "Extract MIDI",
            Task::Preview => "Preview",
            Task::ExportVideo => "Export Video",
        }
    }

    /// The arguments of the command that does it. A preview has no output.
    pub fn command_line(&self, file: &str, output: &str) -> (r: Vec<String>)
        ensures
            string_views(r@) == self.arguments(file@, output@),
    {
        let first: &str = match self {
            Task::ConvertAls => "convert-als",
            Task::ExtractMixedTrack => "extract-mixed-tracks",
            Task::ExtractSeparatedTracks => "extract-separated-tracks-wav",
            Task::ExtractSamples => "extract-samples",
            Task::ExtractMidi => "extract-midi",
            Task::Preview | Task::ExportVideo => "preview",
        };
        let mut out: Vec<String> = Vec::new();
        out.push(first.to_owned());
        out.push(file.to_owned());
        match self {
            Task::Preview => {},
            Task::ExportVideo => {
                out.push("--record".to_owned());
                out.push(output.to_owned());
            },
            _ => {
                out.push("-o".to_owned());
                out.push(output.to_owned());
            },
        }
        assert(string_views(out@) =~= self.arguments(file@, output@));
        out
    }
}

/// How a task ended: the text is what the command printed.
#[derive(Debug)]
pub enum TaskResult {
    Success { task: Task, output: String },
    Failure { task: Task, message: String },
}

#[derive(Clone, Copy, Debug, PartialEq, Eq, Structural)]
pub enum StatusKind {
    Idle,
    Running,
    Success,
    Error,
}

/// What the window shows.
#[derive(Debug)]
pub struct GuiState {
    pub file: Option<String>,
    pub status: String,
    pub kind: StatusKind,
    pub busy: bool,
}

/// What a `GuiState` holds.
#[verifier::ext_equal]
pub struct GuiStateView {
    pub file: Option<Seq<char>>,
    pub status: Seq<char>,
    pub kind: StatusKind,
    pub busy: bool,
}

impl View for GuiState {
    type V = GuiStateView;

    open spec fn view(&self) -> GuiStateView {
        GuiStateView {
            file: match self.file {
                Some(f) => Some(f@),
                None => None,
            },
            status: self.status@,
            kind: self.kind,
            busy: self.busy,
        }
    }
}

impl GuiStateView {
    /// The window is busy just while a task runs.
    pub open spec fn wf(self) -> bool {
        self.busy == (self.kind == StatusKind::Running)
    }

    /// Behind the start of a task.
    pub open spec fn started(self, task: Task) -> GuiStateView {
        GuiStateView {
            status: task.running_text(),
            kind: StatusKind::Running,
            busy: true,
            ..self
        }
    }

    /// Behind the end of one.
    pub open spec fn finished(self, success: bool, task: Task, text: Seq<char>) -> GuiStateView {
        let said = trimmed(text);
        GuiStateView {
            status: if !success {
                task.label() + " failed:\n"@ + said
            } else if said.len() == 0 {
                task.label() + ": done."@
            } else {
                task.label() + ": done.\n"@ + said
            },
            kind: if success {
                StatusKind::Success
            } else {
                StatusKind::Error
            },
            busy: false,
            ..self
        }
    }

    /// Behind the opening of a file. While a task runs, no file is opened.
    pub open spec fn opened(self, path: Seq<char>) -> GuiStateView {
        if self.busy {
            self
        } else {
            GuiStateView {
                file: Some(path),
                status: Seq::empty(),
                kind: StatusKind::Idle,
                ..self
            }
        }
    }
}

impl Default for GuiState {
    fn default() -> (r: GuiState)
        ensures
            r@ == (GuiStateView {
                file: None,
                status: Seq::empty(),
                kind: StatusKind::Idle,
                busy: false,
            }),
            r@.wf(),
    {
        GuiState { file: None, status: String::new(), kind: StatusKind::Idle, busy: false }
    }
}

impl GuiState {
    /// Notes that a task has been started.
    pub fn start(&mut self, task: Task)
        ensures
            final(self)@ == old(self)@.started(task),
            final(self)@.wf(),
    {
        self.status = match task {
            Task::Preview => "Opening preview window…".to_owned(),
            Task::ExportVideo => "Rendering video…".to_owned(),
            _ => {
                let mut text: String = "Running ".to_owned();
                text.append(task.name());
                text.append("…");
                text
            },
        };
        self.kind = StatusKind::Running;
        self.busy = true;
    }

    /// Notes how a task has ended.
    pub fn finish(&mut self, result: &TaskResult)
        ensures
            final(self)@ == (match *result {
                TaskResult::Success { task, output } => old(self)@.finished(true, task, output@),
                TaskResult::Failure { task, message } => old(self)@.finished(
                    false,
                    task,
                    message@,
                ),
            }),
            final(self)@.wf(),
    {
        match result {
            TaskResult::Success { task, output } => {
                let said: String = trim(output.as_str());
                let mut text: String = task.name().to_owned();
                if said.as_str().is_empty() {
                    text.append(": done.");
                } else {
                    text.append(": done.\n");
                    text.append(said.as_str());
                }
                self.status = text;
                self.kind = StatusKind::Success;
            },
            TaskResult::Failure { task, message } => {
                let said: String = trim(message.as_str());
                let mut text: String = task.name().to_owned();
                text.append(" failed:\n");
                text.append(said.as_str());
                self.status = text;
                self.kind = StatusKind::Error;
            },
        }
        self.busy = false;
    }

    /// Opens a file, unless a task runs.
    pub fn load_file(&mut self, path: &str)
        requires
            old(self)@.wf(),
        ensures
            final(self)@ == old(self)@.opened(path@),
            final(self)@.wf(),
    {
        if !self.busy {
            self.file = Some(path.to_owned());
            self.status = String::new();
            self.kind = StatusKind::Idle;
        }
    }
}

/// The command is the one that does the task.
pub open spec fn does(command: Command, task: Task) -> bool {
    match task {
        Task::ConvertAls => command is ConvertAls,
        Task::ExtractMixedTrack => command is ExtractMixedTracks,
        Task::ExtractSeparatedTracks => command is ExtractSeparatedTracksWav,
        Task::ExtractSamples => command is ExtractSamples,
        Task::ExtractMidi => command is ExtractMidi,
        Task::Preview | Task::ExportVideo => command is Preview,
    }
}

/// The window offers just the tasks that their commands do not refuse.
pub proof fn law_offered_tasks_are_not_refused(task: Task, command: Command, vgm: bool)
    requires
        does(command, task),
    ensures
        task.applies(vgm) == (refusal(command, vgm, true) is None),
{
}

/// A task that was started and has ended leaves the window ready, with the same file open.
pub proof fn law_tasks_end(s: GuiStateView, task: Task, success: bool, text: Seq<char>)
    ensures
        s.started(task).busy,
        !s.started(task).finished(success, task, text).busy,
        s.started(task).finished(success, task, text).file == s.file,
{
}

} // verus!
