//! Execution of one planned operation, one filesystem action at a time.
//!
//! The library never touches the filesystem. It tells its caller which action to perform
//! next, the caller performs it and reports what happened, and the library decides how to
//! go on. An execution starts by asking for a probe of the paths involved and ends with a
//! report for the operation. A failure ends the operation it belongs to and no other.

use vstd::prelude::*;
use crate::error::IoErrorKind;
use crate::operation::{FileOperation, OpView, OperationResult, ResultView};
use crate::text::{concat2, concat4};

verus! {

/// What is found at a path.
#[derive(Clone, Copy, Debug, PartialEq, Eq, Structural)]
pub enum PathState {
    Missing,
    File,
    EmptyDir,
    NonEmptyDir,
}

impl PathState {
    /// Whether a directory is there.
    pub open spec fn is_dir(self) -> bool {
        self == PathState::EmptyDir || self == PathState::NonEmptyDir
    }

    /// Whether a directory is there.
    pub fn dir(self) -> (b: bool)
        ensures
            b == self.is_dir(),
    {
        match self {
            PathState::EmptyDir => true,
            PathState::NonEmptyDir => true,
            _ => false,
        }
    }
}

/// How far the execution of an operation has come.
#[derive(Clone, Copy, Debug, PartialEq, Eq, Structural)]
pub enum Stage {
    /// Waiting for the probe of the paths.
    Probing,
    /// Waiting for the parent directory of the target to be created.
    CreatingParent { source: PathState, target: PathState },
    /// Waiting for the empty directory at the target to be removed.
    ClearingTarget,
    /// Waiting for the move itself.
    Moving { source_is_dir: bool },
    /// Waiting for the source tree to be copied into the target.
    Copying,
    /// Waiting for the copied source tree to be removed.
    RemovingSource,
    /// Waiting for the directory or file to be created.
    Creating,
    /// Waiting for the removal.
    Deleting,
    /// The operation has been reported.
    Finished,
}

/// What the caller is asked to do next. Source and target are those of the operation: the
/// two ends of a rename, the one path of the others.
#[derive(Debug, PartialEq, Eq)]
pub enum Action {
    /// Report what is at the source and at the target, and whether the directory that
    /// holds the target exists (true where the target names no parent).
    Probe,
    /// Create the directory that holds the target, with every missing ancestor.
    CreateParent,
    /// Create the target as a directory, with every missing ancestor.
    CreateDirectory,
    /// Create the target as an empty file.
    CreateEmptyFile,
    /// Remove the empty directory at the target.
    RemoveEmptyTarget,
    /// Move the source to the target.
    Move,
    /// Copy everything under the source into the target directory.
    CopyTree,
    /// Remove the source directory with all it holds.
    RemoveSourceTree,
    /// Remove the directory at the target with all it holds.
    RemoveTree,
    /// Remove the file at the target.
    RemoveFile,
    /// Nothing more to do: this is the outcome of the operation.
    Report(OperationResult),
}

/// The mathematical content of an `Action`.
pub enum ActionView {
    Probe,
    CreateParent,
    CreateDirectory,
    CreateEmptyFile,
    RemoveEmptyTarget,
    Move,
    CopyTree,
    RemoveSourceTree,
    RemoveTree,
    RemoveFile,
    Report(ResultView),
}

impl View for Action {
    type V = ActionView;

    open spec fn view(&self) -> ActionView {
        match *self {
            Action::Probe => ActionView::Probe,
            Action::CreateParent => ActionView::CreateParent,
            Action::CreateDirectory => ActionView::CreateDirectory,
            Action::CreateEmptyFile => ActionView::CreateEmptyFile,
            Action::RemoveEmptyTarget => ActionView::RemoveEmptyTarget,
            Action::Move => ActionView::Move,
            Action::CopyTree => ActionView::CopyTree,
            Action::RemoveSourceTree => ActionView::RemoveSourceTree,
            Action::RemoveTree => ActionView::RemoveTree,
            Action::RemoveFile => ActionView::RemoveFile,
            Action::Report(r) => ActionView::Report(r@),
        }
    }
}

impl ActionView {
    /// Whether the action changes the filesystem.
    pub open spec fn mutates(self) -> bool {
        !(self is Probe) && !(self is Report)
    }
}

/// What the caller reports back after an action.
#[derive(Debug, PartialEq, Eq)]
pub enum Event {
    /// The answer to `Action::Probe`.
    Probed { source: PathState, target: PathState, parent_exists: bool },
    /// The action was performed.
    Succeeded,
    /// The action failed; `detail` is the system's description.
    Failed { kind: IoErrorKind, detail: String },
}

/// The mathematical content of an `Event`.
pub enum EventView {
    Probed { source: PathState, target: PathState, parent_exists: bool },
    Succeeded,
    Failed { kind: IoErrorKind, detail: Seq<char> },
}

impl View for Event {
    type V = EventView;

    open spec fn view(&self) -> EventView {
        match *self {
            Event::Probed { source, target, parent_exists } => EventView::Probed {
                source,
                target,
                parent_exists,
            },
            Event::Succeeded => EventView::Succeeded,
            Event::Failed { kind, detail } => EventView::Failed { kind, detail: detail@ },
        }
    }
}

/// The state of an execution: the stage and, once a move has failed, the system's
/// description of that failure.
pub struct Progress {
    pub stage: Stage,
    pub note: Seq<char>,
}

/// A stage and an action together: what one step yields.
pub struct Outcome {
    pub stage: Stage,
    pub note: Seq<char>,
    pub action: ActionView,
}

/// The end of an operation with the given outcome. The operation is named by `step`.
pub open spec fn report(success: bool, message: Seq<char>) -> Outcome {
    Outcome {
        stage: Stage::Finished,
        note: Seq::empty(),
        action: ActionView::Report(ResultView { operation: Seq::empty(), success, message }),
    }
}

/// The outcome `outcome` with its report, if it ends in one, naming the operation `op`.
pub open spec fn named(op: OpView, outcome: Outcome) -> Outcome {
    match outcome.action {
        ActionView::Report(r) => Outcome {
            stage: outcome.stage,
            note: outcome.note,
            action: ActionView::Report(
                ResultView {
                    operation: crate::operation::spec_describe(op),
                    success: r.success,
                    message: r.message,
                },
            ),
        },
        _ => outcome,
    }
}

/// The step into the next stage with the given action.
pub open spec fn proceed(stage: Stage, note: Seq<char>, action: ActionView) -> Outcome {
    Outcome { stage, note, action }
}

/// What an event means at a stage at which it cannot occur.
pub open spec fn out_of_turn() -> Outcome {
    report(false, "Unexpected event"@)
}

/// A rename once the parent of its target is known to exist. A missing source is an error;
/// a free target is moved to; an empty directory in the way of a directory is removed
/// first; a directory is moved onto a directory that holds something so that the failure
/// of the move leads to the copy; everything else is a conflict and nothing is overwritten.
pub open spec fn rename_after_parent(
    from: Seq<char>,
    to: Seq<char>,
    source: PathState,
    target: PathState,
) -> Outcome {
    if source == PathState::Missing {
        report(false, "Source path does not exist: "@ + from)
    } else if target == PathState::Missing {
        proceed(Stage::Moving { source_is_dir: source.is_dir() }, Seq::empty(), ActionView::Move)
    } else if source.is_dir() && target == PathState::EmptyDir {
        proceed(Stage::ClearingTarget, Seq::empty(), ActionView::RemoveEmptyTarget)
    } else if source.is_dir() && target == PathState::NonEmptyDir {
        proceed(Stage::Moving { source_is_dir: true }, Seq::empty(), ActionView::Move)
    } else {
        report(false, "Target path already exists: "@ + to)
    }
}

/// One step of a rename.
pub open spec fn step_rename(
    from: Seq<char>,
    to: Seq<char>,
    now: Progress,
    event: EventView,
) -> Outcome {
    match now.stage {
        Stage::Probing => match event {
            EventView::Probed { source, target, parent_exists } => if parent_exists {
                rename_after_parent(from, to, source, target)
            } else {
                proceed(
                    Stage::CreatingParent { source, target },
                    Seq::empty(),
                    ActionView::CreateParent,
                )
            },
            _ => out_of_turn(),
        },
        Stage::CreatingParent { source, target } => match event {
            EventView::Succeeded => rename_after_parent(from, to, source, target),
            EventView::Failed { kind, detail } => report(
                false,
                "Failed to create parent directory: "@ + detail,
            ),
            _ => out_of_turn(),
        },
        Stage::ClearingTarget => match event {
            EventView::Probed { .. } => out_of_turn(),
            _ => proceed(Stage::Moving { source_is_dir: true }, Seq::empty(), ActionView::Move),
        },
        Stage::Moving { source_is_dir } => match event {
            EventView::Succeeded => report(true, "Renamed "@ + from + " to "@ + to),
            EventView::Failed { kind, detail } => if source_is_dir && kind
                == IoErrorKind::DirectoryNotEmpty {
                proceed(Stage::Copying, detail, ActionView::CopyTree)
            } else {
                report(false, "Failed to rename "@ + from + " to "@ + to + ": "@ + detail)
            },
            _ => out_of_turn(),
        },
        Stage::Copying => match event {
            EventView::Succeeded => proceed(
                Stage::RemovingSource,
                Seq::empty(),
                ActionView::RemoveSourceTree,
            ),
            EventView::Failed { kind, detail } => report(
                false,
                "Failed to rename directory: "@ + now.note + ". Manual copy also failed: "@
                    + detail,
            ),
            _ => out_of_turn(),
        },
        Stage::RemovingSource => match event {
            EventView::Succeeded => report(
                true,
                "Manually copied directory from "@ + from + " to "@ + to,
            ),
            EventView::Failed { kind, detail } => report(
                true,
                "Copied directory from "@ + from + " to "@ + to
                    + " but could not remove original: "@ + detail,
            ),
            _ => out_of_turn(),
        },
        _ => out_of_turn(),
    }
}

/// One step of the creation of a directory. A directory that is already there is a
/// success and nothing is done; anything else in its place is an error.
pub open spec fn step_create_dir(path: Seq<char>, now: Progress, event: EventView) -> Outcome {
    match now.stage {
        Stage::Probing => match event {
            EventView::Probed { source, target, parent_exists } => if target.is_dir() {
                report(true, "Directory already exists: "@ + path)
            } else if target == PathState::File {
                report(false, "A non-directory occupies the path: "@ + path)
            } else {
                proceed(Stage::Creating, Seq::empty(), ActionView::CreateDirectory)
            },
            _ => out_of_turn(),
        },
        Stage::Creating => match event {
            EventView::Succeeded => report(true, "Created directory "@ + path),
            EventView::Failed { kind, detail } => report(
                false,
                "Failed to create directory "@ + path + ": "@ + detail,
            ),
            _ => out_of_turn(),
        },
        _ => out_of_turn(),
    }
}

/// One step of the creation of an empty file. A file that is already there is a success
/// and is left as it is; a directory in its place is an error.
pub open spec fn step_create_file(path: Seq<char>, now: Progress, event: EventView) -> Outcome {
    match now.stage {
        Stage::Probing => match event {
            EventView::Probed { source, target, parent_exists } => if target == PathState::File {
                report(true, "File already exists: "@ + path)
            } else if target.is_dir() {
                report(false, "A directory occupies the path: "@ + path)
            } else if parent_exists {
                proceed(Stage::Creating, Seq::empty(), ActionView::CreateEmptyFile)
            } else {
                proceed(
                    Stage::CreatingParent { source, target },
                    Seq::empty(),
                    ActionView::CreateParent,
                )
            },
            _ => out_of_turn(),
        },
        Stage::CreatingParent { source, target } => match event {
            EventView::Succeeded => proceed(
                Stage::Creating,
                Seq::empty(),
                ActionView::CreateEmptyFile,
            ),
            EventView::Failed { kind, detail } => report(
                false,
                "Failed to create parent directory: "@ + detail,
            ),
            _ => out_of_turn(),
        },
        Stage::Creating => match event {
            EventView::Succeeded => report(true, "Created file "@ + path),
            EventView::Failed { kind, detail } => report(
                false,
                "Failed to create file "@ + path + ": "@ + detail,
            ),
            _ => out_of_turn(),
        },
        _ => out_of_turn(),
    }
}

/// One step of a deletion. A path that is not there, at the probe or when the removal is
/// tried, is a success.
pub open spec fn step_delete(path: Seq<char>, now: Progress, event: EventView) -> Outcome {
    match now.stage {
        Stage::Probing => match event {
            EventView::Probed { source, target, parent_exists } => if target
                == PathState::Missing {
                report(true, "Already absent: "@ + path)
            } else if target == PathState::File {
                proceed(Stage::Deleting, Seq::empty(), ActionView::RemoveFile)
            } else {
                proceed(Stage::Deleting, Seq::empty(), ActionView::RemoveTree)
            },
            _ => out_of_turn(),
        },
        Stage::Deleting => match event {
            EventView::Succeeded => report(true, "Deleted "@ + path),
            EventView::Failed { kind, detail } => if kind == IoErrorKind::NotFound {
                report(true, "Already absent: "@ + path)
            } else {
                report(false, "Failed to delete "@ + path + ": "@ + detail)
            },
            _ => out_of_turn(),
        },
        _ => out_of_turn(),
    }
}

/// One step of any operation: the stage and action that follow `event` at `now`. A
/// report names the operation it is about.
pub open spec fn step(op: OpView, now: Progress, event: EventView) -> Outcome {
    named(
        op,
        match op {
            OpView::Rename { from, to } => step_rename(from, to, now, event),
            OpView::CreateDir { path } => step_create_dir(path, now, event),
            OpView::CreateFile { path } => step_create_file(path, now, event),
            OpView::Delete { path } => step_delete(path, now, event),
        },
    )
}

/// The number of actions that can still be asked for from a stage on.
pub open spec fn remaining_steps(stage: Stage) -> nat {
    match stage {
        Stage::Probing => 7,
        Stage::CreatingParent { .. } => 6,
        Stage::ClearingTarget => 5,
        Stage::Moving { .. } => 4,
        Stage::Copying => 3,
        Stage::RemovingSource => 2,
        Stage::Creating => 2,
        Stage::Deleting => 2,
        Stage::Finished => 1,
    }
}

/// The execution of one operation.
pub struct Execution {
    op: FileOperation,
    stage: Stage,
    note: String,
}

impl Execution {
    /// The operation being executed.
    pub closed spec fn operation(&self) -> OpView {
        self.op@
    }

    /// Where the execution stands.
    pub closed spec fn progress(&self) -> Progress {
        Progress { stage: self.stage, note: self.note@ }
    }

    /// Starts the execution of `op`. The first action to perform is always
    /// `Action::Probe`.
    pub fn begin(op: FileOperation) -> (e: Execution)
        ensures
            e.operation() == op@,
            e.progress() == (Progress { stage: Stage::Probing, note: Seq::empty() }),
    {
        Execution { op, stage: Stage::Probing, note: String::new() }
    }

    /// Whether the operation has been reported.
    pub fn finished(&self) -> (b: bool)
        ensures
            b == (self.progress().stage == Stage::Finished),
    {
        match self.stage {
            Stage::Finished => true,
            _ => false,
        }
    }

    /// The operation being executed.
    pub fn op(&self) -> (op: &FileOperation)
        ensures
            op@ == self.operation(),
    {
        &self.op
    }

    fn finish(&mut self, success: bool, message: String) -> (a: Action)
        ensures
            final(self).operation() == old(self).operation(),
            final(self).progress().stage == Stage::Finished,
            final(self).progress().note == Seq::<char>::empty(),
            a@ == ActionView::Report(
                ResultView { operation: Seq::empty(), success, message: message@ },
            ),
    {
        self.stage = Stage::Finished;
        self.note = String::new();
        Action::Report(OperationResult { operation: String::new(), success, message })
    }

    fn go(&mut self, stage: Stage, action: Action) -> (a: Action)
        ensures
            final(self).operation() == old(self).operation(),
            final(self).progress().stage == stage,
            final(self).progress().note == Seq::<char>::empty(),
            a == action,
    {
        self.stage = stage;
        self.note = String::new();
        action
    }

    fn rename_after_parent(&mut self, source: PathState, target: PathState) -> (a: Action)
        requires
            old(self).operation() is Rename,
        ensures
            final(self).operation() == old(self).operation(),
            (Outcome {
                stage: final(self).progress().stage,
                note: final(self).progress().note,
                action: a@,
            }) == rename_after_parent(
                old(self).operation()->from,
                old(self).operation()->to,
                source,
                target,
            ),
    {
        let (from, to) = match &self.op {
            FileOperation::Rename { from, to } => (from.clone(), to.clone()),
            _ => (String::new(), String::new()),
        };
        match source {
            PathState::Missing => {
                let m = concat2("Source path does not exist: ", from.as_str());
                self.finish(false, m)
            },
            _ => match target {
                PathState::Missing => self.go(
                    Stage::Moving { source_is_dir: source.dir() },
                    Action::Move,
                ),
                PathState::EmptyDir => if source.dir() {
                    self.go(Stage::ClearingTarget, Action::RemoveEmptyTarget)
                } else {
                    let m = concat2("Target path already exists: ", to.as_str());
                    self.finish(false, m)
                },
                PathState::NonEmptyDir => if source.dir() {
                    self.go(Stage::Moving { source_is_dir: true }, Action::Move)
                } else {
                    let m = concat2("Target path already exists: ", to.as_str());
                    self.finish(false, m)
                },
                PathState::File => {
                    let m = concat2("Target path already exists: ", to.as_str());
                    self.finish(false, m)
                },
            },
        }
    }

    fn advance_rename(&mut self, event: &Event) -> (a: Action)
        requires
            old(self).operation() is Rename,
        ensures
            final(self).operation() == old(self).operation(),
            (Outcome {
                stage: final(self).progress().stage,
                note: final(self).progress().note,
                action: a@,
            }) == step_rename(
                old(self).operation()->from,
                old(self).operation()->to,
                old(self).progress(),
                event@,
            ),
    {
        let (from, to) = match &self.op {
            FileOperation::Rename { from, to } => (from.clone(), to.clone()),
            _ => (String::new(), String::new()),
        };
        match self.stage {
            Stage::Probing => match event {
                Event::Probed { source, target, parent_exists } => if *parent_exists {
                    self.rename_after_parent(*source, *target)
                } else {
                    self.go(
                        Stage::CreatingParent { source: *source, target: *target },
                        Action::CreateParent,
                    )
                },
                _ => self.finish(false, "Unexpected event".to_owned()),
            },
            Stage::CreatingParent { source, target } => match event {
                Event::Succeeded => self.rename_after_parent(source, target),
                Event::Failed { kind, detail } => {
                    let m = concat2("Failed to create parent directory: ", detail.as_str());
                    self.finish(false, m)
                },
                _ => self.finish(false, "Unexpected event".to_owned()),
            },
            Stage::ClearingTarget => match event {
                Event::Probed { .. } => self.finish(false, "Unexpected event".to_owned()),
                _ => self.go(Stage::Moving { source_is_dir: true }, Action::Move),
            },
            Stage::Moving { source_is_dir } => match event {
                Event::Succeeded => {
                    let m = concat4("Renamed ", from.as_str(), " to ", to.as_str());
                    self.finish(true, m)
                },
                Event::Failed { kind, detail } => {
                    let fallback = source_is_dir && match kind {
                        IoErrorKind::DirectoryNotEmpty => true,
                        _ => false,
                    };
                    if fallback {
                        self.stage = Stage::Copying;
                        self.note = detail.clone();
                        Action::CopyTree
                    } else {
                        let mut m = concat4(
                            "Failed to rename ",
                            from.as_str(),
                            " to ",
                            to.as_str(),
                        );
                        m.append(": ");
                        m.append(detail.as_str());
                        self.finish(false, m)
                    }
                },
                _ => self.finish(false, "Unexpected event".to_owned()),
            },
            Stage::Copying => match event {
                Event::Succeeded => self.go(Stage::RemovingSource, Action::RemoveSourceTree),
                Event::Failed { kind, detail } => {
                    let m = concat4(
                        "Failed to rename directory: ",
                        self.note.as_str(),
                        ". Manual copy also failed: ",
                        detail.as_str(),
                    );
                    self.finish(false, m)
                },
                _ => self.finish(false, "Unexpected event".to_owned()),
            },
            Stage::RemovingSource => match event {
                Event::Succeeded => {
                    let m = concat4(
                        "Manually copied directory from ",
                        from.as_str(),
                        " to ",
                        to.as_str(),
                    );
                    self.finish(true, m)
                },
                Event::Failed { kind, detail } => {
                    let mut m = concat4(
                        "Copied directory from ",
                        from.as_str(),
                        " to ",
                        to.as_str(),
                    );
                    m.append(" but could not remove original: ");
                    m.append(detail.as_str());
                    self.finish(true, m)
                },
                _ => self.finish(false, "Unexpected event".to_owned()),
            },
            _ => self.finish(false, "Unexpected event".to_owned()),
        }
    }

    fn advance_create_dir(&mut self, event: &Event) -> (a: Action)
        requires
            old(self).operation() is CreateDir,
        ensures
            final(self).operation() == old(self).operation(),
            (Outcome {
                stage: final(self).progress().stage,
                note: final(self).progress().note,
                action: a@,
            }) == step_create_dir(old(self).operation()->CreateDir_path, old(self).progress(), event@),
    {
        let path = match &self.op {
            FileOperation::CreateDir { path } => path.clone(),
            _ => String::new(),
        };
        match self.stage {
            Stage::Probing => match event {
                Event::Probed { source, target, parent_exists } => match target {
                    PathState::Missing => self.go(Stage::Creating, Action::CreateDirectory),
                    PathState::File => {
                        let m = concat2("A non-directory occupies the path: ", path.as_str());
                        self.finish(false, m)
                    },
                    _ => {
                        let m = concat2("Directory already exists: ", path.as_str());
                        self.finish(true, m)
                    },
                },
                _ => self.finish(false, "Unexpected event".to_owned()),
            },
            Stage::Creating => match event {
                Event::Succeeded => {
                    let m = concat2("Created directory ", path.as_str());
                    self.finish(true, m)
                },
                Event::Failed { kind, detail } => {
                    let m = concat4(
                        "Failed to create directory ",
                        path.as_str(),
                        ": ",
                        detail.as_str(),
                    );
                    self.finish(false, m)
                },
                _ => self.finish(false, "Unexpected event".to_owned()),
            },
            _ => self.finish(false, "Unexpected event".to_owned()),
        }
    }

    fn advance_create_file(&mut self, event: &Event) -> (a: Action)
        requires
            old(self).operation() is CreateFile,
        ensures
            final(self).operation() == old(self).operation(),
            (Outcome {
                stage: final(self).progress().stage,
                note: final(self).progress().note,
                action: a@,
            }) == step_create_file(
                old(self).operation()->CreateFile_path,
                old(self).progress(),
                event@,
            ),
    {
        let path = match &self.op {
            FileOperation::CreateFile { path } => path.clone(),
            _ => String::new(),
        };
        match self.stage {
            Stage::Probing => match event {
                Event::Probed { source, target, parent_exists } => match target {
                    PathState::File => {
                        let m = concat2("File already exists: ", path.as_str());
                        self.finish(true, m)
                    },
                    PathState::Missing => if *parent_exists {
                        self.go(Stage::Creating, Action::CreateEmptyFile)
                    } else {
                        self.go(
                            Stage::CreatingParent { source: *source, target: *target },
                            Action::CreateParent,
                        )
                    },
                    _ => {
                        let m = concat2("A directory occupies the path: ", path.as_str());
                        self.finish(false, m)
                    },
                },
                _ => self.finish(false, "Unexpected event".to_owned()),
            },
            Stage::CreatingParent { source, target } => match event {
                Event::Succeeded => self.go(Stage::Creating, Action::CreateEmptyFile),
                Event::Failed { kind, detail } => {
                    let m = concat2("Failed to create parent directory: ", detail.as_str());
                    self.finish(false, m)
                },
                _ => self.finish(false, "Unexpected event".to_owned()),
            },
            Stage::Creating => match event {
                Event::Succeeded => {
                    let m = concat2("Created file ", path.as_str());
                    self.finish(true, m)
                },
                Event::Failed { kind, detail } => {
                    let m = concat4(
                        "Failed to create file ",
                        path.as_str(),
                        ": ",
                        detail.as_str(),
                    );
                    self.finish(false, m)
                },
                _ => self.finish(false, "Unexpected event".to_owned()),
            },
            _ => self.finish(false, "Unexpected event".to_owned()),
        }
    }

    fn advance_delete(&mut self, event: &Event) -> (a: Action)
        requires
            old(self).operation() is Delete,
        ensures
            final(self).operation() == old(self).operation(),
            (Outcome {
                stage: final(self).progress().stage,
                note: final(self).progress().note,
                action: a@,
            }) == step_delete(old(self).operation()->Delete_path, old(self).progress(), event@),
    {
        let path = match &self.op {
            FileOperation::Delete { path } => path.clone(),
            _ => String::new(),
        };
        match self.stage {
            Stage::Probing => match event {
                Event::Probed { source, target, parent_exists } => match target {
                    PathState::Missing => {
                        let m = concat2("Already absent: ", path.as_str());
                        self.finish(true, m)
                    },
                    PathState::File => self.go(Stage::Deleting, Action::RemoveFile),
                    _ => self.go(Stage::Deleting, Action::RemoveTree),
                },
                _ => self.finish(false, "Unexpected event".to_owned()),
            },
            Stage::Deleting => match event {
                Event::Succeeded => {
                    let m = concat2("Deleted ", path.as_str());
                    self.finish(true, m)
                },
                Event::Failed { kind, detail } => match kind {
                    IoErrorKind::NotFound => {
                        let m = concat2("Already absent: ", path.as_str());
                        self.finish(true, m)
                    },
                    _ => {
                        let m = concat4(
                            "Failed to delete ",
                            path.as_str(),
                            ": ",
                            detail.as_str(),
                        );
                        self.finish(false, m)
                    },
                },
                _ => self.finish(false, "Unexpected event".to_owned()),
            },
            _ => self.finish(false, "Unexpected event".to_owned()),
        }
    }

    /// Takes in what happened to the last action and says what to do next. The operation
    /// stays the same; stage and action are those of `step`.
    pub fn advance(&mut self, event: &Event) -> (a: Action)
        ensures
            final(self).operation() == old(self).operation(),
            (Outcome {
                stage: final(self).progress().stage,
                note: final(self).progress().note,
                action: a@,
            }) == step(old(self).operation(), old(self).progress(), event@),
    {
        let action = match &self.op {
            FileOperation::Rename { .. } => self.advance_rename(event),
            FileOperation::CreateDir { .. } => self.advance_create_dir(event),
            FileOperation::CreateFile { .. } => self.advance_create_file(event),
            FileOperation::Delete { .. } => self.advance_delete(event),
        };
        match action {
            Action::Report(r) => Action::Report(
                OperationResult {
                    operation: self.op.describe(),
                    success: r.success,
                    message: r.message,
                },
            ),
            other => other,
        }
    }
}

/// The execution of a list of operations, in their order, each to its end. No failure
/// stops the list: every operation gets its own report.
pub struct Batch {
    ops: Vec<FileOperation>,
    index: usize,
    running: Execution,
    results: Vec<OperationResult>,
}

/// The views of a sequence of results.
pub open spec fn results_view(results: Seq<OperationResult>) -> Seq<ResultView> {
    results.map_values(|r: OperationResult| r@)
}

impl Batch {
    /// The operations of the batch.
    pub closed spec fn operations(&self) -> Seq<OpView> {
        crate::operation::ops_view(self.ops@)
    }

    /// How many operations have been reported.
    pub closed spec fn position(&self) -> nat {
        self.index as nat
    }

    /// The reports so far, in the order of the operations.
    pub closed spec fn reports(&self) -> Seq<ResultView> {
        results_view(self.results@)
    }

    /// Where the operation at `position` stands.
    pub closed spec fn progress(&self) -> Progress {
        self.running.progress()
    }

    /// The batch is consistent: there is one report for each operation before `position`,
    /// and the operation at `position`, if there is one, is under way.
    pub closed spec fn wf(&self) -> bool {
        &&& self.index <= self.ops.len()
        &&& self.results.len() == self.index
        &&& self.index < self.ops.len() ==> {
            &&& self.running.operation() == self.ops[self.index as int]@
            &&& self.running.progress().stage != Stage::Finished
        }
    }

    /// Whether every operation has been reported.
    pub open spec fn complete(&self) -> bool {
        self.position() == self.operations().len()
    }

    /// In a consistent batch there are as many reports as operations dealt with, and never
    /// more than operations.
    pub proof fn lemma_one_report_each(&self)
        requires
            self.wf(),
        ensures
            self.reports().len() == self.position(),
            self.position() <= self.operations().len(),
            self.complete() ==> self.reports().len() == self.operations().len(),
    {
    }

    /// A batch of `ops`, at its beginning. Unless the list is empty, the first action to
    /// perform is `Action::Probe` for the first operation.
    pub fn new(ops: Vec<FileOperation>) -> (b: Batch)
        ensures
            b.wf(),
            b.operations() == crate::operation::ops_view(ops@),
            b.position() == 0,
            b.reports() == Seq::<ResultView>::empty(),
            !b.complete() ==> b.progress() == (Progress {
                stage: Stage::Probing,
                note: Seq::empty(),
            }),
    {
        let first = if ops.len() > 0 {
            ops[0].duplicate()
        } else {
            FileOperation::Delete { path: String::new() }
        };
        let b = Batch { ops, index: 0, running: Execution::begin(first), results: Vec::new() };
        assert(results_view(b.results@) =~= Seq::<ResultView>::empty());
        b
    }

    /// Whether every operation has been reported.
    pub fn done(&self) -> (d: bool)
        requires
            self.wf(),
        ensures
            d == self.complete(),
    {
        self.index >= self.ops.len()
    }

    /// The operation that the next action belongs to.
    pub fn current(&self) -> (op: Option<&FileOperation>)
        requires
            self.wf(),
        ensures
            op is Some <==> !self.complete(),
            op matches Some(o) ==> o@ == self.operations()[self.position() as int],
    {
        if self.index < self.ops.len() {
            Some(&self.ops[self.index])
        } else {
            None
        }
    }

    /// Takes in what happened to the last action and says what to do next, `None` once
    /// every operation has been reported.
    ///
    /// While the current operation is not at its end, this is one step of it. When the
    /// step ends the operation, its report is added to the reports, whatever it says, and
    /// the batch moves to the next operation, whose first action is `Action::Probe`.
    pub fn advance(&mut self, event: &Event) -> (next: Option<Action>)
        requires
            old(self).wf(),
        ensures
            final(self).wf(),
            final(self).operations() == old(self).operations(),
            old(self).complete() ==> {
                &&& next is None
                &&& final(self).position() == old(self).position()
                &&& final(self).reports() == old(self).reports()
            },
            !old(self).complete() ==> ({
                let out = step(
                    old(self).operations()[old(self).position() as int],
                    old(self).progress(),
                    event@,
                );
                match out.action {
                    ActionView::Report(r) => {
                        &&& final(self).position() == old(self).position() + 1
                        &&& final(self).reports() == old(self).reports().push(r)
                        &&& if final(self).complete() {
                            next is None
                        } else {
                            &&& next matches Some(a)
                            &&& a@ == ActionView::Probe
                            &&& final(self).progress() == (Progress {
                                stage: Stage::Probing,
                                note: Seq::empty(),
                            })
                        }
                    },
                    other => {
                        &&& final(self).position() == old(self).position()
                        &&& final(self).reports() == old(self).reports()
                        &&& final(self).progress() == (Progress {
                            stage: out.stage,
                            note: out.note,
                        })
                        &&& next matches Some(a)
                        &&& a@ == other
                    },
                }
            }),
    {
        if self.index >= self.ops.len() {
            return None;
        }
        proof {
            lemma_report_ends(self.running.operation(), self.running.progress(), event@);
        }
        let action = self.running.advance(event);
        match action {
            Action::Report(r) => {
                assert(results_view(self.results@.push(r)) =~= results_view(self.results@).push(
                    r@,
                ));
                self.results.push(r);
                self.index = self.index + 1;
                if self.index < self.ops.len() {
                    self.running = Execution::begin(self.ops[self.index].duplicate());
                    Some(Action::Probe)
                } else {
                    None
                }
            },
            other => Some(other),
        }
    }

    /// The reports, one for each operation dealt with, in their order.
    pub fn into_results(self) -> (r: Vec<OperationResult>)
        requires
            self.wf(),
        ensures
            results_view(r@) == self.reports(),
            r.len() == self.position(),
    {
        self.results
    }
}

/// A step ends in `Stage::Finished` exactly when its action is a report.
pub proof fn lemma_report_ends(op: OpView, now: Progress, event: EventView)
    ensures
        step(op, now, event).action is Report <==> step(op, now, event).stage
            == Stage::Finished,
{
}

/// Every step from an unfinished stage brings the end nearer, so an operation is reported
/// after at most seven events.
pub proof fn lemma_step_progress(op: OpView, now: Progress, event: EventView)
    requires
        now.stage != Stage::Finished,
    ensures
        remaining_steps(step(op, now, event).stage) < remaining_steps(now.stage),
{
}

/// The first step of an execution.
pub open spec fn first_step(op: OpView, source: PathState, target: PathState, parent_exists: bool)
    -> Outcome {
    step(
        op,
        Progress { stage: Stage::Probing, note: Seq::empty() },
        EventView::Probed { source, target, parent_exists },
    )
}

/// Running an operation again after it has taken effect does no harm: the creation of a
/// directory that is there, and the deletion of a path that is not, are reported as
/// successes at once, without any action on the filesystem.
pub proof fn lemma_repeat_is_noop(
    path: Seq<char>,
    source: PathState,
    target: PathState,
    parent_exists: bool,
)
    ensures
        target.is_dir() ==> (first_step(
            OpView::CreateDir { path },
            source,
            target,
            parent_exists,
        ).action matches ActionView::Report(r) && r.success),
        target == PathState::Missing ==> (first_step(
            OpView::Delete { path },
            source,
            target,
            parent_exists,
        ).action matches ActionView::Report(r) && r.success),
{
}

/// A rename never replaces what is at its target: the move is asked for only when the
/// target is free or both ends are directories, and a missing source is never moved.
pub proof fn lemma_rename_never_overwrites(
    from: Seq<char>,
    to: Seq<char>,
    source: PathState,
    target: PathState,
)
    ensures
        rename_after_parent(from, to, source, target).action is Move ==> source
            != PathState::Missing && (target == PathState::Missing || (source.is_dir()
            && target == PathState::NonEmptyDir)),
        rename_after_parent(from, to, source, target).action is Report ==> !(
        rename_after_parent(from, to, source, target).action->Report_0.success),
{
}

} // verus!
