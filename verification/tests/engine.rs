use treenamer::engine::{Action, Batch, Event, Execution, PathState};
use treenamer::error::IoErrorKind;
use treenamer::operation::{FileOperation, OperationResult};

fn rename(from: &str, to: &str) -> FileOperation {
    FileOperation::Rename { from: from.to_string(), to: to.to_string() }
}

fn probed(source: PathState, target: PathState, parent_exists: bool) -> Event {
    Event::Probed { source, target, parent_exists }
}

fn failed(kind: IoErrorKind, detail: &str) -> Event {
    Event::Failed { kind, detail: detail.to_string() }
}

#[derive(Debug)]
struct Verdict {
    success: bool,
    message: String,
}

impl PartialEq<Verdict> for Action {
    fn eq(&self, other: &Verdict) -> bool {
        match self {
            Action::Report(r) => r.success == other.success && r.message == other.message,
            _ => false,
        }
    }
}

fn report(success: bool, message: &str) -> Verdict {
    Verdict { success, message: message.to_string() }
}

#[test]
fn create_dir_on_existing_directory_is_a_noop() {
    let mut e = Execution::begin(FileOperation::CreateDir { path: "/tmp/x".to_string() });
    assert!(!e.finished());
    let a = e.advance(&probed(PathState::EmptyDir, PathState::EmptyDir, true));
    assert_eq!(a, report(true, "Directory already exists: /tmp/x"));
    assert!(e.finished());
    let mut e = Execution::begin(FileOperation::CreateDir { path: "/tmp/x".to_string() });
    let a = e.advance(&probed(PathState::NonEmptyDir, PathState::NonEmptyDir, true));
    assert_eq!(a, report(true, "Directory already exists: /tmp/x"));
}

#[test]
fn delete_of_absent_path_is_a_noop() {
    let mut e = Execution::begin(FileOperation::Delete { path: "/tmp/gone".to_string() });
    let a = e.advance(&probed(PathState::Missing, PathState::Missing, true));
    assert_eq!(a, report(true, "Already absent: /tmp/gone"));
    assert!(e.finished());
}

#[test]
fn create_dir_creates_what_is_missing() {
    let mut e = Execution::begin(FileOperation::CreateDir { path: "/w/new".to_string() });
    assert_eq!(
        e.advance(&probed(PathState::Missing, PathState::Missing, false)),
        Action::CreateDirectory
    );
    assert_eq!(e.advance(&Event::Succeeded), report(true, "Created directory /w/new"));
    let mut e = Execution::begin(FileOperation::CreateDir { path: "/w/new".to_string() });
    e.advance(&probed(PathState::Missing, PathState::Missing, true));
    assert_eq!(
        e.advance(&failed(IoErrorKind::PermissionDenied, "denied")),
        report(false, "Failed to create directory /w/new: denied")
    );
}

#[test]
fn create_dir_over_a_file_is_an_error() {
    let mut e = Execution::begin(FileOperation::CreateDir { path: "/w/f".to_string() });
    assert_eq!(
        e.advance(&probed(PathState::File, PathState::File, true)),
        report(false, "A non-directory occupies the path: /w/f")
    );
}

#[test]
fn create_file_steps() {
    let op = FileOperation::CreateFile { path: "/w/d/f.txt".to_string() };
    let mut e = Execution::begin(op.clone());
    assert_eq!(e.op(), &op);
    assert_eq!(
        e.advance(&probed(PathState::Missing, PathState::Missing, false)),
        Action::CreateParent
    );
    assert_eq!(e.advance(&Event::Succeeded), Action::CreateEmptyFile);
    assert_eq!(e.advance(&Event::Succeeded), report(true, "Created file /w/d/f.txt"));

    let mut e = Execution::begin(op.clone());
    assert_eq!(
        e.advance(&probed(PathState::File, PathState::File, true)),
        report(true, "File already exists: /w/d/f.txt")
    );
    let mut e = Execution::begin(op.clone());
    assert_eq!(
        e.advance(&probed(PathState::EmptyDir, PathState::EmptyDir, true)),
        report(false, "A directory occupies the path: /w/d/f.txt")
    );
    let mut e = Execution::begin(op.clone());
    assert_eq!(
        e.advance(&probed(PathState::Missing, PathState::Missing, true)),
        Action::CreateEmptyFile
    );
    assert_eq!(
        e.advance(&failed(IoErrorKind::Other, "disk full")),
        report(false, "Failed to create file /w/d/f.txt: disk full")
    );
    let mut e = Execution::begin(op);
    e.advance(&probed(PathState::Missing, PathState::Missing, false));
    assert_eq!(
        e.advance(&failed(IoErrorKind::PermissionDenied, "no")),
        report(false, "Failed to create parent directory: no")
    );
}

#[test]
fn delete_steps() {
    let op = FileOperation::Delete { path: "/w/x".to_string() };
    let mut e = Execution::begin(op.clone());
    assert_eq!(e.advance(&probed(PathState::File, PathState::File, true)), Action::RemoveFile);
    assert_eq!(e.advance(&Event::Succeeded), report(true, "Deleted /w/x"));
    let mut e = Execution::begin(op.clone());
    assert_eq!(
        e.advance(&probed(PathState::NonEmptyDir, PathState::NonEmptyDir, true)),
        Action::RemoveTree
    );
    assert_eq!(
        e.advance(&failed(IoErrorKind::NotFound, "gone")),
        report(true, "Already absent: /w/x")
    );
    let mut e = Execution::begin(op);
    assert_eq!(
        e.advance(&probed(PathState::EmptyDir, PathState::EmptyDir, true)),
        Action::RemoveTree
    );
    assert_eq!(
        e.advance(&failed(IoErrorKind::PermissionDenied, "denied")),
        report(false, "Failed to delete /w/x: denied")
    );
}

#[test]
fn rename_creates_the_parent_then_moves() {
    let mut e = Execution::begin(rename("/w/a.txt", "/w/new/b.txt"));
    assert_eq!(
        e.advance(&probed(PathState::File, PathState::Missing, false)),
        Action::CreateParent
    );
    assert_eq!(e.advance(&Event::Succeeded), Action::Move);
    assert_eq!(
        e.advance(&Event::Succeeded),
        report(true, "Renamed /w/a.txt to /w/new/b.txt")
    );
    assert!(e.finished());
}

#[test]
fn rename_reports_a_parent_that_cannot_be_made() {
    let mut e = Execution::begin(rename("/w/a.txt", "/w/new/b.txt"));
    e.advance(&probed(PathState::File, PathState::Missing, false));
    assert_eq!(
        e.advance(&failed(IoErrorKind::PermissionDenied, "permission denied")),
        report(false, "Failed to create parent directory: permission denied")
    );
}

#[test]
fn rename_of_missing_source_is_reported() {
    let mut e = Execution::begin(rename("/w/a.txt", "/w/b.txt"));
    assert_eq!(
        e.advance(&probed(PathState::Missing, PathState::Missing, true)),
        report(false, "Source path does not exist: /w/a.txt")
    );
    let mut e = Execution::begin(rename("/w/a.txt", "/w/n/b.txt"));
    assert_eq!(
        e.advance(&probed(PathState::Missing, PathState::Missing, false)),
        Action::CreateParent
    );
    assert_eq!(
        e.advance(&Event::Succeeded),
        report(false, "Source path does not exist: /w/a.txt")
    );
}

#[test]
fn rename_never_overwrites() {
    let mut e = Execution::begin(rename("/w/a.txt", "/w/b.txt"));
    assert_eq!(
        e.advance(&probed(PathState::File, PathState::File, true)),
        report(false, "Target path already exists: /w/b.txt")
    );
    let mut e = Execution::begin(rename("/w/a.txt", "/w/b"));
    assert_eq!(
        e.advance(&probed(PathState::File, PathState::EmptyDir, true)),
        report(false, "Target path already exists: /w/b")
    );
    let mut e = Execution::begin(rename("/w/a", "/w/b.txt"));
    assert_eq!(
        e.advance(&probed(PathState::NonEmptyDir, PathState::File, true)),
        report(false, "Target path already exists: /w/b.txt")
    );
}

#[test]
fn rename_of_directory_clears_an_empty_target() {
    let mut e = Execution::begin(rename("/w/a", "/w/b"));
    assert_eq!(
        e.advance(&probed(PathState::NonEmptyDir, PathState::EmptyDir, true)),
        Action::RemoveEmptyTarget
    );
    assert_eq!(e.advance(&failed(IoErrorKind::Other, "busy")), Action::Move);
    assert_eq!(e.advance(&Event::Succeeded), report(true, "Renamed /w/a to /w/b"));
}

#[test]
fn rename_of_directory_falls_back_to_copy() {
    let mut e = Execution::begin(rename("/w/a", "/w/b"));
    assert_eq!(
        e.advance(&probed(PathState::EmptyDir, PathState::NonEmptyDir, true)),
        Action::Move
    );
    assert_eq!(
        e.advance(&failed(IoErrorKind::DirectoryNotEmpty, "not empty")),
        Action::CopyTree
    );
    assert_eq!(e.advance(&Event::Succeeded), Action::RemoveSourceTree);
    assert_eq!(
        e.advance(&Event::Succeeded),
        report(true, "Manually copied directory from /w/a to /w/b")
    );

    let mut e = Execution::begin(rename("/w/a", "/w/b"));
    e.advance(&probed(PathState::EmptyDir, PathState::NonEmptyDir, true));
    e.advance(&failed(IoErrorKind::DirectoryNotEmpty, "not empty"));
    assert_eq!(
        e.advance(&failed(IoErrorKind::Other, "io")),
        report(false, "Failed to rename directory: not empty. Manual copy also failed: io")
    );

    let mut e = Execution::begin(rename("/w/a", "/w/b"));
    e.advance(&probed(PathState::EmptyDir, PathState::NonEmptyDir, true));
    e.advance(&failed(IoErrorKind::DirectoryNotEmpty, "not empty"));
    e.advance(&Event::Succeeded);
    assert_eq!(
        e.advance(&failed(IoErrorKind::PermissionDenied, "denied")),
        report(
            true,
            "Copied directory from /w/a to /w/b but could not remove original: denied"
        )
    );
}

#[test]
fn rename_failure_of_a_file_is_reported() {
    let mut e = Execution::begin(rename("/w/a.txt", "/w/b.txt"));
    assert_eq!(e.advance(&probed(PathState::File, PathState::Missing, true)), Action::Move);
    assert_eq!(
        e.advance(&failed(IoErrorKind::DirectoryNotEmpty, "odd")),
        report(false, "Failed to rename /w/a.txt to /w/b.txt: odd")
    );
    let mut e = Execution::begin(rename("/w/a", "/w/b"));
    e.advance(&probed(PathState::EmptyDir, PathState::Missing, true));
    assert_eq!(
        e.advance(&failed(IoErrorKind::PermissionDenied, "denied")),
        report(false, "Failed to rename /w/a to /w/b: denied")
    );
}

#[test]
fn reports_name_their_operation() {
    let mut e = Execution::begin(FileOperation::CreateFile { path: "/w/f".to_string() });
    assert_eq!(
        e.advance(&probed(PathState::File, PathState::File, true)),
        Action::Report(OperationResult {
            operation: "Create file /w/f".to_string(),
            success: true,
            message: "File already exists: /w/f".to_string(),
        })
    );
}

#[test]
fn event_out_of_turn_ends_the_operation() {
    let mut e = Execution::begin(rename("/w/a", "/w/b"));
    assert_eq!(e.advance(&Event::Succeeded), report(false, "Unexpected event"));
    assert!(e.finished());
    assert_eq!(e.advance(&Event::Succeeded), report(false, "Unexpected event"));
}

#[test]
fn batch_reports_every_operation() {
    let ops = vec![
        FileOperation::CreateDir { path: "/w/d".to_string() },
        rename("/w/a.txt", "/w/d/a.txt"),
        FileOperation::Delete { path: "/w/old".to_string() },
    ];
    let mut batch = Batch::new(ops.clone());
    assert!(!batch.done());
    assert_eq!(batch.current(), Some(&ops[0]));
    assert_eq!(
        batch.advance(&probed(PathState::File, PathState::File, true)),
        Some(Action::Probe)
    );
    assert_eq!(batch.current(), Some(&ops[1]));
    assert_eq!(
        batch.advance(&probed(PathState::File, PathState::Missing, true)),
        Some(Action::Move)
    );
    assert_eq!(batch.advance(&Event::Succeeded), Some(Action::Probe));
    assert_eq!(batch.current(), Some(&ops[2]));
    assert_eq!(batch.advance(&probed(PathState::Missing, PathState::Missing, true)), None);
    assert!(batch.done());
    assert_eq!(batch.current(), None);
    assert_eq!(batch.advance(&Event::Succeeded), None);
    let results = batch.into_results();
    assert_eq!(
        results,
        vec![
            OperationResult {
                operation: "Create directory /w/d".to_string(),
                success: false,
                message: "A non-directory occupies the path: /w/d".to_string()
            },
            OperationResult {
                operation: "Rename /w/a.txt to /w/d/a.txt".to_string(),
                success: true,
                message: "Renamed /w/a.txt to /w/d/a.txt".to_string()
            },
            OperationResult {
                operation: "Delete /w/old".to_string(),
                success: true,
                message: "Already absent: /w/old".to_string()
            },
        ]
    );
}

#[test]
fn empty_batch_is_done_at_once() {
    let mut batch = Batch::new(Vec::new());
    assert!(batch.done());
    assert_eq!(batch.current(), None);
    assert_eq!(batch.advance(&Event::Succeeded), None);
    assert_eq!(batch.into_results(), Vec::<OperationResult>::new());
}

#[test]
fn operations_describe_themselves() {
    assert_eq!(rename("a", "b").describe(), "Rename a to b");
    assert_eq!(FileOperation::CreateDir { path: "d".to_string() }.describe(), "Create directory d");
    assert_eq!(FileOperation::CreateFile { path: "f".to_string() }.describe(), "Create file f");
    assert_eq!(FileOperation::Delete { path: "x".to_string() }.describe(), "Delete x");
    assert_eq!(rename("a", "b").duplicate(), rename("a", "b"));
}
