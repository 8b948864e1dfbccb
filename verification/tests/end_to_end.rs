use std::collections::BTreeMap;

use treenamer::engine::{Action, Batch, Event, PathState};
use treenamer::error::IoErrorKind;
use treenamer::operation::{FileOperation, OperationResult};
use treenamer::reconcile::reconcile;
use treenamer::staging::stage;
use treenamer::text::parent_path;
use treenamer::tree::TreeNode;

/// A filesystem in memory: every path with whether it is a directory.
#[derive(Debug, Clone, PartialEq, Eq)]
struct Disk {
    entries: BTreeMap<String, bool>,
}

fn failed(kind: IoErrorKind, detail: &str) -> Event {
    Event::Failed { kind, detail: detail.to_string() }
}

impl Disk {
    fn of(root: &str, tree: &TreeNode) -> Disk {
        let mut disk = Disk { entries: BTreeMap::new() };
        disk.entries.insert(root.to_string(), true);
        for child in &tree.children {
            disk.plant(root, child);
        }
        disk
    }

    fn plant(&mut self, parent: &str, node: &TreeNode) {
        let path = format!("{}/{}", parent, node.name);
        self.entries.insert(path.clone(), node.is_dir);
        for child in &node.children {
            self.plant(&path, child);
        }
    }

    fn below(&self, path: &str) -> Vec<String> {
        let prefix = format!("{}/", path);
        self.entries.keys().filter(|p| p.starts_with(&prefix)).cloned().collect()
    }

    fn state(&self, path: &str) -> PathState {
        match self.entries.get(path) {
            None => PathState::Missing,
            Some(false) => PathState::File,
            Some(true) => {
                if self.below(path).is_empty() {
                    PathState::EmptyDir
                } else {
                    PathState::NonEmptyDir
                }
            }
        }
    }

    fn create_dir_all(&mut self, path: &str) -> Event {
        if self.entries.get(path) == Some(&true) {
            return Event::Succeeded;
        }
        if let Some(parent) = parent_path(path) {
            if let Event::Failed { kind, detail } = self.create_dir_all(&parent) {
                return Event::Failed { kind, detail };
            }
        }
        match self.entries.get(path) {
            Some(false) => failed(IoErrorKind::AlreadyExists, "a file is in the way"),
            _ => {
                self.entries.insert(path.to_string(), true);
                Event::Succeeded
            }
        }
    }

    fn remove_tree(&mut self, path: &str) -> Event {
        if !self.entries.contains_key(path) {
            return failed(IoErrorKind::NotFound, "no such file or directory");
        }
        for p in self.below(path) {
            self.entries.remove(&p);
        }
        self.entries.remove(path);
        Event::Succeeded
    }

    fn rename(&mut self, from: &str, to: &str) -> Event {
        let moved_is_dir = match self.entries.get(from) {
            None => return failed(IoErrorKind::NotFound, "no such file or directory"),
            Some(d) => *d,
        };
        match self.state(to) {
            PathState::NonEmptyDir => {
                return failed(IoErrorKind::DirectoryNotEmpty, "directory not empty")
            }
            PathState::EmptyDir if !moved_is_dir => {
                return failed(IoErrorKind::Other, "is a directory")
            }
            PathState::File if moved_is_dir => {
                return failed(IoErrorKind::Other, "not a directory")
            }
            _ => {}
        }
        let inside = self.below(from);
        self.entries.remove(to);
        self.entries.remove(from);
        self.entries.insert(to.to_string(), moved_is_dir);
        for p in inside {
            let kind = self.entries.remove(&p).unwrap();
            self.entries.insert(format!("{}{}", to, &p[from.len()..]), kind);
        }
        Event::Succeeded
    }

    fn copy_tree(&mut self, from: &str, to: &str) -> Event {
        if !self.entries.contains_key(to) {
            self.entries.insert(to.to_string(), true);
        }
        for p in self.below(from) {
            let kind = self.entries[&p];
            self.entries.insert(format!("{}{}", to, &p[from.len()..]), kind);
        }
        Event::Succeeded
    }

    fn perform(&mut self, op: &FileOperation, action: &Action) -> Event {
        let (source, target) = match op {
            FileOperation::Rename { from, to } => (from.clone(), to.clone()),
            FileOperation::CreateDir { path }
            | FileOperation::CreateFile { path }
            | FileOperation::Delete { path } => (path.clone(), path.clone()),
        };
        match action {
            Action::Probe => Event::Probed {
                source: self.state(&source),
                target: self.state(&target),
                parent_exists: match parent_path(&target) {
                    Some(parent) => self.entries.contains_key(&parent),
                    None => true,
                },
            },
            Action::CreateParent => match parent_path(&target) {
                Some(parent) => self.create_dir_all(&parent),
                None => Event::Succeeded,
            },
            Action::CreateDirectory => self.create_dir_all(&target),
            Action::CreateEmptyFile => {
                self.entries.insert(target, false);
                Event::Succeeded
            }
            Action::RemoveEmptyTarget => self.remove_tree(&target),
            Action::Move => self.rename(&source, &target),
            Action::CopyTree => self.copy_tree(&source, &target),
            Action::RemoveSourceTree => self.remove_tree(&source),
            Action::RemoveTree => self.remove_tree(&target),
            Action::RemoveFile => self.remove_tree(&target),
            Action::Report(_) => Event::Succeeded,
        }
    }

    fn carry_out(&mut self, operations: Vec<FileOperation>) -> Vec<OperationResult> {
        let mut batch = Batch::new(stage(&operations));
        let mut next = if batch.done() { None } else { Some(Action::Probe) };
        while let Some(action) = next {
            let op = batch.current().unwrap().clone();
            let event = self.perform(&op, &action);
            next = batch.advance(&event);
        }
        batch.into_results()
    }
}

fn node(id: &str, name: &str, is_dir: bool, children: Vec<TreeNode>) -> TreeNode {
    TreeNode { id: id.to_string(), name: name.to_string(), is_dir, children }
}

/// Reconciles the two trees on a disk that holds the first and expects the disk to hold
/// the second afterwards, with every operation reported as a success.
fn turns_into(original: &TreeNode, modified: &TreeNode) {
    let mut disk = Disk::of("/w", original);
    let plan = reconcile("/w", original, modified).unwrap();
    let results = disk.carry_out(plan.clone());
    for result in &results {
        assert!(result.success, "{}: {}", result.operation, result.message);
    }
    assert_eq!(disk, Disk::of("/w", modified), "after {:?}", plan);
    let again = disk.carry_out(
        plan.into_iter()
            .filter(|op| !matches!(op, FileOperation::Rename { .. }))
            .collect(),
    );
    for result in &again {
        assert!(result.success, "repeated {}: {}", result.operation, result.message);
    }
    assert_eq!(disk, Disk::of("/w", modified));
}

#[test]
fn a_renamed_file_and_a_new_file_arrive_on_disk() {
    let original = node(
        "r",
        "root",
        true,
        vec![node("A", "file1.txt", false, vec![]), node("B", "dir1", true, vec![])],
    );
    let modified = node(
        "r",
        "root",
        true,
        vec![
            node("A", "file2.txt", false, vec![]),
            node("B", "dir1", true, vec![]),
            node("C", "new_file.txt", false, vec![]),
        ],
    );
    turns_into(&original, &modified);
}

#[test]
fn renamed_directories_arrive_on_disk_with_what_they_hold() {
    let original = node(
        "root",
        "root",
        true,
        vec![
            node(
                "dir1",
                "dir1",
                true,
                vec![
                    node("file1", "file1.txt", false, vec![]),
                    node("file2", "file2.txt", false, vec![]),
                    node("old", "old.txt", false, vec![]),
                ],
            ),
            node(
                "dir2",
                "dir2",
                true,
                vec![node("subdir", "subdir", true, vec![node("file3", "file3.txt", false, vec![])])],
            ),
        ],
    );
    let modified = node(
        "root",
        "root",
        true,
        vec![
            node(
                "dir1",
                "renamed_dir1",
                true,
                vec![
                    node("file1", "file1.txt", false, vec![]),
                    node("file2", "file2_renamed.txt", false, vec![]),
                    node("fresh", "fresh", true, vec![node("note", "note.txt", false, vec![])]),
                ],
            ),
            node(
                "dir2",
                "dir2",
                true,
                vec![node(
                    "subdir",
                    "renamed_subdir",
                    true,
                    vec![node("file3", "file3.txt", false, vec![])],
                )],
            ),
            node("new_dir", "new_dir", true, vec![node("new_file", "new_file.txt", false, vec![])]),
        ],
    );
    turns_into(&original, &modified);
}

#[test]
fn two_files_swap_their_names_on_disk() {
    let original = node(
        "r",
        "root",
        true,
        vec![node("a", "a.txt", false, vec![]), node("b", "b.txt", false, vec![])],
    );
    let modified = node(
        "r",
        "root",
        true,
        vec![node("b", "a.txt", false, vec![]), node("a", "b.txt", false, vec![])],
    );
    let plan = reconcile("/w", &original, &modified).unwrap();
    assert_eq!(plan.len(), 2);
    let mut disk = Disk::of("/w", &original);
    let results = disk.carry_out(plan);
    assert_eq!(results.len(), 3);
    for result in &results {
        assert!(result.success, "{}: {}", result.operation, result.message);
    }
    assert_eq!(disk, Disk::of("/w", &modified));
}

#[test]
fn two_directories_swap_their_names_on_disk() {
    let original = node(
        "r",
        "root",
        true,
        vec![
            node("A", "A", true, vec![node("x", "x", false, vec![])]),
            node("B", "B", true, vec![node("y", "y", false, vec![])]),
        ],
    );
    let modified = node(
        "r",
        "root",
        true,
        vec![
            node("B", "A", true, vec![node("y", "y", false, vec![])]),
            node("A", "B", true, vec![node("x", "x", false, vec![])]),
        ],
    );
    let mut disk = Disk::of("/w", &original);
    let plan = reconcile("/w", &original, &modified).unwrap();
    let results = disk.carry_out(plan);
    for result in &results {
        assert!(result.success, "{}: {}", result.operation, result.message);
    }
    assert_eq!(disk, Disk::of("/w", &modified));
    assert_eq!(disk.state("/w/A/y"), PathState::File);
    assert_eq!(disk.state("/w/B/x"), PathState::File);
    assert_eq!(disk.state("/w/A/x"), PathState::Missing);
}

#[test]
fn trees_without_identities_arrive_on_disk() {
    let original = node(
        "",
        "root",
        true,
        vec![node(
            "",
            "dir1",
            true,
            vec![node("", "file1.txt", false, vec![]), node("", "file2.txt", false, vec![])],
        )],
    );
    let modified = node(
        "",
        "root",
        true,
        vec![node(
            "",
            "renamed_dir1",
            true,
            vec![
                node("", "file1.txt", false, vec![]),
                node("", "file2_renamed.txt", false, vec![]),
            ],
        )],
    );
    turns_into(&original, &modified);
}

#[test]
fn deletions_and_creations_arrive_on_disk() {
    let original = node(
        "r",
        "root",
        true,
        vec![
            node("a", "a", true, vec![node("b", "b", true, vec![node("c", "c.txt", false, vec![])])]),
            node("k", "keep.txt", false, vec![]),
        ],
    );
    let modified = node(
        "r",
        "root",
        true,
        vec![
            node("k", "keep.txt", false, vec![]),
            node("n", "n", true, vec![node("m", "m.txt", false, vec![])]),
        ],
    );
    turns_into(&original, &modified);
}

#[test]
fn one_failure_does_not_stop_the_rest() {
    let mut disk = Disk { entries: BTreeMap::new() };
    disk.entries.insert("/w".to_string(), true);
    disk.entries.insert("/w/a.txt".to_string(), false);
    disk.entries.insert("/w/taken".to_string(), false);
    let results = disk.carry_out(vec![
        FileOperation::CreateDir { path: "/w/taken".to_string() },
        FileOperation::Rename { from: "/w/missing".to_string(), to: "/w/x".to_string() },
        FileOperation::Rename { from: "/w/a.txt".to_string(), to: "/w/taken".to_string() },
        FileOperation::Rename { from: "/w/a.txt".to_string(), to: "/w/deep/er/b.txt".to_string() },
        FileOperation::Delete { path: "/w/nothing".to_string() },
    ]);
    let verdicts: Vec<bool> = results.iter().map(|r| r.success).collect();
    assert_eq!(verdicts, vec![false, false, false, true, true]);
    assert_eq!(disk.state("/w/deep/er/b.txt"), PathState::File);
    assert_eq!(disk.state("/w/a.txt"), PathState::Missing);
    assert_eq!(disk.state("/w/taken"), PathState::File);
}
