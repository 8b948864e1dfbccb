use treenamer::entity::Entity;
use treenamer::fuzzy::{jaccard_of, resolve_by_structure, similarity_of_names, Similarity};
use treenamer::operation::FileOperation;
use treenamer::plan::plan_operations;
use treenamer::reconcile::generate_restore_operations;
use treenamer::resolve::Match;
use treenamer::text::chars_of;

fn e(path: &str, is_dir: bool) -> Entity {
    Entity { id: String::new(), path: path.to_string(), is_dir }
}

fn pair(original: usize, modified: usize, inherited: bool) -> Match {
    Match { original, modified, inherited }
}

fn names(list: &[&str]) -> Vec<Vec<char>> {
    list.iter().map(|n| chars_of(n)).collect()
}

#[test]
fn similarity_of_two_names() {
    assert_eq!(
        similarity_of_names(&chars_of("file2.txt"), &chars_of("file2_renamed.txt")),
        Similarity { num: 9, den: 17 }
    );
    assert_eq!(
        similarity_of_names(&chars_of("same.txt"), &chars_of("same.txt")),
        Similarity { num: 8, den: 8 }
    );
    assert_eq!(
        similarity_of_names(&chars_of("aa"), &chars_of("aaa")),
        Similarity { num: 2, den: 3 }
    );
    assert_eq!(
        similarity_of_names(&chars_of("abc"), &chars_of("xyz")),
        Similarity { num: 0, den: 3 }
    );
    assert_eq!(similarity_of_names(&chars_of(""), &chars_of("")), Similarity { num: 0, den: 0 });
    assert!(Similarity { num: 9, den: 17 }.passes(30));
    assert!(!Similarity { num: 9, den: 17 }.passes(60));
    assert!(!Similarity { num: 3, den: 10 }.passes(30));
    assert!(Similarity { num: 3, den: 10 }.reaches(30));
    assert!(!Similarity { num: 0, den: 0 }.reaches(0));
    assert!(Similarity { num: 2, den: 3 }.beats(&Similarity { num: 1, den: 2 }));
    assert!(!Similarity { num: 1, den: 2 }.beats(&Similarity { num: 2, den: 4 }));
}

#[test]
fn jaccard_of_two_directories() {
    assert_eq!(
        jaccard_of(&names(&["file1.txt", "file2.txt"]), &names(&["file1.txt", "file2_renamed.txt"])),
        Similarity { num: 1, den: 3 }
    );
    assert_eq!(jaccard_of(&names(&[]), &names(&[])), Similarity { num: 0, den: 0 });
    assert_eq!(jaccard_of(&names(&["a", "b"]), &names(&["b", "a"])), Similarity { num: 2, den: 2 });
    assert_eq!(jaccard_of(&names(&["a"]), &names(&["b", "c"])), Similarity { num: 0, den: 3 });
}

#[test]
fn fuzzy_scenario_pairs_directory_and_files() {
    let original =
        vec![e("", true), e("dir1", true), e("dir1/file1.txt", false), e("dir1/file2.txt", false)];
    let modified = vec![
        e("", true),
        e("renamed_dir1", true),
        e("renamed_dir1/file1.txt", false),
        e("renamed_dir1/file2_renamed.txt", false),
    ];
    let matches = resolve_by_structure(&original, &modified);
    assert_eq!(
        matches,
        vec![pair(0, 0, false), pair(1, 1, false), pair(2, 2, true), pair(3, 3, false)]
    );
    let plan = plan_operations("/w", &original, &modified, &matches);
    let renames = plan.iter().filter(|op| matches!(op, FileOperation::Rename { .. })).count();
    assert_eq!(renames, 2);
    assert_eq!(plan.len(), 2);
}

#[test]
fn nested_directories_need_more_in_common() {
    let original = vec![
        e("", true),
        e("keep", true),
        e("keep/old", true),
        e("keep/old/a", false),
        e("keep/old/b", false),
        e("keep/old/c", false),
    ];
    let modified = vec![
        e("", true),
        e("keep", true),
        e("keep/new", true),
        e("keep/new/a", false),
        e("keep/new/b", false),
        e("keep/new/d", false),
    ];
    let matches = resolve_by_structure(&original, &modified);
    assert_eq!(
        matches,
        vec![pair(0, 0, false), pair(1, 1, false), pair(3, 3, false), pair(4, 4, false)]
    );

    let top_original =
        vec![e("", true), e("old", true), e("old/a", false), e("old/b", false), e("old/c", false)];
    let top_modified =
        vec![e("", true), e("new", true), e("new/a", false), e("new/b", false), e("new/d", false)];
    assert_eq!(
        resolve_by_structure(&top_original, &top_modified),
        vec![
            pair(0, 0, false),
            pair(1, 1, false),
            pair(2, 2, true),
            pair(3, 3, true),
        ]
    );
}

#[test]
fn files_across_directories_need_more_similarity() {
    let original = vec![e("", true), e("a", true), e("b", true), e("a/report_v1.txt", false)];
    let same_dir = vec![e("", true), e("a", true), e("b", true), e("a/rep.txt", false)];
    let other_dir = vec![e("", true), e("a", true), e("b", true), e("b/rep.txt", false)];
    let close = vec![e("", true), e("a", true), e("b", true), e("b/report_v2.txt", false)];
    assert_eq!(
        resolve_by_structure(&original, &same_dir),
        vec![pair(0, 0, false), pair(1, 1, false), pair(2, 2, false), pair(3, 3, false)]
    );
    assert_eq!(
        resolve_by_structure(&original, &other_dir),
        vec![pair(0, 0, false), pair(1, 1, false), pair(2, 2, false)]
    );
    assert_eq!(
        resolve_by_structure(&original, &close),
        vec![pair(0, 0, false), pair(1, 1, false), pair(2, 2, false), pair(3, 3, false)]
    );
}

#[test]
fn the_most_similar_candidate_wins() {
    let original = vec![e("", true), e("notes.txt", false)];
    let modified = vec![e("", true), e("notes_old.txt", false), e("notes2.txt", false)];
    assert_eq!(
        resolve_by_structure(&original, &modified),
        vec![pair(0, 0, false), pair(1, 2, false)]
    );
}

#[test]
fn restore_is_reconciliation_towards_the_backup() {
    let current = vec![e("", true), e("kept.txt", false), e("extra.txt", false)];
    let backup = vec![
        Entity { id: "u1".to_string(), path: "proj".to_string(), is_dir: true },
        Entity { id: "u2".to_string(), path: "proj/kept.txt".to_string(), is_dir: false },
        Entity { id: "u3".to_string(), path: "proj/docs".to_string(), is_dir: true },
    ];
    assert_eq!(
        generate_restore_operations("/home/u/proj", &current, &backup),
        vec![
            FileOperation::CreateDir { path: "/home/u/proj/docs".to_string() },
            FileOperation::Delete { path: "/home/u/proj/extra.txt".to_string() },
        ]
    );
}
