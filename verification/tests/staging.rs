use treenamer::operation::FileOperation;
use treenamer::operation::OperationResult;
use treenamer::staging::{
    follow_renames, gather, is_token_fresh, origins_of, redirect, settle_token, stage, stage_with,
};

fn rename(from: &str, to: &str) -> FileOperation {
    FileOperation::Rename { from: from.to_string(), to: to.to_string() }
}

fn delete(path: &str) -> FileOperation {
    FileOperation::Delete { path: path.to_string() }
}

#[test]
fn a_swap_goes_through_a_temporary_name() {
    let ops = vec![rename("/w/a", "/w/b"), rename("/w/b", "/w/a"), delete("/w/x")];
    assert_eq!(
        stage_with(&ops, "T"),
        vec![
            rename("/w/a", "/w/b.tmp-T"),
            rename("/w/b", "/w/a"),
            rename("/w/b.tmp-T", "/w/b"),
            delete("/w/x"),
        ]
    );
}

#[test]
fn a_chain_is_routed_where_it_runs_into_itself() {
    let ops = vec![rename("a", "b"), rename("b", "c"), rename("c", "d")];
    assert_eq!(
        stage_with(&ops, "k"),
        vec![
            rename("a", "b.tmp-k"),
            rename("b", "c.tmp-k"),
            rename("c", "d"),
            rename("b.tmp-k", "b"),
            rename("c.tmp-k", "c"),
        ]
    );
    let freeing_first = vec![rename("c", "d"), rename("b", "c"), rename("a", "b")];
    assert_eq!(stage_with(&freeing_first, "k"), freeing_first);
}

#[test]
fn what_is_not_in_the_way_stays_as_it_is() {
    let ops = vec![
        FileOperation::CreateDir { path: "/w/n".to_string() },
        rename("/w/a", "/w/n/a"),
        rename("/w/b", "/w/c"),
        delete("/w/a"),
        delete("/w/old"),
    ];
    assert_eq!(stage_with(&ops, "T"), ops);
    assert_eq!(stage(&ops), ops);
    assert_eq!(stage(&Vec::new()), Vec::<FileOperation>::new());
}

#[test]
fn the_token_of_a_staging_is_new() {
    let ops = vec![rename("a", "b"), rename("b", "a")];
    let staged = stage(&ops);
    assert_eq!(staged.len(), 3);
    let aside = match &staged[0] {
        FileOperation::Rename { from, to } => {
            assert_eq!(from, "a");
            to.clone()
        }
        other => panic!("unexpected operation {:?}", other),
    };
    assert!(aside.starts_with("b.tmp-"));
    assert_eq!(aside.len(), "b.tmp-".len() + 36);
    assert_eq!(staged[1], rename("b", "a"));
    assert_eq!(staged[2], rename(&aside, "b"));
    let again = stage(&ops);
    assert_ne!(staged[0], again[0]);
}

#[test]
fn operations_follow_the_directory_they_lay_in() {
    let ops = vec![
        rename("/w/dir1/f.txt", "/w/d2/f.txt"),
        rename("/w/dir1", "/w/d2"),
        delete("/w/dir1/old.txt"),
        delete("/w/other.txt"),
    ];
    assert_eq!(
        follow_renames(&ops),
        vec![
            rename("/w/dir1/f.txt", "/w/d2/f.txt"),
            rename("/w/dir1", "/w/d2"),
            delete("/w/d2/old.txt"),
            delete("/w/other.txt"),
        ]
    );
    assert_eq!(stage(&ops), follow_renames(&ops));
}

#[test]
fn redirections_add_up() {
    let ops = vec![
        rename("a", "x"),
        rename("a/b", "x/y"),
        FileOperation::CreateDir { path: "a/new".to_string() },
        delete("a/b/old"),
        delete("ab/c"),
    ];
    assert_eq!(
        follow_renames(&ops),
        vec![
            rename("a", "x"),
            rename("x/b", "x/y"),
            FileOperation::CreateDir { path: "a/new".to_string() },
            delete("x/y/old"),
            delete("ab/c"),
        ]
    );
    assert_eq!(redirect(&"a/b/c".to_string(), "a/b", "z"), "z/c");
    assert_eq!(redirect(&"a/b".to_string(), "a/b", "z"), "a/b");
    assert_eq!(redirect(&"a/bc".to_string(), "a/b", "z"), "a/bc");
}

fn report(operation: &str, success: bool, message: &str) -> OperationResult {
    OperationResult {
        operation: operation.to_string(),
        success,
        message: message.to_string(),
    }
}

#[test]
fn every_planned_operation_gets_one_report() {
    let ops = vec![rename("a", "b"), rename("b", "a"), delete("x")];
    assert_eq!(origins_of(&ops), vec![0, 1, 0, 2]);
    let reports = vec![
        report("Rename a to b.tmp-T", true, "Renamed a to b.tmp-T"),
        report("Rename b to a", true, "Renamed b to a"),
        report("Rename b.tmp-T to b", true, "Renamed b.tmp-T to b"),
        report("Delete x", true, "Deleted x"),
    ];
    assert_eq!(
        gather(&ops, &origins_of(&ops), &reports),
        vec![
            report("Rename a to b", true, "Renamed b.tmp-T to b"),
            report("Rename b to a", true, "Renamed b to a"),
            report("Delete x", true, "Deleted x"),
        ]
    );
    let failing = vec![
        report("Rename a to b.tmp-T", false, "Source path does not exist: a"),
        report("Rename b to a", true, "Renamed b to a"),
        report("Rename b.tmp-T to b", false, "Source path does not exist: b.tmp-T"),
        report("Delete x", false, "Failed to delete x: denied"),
    ];
    assert_eq!(
        gather(&ops, &origins_of(&ops), &failing),
        vec![
            report("Rename a to b", false, "Source path does not exist: a"),
            report("Rename b to a", true, "Renamed b to a"),
            report("Delete x", false, "Failed to delete x: denied"),
        ]
    );
    let plain = vec![
        FileOperation::CreateDir { path: "d".to_string() },
        rename("a", "b"),
        delete("x"),
    ];
    assert_eq!(origins_of(&plain), vec![0, 1, 2]);
    assert_eq!(origins_of(&Vec::new()), Vec::<usize>::new());
}

#[test]
fn a_token_that_is_not_fresh_is_made_fresh() {
    let ops = vec![rename("a", "b"), rename("b.tmp-T", "c"), rename("b", "d")];
    assert!(!is_token_fresh(&ops, "T"));
    assert!(is_token_fresh(&ops, "U"));
    assert_eq!(settle_token(&ops, "U".to_string()), "U");
    let settled = settle_token(&ops, "T".to_string());
    assert_eq!(settled, "xxxxxxx-T");
    assert!(is_token_fresh(&ops, &settled));
    let clash = vec![rename("a", "b"), rename("c", "b.tmp-T")];
    assert!(!is_token_fresh(&clash, "T"));
    assert!(is_token_fresh(&Vec::new(), "T"));
}
