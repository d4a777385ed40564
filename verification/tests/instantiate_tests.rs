use txml_processor::commands::command_segments;
use txml_processor::commands::run_commands_outcome;
use txml_processor::commands::segment_tokens;
use txml_processor::commands::CommandError;
use txml_processor::commands::SpawnOutcome;
use txml_processor::instantiate::FsModel;
use txml_processor::instantiate::FsOp;
use txml_processor::txml_elements::Directory;
use txml_processor::txml_elements::File;
use txml_processor::txml_structure::TxmlStructure;

fn file(name: &str, extension: &str, command: &str, content: &str) -> File {
    let mut f = File::new();
    f.process_attribute("name", name);
    f.process_attribute("extension", extension);
    f.process_attribute("command", command);
    f.set_text(content.to_string());
    f
}

#[test]
fn single_renamable_file_takes_the_output_name() {
    let mut s = TxmlStructure::new();
    s.add_file(file("declared", "txt", "", "\n  body"));
    let mut fs = FsModel::new();
    let ops = s.instantiate_with_name(&mut fs, "dest", "out");
    assert_eq!(ops.len(), 1);
    match &ops[0] {
        FsOp::WroteFile(path, content) => {
            assert_eq!(path, "dest/out.txt");
            assert_eq!(content, "body");
        }
        _ => panic!("expected a file write"),
    }
}

#[test]
fn single_renamable_directory_takes_the_output_name() {
    let mut s = TxmlStructure::new();
    let mut d = Directory::new();
    d.process_attribute("name", "declared");
    d.add_file(file("inner", "", "", ""));
    s.add_directory(d);
    let mut fs = FsModel::new();
    let ops = s.instantiate_with_name(&mut fs, "dest", "out");
    match &ops[0] {
        FsOp::CreatedDir(path) => assert_eq!(path, "dest/out"),
        _ => panic!("expected a directory creation"),
    }
    // Descendants keep their declared names beneath the renamed root.
    match &ops[1] {
        FsOp::WroteFile(path, _) => assert_eq!(path, "dest/out/inner"),
        _ => panic!("expected the inner file write"),
    }
}

#[test]
fn two_children_ignore_the_output_name() {
    let mut s = TxmlStructure::new();
    s.add_file(file("one", "txt", "", ""));
    s.add_file(file("two", "txt", "", ""));
    let mut fs = FsModel::new();
    let ops = s.instantiate_with_name(&mut fs, "dest", "out");
    assert_eq!(ops.len(), 2);
    match (&ops[0], &ops[1]) {
        (FsOp::WroteFile(p1, _), FsOp::WroteFile(p2, _)) => {
            assert_eq!(p1, "dest/one.txt");
            assert_eq!(p2, "dest/two.txt");
        }
        _ => panic!("expected two file writes"),
    }
}

#[test]
fn non_renamable_structure_ignores_the_output_name() {
    let s = TxmlStructure::from_txml_str("<Root renamable=\"false\"><File name=\"declared\"/></Root>")
        .unwrap();
    let mut fs = FsModel::new();
    let ops = s.instantiate_with_name(&mut fs, "dest", "out");
    match &ops[0] {
        FsOp::WroteFile(path, _) => assert_eq!(path, "dest/declared"),
        _ => panic!("expected a file write"),
    }
}

#[test]
fn existing_file_is_skipped_without_write_or_hook() {
    let f = file("present", "txt", "echo hi", "\n  body");
    let mut fs = FsModel::from_paths(vec!["dest/present.txt".to_string()]);
    let ops = f.instantiate(&mut fs, "dest");
    assert_eq!(ops.len(), 1);
    assert!(matches!(&ops[0], FsOp::SkippedExisting(p) if p == "dest/present.txt"));
}

#[test]
fn existing_directory_is_skipped_without_hooks_or_descent() {
    let mut d = Directory::new();
    d.process_attribute("name", "present");
    d.process_attribute("in_command", "git init");
    d.add_file(file("child", "", "", ""));
    let mut fs = FsModel::from_paths(vec!["dest/present".to_string()]);
    let ops = d.instantiate(&mut fs, "dest");
    assert_eq!(ops.len(), 1);
    assert!(matches!(&ops[0], FsOp::SkippedExisting(p) if p == "dest/present"));
    // The child was not created either.
    assert!(!fs.contains_path("dest/present/child"));
}

#[test]
fn directory_hooks_run_in_and_out_of_the_new_directory() {
    let mut d = Directory::new();
    d.process_attribute("name", "proj");
    d.process_attribute("in_command", "git init");
    d.process_attribute("out_command", "ls -l");
    let mut fs = FsModel::new();
    let ops = d.instantiate(&mut fs, "dest");
    assert_eq!(ops.len(), 3);
    assert!(matches!(&ops[0], FsOp::CreatedDir(p) if p == "dest/proj"));
    assert!(matches!(&ops[1], FsOp::RanCommand(c, wd) if c == "git init" && wd == "dest/proj"));
    assert!(matches!(&ops[2], FsOp::RanCommand(c, wd) if c == "ls -l" && wd == "dest"));
}

#[test]
fn file_hook_runs_in_the_parent_directory() {
    let f = file("main", "rs", "cargo build", "\n  fn main() {}");
    let mut fs = FsModel::new();
    let ops = f.instantiate(&mut fs, "dest");
    assert_eq!(ops.len(), 2);
    assert!(matches!(&ops[0], FsOp::WroteFile(p, c) if p == "dest/main.rs" && c == "fn main() {}"));
    assert!(matches!(&ops[1], FsOp::RanCommand(c, wd) if c == "cargo build" && wd == "dest"));
}

#[test]
fn command_chain_aborts_after_first_failure() {
    let segments = command_segments("true;false;echo skip");
    assert_eq!(segments.len(), 3);
    let outcomes = vec![SpawnOutcome::ExitSuccess, SpawnOutcome::ExitFailure];
    let (spawned, result) = run_commands_outcome(&segments, &outcomes);
    // Exactly two processes ran; the third segment was never reached; the
    // file or directory the hook belongs to was already materialized
    // before any command ran.
    assert_eq!(spawned, 2);
    assert!(matches!(result, Err(CommandError::CommandFailed)));
}

#[test]
fn empty_segment_is_invalid_input() {
    let segments = command_segments("true;;false");
    let outcomes = vec![SpawnOutcome::ExitSuccess; 3];
    let (spawned, result) = run_commands_outcome(&segments, &outcomes);
    assert_eq!(spawned, 1);
    assert!(matches!(result, Err(CommandError::InvalidInput)));
}

#[test]
fn failed_spawn_is_a_creation_error() {
    let segments = command_segments("definitely-not-a-binary");
    let outcomes = vec![SpawnOutcome::NotSpawned];
    let (spawned, result) = run_commands_outcome(&segments, &outcomes);
    assert_eq!(spawned, 1);
    assert!(matches!(result, Err(CommandError::CreationError)));
}

#[test]
fn segments_are_trimmed_and_tokenized() {
    let segments = command_segments("git init   ;      mkdir pepe");
    assert_eq!(segments.len(), 2);
    let toks = segment_tokens(&segments[1]);
    assert_eq!(toks, vec!["mkdir".to_string(), "pepe".to_string()]);
}

#[test]
fn structure_instantiation_orders_files_before_directories() {
    let s = TxmlStructure::from_txml_str(
        "<Root><Directory name=\"d\"><File name=\"inner\" extension=\"txt\"/></Directory><File name=\"top\"/></Root>",
    )
    .unwrap();
    let mut fs = FsModel::new();
    let ops = s.instantiate(&mut fs, "dest");
    assert_eq!(ops.len(), 3);
    assert!(matches!(&ops[0], FsOp::WroteFile(p, _) if p == "dest/top"));
    assert!(matches!(&ops[1], FsOp::CreatedDir(p) if p == "dest/d"));
    assert!(matches!(&ops[2], FsOp::WroteFile(p, _) if p == "dest/d/inner.txt"));
    assert!(fs.contains_path("dest/top"));
    assert!(fs.contains_path("dest/d"));
    assert!(fs.contains_path("dest/d/inner.txt"));
}
