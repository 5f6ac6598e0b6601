use romv::cli::Args;
use romv::plan::classify_path;
use romv::plan::file_name_of;
use romv::plan::proposed_target;
use romv::plan::replace_file_name;
use romv::plan::Disposition;
use romv::plan::EntryStatus;
use romv::plan::PlanInput;
use romv::plan::RenamePlan;
use romv::rename::rename_decision;
use romv::rename::RenameError;

fn input(path: &str, source_exists: bool, target_exists: bool) -> PlanInput {
    PlanInput {
        path: path.to_string(),
        source_exists,
        target_exists,
    }
}

#[test]
fn file_name_extraction() {
    assert_eq!(file_name_of("dir/テスト.txt"), Some("テスト.txt".to_string()));
    assert_eq!(file_name_of("テスト.txt"), Some("テスト.txt".to_string()));
    assert_eq!(file_name_of("a/b/"), Some("b".to_string()));
    assert_eq!(file_name_of("/"), None);
    assert_eq!(file_name_of(""), None);
    assert_eq!(file_name_of("a/.."), None);
    assert_eq!(file_name_of("."), None);
}

#[test]
fn target_replaces_final_component() {
    assert_eq!(replace_file_name("dir/テスト.txt", "tesuto.txt"), "dir/tesuto.txt");
    assert_eq!(replace_file_name("テスト.txt", "tesuto.txt"), "tesuto.txt");
}

#[test]
fn proposed_target_for_japanese_name() {
    assert_eq!(
        proposed_target("dir/テスト.txt", '_'),
        Some("dir/tesuto.txt".to_string())
    );
    assert_eq!(proposed_target("hello.txt", '_'), None);
}

#[test]
fn classify_dispositions() {
    assert_eq!(classify_path("テスト.txt", false, '_'), Disposition::NotFound);
    assert_eq!(classify_path("..", true, '_'), Disposition::NoFilename);
    assert_eq!(classify_path("hello.txt", true, '_'), Disposition::Unchanged);
    assert_eq!(classify_path("テスト.txt", true, '_'), Disposition::Rename);
}

#[test]
fn already_converted_name_is_unchanged() {
    // Planning an already-converted name again does not propose a second
    // transliteration.
    assert_eq!(classify_path("tesuto.txt", true, '_'), Disposition::Unchanged);
}

#[test]
fn build_plans_ready_entry() {
    let inputs = vec![input("dir/テスト.txt", true, false)];
    let plan = RenamePlan::build(&inputs, '_');
    assert_eq!(plan.entries.len(), 1);
    assert_eq!(plan.skipped, 0);
    assert_eq!(plan.entries[0].source, "dir/テスト.txt");
    assert_eq!(plan.entries[0].target, "dir/tesuto.txt");
    assert_eq!(plan.entries[0].status, EntryStatus::Ready);
}

#[test]
fn build_marks_existing_target() {
    let inputs = vec![input("テスト.txt", true, true)];
    let plan = RenamePlan::build(&inputs, '_');
    assert_eq!(plan.entries.len(), 1);
    assert_eq!(plan.entries[0].status, EntryStatus::TargetExists);
}

#[test]
fn build_skips_missing_and_unchanged() {
    let inputs = vec![
        input("missing-テスト.txt", false, false),
        input("hello.txt", true, false),
        input("..", true, false),
    ];
    let plan = RenamePlan::build(&inputs, '_');
    assert_eq!(plan.entries.len(), 0);
    assert_eq!(plan.skipped, 3);
}

#[test]
fn duplicate_paths_collide() {
    let inputs = vec![
        input("テスト.txt", true, false),
        input("テスト.txt", true, false),
    ];
    let plan = RenamePlan::build(&inputs, '_');
    assert_eq!(plan.entries.len(), 2);
    assert!(plan.check_collisions());
    assert!(plan.target_collides(0));
    assert!(plan.target_collides(1));
    assert!(plan.is_first_with_target(0));
    assert!(!plan.is_first_with_target(1));
    let sources = plan.sources_for_target(&plan.entries[0].target);
    assert_eq!(sources, vec!["テスト.txt".to_string(), "テスト.txt".to_string()]);
}

#[test]
fn distinct_targets_do_not_collide() {
    let inputs = vec![
        input("テスト.txt", true, false),
        input("にほんご.txt", true, false),
    ];
    let plan = RenamePlan::build(&inputs, '_');
    assert_eq!(plan.entries.len(), 2);
    assert!(!plan.check_collisions());
}

#[test]
fn plan_exposes_target_name() {
    let inputs = vec![input("dir/テスト.txt", true, false)];
    let plan = RenamePlan::build(&inputs, '_');
    assert_eq!(plan.target_name(0), Some("tesuto.txt".to_string()));
}

#[test]
fn rename_gate_never_clobbers() {
    // An existing target refuses the rename, whatever the source state.
    assert_eq!(rename_decision(true, true), Err(RenameError::TargetExists));
    assert_eq!(rename_decision(true, false), Ok(()));
    assert_eq!(rename_decision(false, false), Err(RenameError::SourceMissing));
    assert_eq!(rename_decision(false, true), Err(RenameError::SourceMissing));
}

#[test]
fn rename_error_messages() {
    assert_eq!(RenameError::SourceMissing.message(), "source does not exist");
    assert_eq!(RenameError::TargetExists.message(), "target already exists");
}

#[test]
fn skip_reason_messages() {
    assert_eq!(Disposition::NotFound.message(), "not found");
    assert_eq!(Disposition::Unchanged.message(), "unchanged");
}

#[test]
fn separator_validation() {
    let mut args = Args {
        files: vec![],
        yes: false,
        interactive: false,
        verbose: false,
        separator: '_',
    };
    assert!(args.separator_is_valid());
    args.separator = '-';
    assert!(args.separator_is_valid());
    args.separator = '/';
    assert!(!args.separator_is_valid());
    args.separator = '.';
    assert!(!args.separator_is_valid());
    args.separator = '\0';
    assert!(!args.separator_is_valid());
}
