use tust::clean::{count_removed, is_sandbox_name, select_sandboxes, TempEntry};
use tust::control::{child_gate, choose_mode, is_confirmation, Mode};

fn entry(name: &[u8], is_dir: bool) -> TempEntry {
    TempEntry {
        name: name.to_vec(),
        is_dir,
    }
}

#[test]
fn sandbox_names_need_the_prefix() {
    assert!(is_sandbox_name(&b"tust-abc123".to_vec()));
    assert!(is_sandbox_name(&b"tust-".to_vec()));
    assert!(!is_sandbox_name(&b"tust".to_vec()));
    assert!(!is_sandbox_name(&b"Tust-abc".to_vec()));
    assert!(!is_sandbox_name(&b"other-tust-".to_vec()));
    assert!(!is_sandbox_name(&Vec::new()));
}

#[test]
fn cleanup_selects_only_prefixed_directories() {
    let entries = vec![
        entry(b"tust-abc", true),
        entry(b"tust-file", false),
        entry(b"other", true),
        entry(b"tust-", true),
        entry(b"tus", true),
    ];
    let picked = select_sandboxes(&entries);
    assert_eq!(picked.len(), 2);
    assert_eq!(picked[0], b"tust-abc".to_vec());
    assert_eq!(picked[1], b"tust-".to_vec());
}

#[test]
fn cleanup_selects_nothing_without_sandboxes() {
    let entries = vec![entry(b"a", true), entry(b"tust-x", false)];
    assert!(select_sandboxes(&entries).is_empty());
    assert!(select_sandboxes(&Vec::new()).is_empty());
}

#[test]
fn cleanup_count_skips_failures() {
    assert_eq!(count_removed(&vec![true, false, true]), 2);
    assert_eq!(count_removed(&vec![false, false]), 0);
    assert_eq!(count_removed(&Vec::new()), 0);
}

#[test]
fn clean_flag_wins_over_command() {
    assert!(matches!(choose_mode(true, 3), Mode::Clean));
    assert!(matches!(choose_mode(true, 0), Mode::Clean));
}

#[test]
fn empty_command_is_usage_error() {
    assert!(matches!(choose_mode(false, 0), Mode::Usage));
    assert!(matches!(choose_mode(false, 2), Mode::Run));
}

#[test]
fn child_success_lets_pipeline_continue() {
    assert_eq!(child_gate(true, Some(0)), None);
    assert_eq!(child_gate(true, None), None);
}

#[test]
fn child_failure_propagates_exit_code() {
    assert_eq!(child_gate(false, Some(2)), Some(2));
    assert_eq!(child_gate(false, Some(127)), Some(127));
    assert_eq!(child_gate(false, None), Some(-1));
}

#[test]
fn confirmation_accepts_only_y() {
    assert!(is_confirmation(&b"y\n".to_vec()));
    assert!(is_confirmation(&b"Y\n".to_vec()));
    assert!(is_confirmation(&b"  y \r\n".to_vec()));
    assert!(is_confirmation(&b"y".to_vec()));
    assert!(!is_confirmation(&b"yes\n".to_vec()));
    assert!(!is_confirmation(&b"n\n".to_vec()));
    assert!(!is_confirmation(&b"\n".to_vec()));
    assert!(!is_confirmation(&Vec::new()));
    assert!(!is_confirmation(&b"y y\n".to_vec()));
}
