use codex_history::{is_ignorable_codex_helper, running_codex_message};

#[test]
fn helpers_do_not_count_as_running() {
    assert!(is_ignorable_codex_helper("/x/crashpad_handler --database=y"));
    assert!(is_ignorable_codex_helper("SkyComputerUseClient turn-ended 3"));
    assert!(is_ignorable_codex_helper(
        "/Applications/Codex Computer Use.app/Contents/MacOS/SkyComputerUseService"
    ));
    assert!(!is_ignorable_codex_helper("/usr/local/bin/codex"));
    assert!(!is_ignorable_codex_helper(""));
}

#[test]
fn running_message_lists_real_processes() {
    assert_eq!(running_codex_message(None), None);
    let only_helpers = vec!["crashpad_handler".to_string()];
    assert_eq!(running_codex_message(Some(&only_helpers)), None);
    let mixed = vec![
        "crashpad_handler".to_string(),
        "codex --resume".to_string(),
        "codex".to_string(),
    ];
    assert_eq!(
        running_codex_message(Some(&mixed)),
        Some(vec!["codex --resume".to_string(), "codex".to_string()])
    );
}
