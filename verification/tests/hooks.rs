use scm_core::hooks::{
    BlockEmptyCommit, HookExecution, HookRejectionInfo, NoQuestionableFilenames, PatternKind,
};

fn rejection(outcome: HookExecution) -> Option<(String, String)> {
    match outcome {
        HookExecution::Accepted => None,
        HookExecution::Rejected(info) => Some((info.description.to_string(), info.long_description)),
    }
}

fn illegal(path: &str) -> Option<(String, String)> {
    Some(("Illegal filename".to_string(), format!("ABORT: Illegal filename: {}", path)))
}

#[test]
fn test_block_empty_commit() {
    let hook = BlockEmptyCommit::new();
    assert_eq!(
        rejection(hook.run(0)),
        Some((
            "Empty commit is not allowed".to_string(),
            "You must include file changes in your commit for it to land".to_string()
        ))
    );
    assert_eq!(rejection(hook.run(1)), None);
    assert_eq!(rejection(hook.run(usize::MAX)), None);
}

#[test]
fn test_rejection_info() {
    let info = HookRejectionInfo::new("short");
    assert_eq!(info.description, "short");
    assert_eq!(info.long_description, "short");
    let info = HookRejectionInfo::new_long("short", "longer".to_string());
    assert_eq!(info.description, "short");
    assert_eq!(info.long_description, "longer");
}

#[test]
fn test_questionable_filenames_without_allowlists() {
    let hook = NoQuestionableFilenames::builder().build().unwrap();
    assert_eq!(rejection(hook.run(true, "dir/plain.txt")), None);
    assert_eq!(rejection(hook.run(true, "dir/a{b}.txt")), illegal("dir/a{b}.txt"));
    assert_eq!(rejection(hook.run(true, "dir/a b.txt")), illegal("dir/a b.txt"));
    assert_eq!(rejection(hook.run(true, "it's")), illegal("it's"));
    assert_eq!(rejection(hook.run(true, "-rf")), illegal("-rf"));
    assert_eq!(rejection(hook.run(true, "dir/-rf")), illegal("dir/-rf"));
    assert_eq!(rejection(hook.run(true, "dir/a-b")), None);
    // a file that is removed is not looked at
    assert_eq!(rejection(hook.run(false, "dir/a{b}.txt")), None);
}

#[test]
fn test_questionable_filenames_with_allowlists() {
    let hook = NoQuestionableFilenames::builder()
        .allowlist_for_braces("^templates/")
        .allowlist_for_cmd_line("^docs/")
        .build()
        .unwrap();
    assert_eq!(rejection(hook.run(true, "templates/a{b}")), None);
    assert_eq!(rejection(hook.run(true, "src/a{b}")), illegal("src/a{b}"));
    assert_eq!(rejection(hook.run(true, "docs/a b")), None);
    assert_eq!(rejection(hook.run(true, "src/a b")), illegal("src/a b"));
    // each allowlist lets only its own pattern pass
    assert_eq!(rejection(hook.run(true, "templates/a b")), illegal("templates/a b"));
    assert_eq!(rejection(hook.run(true, "docs/a{b}")), illegal("docs/a{b}"));
    assert_eq!(rejection(hook.run(true, "templates/{a} b")), illegal("templates/{a} b"));
}

#[test]
fn test_questionable_filenames_from_config() {
    let hook = NoQuestionableFilenames::builder()
        .allowlist_for_braces("^old/")
        .set_from_config(Some("^templates/"), None)
        .build()
        .unwrap();
    assert_eq!(rejection(hook.run(true, "templates/a{b}")), None);
    assert_eq!(rejection(hook.run(true, "old/a{b}")), illegal("old/a{b}"));
    let hook = NoQuestionableFilenames::builder()
        .allowlist_for_braces("^old/")
        .set_from_config(None, Some("^docs/"))
        .build()
        .unwrap();
    assert_eq!(rejection(hook.run(true, "old/a{b}")), None);
    assert_eq!(rejection(hook.run(true, "docs/a b")), None);
}

#[test]
fn test_questionable_filenames_bad_pattern() {
    let bad = NoQuestionableFilenames::builder().allowlist_for_braces("(").build();
    assert_eq!(bad.err().map(|e| e.kind), Some(PatternKind::AllowlistForBraces));
    let bad = NoQuestionableFilenames::builder().allowlist_for_cmd_line("[").build();
    assert_eq!(bad.err().map(|e| e.kind), Some(PatternKind::AllowlistForCmdLine));
    let bad = NoQuestionableFilenames::builder()
        .allowlist_for_cmd_line("[")
        .allowlist_for_braces("(")
        .build();
    assert_eq!(bad.err().map(|e| e.kind), Some(PatternKind::AllowlistForBraces));
}

#[test]
fn test_judge() {
    let judge = NoQuestionableFilenames::judge;
    assert_eq!(rejection(judge("p", false, false, false, false)), None);
    assert_eq!(rejection(judge("p", true, false, false, false)), illegal("p"));
    assert_eq!(rejection(judge("p", true, true, false, false)), None);
    assert_eq!(rejection(judge("p", false, false, true, false)), illegal("p"));
    assert_eq!(rejection(judge("p", false, false, true, true)), None);
    assert_eq!(rejection(judge("p", true, true, true, false)), illegal("p"));
    assert_eq!(rejection(judge("p", true, false, true, true)), illegal("p"));
    assert_eq!(rejection(judge("p", true, true, true, true)), None);
}

#[test]
fn test_each_allowlist_excuses_only_its_own_check() {
    let hook = NoQuestionableFilenames::builder().allowlist_for_braces("a").build().unwrap();
    // the braces are excused, the blank is not
    assert_eq!(rejection(hook.run(true, "{a} b")), illegal("{a} b"));
    assert_eq!(rejection(hook.run(true, "{a}b")), None);
    assert_eq!(rejection(hook.run(true, "{x}")), illegal("{x}"));
    let hook = NoQuestionableFilenames::builder().allowlist_for_cmd_line("a").build().unwrap();
    assert_eq!(rejection(hook.run(true, "{a} b")), illegal("{a} b"));
    assert_eq!(rejection(hook.run(true, "a b")), None);
}

#[test]
fn test_hyphens() {
    let hook = NoQuestionableFilenames::builder().build().unwrap();
    assert_eq!(rejection(hook.run(true, "dir/-flag")), illegal("dir/-flag"));
    assert_eq!(rejection(hook.run(true, "-flag")), illegal("-flag"));
    assert_eq!(rejection(hook.run(true, "a-b/c-d.txt")), None);
    assert_eq!(rejection(hook.run(true, "dir/a\tb")), illegal("dir/a\tb"));
}
