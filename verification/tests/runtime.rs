use herdr_branch_labels::herdr::{
    call_stage, check_socket_path, failed_publish, publish_plan, reply_of, with_tokens,
    workspace_list, workspace_listed, CallError, CallStage, Reply,
};
use herdr_branch_labels::json::{Json, JsonNumber};
use herdr_branch_labels::refresh::{
    checkout_path, current_hints, gathered_branches, hints_action, hints_complete, initial_tokens,
    is_rename_event, needs_initial_label, renamed_workspace, session_key, space_tokens, HintsAction,
};
use herdr_branch_labels::runtime::{
    branch_from_output, branch_target, decimal_chars, drain, drain_action, drain_step,
    finish_output, poll_decision, text_contains, timeout_message, DrainAction, DrainStep, Output,
    PollDecision, ReadResult,
};
use herdr_branch_labels::formatter::Formatter;
use herdr_branch_labels::{labels, saved_workspaces, text_field, truthy, SOURCE};

fn convert(value: &serde_json::Value) -> Json {
    match value {
        serde_json::Value::Null => Json::Null,
        serde_json::Value::Bool(b) => Json::Bool(*b),
        serde_json::Value::Number(n) => Json::Number(if let Some(u) = n.as_u64() {
            JsonNumber::PosInt(u)
        } else if let Some(i) = n.as_i64() {
            JsonNumber::NegInt(i)
        } else {
            JsonNumber::Float(n.as_f64().unwrap().to_bits())
        }),
        serde_json::Value::String(s) => Json::Str(s.clone()),
        serde_json::Value::Array(items) => Json::Array(items.iter().map(convert).collect()),
        serde_json::Value::Object(map) => Json::Object(
            map.iter()
                .map(|(k, v)| (k.clone(), convert(v)))
                .collect(),
        ),
    }
}

fn j(text: &str) -> Json {
    convert(&serde_json::from_str::<serde_json::Value>(text).unwrap())
}

fn strings(items: &[&str]) -> Vec<String> {
    items.iter().map(|s| s.to_string()).collect()
}

#[test]
fn drain_reads_until_end_of_stream() {
    let mut pipe = std::io::Cursor::new(b"hello".to_vec());
    let mut bytes = b"ab".to_vec();
    assert!(drain(&mut pipe, &mut bytes).unwrap());
    assert_eq!(bytes, b"abhello".to_vec());
}

struct Blocked(u32);

impl std::io::Read for Blocked {
    fn read(&mut self, buf: &mut [u8]) -> std::io::Result<usize> {
        if self.0 > 0 {
            self.0 -= 1;
            buf[0] = b'x';
            return Ok(1);
        }
        Err(std::io::Error::from(std::io::ErrorKind::WouldBlock))
    }
}

struct Interrupted(u32);

impl std::io::Read for Interrupted {
    fn read(&mut self, _buf: &mut [u8]) -> std::io::Result<usize> {
        if self.0 > 0 {
            self.0 -= 1;
            return Err(std::io::Error::from(std::io::ErrorKind::Interrupted));
        }
        Ok(0)
    }
}

struct Broken;

impl std::io::Read for Broken {
    fn read(&mut self, _buf: &mut [u8]) -> std::io::Result<usize> {
        Err(std::io::Error::from(std::io::ErrorKind::PermissionDenied))
    }
}

struct Endless;

impl std::io::Read for Endless {
    fn read(&mut self, buf: &mut [u8]) -> std::io::Result<usize> {
        buf[0] = b'y';
        Ok(1)
    }
}

#[test]
fn drain_stops_on_would_block_and_retries_interrupts() {
    let mut bytes = Vec::new();
    assert!(!drain(&mut Blocked(3), &mut bytes).unwrap());
    assert_eq!(bytes, b"xxx".to_vec());
    let mut bytes = Vec::new();
    assert!(drain(&mut Interrupted(3), &mut bytes).unwrap());
    assert!(bytes.is_empty());
    let mut bytes = Vec::new();
    assert!(!drain(&mut Interrupted(16), &mut bytes).unwrap());
    assert_eq!(
        drain(&mut Broken, &mut bytes).unwrap_err().kind(),
        std::io::ErrorKind::PermissionDenied
    );
}

#[test]
fn drain_is_bounded_per_pass() {
    let mut bytes = Vec::new();
    assert!(!drain(&mut Endless, &mut bytes).unwrap());
    assert_eq!(bytes.len(), 16);
}

#[test]
fn drain_appends_a_short_slice_after_what_was_there() {
    let mut pipe: &[u8] = b"hello";
    let mut bytes = vec![1u8];
    assert!(drain(&mut pipe, &mut bytes).unwrap());
    assert_eq!(bytes, vec![1, b'h', b'e', b'l', b'l', b'o']);
    assert!(pipe.is_empty());
}

#[test]
fn drain_fills_its_bound_from_an_endless_stream() {
    let mut pipe = std::io::repeat(b'a');
    let mut bytes = Vec::new();
    assert!(!drain(&mut pipe, &mut bytes).unwrap());
    assert_eq!(bytes, vec![b'a'; 131072]);
}

#[test]
fn drain_steps() {
    let buffer = [7u8, 8, 9, 10];
    let mut bytes = vec![1u8];
    assert_eq!(drain_step(ReadResult::Read(3), &buffer, false, &mut bytes), DrainStep::Again);
    assert_eq!(bytes, vec![1, 7, 8, 9]);
    assert_eq!(
        drain_step(ReadResult::Read(2), &buffer, true, &mut bytes),
        DrainStep::Finished(false)
    );
    assert_eq!(bytes, vec![1, 7, 8, 9, 7, 8]);
    let mut bytes = vec![1u8];
    assert_eq!(
        drain_step(ReadResult::Read(0), &buffer, false, &mut bytes),
        DrainStep::Finished(true)
    );
    assert_eq!(
        drain_step(ReadResult::WouldBlock, &buffer, false, &mut bytes),
        DrainStep::Finished(false)
    );
    assert_eq!(drain_step(ReadResult::Interrupted, &buffer, false, &mut bytes), DrainStep::Again);
    assert_eq!(
        drain_step(ReadResult::Interrupted, &buffer, true, &mut bytes),
        DrainStep::Finished(false)
    );
    assert_eq!(drain_step(ReadResult::Failed, &buffer, true, &mut bytes), DrainStep::Failed);
    assert_eq!(bytes, vec![1u8]);
}

#[test]
fn drain_actions() {
    assert_eq!(drain_action(ReadResult::Read(0)), DrainAction::Stop(true));
    assert_eq!(drain_action(ReadResult::Read(7)), DrainAction::Keep(7));
    assert_eq!(drain_action(ReadResult::WouldBlock), DrainAction::Stop(false));
    assert_eq!(drain_action(ReadResult::Interrupted), DrainAction::Retry);
    assert_eq!(drain_action(ReadResult::Failed), DrainAction::Fail);
}

#[test]
fn poll_decisions() {
    assert_eq!(poll_decision(true, true, true, true), PollDecision::Finish);
    assert_eq!(poll_decision(true, false, true, true), PollDecision::TimedOut);
    assert_eq!(poll_decision(true, true, false, false), PollDecision::Wait);
}

#[test]
fn timeout_message_names_seconds() {
    assert_eq!(timeout_message(3), "command timed out after 3 seconds");
    assert_eq!(timeout_message(120), "command timed out after 120 seconds");
    assert_eq!(
        decimal_chars(18446744073709551615).into_iter().collect::<String>(),
        "18446744073709551615"
    );
    assert_eq!(decimal_chars(0), vec!['0']);
}

#[test]
fn output_decoding_requires_utf8() {
    let out = finish_output(true, "é\n".as_bytes().to_vec(), b"warn".to_vec()).unwrap();
    assert!(out.success);
    assert_eq!(out.stdout, "é\n");
    assert_eq!(out.stderr, "warn");
    let error = finish_output(true, vec![0xff], Vec::new()).err().unwrap();
    assert!(error.contains("invalid utf-8"), "{error}");
    assert!(finish_output(false, Vec::new(), vec![0xc3]).is_err());
}

#[test]
fn branch_interpretation() {
    assert_eq!(branch_target(Some("/repo")), Some("/repo"));
    assert_eq!(branch_target(Some("repo")), None);
    assert_eq!(branch_target(None), None);
    let ok = |success: bool, stdout: &str| {
        Ok(Output { success, stdout: stdout.to_owned(), stderr: String::new() })
    };
    assert_eq!(branch_from_output(ok(true, " main\n")).unwrap(), Some("main".to_owned()));
    assert_eq!(branch_from_output(ok(true, "\n")).unwrap(), None);
    assert_eq!(branch_from_output(ok(false, "main")).unwrap(), None);
    assert_eq!(branch_from_output(Err("command timed out after 3 seconds".to_owned())).unwrap(), None);
    let error = finish_output(true, vec![0xff], Vec::new()).err().unwrap();
    assert_eq!(branch_from_output(Err(error.clone())).unwrap_err(), error);
    assert!(text_contains("an invalid utf-8 byte", "invalid utf-8"));
    assert!(!text_contains("invalid utf", "invalid utf-8"));
    assert!(text_contains("", ""));
}

#[test]
fn herdr_command_outcomes() {
    let report = strings(&["workspace", "report-metadata", "w1"]);
    let list = strings(&["workspace", "list"]);
    match call_stage(&list, false, "", "  boom \n") {
        CallStage::Failed(CallError::Runtime(m)) => assert_eq!(m, "boom"),
        other => panic!("{other:?}"),
    }
    match call_stage(&list, false, "", " ") {
        CallStage::Failed(CallError::Runtime(m)) => assert_eq!(m, "Herdr command failed"),
        other => panic!("{other:?}"),
    }
    assert!(matches!(call_stage(&report, true, " \n", ""), CallStage::EmptyReport));
    assert!(matches!(call_stage(&list, true, "", ""), CallStage::Parse));
    assert!(matches!(call_stage(&report, true, "{}", ""), CallStage::Parse));
    match reply_of(&j(r#"{"error": {"code": 1}, "result": 2}"#)) {
        Reply::Error(e) => assert_eq!(e, j(r#"{"code": 1}"#)),
        other => panic!("{other:?}"),
    }
    match reply_of(&j(r#"{"result": [1]}"#)) {
        Reply::Result(v) => assert_eq!(v, j("[1]")),
        other => panic!("{other:?}"),
    }
    assert!(matches!(reply_of(&j("{}")), Reply::Missing));
    assert_eq!(workspace_list(&j(r#"{"workspaces": [{"a": 1}]}"#)).unwrap(), vec![j(r#"{"a": 1}"#)]);
    assert_eq!(workspace_list(&j(r#"{"workspaces": 1}"#)).unwrap_err(), "missing workspace list");
}

#[test]
fn publishing_builds_the_report_command() {
    let workspace = j(r#"{"workspace_id": "w1", "tokens": {"short_space": "old"}}"#);
    let tokens = j(r#"{"short_branch": null, "short_space": "new"}"#);
    assert_eq!(
        publish_plan(&workspace, &tokens).unwrap().unwrap(),
        strings(&[
            "workspace",
            "report-metadata",
            "w1",
            "--source",
            SOURCE,
            "--token",
            "short_space=new",
            "--clear-token",
            "short_branch",
        ])
    );
    let same = j(r#"{"short_branch": null, "short_space": "old"}"#);
    assert_eq!(publish_plan(&workspace, &same).unwrap(), None);
    assert_eq!(publish_plan(&workspace, &j("[]")).unwrap_err(), "invalid token object");
    assert_eq!(
        publish_plan(&j(r#"{"tokens": {}}"#), &tokens).unwrap_err(),
        "missing string field workspace_id"
    );
    assert_eq!(
        publish_plan(&workspace, &j(r#"{"short_space": 1}"#)).unwrap_err(),
        "invalid token string"
    );
}

#[test]
fn publishing_twice_changes_nothing() {
    let workspace = j(r#"{"workspace_id": "w1", "label": "x", "tokens": {"short_branch": "b", "other": 1}}"#);
    let tokens = j(r#"{"short_branch": null, "short_space": "new"}"#);
    let updated = with_tokens(&workspace, &tokens).unwrap();
    assert_eq!(
        updated,
        j(r#"{"workspace_id": "w1", "label": "x", "tokens": {"other": 1, "short_space": "new"}}"#)
    );
    assert_eq!(publish_plan(&updated, &tokens).unwrap(), None);
    let fresh = with_tokens(&j(r#"{"workspace_id": "w2"}"#), &tokens).unwrap();
    assert_eq!(fresh, j(r#"{"tokens": {"short_space": "new"}, "workspace_id": "w2"}"#));
    assert_eq!(publish_plan(&fresh, &tokens).unwrap(), None);
    assert_eq!(with_tokens(&j("[]"), &tokens).unwrap_err(), "invalid workspace");
    assert_eq!(
        with_tokens(&j(r#"{"tokens": 1}"#), &tokens).unwrap_err(),
        "invalid workspace tokens"
    );
    assert_eq!(with_tokens(&workspace, &j("1")).unwrap_err(), "invalid token object");
}

#[test]
fn failed_publications() {
    let list = [j(r#"{"workspace_id": "w1"}"#)];
    assert!(workspace_listed(&list, "w1"));
    assert!(!workspace_listed(&list, "w2"));
    assert_eq!(failed_publish(CallError::Runtime("gone".into()), false).unwrap(), false);
    assert_eq!(failed_publish(CallError::Runtime("no".into()), true).unwrap_err(), "no");
    assert_eq!(failed_publish(CallError::Other("io".into()), false).unwrap_err(), "io");
}

#[test]
fn identity_hints_follow_live_workspaces() {
    let snapshot = j(r#"{"version": 3, "workspaces": [
        {"id": "w1", "custom_name": null, "identity_cwd": "/repo/checkout"},
        {"id": "w2", "custom_name": "old"}]}"#);
    let saved = saved_workspaces(Some(&snapshot));
    let workspaces = [
        j(r#"{"workspace_id": "w1", "label": "checkout"}"#),
        j(r#"{"workspace_id": "w2", "label": "new"}"#),
    ];
    let hints = current_hints(&saved, &workspaces).unwrap();
    assert_eq!(hints.len(), 1);
    assert!(hints.contains_key("w1"));
    assert!(!hints_complete(&hints, &workspaces));
    assert!(!needs_initial_label(&hints, &workspaces[0]).unwrap());
    assert!(needs_initial_label(&hints, &workspaces[1]).unwrap());
    assert_eq!(
        initial_tokens(&workspaces[1]).unwrap(),
        j(r#"{"short_space": "new"}"#)
    );
    assert_eq!(
        current_hints(&saved, &[j(r#"{"label": "x"}"#)]).err().unwrap(),
        "missing string field workspace_id"
    );
}

#[test]
fn checkout_paths_prefer_the_worktree() {
    let snapshot = j(r#"{"version": 3.0, "workspaces": [{"id": "w1", "identity_cwd": "/saved"}]}"#);
    let saved = saved_workspaces(Some(&snapshot));
    assert_eq!(saved.len(), 1);
    assert_eq!(
        checkout_path(&j(r#"{"workspace_id": "w1", "worktree": {"checkout_path": "/live"}}"#), &saved),
        Some("/live".to_owned())
    );
    assert_eq!(
        checkout_path(&j(r#"{"workspace_id": "w1", "worktree": {"checkout_path": ""}}"#), &saved),
        Some("/saved".to_owned())
    );
    assert_eq!(
        checkout_path(&j(r#"{"workspace_id": "w1", "worktree": {"checkout_path": 5}}"#), &saved),
        None
    );
    assert_eq!(checkout_path(&j(r#"{"workspace_id": "w9"}"#), &saved), None);
}

#[test]
fn rename_context_and_space_tokens() {
    assert!(is_rename_event(Some("workspace.renamed")));
    assert!(!is_rename_event(Some("workspace.focused")));
    assert!(!is_rename_event(None));
    assert_eq!(renamed_workspace(&j(r#"{"workspace_id": "w1"}"#)), Some("w1".to_owned()));
    assert_eq!(renamed_workspace(&j(r#"{"workspace_id": 1}"#)), None);
    let saved = saved_workspaces(Some(&j(
        r#"{"version": 3, "workspaces": [{"id": "w1", "custom_name": null}]}"#,
    )));
    let formatter = Formatter::new(&j(r#"{"pattern": "^feature/"}"#)).unwrap();
    let workspace = j(r#"{"workspace_id": "w1", "label": "dir"}"#);
    let indented = vec!["w1".to_owned()];
    assert_eq!(
        space_tokens(&workspace, &saved, Some("feature/x"), &indented, &formatter, None).unwrap(),
        j(r#"{"short_space": "x", "short_branch": null}"#)
    );
    assert_eq!(
        space_tokens(&workspace, &saved, Some("feature/x"), &indented, &formatter, Some("w1")).unwrap(),
        j(r#"{"short_space": "dir", "short_branch": null}"#)
    );
    assert_eq!(
        space_tokens(&workspace, &saved, Some("feature/x"), &Vec::new(), &formatter, None).unwrap(),
        j(r#"{"short_space": "dir", "short_branch": "x"}"#)
    );
}

#[test]
fn session_key_is_hex_of_digest_prefix() {
    assert_eq!(session_key(b"abc"), "ba7816bf8f01cfea414140de");
    assert_eq!(session_key(b"/tmp/herdr.sock").len(), 24);
}

#[test]
fn fields_and_truthiness() {
    let v = j(r#"{"a": "x", "b": 1}"#);
    assert_eq!(text_field(&v, "a").unwrap(), "x");
    assert_eq!(text_field(&v, "b").unwrap_err(), "missing string field b");
    for (text, expected) in [
        ("null", false),
        ("false", false),
        ("true", true),
        ("0", false),
        ("-0.0", false),
        ("0.5", true),
        ("-2", true),
        ("\"\"", false),
        ("\"x\"", true),
        ("[]", false),
        ("[0]", true),
        ("{}", false),
        ("{\"a\": null}", true),
    ] {
        assert_eq!(truthy(&j(text)), expected, "{text}");
    }
}

#[test]
fn socket_paths_must_be_absolute() {
    assert_eq!(check_socket_path(b"/run/herdr.sock"), Ok(()));
    for path in [&b""[..], b"run/herdr.sock", b"./herdr.sock"] {
        assert_eq!(
            check_socket_path(path),
            Err("HERDR_SOCKET_PATH must identify an explicit Herdr session".to_owned())
        );
    }
}

#[test]
fn hint_waiting_publishes_first_labels_once_then_waits_for_completion() {
    assert_eq!(hints_action(false, true, true), HintsAction::PublishInitial);
    assert_eq!(hints_action(true, true, false), HintsAction::Finish);
    assert_eq!(hints_action(true, false, true), HintsAction::Finish);
    assert_eq!(hints_action(true, false, false), HintsAction::Wait);
}

#[test]
fn worker_results_gather_in_order_with_the_first_error() {
    let all = vec![Some(Ok(Some("main".to_owned()))), Some(Ok(None))];
    assert_eq!(gathered_branches(&all), Ok(vec![Some("main".to_owned()), None]));
    let failing = vec![
        Some(Ok(None)),
        Some(Err("invalid utf-8".to_owned())),
        None,
    ];
    assert_eq!(gathered_branches(&failing), Err("invalid utf-8".to_owned()));
    let missing = vec![None, Some(Err("later".to_owned()))];
    assert_eq!(
        gathered_branches(&missing),
        Err("Git worker did not return a result".to_owned())
    );
    assert_eq!(gathered_branches(&[]), Ok(vec![]));
}

#[test]
fn publishing_made_labels_twice_needs_one_command() {
    let formatter = Formatter::new(&j("{}")).unwrap();
    let workspace = j(r#"{"workspace_id": "w1", "label": "checkout", "tokens": {"short_space": "old"}}"#);
    let tokens = labels(&workspace, None, Some("main"), false, &formatter, false).unwrap();
    assert!(publish_plan(&workspace, &tokens).unwrap().is_some());
    let updated = with_tokens(&workspace, &tokens).unwrap();
    assert_eq!(publish_plan(&updated, &tokens).unwrap(), None);
    let first = initial_tokens(&workspace).unwrap();
    let updated = with_tokens(&j(r#"{"workspace_id": "w2"}"#), &first).unwrap();
    assert_eq!(publish_plan(&updated, &first).unwrap(), None);
}
