use snipdoc::parser::actions::exec::{
    approve_exec_command, needs_question, outcome, question, record, refused, SKIP_EXEC_COMMANDS,
};
use snipdoc::strmap::StrMap;

#[test]
fn question_is_needed_unless_the_environment_skips_it() {
    assert!(needs_question(None));
    assert!(needs_question(Some("false")));
    assert!(needs_question(Some("TRUE")));
    assert!(!needs_question(Some("true")));
    assert_eq!(SKIP_EXEC_COMMANDS, "SNIPDOC_SKIP_EXEC_COMMANDS");
}

#[test]
fn command_is_approved_by_environment_or_answer() {
    assert!(approve_exec_command(Some("true"), None));
    assert!(approve_exec_command(Some("true"), Some(false)));
    assert!(approve_exec_command(None, Some(true)));
    assert!(approve_exec_command(Some("no"), Some(true)));
    assert!(!approve_exec_command(None, Some(false)));
    assert!(!approve_exec_command(None, None));
    assert!(!approve_exec_command(Some("1"), None));
}

#[test]
fn question_names_the_command() {
    assert_eq!(
        question("echo hi"),
        "Security Warning: Snipdoc is about to execute the following command: `echo hi`. Do you approve?"
    );
}

#[test]
fn outcome_of_a_run() {
    assert_eq!(
        outcome(Ok((true, "out".to_string(), "err".to_string()))),
        Ok("out".to_string())
    );
    assert_eq!(
        outcome(Ok((false, "out".to_string(), "err".to_string()))),
        Err("err".to_string())
    );
    assert_eq!(outcome(Err("no shell".to_string())), Err("no shell".to_string()));
    assert_eq!(refused(), Err("command not approved".to_string()));
}

#[test]
fn record_keeps_outputs_only() {
    let mut outputs = StrMap::new();
    record(&mut outputs, "a".to_string(), Ok("1".to_string()));
    record(&mut outputs, "b".to_string(), Err("failed".to_string()));
    record(&mut outputs, "a".to_string(), Ok("2".to_string()));
    assert_eq!(outputs.get("a").map(String::as_str), Some("2"));
    assert!(outputs.get("b").is_none());
}
