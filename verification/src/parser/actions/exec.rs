//! Running the content of a snippet as a command: what is decided before
//! and after the run. The run itself is not done here.
use vstd::prelude::*;
use vstd::string::StringExecFns;
use crate::parser::html_tag::values_text;
use crate::strmap::StrMap;
use crate::text::str_eq;

verus! {

/// The name of the environment variable that, set to `true`, lets every
/// command run without a question.
pub const SKIP_EXEC_COMMANDS: &'static str = "SNIPDOC_SKIP_EXEC_COMMANDS";

/// The environment lets every command run: the variable is set to `true`.
pub open spec fn skips_question(env_value: Option<Seq<char>>) -> bool {
    env_value == Some("true"@)
}

/// Whether the user has to be asked before a command is run, given what the
/// environment variable holds, if it is set.
pub fn needs_question(env_value: Option<&str>) -> (b: bool)
    ensures
        b == !skips_question(
            match env_value {
                Some(v) => Some(v@),
                None => None,
            },
        ),
{
    match env_value {
        Some(v) => !str_eq(v, "true"),
        None => true,
    }
}

/// Whether a command may run: the environment lets every command run, or
/// the user was asked and said yes. `answer` is what the user said, if the
/// question was asked and answered.
pub fn approve_exec_command(env_value: Option<&str>, answer: Option<bool>) -> (b: bool)
    ensures
        b == (skips_question(
            match env_value {
                Some(v) => Some(v@),
                None => None,
            },
        ) || answer == Some(true)),
{
    if !needs_question(env_value) {
        true
    } else {
        match answer {
            Some(yes) => yes,
            None => false,
        }
    }
}

/// The question that is put to the user before `command` is run.
pub fn question(command: &str) -> (r: String)
    ensures
        r@ == "Security Warning: Snipdoc is about to execute the following command: `"@
            + command@ + "`. Do you approve?"@,
{
    let mut out =
        "Security Warning: Snipdoc is about to execute the following command: `".to_owned();
    out.append(command);
    out.append("`. Do you approve?");
    out
}

/// What a command that was not allowed to run gives: a refusal.
pub fn refused() -> (r: Result<String, String>)
    ensures
        r is Err,
        r->Err_0@ == "command not approved"@,
{
    Err("command not approved".to_owned())
}

/// What a run of a command gives: what it printed where it succeeded, and
/// what it printed as errors where it failed. `finished` holds whether the
/// command succeeded, its output and its error output; or why it could not
/// be started.
pub fn outcome(finished: Result<(bool, String, String), String>) -> (r: Result<String, String>)
    ensures
        r == match finished {
            Ok((success, output, errors)) => if success {
                Ok::<String, String>(output)
            } else {
                Err::<String, String>(errors)
            },
            Err(why) => Err::<String, String>(why),
        },
{
    match finished {
        Ok((success, output, errors)) => {
            if success {
                Ok(output)
            } else {
                Err(errors)
            }
        },
        Err(why) => Err(why),
    }
}

/// Keeps what `command` printed, where its run gave an output. A failed
/// run leaves no output, and the content of the snippet is injected in its
/// place.
pub fn record(outputs: &mut StrMap<String>, command: String, result: Result<String, String>)
    ensures
        values_text(final(outputs)@) == match result {
            Ok(output) => values_text(old(outputs)@).insert(command@, output@),
            Err(_) => values_text(old(outputs)@),
        },
{
    match result {
        Ok(output) => {
            let ghost before = outputs@;
            outputs.insert(command, output);
            assert(values_text(outputs@) =~= values_text(before).insert(command@, output@));
        },
        Err(_) => {},
    }
}

} // verus!
