//! The service shortcuts: which `systemctl` command a set of flags stands for.

use vstd::prelude::*;

use crate::text::str_eq;

verus! {

/// How many of the flags are set.
pub open spec fn flag_count(start: bool, stop: bool, restart: bool, status: bool) -> int {
    (if start { 1int } else { 0 }) + (if stop { 1int } else { 0 }) + (if restart {
        1int
    } else {
        0
    }) + (if status { 1int } else { 0 })
}

/// The action that the flags ask for; exactly one must be set.
pub open spec fn admin_action(start: bool, stop: bool, restart: bool, status: bool) -> Result<
    Seq<char>,
    Seq<char>,
> {
    if flag_count(start, stop, restart, status) == 0 {
        Err("--admin needs exactly one of --start, --stop, --restart, --status"@)
    } else if flag_count(start, stop, restart, status) > 1 {
        Err(
            "--admin takes exactly one of --start, --stop, --restart, --status, not several at once"@,
        )
    } else if start {
        Ok("start"@)
    } else if stop {
        Ok("stop"@)
    } else if restart {
        Ok("restart"@)
    } else {
        Ok("status"@)
    }
}

/// The action that the flags ask for, or what is wrong with them.
pub fn resolve_admin_action(start: bool, stop: bool, restart: bool, status: bool) -> (action: Result<
    &'static str,
    &'static str,
>)
    ensures
        (match action {
            Ok(action) => Ok(action@),
            Err(message) => Err(message@),
        }) == admin_action(start, stop, restart, status),
{
    match (start, stop, restart, status) {
        (true, false, false, false) => Ok("start"),
        (false, true, false, false) => Ok("stop"),
        (false, false, true, false) => Ok("restart"),
        (false, false, false, true) => Ok("status"),
        (false, false, false, false) => Err(
            "--admin needs exactly one of --start, --stop, --restart, --status",
        ),
        _ => Err(
            "--admin takes exactly one of --start, --stop, --restart, --status, not several at once",
        ),
    }
}

/// A command to run, and what is said before it runs.
pub struct AdminCommand {
    pub program: &'static str,
    pub args: Vec<&'static str>,
    pub banner: String,
}

/// The texts of a list of arguments.
pub open spec fn arg_texts(args: Seq<&'static str>) -> Seq<Seq<char>> {
    args.map_values(|s: &'static str| s@)
}

/// A command is the one for an action: `systemctl`, under `sudo` for anything
/// that changes the service.
pub open spec fn runs_action(command: AdminCommand, action: Seq<char>) -> bool {
    if action == "status"@ {
        &&& command.program@ == "systemctl"@
        &&& arg_texts(command.args@) == seq!["status"@, "wraithflow"@]
        &&& command.banner@ == "[admin] running: systemctl "@ + action + " wraithflow"@
    } else {
        &&& command.program@ == "sudo"@
        &&& arg_texts(command.args@) == seq!["systemctl"@, action, "wraithflow"@]
        &&& command.banner@ == "[admin] running: sudo systemctl "@ + action + " wraithflow"@
    }
}

/// The command for an action.
pub fn admin_command(action: &'static str) -> (command: AdminCommand)
    ensures
        runs_action(command, action@),
{
    let mut args: Vec<&'static str> = Vec::new();
    if str_eq(action, "status") {
        args.push("status");
        args.push("wraithflow");
        let mut banner = "[admin] running: systemctl ".to_owned();
        banner.append(action);
        banner.append(" wraithflow");
        assert(arg_texts(args@) =~= seq!["status"@, "wraithflow"@]);
        AdminCommand { program: "systemctl", args, banner }
    } else {
        args.push("systemctl");
        args.push(action);
        args.push("wraithflow");
        let mut banner = "[admin] running: sudo systemctl ".to_owned();
        banner.append(action);
        banner.append(" wraithflow");
        assert(arg_texts(args@) =~= seq!["systemctl"@, action@, "wraithflow"@]);
        AdminCommand { program: "sudo", args, banner }
    }
}

/// The exit code for the code of a command, which is absent where a signal ended
/// it.
pub fn exit_code(code: Option<i32>) -> (out: i32)
    ensures
        out == (match code {
            Some(code) => code,
            None => 1,
        }),
{
    match code {
        Some(code) => code,
        None => 1,
    }
}

/// An action is owed exactly when one flag is set, and `sudo` is used exactly
/// when the action is not `status`.
pub proof fn one_flag_one_action(
    start: bool,
    stop: bool,
    restart: bool,
    status: bool,
    command: AdminCommand,
)
    ensures
        admin_action(start, stop, restart, status) is Ok <==> flag_count(
            start,
            stop,
            restart,
            status,
        ) == 1,
        admin_action(start, stop, restart, status) matches Ok(action) ==> runs_action(
            command,
            action,
        ) ==> (command.program@ == "sudo"@ <==> !status),
{
    reveal_strlit("start");
    reveal_strlit("stop");
    reveal_strlit("restart");
    reveal_strlit("status");
    reveal_strlit("sudo");
    reveal_strlit("systemctl");
    assert("start"@.len() == 5);
    assert("stop"@.len() == 4);
    assert("restart"@.len() == 7);
    assert("status"@.len() == 6);
    assert("sudo"@.len() == 4);
    assert("systemctl"@.len() == 9);
}

/// Each flag alone stands for the action of its name; none, and more than one, are
/// refused with what is wrong.
pub proof fn every_flag_has_its_action(start: bool, stop: bool, restart: bool, status: bool)
    ensures
        ({
            let action = admin_action(start, stop, restart, status);
            &&& start && !stop && !restart && !status ==> action == Ok::<Seq<char>, Seq<char>>(
                "start"@,
            )
            &&& !start && stop && !restart && !status ==> action == Ok::<Seq<char>, Seq<char>>(
                "stop"@,
            )
            &&& !start && !stop && restart && !status ==> action == Ok::<Seq<char>, Seq<char>>(
                "restart"@,
            )
            &&& !start && !stop && !restart && status ==> action == Ok::<Seq<char>, Seq<char>>(
                "status"@,
            )
            &&& !start && !stop && !restart && !status ==> action == Err::<Seq<char>, Seq<char>>(
                "--admin needs exactly one of --start, --stop, --restart, --status"@,
            )
            &&& (start && stop) || (start && restart) || (start && status) || (stop && restart)
                || (stop && status) || (restart && status) ==> action == Err::<
                Seq<char>,
                Seq<char>,
            >(
                "--admin takes exactly one of --start, --stop, --restart, --status, not several at once"@,
            )
        }),
{
}

/// What runs for an action: `systemctl` with the action and the service, behind `sudo`
/// unless the action is `status`, and it is said as it is run.
pub proof fn an_action_runs_systemctl(command: AdminCommand, action: Seq<char>)
    requires
        runs_action(command, action),
    ensures
        action == "status"@ ==> command.program@ == "systemctl"@ && command.args@.len() == 2
            && command.args@[0]@ == action && command.args@[1]@ == "wraithflow"@
            && command.banner@ == "[admin] running: systemctl status wraithflow"@,
        action != "status"@ ==> command.program@ == "sudo"@ && command.args@.len() == 3
            && command.args@[0]@ == "systemctl"@ && command.args@[1]@ == action
            && command.args@[2]@ == "wraithflow"@ && command.banner@
            == "[admin] running: sudo systemctl "@ + action + " wraithflow"@,
{
    reveal_strlit("[admin] running: systemctl ");
    reveal_strlit("status");
    reveal_strlit(" wraithflow");
    reveal_strlit("[admin] running: systemctl status wraithflow");
    let texts = arg_texts(command.args@);
    assert(texts.len() == command.args@.len());
    assert forall|i: int| 0 <= i < texts.len() implies #[trigger] command.args@[i]@ == texts[i] by {
    }
    if action == "status"@ {
        assert(command.banner@ =~= "[admin] running: systemctl status wraithflow"@);
    }
}

} // verus!
