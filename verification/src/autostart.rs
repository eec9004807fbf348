//! Starting the program with the system: the Task Scheduler command on
//! Windows and the desktop entry on Linux.

use vstd::prelude::*;
use crate::text::strs_view;

verus! {

/// The program that registers the task on Windows.
pub const TASK_SCHEDULER: &'static str = "schtasks";

/// The name of the scheduled task.
pub const TASK_NAME: &'static str = "BloqueadorWeb";

/// The file name of the desktop entry in the autostart directory on Linux.
pub const DESKTOP_FILE_NAME: &'static str = "bloqueador-web.desktop";

/// The arguments for `schtasks`: to create the task that starts the
/// program at `exe_path` with the highest privileges at logon, or to
/// delete it.
pub open spec fn task_args(enabled: bool, exe_path: Seq<char>) -> Seq<Seq<char>> {
    if enabled {
        seq![
            "/create"@,
            "/tn"@,
            TASK_NAME@,
            "/tr"@,
            seq!['"'] + exe_path + seq!['"'],
            "/sc"@,
            "onlogon"@,
            "/rl"@,
            "highest"@,
            "/f"@,
        ]
    } else {
        seq!["/delete"@, "/tn"@, TASK_NAME@, "/f"@]
    }
}

/// The arguments to pass to `schtasks` (`task_args`).
pub fn schtasks_args(enabled: bool, exe_path: &str) -> (args: Vec<String>)
    ensures
        strs_view(args@) == task_args(enabled, exe_path@),
{
    let mut args: Vec<String> = Vec::new();
    if enabled {
        let mut quoted = "\"".to_owned();
        quoted.append(exe_path);
        quoted.append("\"");
        let ghost q = quoted@;
        args.push("/create".to_owned());
        args.push("/tn".to_owned());
        args.push(TASK_NAME.to_owned());
        args.push("/tr".to_owned());
        args.push(quoted);
        args.push("/sc".to_owned());
        args.push("onlogon".to_owned());
        args.push("/rl".to_owned());
        args.push("highest".to_owned());
        args.push("/f".to_owned());
        proof {
            reveal_strlit("\"");
            assert("\""@ =~= seq!['"']);
            assert(quoted@ =~= seq!['"'] + exe_path@ + seq!['"']);
            assert(strs_view(args@)[4] == q);
        }
    } else {
        args.push("/delete".to_owned());
        args.push("/tn".to_owned());
        args.push(TASK_NAME.to_owned());
        args.push("/f".to_owned());
    }
    assert(strs_view(args@) =~= task_args(enabled, exe_path@));
    args
}

/// Why changing the autostart setting failed.
#[derive(Clone, Copy, Debug, PartialEq, Eq, Structural)]
pub enum AutostartError {
    /// `schtasks` did not succeed in creating the task.
    TaskCreateFailed,
    /// `schtasks` did not succeed in deleting the task.
    TaskDeleteFailed,
}

impl AutostartError {
    /// The message shown to the user.
    pub fn message(&self) -> (res: String)
        ensures
            res@ == match self {
                AutostartError::TaskCreateFailed => "schtasks falló al crear la tarea. Asegurate de ejecutar la aplicación como Administrador."@,
                AutostartError::TaskDeleteFailed => "schtasks falló al eliminar la tarea. Asegurate de ejecutar la aplicación como Administrador."@,
            },
    {
        match self {
            AutostartError::TaskCreateFailed => "schtasks falló al crear la tarea. Asegurate de ejecutar la aplicación como Administrador.".to_owned(),
            AutostartError::TaskDeleteFailed => "schtasks falló al eliminar la tarea. Asegurate de ejecutar la aplicación como Administrador.".to_owned(),
        }
    }
}

/// What a run of `schtasks` that did (`success`) or did not succeed means
/// for the request to enable (`enabled`) or disable autostart.
pub fn task_outcome(enabled: bool, success: bool) -> (res: Result<(), AutostartError>)
    ensures
        success ==> res is Ok,
        !success && enabled ==> res == Err::<(), AutostartError>(AutostartError::TaskCreateFailed),
        !success && !enabled ==> res == Err::<(), AutostartError>(AutostartError::TaskDeleteFailed),
{
    if success {
        Ok(())
    } else if enabled {
        Err(AutostartError::TaskCreateFailed)
    } else {
        Err(AutostartError::TaskDeleteFailed)
    }
}

/// The text of the desktop entry that starts the program at `exe_path`
/// when the user logs in.
pub open spec fn desktop_entry_text(exe_path: Seq<char>) -> Seq<char> {
    "[Desktop Entry]\nType=Application\nName=Bloqueador Web\nExec=\""@ + exe_path
        + "\"\nHidden=false\nNoDisplay=false\nX-GNOME-Autostart-enabled=true\nComment=Bloqueador de sitios web para concentrarse\n"@
}

/// The desktop entry for the program at `exe_path` (`desktop_entry_text`).
pub fn desktop_entry(exe_path: &str) -> (res: String)
    ensures
        res@ == desktop_entry_text(exe_path@),
{
    let mut res = "[Desktop Entry]\nType=Application\nName=Bloqueador Web\nExec=\"".to_owned();
    res.append(exe_path);
    res.append(
        "\"\nHidden=false\nNoDisplay=false\nX-GNOME-Autostart-enabled=true\nComment=Bloqueador de sitios web para concentrarse\n",
    );
    res
}

} // verus!
