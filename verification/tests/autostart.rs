use bloqueador_web::autostart::{desktop_entry, schtasks_args, task_outcome, AutostartError, TASK_SCHEDULER};

#[test]
fn test_set_autostart_enable_success() {
    let args = schtasks_args(true, r"C:\Program Files\WebBlocker\blocker.exe");
    assert_eq!(TASK_SCHEDULER, "schtasks");
    assert_eq!(args[0], "/create");
    assert_eq!(args[1], "/tn");
    assert_eq!(args[2], "BloqueadorWeb");
    assert_eq!(args[3], "/tr");
    assert_eq!(args[4], "\"C:\\Program Files\\WebBlocker\\blocker.exe\"");
    assert_eq!(args[5], "/sc");
    assert_eq!(args[6], "onlogon");
    assert_eq!(args[7], "/rl");
    assert_eq!(args[8], "highest");
    assert_eq!(args[9], "/f");
    assert!(task_outcome(true, true).is_ok());
}

#[test]
fn test_set_autostart_disable_success() {
    let args = schtasks_args(false, "");
    assert_eq!(TASK_SCHEDULER, "schtasks");
    assert_eq!(args[0], "/delete");
    assert_eq!(args[1], "/tn");
    assert_eq!(args[2], "BloqueadorWeb");
    assert_eq!(args[3], "/f");
    assert_eq!(args.len(), 4);
    assert!(task_outcome(false, true).is_ok());
}

#[test]
fn test_set_autostart_enable_failure() {
    let args = schtasks_args(true, "blocker.exe");
    assert_eq!(args[4], "\"blocker.exe\"");
    let res = task_outcome(true, false);
    assert!(res.is_err());
    assert!(res.unwrap_err().message().contains("schtasks falló al crear"));
}

#[test]
fn disable_failure_is_reported() {
    assert_eq!(task_outcome(false, false), Err(AutostartError::TaskDeleteFailed));
    assert!(AutostartError::TaskDeleteFailed.message().contains("schtasks falló al eliminar"));
}

#[test]
fn desktop_entry_runs_the_executable() {
    let entry = desktop_entry("/usr/local/bin/bloqueador-web");
    assert_eq!(
        entry,
        "[Desktop Entry]\nType=Application\nName=Bloqueador Web\nExec=\"/usr/local/bin/bloqueador-web\"\nHidden=false\nNoDisplay=false\nX-GNOME-Autostart-enabled=true\nComment=Bloqueador de sitios web para concentrarse\n"
    );
}
