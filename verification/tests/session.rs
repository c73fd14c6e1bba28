use chimera_session::command::{ChimeraSessionCommand, SessionExecutable};
use chimera_session::session::{SessionAction, SessionDriver, SessionEvent};
use chimera_session::stream_command::StreamCommand;

fn encoded(cmd: &ChimeraSessionCommand) -> Vec<u8> {
    StreamCommand::new(1024).encode(cmd).unwrap()
}

#[test]
fn test_new_driver_defaults() {
    let d = SessionDriver::new();
    assert!(!d.exit_requested());
    assert!(!d.is_connected());
    assert_eq!(d.command().get_program(), "/bin/sh");
    assert!(d.command().get_arguments().is_empty());
}

#[test]
fn test_terminate_semantics() {
    let mut d = SessionDriver::new();
    let a = d.on_event(SessionEvent::IncomingConnection);
    assert_eq!(a, SessionAction::Continue);
    assert!(d.is_connected());

    let bytes = encoded(&ChimeraSessionCommand::Terminate);
    let a = d.on_event(SessionEvent::DataRead(bytes));
    assert_eq!(a, SessionAction::Continue);
    assert!(d.exit_requested());
}

#[test]
fn test_restart_semantics() {
    let mut d = SessionDriver::new();
    d.on_event(SessionEvent::IncomingConnection);

    let spec = SessionExecutable::new("sleep").unwrap();
    let bytes = encoded(&ChimeraSessionCommand::Restart(spec));
    let a = d.on_event(SessionEvent::DataRead(bytes));
    // The current child is asked to die; the respawn follows its exit.
    assert_eq!(a, SessionAction::KillChild);
    assert!(!d.exit_requested());
    assert_eq!(d.command().get_program(), "sleep");
    assert_eq!(d.command().get_arguments(), vec![String::from("5")]);

    // The exit is observed later; the supervisor respawns with the
    // last-set executable, connection or no connection.
    let a = d.on_event(SessionEvent::ChildExited);
    assert_eq!(a, SessionAction::Respawn);
    assert_eq!(d.command().get_program(), "sleep");
}

#[test]
fn test_autonomous_respawn_without_connection() {
    let mut d = SessionDriver::new();
    assert!(!d.is_connected());
    let a = d.on_event(SessionEvent::ChildExited);
    assert_eq!(a, SessionAction::Respawn);
    assert_eq!(d.command().get_program(), "/bin/sh");
    assert!(!d.exit_requested());
}

#[test]
fn test_bad_data_drops_connection() {
    let mut d = SessionDriver::new();
    d.on_event(SessionEvent::IncomingConnection);
    let a = d.on_event(SessionEvent::DataRead(vec![0x01, 0x05, 0x04]));
    assert_eq!(a, SessionAction::DropConnection);
    assert!(!d.is_connected());
    assert!(!d.exit_requested());
}

#[test]
fn test_zero_read_is_disconnect() {
    let mut d = SessionDriver::new();
    d.on_event(SessionEvent::IncomingConnection);
    let a = d.on_event(SessionEvent::DataRead(Vec::new()));
    assert_eq!(a, SessionAction::DropConnection);
    assert!(!d.is_connected());
}

#[test]
fn test_read_failure_drops_connection() {
    let mut d = SessionDriver::new();
    d.on_event(SessionEvent::IncomingConnection);
    let a = d.on_event(SessionEvent::ReadFailed);
    assert_eq!(a, SessionAction::DropConnection);
    assert!(!d.is_connected());
}

#[test]
fn test_last_restart_wins_and_terminate_sticks() {
    let mut d = SessionDriver::new();
    d.on_event(SessionEvent::IncomingConnection);
    let mut bytes = encoded(&ChimeraSessionCommand::Restart(
        SessionExecutable::new("bash").unwrap(),
    ));
    bytes.extend_from_slice(
        encoded(&ChimeraSessionCommand::Terminate).as_slice(),
    );
    bytes.extend_from_slice(
        encoded(&ChimeraSessionCommand::Restart(SessionExecutable::new("zsh").unwrap()))
            .as_slice(),
    );
    let a = d.on_event(SessionEvent::DataRead(bytes));
    assert_eq!(a, SessionAction::KillChild);
    assert!(d.exit_requested());
    assert_eq!(d.command().get_program(), "/bin/zsh");
}
