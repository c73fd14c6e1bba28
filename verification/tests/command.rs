use chimera_session::command::{ChimeraSessionCommand, CommandError, SessionExecutable};
use chimera_session::stream_command::{StreamCommand, StreamCommandError};

#[test]
fn test_registry_names() {
    let sh = SessionExecutable::new("").unwrap();
    assert_eq!(sh.get_program(), "/bin/sh");
    assert!(sh.get_arguments().is_empty());

    let bash = SessionExecutable::new("bash").unwrap();
    assert_eq!(bash.get_program(), "/bin/bash");
    assert!(bash.get_arguments().is_empty());

    let zsh = SessionExecutable::new("zsh").unwrap();
    assert_eq!(zsh.get_program(), "/bin/zsh");
    assert!(zsh.get_arguments().is_empty());

    let sleep = SessionExecutable::new("sleep").unwrap();
    assert_eq!(sleep.get_program(), "sleep");
    assert_eq!(sleep.get_arguments(), vec![String::from("5")]);
}

#[test]
fn test_unsupported_name() {
    let r = SessionExecutable::new("nonexistent");
    assert!(matches!(r, Err(CommandError::UnsupportedSessionName)));
}

#[test]
fn test_round_trip_terminate() {
    let sc = StreamCommand::new(1024);
    let bytes = sc.encode(&ChimeraSessionCommand::Terminate).unwrap();
    assert_eq!(bytes, vec![0x01, 0x02, 0x00, 0x03, 0x00, 0x04]);
    let mut rx = StreamCommand::new(1024);
    let got = rx.decode(bytes.as_slice()).unwrap();
    assert_eq!(got, vec![ChimeraSessionCommand::Terminate]);
}

#[test]
fn test_round_trip_restart_sleep() {
    // The concrete wire bytes for a restart to `sleep 5`: SOH STX, the
    // stuffed payload (tag 0x01 escaped, the record's size prefixes and
    // bodies, 0x01 bytes escaped), ETX, the XOR checksum, EOT.
    let spec = SessionExecutable::new("sleep").unwrap();
    let cmd = ChimeraSessionCommand::Restart(spec);
    let sc = StreamCommand::new(1024);
    let bytes = sc.encode(&cmd).unwrap();
    let expected: Vec<u8> = vec![
        0x01, 0x02, // SOH STX
        0x20, 0x01, // escaped tag: restart
        0x05, 0x00, 0x00, 0x00, // program size 5
        0x09, 0x00, 0x00, 0x00, // argument-region size 9
        0x73, 0x6C, 0x65, 0x65, 0x70, // "sleep"
        0x20, 0x01, 0x00, 0x00, 0x00, // argument count 1, first byte escaped
        0x20, 0x01, 0x00, 0x00, 0x00, // argument size 1, first byte escaped
        0x35, // "5"
        0x03, 0x57, 0x04, // ETX, checksum, EOT
    ];
    assert_eq!(bytes, expected);

    let mut rx = StreamCommand::new(1024);
    let got = rx.decode(bytes.as_slice()).unwrap();
    assert_eq!(got.len(), 1);
    match &got[0] {
        ChimeraSessionCommand::Restart(e) => {
            assert_eq!(e.get_program(), "sleep");
            assert_eq!(e.get_arguments(), vec![String::from("5")]);
        },
        other => panic!("expected a restart, got {:?}", other),
    }
    assert_eq!(got, vec![cmd]);
}

#[test]
fn test_unknown_tag() {
    let sc = StreamCommand::new(1024);
    let frame = sc.encode_payload(&[0x07]);
    let mut rx = StreamCommand::new(1024);
    let r = rx.decode(frame.as_slice());
    assert!(matches!(
        r,
        Err(StreamCommandError::SerializationError(CommandError::UnknownTag))
    ));
}

#[test]
fn test_truncated_command() {
    let sc = StreamCommand::new(1024);
    let frame = sc.encode_payload(&[]);
    let mut rx = StreamCommand::new(1024);
    let r = rx.decode(frame.as_slice());
    assert!(matches!(
        r,
        Err(StreamCommandError::SerializationError(CommandError::TruncatedCommand))
    ));
}

#[test]
fn test_malformed_record() {
    let sc = StreamCommand::new(1024);
    let frame = sc.encode_payload(&[0x01, 0xFF]);
    let mut rx = StreamCommand::new(1024);
    let r = rx.decode(frame.as_slice());
    assert!(matches!(
        r,
        Err(StreamCommandError::SerializationError(CommandError::MalformedRecord))
    ));
}

#[test]
fn test_record_with_invalid_utf8_rejected() {
    // tag 0x01, program size 1, argument region size 4, the byte 0xFF as
    // the program (not UTF-8), an empty argument list.
    let payload: Vec<u8> = vec![
        0x01, 0x01, 0x00, 0x00, 0x00, 0x04, 0x00, 0x00, 0x00, 0xFF, 0x00, 0x00, 0x00, 0x00,
    ];
    let sc = StreamCommand::new(1024);
    let frame = sc.encode_payload(payload.as_slice());
    let mut rx = StreamCommand::new(1024);
    let r = rx.decode(frame.as_slice());
    assert!(matches!(
        r,
        Err(StreamCommandError::SerializationError(CommandError::MalformedRecord))
    ));
}

#[test]
fn test_non_ascii_argument_round_trip() {
    // A crafted record whose one argument is the two-byte UTF-8 of a
    // non-ASCII character: decoding must produce the character, and
    // re-encoding must reproduce the frame byte for byte.
    let payload: Vec<u8> = vec![
        0x01, // tag: restart
        0x02, 0x00, 0x00, 0x00, // program size 2
        0x0A, 0x00, 0x00, 0x00, // argument-region size 10
        0x73, 0x68, // "sh"
        0x01, 0x00, 0x00, 0x00, // one argument
        0x02, 0x00, 0x00, 0x00, // of two bytes
        0xC3, 0x9F, // the UTF-8 bytes of the character below
    ];
    let sc = StreamCommand::new(1024);
    let frame = sc.encode_payload(payload.as_slice());
    let mut rx = StreamCommand::new(1024);
    let got = rx.decode(frame.as_slice()).unwrap();
    assert_eq!(got.len(), 1);
    match &got[0] {
        ChimeraSessionCommand::Restart(e) => {
            assert_eq!(e.get_program(), "sh");
            assert_eq!(e.get_arguments(), vec![String::from("\u{00DF}")]);
            let reencoded = sc.encode(&got[0]).unwrap();
            assert_eq!(reencoded, frame);
        },
        other => panic!("expected a restart, got {:?}", other),
    }
}

#[test]
fn test_commands_kept_in_order() {
    let sc = StreamCommand::new(1024);
    let mut bytes = sc.encode(&ChimeraSessionCommand::Terminate).unwrap();
    let spec = SessionExecutable::new("bash").unwrap();
    bytes.extend_from_slice(
        sc.encode(&ChimeraSessionCommand::Restart(spec.clone())).unwrap().as_slice(),
    );
    let mut rx = StreamCommand::new(1024);
    let got = rx.decode(bytes.as_slice()).unwrap();
    assert_eq!(
        got,
        vec![ChimeraSessionCommand::Terminate, ChimeraSessionCommand::Restart(spec)]
    );
}

#[test]
fn test_restart_default_round_trip() {
    // The default executable's record holds a literal 0x04 byte (the
    // argument-region size): escaped on the wire, and decoded correctly
    // when the frame arrives whole.
    let spec = SessionExecutable::new("").unwrap();
    let cmd = ChimeraSessionCommand::Restart(spec);
    let sc = StreamCommand::new(1024);
    let bytes = sc.encode(&cmd).unwrap();
    assert!(bytes[..bytes.len() - 1].contains(&0x04));
    let mut rx = StreamCommand::new(1024);
    let got = rx.decode(bytes.as_slice()).unwrap();
    assert_eq!(got, vec![cmd]);
}

#[test]
fn test_embedded_eot_commits_parser_early() {
    // Splitting a frame right after an interior 0x04 byte makes the decoder
    // commit to an incomplete frame and report a parser error: the caller
    // then resets and the sender retransmits.
    let spec = SessionExecutable::new("").unwrap();
    let cmd = ChimeraSessionCommand::Restart(spec);
    let sc = StreamCommand::new(1024);
    let bytes = sc.encode(&cmd).unwrap();
    let cut = bytes.iter().position(|b| *b == 0x04).unwrap() + 1;
    assert!(cut < bytes.len());
    let mut rx = StreamCommand::new(1024);
    let r = rx.decode(&bytes[..cut]);
    assert!(matches!(r, Err(StreamCommandError::ParserError)));
}
