//! The command model: the session executable registry and the control
//! commands carried by the framed protocol.
use vstd::prelude::*;

use vstd::string::StringExecFns;

use crate::record::{
    decode_record, encode_record, lemma_record_injective, record_fits, record_parts_fit,
    session_record, some_record,
};

verus! {

broadcast use vstd::string::group_string_axioms;

/// Errors of the command model and its record serialization.
#[derive(Clone, Copy, Debug, PartialEq, Eq, Structural)]
pub enum CommandError {
    /// A symbolic session name outside the fixed registry.
    UnsupportedSessionName,
    /// An empty byte sequence where a command was expected.
    TruncatedCommand,
    /// A leading tag byte that names no command.
    UnknownTag,
    /// A record whose sizes or bodies do not form a valid encoding.
    MalformedRecord,
    /// A record one of whose sizes exceeds the serializer's size type.
    OversizedRecord,
}

/// A resolved program together with its argument list.
#[derive(Debug, Clone, PartialEq, Eq)]
pub struct SessionExecutable {
    program: String,
    arguments: Vec<String>,
}

/// Mathematical view of a [`SessionExecutable`].
pub struct SessionExecutableView {
    pub program: Seq<char>,
    pub arguments: Seq<Seq<char>>,
}

impl View for SessionExecutable {
    type V = SessionExecutableView;

    closed spec fn view(&self) -> SessionExecutableView {
        SessionExecutableView { program: self.program@, arguments: self.arguments.deep_view() }
    }
}

impl SessionExecutable {
    /// Resolves a symbolic session name through the fixed registry. Any name
    /// outside the registry is rejected, never partially constructed.
    pub fn new(name: &str) -> (r: Result<SessionExecutable, CommandError>)
        ensures
            name@ == ""@ ==> (r matches Ok(e) && e@.program == "/bin/sh"@ && e@.arguments
                == Seq::<Seq<char>>::empty()),
            name@ == "bash"@ ==> (r matches Ok(e) && e@.program == "/bin/bash"@ && e@.arguments
                == Seq::<Seq<char>>::empty()),
            name@ == "zsh"@ ==> (r matches Ok(e) && e@.program == "/bin/zsh"@ && e@.arguments
                == Seq::<Seq<char>>::empty()),
            name@ == "sleep"@ ==> (r matches Ok(e) && e@.program == "sleep"@ && e@.arguments
                == seq!["5"@]),
            name@ != ""@ && name@ != "bash"@ && name@ != "zsh"@ && name@ != "sleep"@ ==> r
                == Err::<SessionExecutable, CommandError>(CommandError::UnsupportedSessionName),
    {
        proof {
            reveal_strlit("");
            reveal_strlit("bash");
            reveal_strlit("zsh");
            reveal_strlit("sleep");
            assert(""@.len() == 0 && "bash"@.len() == 4 && "zsh"@.len() == 3 && "sleep"@.len()
                == 5);
            assert(""@ != "bash"@ && ""@ != "zsh"@ && ""@ != "sleep"@);
            assert("bash"@ != "zsh"@ && "bash"@ != "sleep"@);
            assert("zsh"@ != "sleep"@);
        }
        let n = name.to_owned();
        if n == String::from_str("") {
            let arguments: Vec<String> = Vec::new();
            proof {
                assert(arguments.deep_view() =~= Seq::<Seq<char>>::empty());
            }
            Ok(SessionExecutable { program: String::from_str("/bin/sh"), arguments })
        } else if n == String::from_str("bash") {
            let arguments: Vec<String> = Vec::new();
            proof {
                assert(arguments.deep_view() =~= Seq::<Seq<char>>::empty());
            }
            Ok(SessionExecutable { program: String::from_str("/bin/bash"), arguments })
        } else if n == String::from_str("zsh") {
            let arguments: Vec<String> = Vec::new();
            proof {
                assert(arguments.deep_view() =~= Seq::<Seq<char>>::empty());
            }
            Ok(SessionExecutable { program: String::from_str("/bin/zsh"), arguments })
        } else if n == String::from_str("sleep") {
            let mut arguments: Vec<String> = Vec::new();
            arguments.push(String::from_str("5"));
            proof {
                assert(arguments.deep_view() =~= seq!["5"@]);
            }
            Ok(SessionExecutable { program: String::from_str("sleep"), arguments })
        } else {
            Err(CommandError::UnsupportedSessionName)
        }
    }

    /// The resolved program path.
    pub fn get_program(&self) -> (r: String)
        ensures
            r@ == self@.program,
    {
        self.program.clone()
    }

    /// The argument list, in order.
    pub fn get_arguments(&self) -> (r: Vec<String>)
        ensures
            r.deep_view() == self@.arguments,
    {
        let mut out: Vec<String> = Vec::new();
        let mut i: usize = 0;
        while i < self.arguments.len()
            invariant
                0 <= i <= self.arguments.len(),
                out.deep_view() =~= self.arguments.deep_view().take(i as int),
            decreases self.arguments.len() - i,
        {
            let ghost pre = out.deep_view();
            out.push(self.arguments[i].clone());
            proof {
                assert(out.deep_view() =~= pre.push(self.arguments@[i as int]@));
                assert(out.deep_view() =~= self.arguments.deep_view().take(i as int + 1));
            }
            i = i + 1;
        }
        proof {
            assert(self.arguments.deep_view().take(self.arguments@.len() as int)
                =~= self.arguments.deep_view());
        }
        out
    }
}

/// A control message for the supervisor.
#[derive(Debug, Clone, PartialEq, Eq)]
pub enum ChimeraSessionCommand {
    /// Ask the supervisor to exit.
    Terminate,
    /// Replace the session executable and restart the child.
    Restart(SessionExecutable),
}

/// Payload-byte encoding of a command: one tag byte, and for a restart the
/// record encoding of the executable.
pub open spec fn command_record(c: ChimeraSessionCommand) -> Seq<u8> {
    match c {
        ChimeraSessionCommand::Terminate => seq![0u8],
        ChimeraSessionCommand::Restart(e) => seq![1u8] + session_record(
            e@.program,
            e@.arguments,
        ),
    }
}

/// True when every size in the command's encoding fits the size type.
pub open spec fn command_fits(c: ChimeraSessionCommand) -> bool {
    match c {
        ChimeraSessionCommand::Terminate => true,
        ChimeraSessionCommand::Restart(e) => record_fits(e@.program, e@.arguments),
    }
}

/// True when payload `p` decodes to command `c`. A terminate tag ignores any
/// trailing bytes, as the deployed decoder always has.
pub open spec fn command_matches(p: Seq<u8>, c: ChimeraSessionCommand) -> bool {
    match c {
        ChimeraSessionCommand::Terminate => p.len() >= 1 && p[0] == 0u8,
        ChimeraSessionCommand::Restart(e) => p.len() >= 1 && p[0] == 1u8 && record_parts_fit(
            e@.program,
            e@.arguments,
        ) && session_record(e@.program, e@.arguments) == p.drop_first(),
    }
}

/// The error a payload that decodes to no command is rejected with.
pub open spec fn command_decode_error(p: Seq<u8>) -> CommandError {
    if p.len() == 0 {
        CommandError::TruncatedCommand
    } else if p[0] != 0u8 && p[0] != 1u8 {
        CommandError::UnknownTag
    } else {
        CommandError::MalformedRecord
    }
}

/// True when payload `p` decodes to some command.
pub open spec fn payload_decodes(p: Seq<u8>) -> bool {
    p.len() >= 1 && (p[0] == 0u8 || (p[0] == 1u8 && some_record(p.drop_first())))
}

impl ChimeraSessionCommand {
    /// Serializes the command to its payload bytes.
    pub fn encode_bytes(&self) -> (r: Result<Vec<u8>, CommandError>)
        ensures
            command_fits(*self) ==> (r matches Ok(v) && v@ == command_record(*self)),
            !command_fits(*self) ==> r == Err::<Vec<u8>, CommandError>(
                CommandError::OversizedRecord,
            ),
    {
        match self {
            ChimeraSessionCommand::Terminate => {
                let mut out: Vec<u8> = Vec::new();
                out.push(0u8);
                proof {
                    assert(out@ =~= command_record(*self));
                }
                Ok(out)
            },
            ChimeraSessionCommand::Restart(e) => {
                let rec = encode_record(&e.program, &e.arguments)?;
                let mut out: Vec<u8> = Vec::new();
                out.push(1u8);
                let mut rec = rec;
                out.append(&mut rec);
                proof {
                    assert(out@ =~= command_record(*self));
                }
                Ok(out)
            },
        }
    }

    /// Deserializes a payload. Succeeds exactly on payloads that carry a
    /// command, and names why the others are rejected.
    pub fn decode_bytes(bytes: &[u8]) -> (r: Result<ChimeraSessionCommand, CommandError>)
        ensures
            r matches Ok(c) ==> command_matches(bytes@, c),
            payload_decodes(bytes@) ==> r is Ok,
            r matches Err(e) ==> !payload_decodes(bytes@) && e == command_decode_error(bytes@),
    {
        if bytes.len() == 0 {
            return Err(CommandError::TruncatedCommand);
        }
        let tag = bytes[0];
        if tag == 0u8 {
            Ok(ChimeraSessionCommand::Terminate)
        } else if tag == 1u8 {
            let blen: usize = bytes.len();
            match decode_record(&bytes[1..blen]) {
                Ok((program, arguments)) => {
                    let e = SessionExecutable { program, arguments };
                    proof {
                        assert(bytes@.subrange(1, blen as int) =~= bytes@.drop_first());
                    }
                    Ok(ChimeraSessionCommand::Restart(e))
                },
                Err(_) => {
                    proof {
                        assert(bytes@.subrange(1, blen as int) =~= bytes@.drop_first());
                    }
                    Err(CommandError::MalformedRecord)
                },
            }
        } else {
            Err(CommandError::UnknownTag)
        }
    }
}

/// A payload that matches some command is a decodable payload.
pub proof fn lemma_matches_implies_decodes(p: Seq<u8>, c: ChimeraSessionCommand)
    requires
        command_matches(p, c),
    ensures
        payload_decodes(p),
{
    match c {
        ChimeraSessionCommand::Terminate => {
        },
        ChimeraSessionCommand::Restart(e) => {
            assert(record_parts_fit(e@.program, e@.arguments) && session_record(
                e@.program,
                e@.arguments,
            ) == p.drop_first());
            assert(some_record(p.drop_first()));
        },
    }
}

/// The payload bytes of a command pin it down: no two commands share an
/// encoding, so decoding what was encoded returns the encoded command.
pub proof fn lemma_command_record_injective(c1: ChimeraSessionCommand, c2: ChimeraSessionCommand)
    requires
        command_fits(c1),
        command_fits(c2),
        command_record(c1) == command_record(c2),
    ensures
        c1 == c2 || (c1 matches ChimeraSessionCommand::Restart(e1) && c2
            matches ChimeraSessionCommand::Restart(e2) && e1@.program == e2@.program
            && e1@.arguments == e2@.arguments),
{
    match (c1, c2) {
        (ChimeraSessionCommand::Terminate, ChimeraSessionCommand::Terminate) => {
        },
        (ChimeraSessionCommand::Restart(e1), ChimeraSessionCommand::Restart(e2)) => {
            assert(command_record(c1).drop_first() =~= session_record(e1@.program, e1@.arguments));
            assert(command_record(c2).drop_first() =~= session_record(e2@.program, e2@.arguments));
            lemma_record_injective(e1@.program, e1@.arguments, e2@.program, e2@.arguments);
        },
        (ChimeraSessionCommand::Terminate, ChimeraSessionCommand::Restart(e2)) => {
            assert(command_record(c1)[0] == 0u8);
            assert(command_record(c2)[0] == 1u8);
        },
        (ChimeraSessionCommand::Restart(e1), ChimeraSessionCommand::Terminate) => {
            assert(command_record(c1)[0] == 1u8);
            assert(command_record(c2)[0] == 0u8);
        },
    }
}

} // verus!
