//! The supervisor's decision core: a pure state machine from connection and
//! child-process events to lifecycle actions.
//!
//! The surrounding runtime owns the listening socket and the child process;
//! it waits on whichever source becomes ready, hands the event in here, and
//! performs the returned action. All decisions — which executable to spawn,
//! when to kill the child, when to drop a connection, when to exit — are
//! made and verified here.
use vstd::prelude::*;

use crate::command::{ChimeraSessionCommand, SessionExecutable, SessionExecutableView};
use crate::command::{command_matches, payload_decodes};
use crate::stream_command::{frames_decode, merged_buffer, StreamCommand, StreamCommandView};

verus! {

/// What the runtime observed while waiting.
pub enum SessionEvent {
    /// A client connected to the control socket.
    IncomingConnection,
    /// Bytes were read from the live connection.
    DataRead(Vec<u8>),
    /// The read on the live connection failed.
    ReadFailed,
    /// The child process exited.
    ChildExited,
}

/// What the runtime must do next.
#[derive(Clone, Copy, Debug, PartialEq, Eq, Structural)]
pub enum SessionAction {
    /// Nothing to do; keep waiting.
    Continue,
    /// Ask the current child to terminate; the respawn follows its exit.
    KillChild,
    /// Spawn a new child with the current executable.
    Respawn,
    /// Close and forget the live connection.
    DropConnection,
}

/// Mathematical view of a [`SessionDriver`].
pub struct SessionDriverView {
    pub codec: StreamCommandView,
    pub command: SessionExecutableView,
    pub connected: bool,
    pub exit_requested: bool,
}

/// The supervisor state that decisions depend on: the protocol codec, the
/// executable to (re)spawn, whether a connection is live, and whether a
/// terminate command has been processed.
pub struct SessionDriver {
    stream_interpreter: StreamCommand,
    command: SessionExecutable,
    connected: bool,
    exit_requested: bool,
}

impl View for SessionDriver {
    type V = SessionDriverView;

    closed spec fn view(&self) -> SessionDriverView {
        SessionDriverView {
            codec: self.stream_interpreter@,
            command: self.command@,
            connected: self.connected,
            exit_requested: self.exit_requested,
        }
    }
}

/// True when `cs` is the command sequence the payloads `ps` decode to.
pub open spec fn commands_of(ps: Seq<Seq<u8>>, cs: Seq<ChimeraSessionCommand>) -> bool {
    cs.len() == ps.len() && (forall|j: int| 0 <= j < cs.len() ==> command_matches(ps[j], cs[j]))
}

/// True when any of the commands asks the supervisor to exit.
pub open spec fn any_terminate(cmds: Seq<ChimeraSessionCommand>) -> bool {
    exists|i: int| 0 <= i < cmds.len() && (#[trigger] cmds[i]) matches ChimeraSessionCommand::Terminate
}

/// True when any of the commands replaces the session executable.
pub open spec fn any_restart(cmds: Seq<ChimeraSessionCommand>) -> bool {
    exists|i: int| 0 <= i < cmds.len() && (#[trigger] cmds[i]) matches ChimeraSessionCommand::Restart(_)
}

/// The executable in force after applying the commands in order: the last
/// restart wins; terminates leave it alone.
pub open spec fn final_command(
    initial: SessionExecutableView,
    cmds: Seq<ChimeraSessionCommand>,
) -> SessionExecutableView
    decreases cmds.len(),
{
    if cmds.len() == 0 {
        initial
    } else {
        match cmds.last() {
            ChimeraSessionCommand::Restart(e) => e@,
            ChimeraSessionCommand::Terminate => final_command(initial, cmds.drop_last()),
        }
    }
}

impl SessionDriver {
    /// The driver's standing invariant: its codec buffer is in bounds.
    pub closed spec fn wf(&self) -> bool {
        self.stream_interpreter.wf()
    }

    /// A fresh supervisor: the default session executable, the protocol's
    /// buffer capacity, no connection, exit not requested.
    pub fn new() -> (r: SessionDriver)
        ensures
            r.wf(),
            r@.codec.limit == crate::COMMAND_LIMIT_BYTES,
            r@.codec.remainder == Seq::<u8>::empty(),
            r@.command.program == "/bin/sh"@,
            r@.command.arguments == Seq::<Seq<char>>::empty(),
            !r@.connected,
            !r@.exit_requested,
    {
        let command = match SessionExecutable::new(crate::DEFAULT_SESSION_NAME) {
            Ok(e) => e,
            Err(_) => {
                proof {
                    assert(false);
                }
                vstd::pervasive::unreached()
            },
        };
        SessionDriver {
            stream_interpreter: StreamCommand::new(crate::COMMAND_LIMIT_BYTES),
            command,
            connected: false,
            exit_requested: false,
        }
    }

    /// Whether a terminate command has been processed; the run loop exits
    /// as soon as this holds.
    pub fn exit_requested(&self) -> (b: bool)
        ensures
            b == self@.exit_requested,
    {
        self.exit_requested
    }

    /// Whether a connection is currently tracked.
    pub fn is_connected(&self) -> (b: bool)
        ensures
            b == self@.connected,
    {
        self.connected
    }

    /// The executable the next (re)spawn will run.
    pub fn command(&self) -> (r: &SessionExecutable)
        ensures
            r@ == self@.command,
    {
        &self.command
    }

    /// Applies one decoded command: a terminate marks the loop for exit; a
    /// restart replaces the executable and asks for the child to be killed.
    pub fn apply_command(&mut self, c: ChimeraSessionCommand) -> (kill: bool)
        ensures
            final(self).wf() == old(self).wf(),
            final(self)@.codec == old(self)@.codec,
            final(self)@.connected == old(self)@.connected,
            match c {
                ChimeraSessionCommand::Terminate => final(self)@.exit_requested && final(self)@.command == old(self)@.command && !kill,
                ChimeraSessionCommand::Restart(e) => final(self)@.command == e@ && final(self)@.exit_requested == old(self)@.exit_requested && kill,
            },
    {
        match c {
            ChimeraSessionCommand::Terminate => {
                self.exit_requested = true;
                false
            },
            ChimeraSessionCommand::Restart(e) => {
                self.command = e;
                true
            },
        }
    }

    /// Applies decoded commands in the order they arrived. The exit flag is
    /// set when any of them terminates; the last restart's executable is the
    /// one in force afterwards; a kill is requested when any restarts.
    pub fn apply_commands(&mut self, cmds: Vec<ChimeraSessionCommand>) -> (kill: bool)
        ensures
            final(self).wf() == old(self).wf(),
            final(self)@.codec == old(self)@.codec,
            final(self)@.connected == old(self)@.connected,
            final(self)@.exit_requested == (old(self)@.exit_requested || any_terminate(cmds@)),
            final(self)@.command == final_command(old(self)@.command, cmds@),
            kill == any_restart(cmds@),
    {
        let ghost orig = cmds@;
        let mut cmds = cmds;
        let mut kill: bool = false;
        let ghost mut k: int = 0;
        while cmds.len() > 0
            invariant
                0 <= k <= orig.len(),
                cmds@ == orig.skip(k),
                self.wf() == old(self).wf(),
                self@.codec == old(self)@.codec,
                self@.connected == old(self)@.connected,
                self@.exit_requested == (old(self)@.exit_requested || any_terminate(
                    orig.take(k),
                )),
                self@.command == final_command(old(self)@.command, orig.take(k)),
                kill == any_restart(orig.take(k)),
            decreases cmds@.len(),
        {
            let c = cmds.remove(0);
            proof {
                assert(c == orig[k]);
                assert(cmds@ =~= orig.skip(k + 1));
                assert(orig.take(k + 1).drop_last() =~= orig.take(k));
                assert(orig.take(k + 1).last() == orig[k]);
            }
            let one = self.apply_command(c);
            kill = kill || one;
            proof {
                if one {
                    assert(orig.take(k + 1)[k] matches ChimeraSessionCommand::Restart(_));
                }
                if any_restart(orig.take(k)) {
                    let j = choose|j: int|
                        0 <= j < orig.take(k).len() && (#[trigger] orig.take(k)[j]) matches
                            ChimeraSessionCommand::Restart(_);
                    assert(orig.take(k + 1)[j] matches ChimeraSessionCommand::Restart(_));
                }
                if any_terminate(orig.take(k)) {
                    let j = choose|j: int|
                        0 <= j < orig.take(k).len() && (#[trigger] orig.take(k)[j]) matches
                            ChimeraSessionCommand::Terminate;
                    assert(orig.take(k + 1)[j] matches ChimeraSessionCommand::Terminate);
                }
                if (orig[k] matches ChimeraSessionCommand::Terminate) {
                    assert(orig.take(k + 1)[k] matches ChimeraSessionCommand::Terminate);
                }
                k = k + 1;
            }
        }
        proof {
            assert(orig.take(k) =~= orig);
        }
        kill
    }

    /// Reacts to one event, in the way the run loop's states prescribe.
    ///
    /// A new connection resets the codec and is tracked, discarding any
    /// previous one. A child exit always asks for an autonomous respawn with
    /// the executable currently in force, connected or not. A failed or
    /// empty read, or any decode failure, resets the codec and drops the
    /// connection; the child is unaffected. Decoded commands are applied in
    /// order, and a kill is requested when any of them restarts.
    pub fn on_event(&mut self, ev: SessionEvent) -> (a: SessionAction)
        requires
            old(self).wf(),
        ensures
            final(self).wf(),
            final(self)@.codec.limit == old(self)@.codec.limit,
            match ev {
                SessionEvent::IncomingConnection => final(self)@.connected && final(self)@.codec.remainder == Seq::<u8>::empty() && final(self)@.command == old(self)@.command && final(self)@.exit_requested == old(self)@.exit_requested && a
                    == SessionAction::Continue,
                SessionEvent::ChildExited => final(self)@ == old(self)@ && a
                    == SessionAction::Respawn,
                SessionEvent::ReadFailed => !final(self)@.connected && final(self)@.codec.remainder == Seq::<u8>::empty() && final(self)@.command == old(self)@.command && final(self)@.exit_requested == old(self)@.exit_requested && a
                    == SessionAction::DropConnection,
                SessionEvent::DataRead(data) => {
                    if data@.len() == 0 {
                        !final(self)@.connected && final(self)@.codec.remainder
                            == Seq::<u8>::empty() && final(self)@.command == old(self)@.command
                            && final(self)@.exit_requested == old(self)@.exit_requested && a
                            == SessionAction::DropConnection
                    } else {
                        match frames_decode(
                            merged_buffer(
                                old(self)@.codec.remainder,
                                data@,
                                old(self)@.codec.limit,
                            ),
                        ) {
                            Some(t) => {
                                if forall|j: int| 0 <= j < t.0.len() ==> payload_decodes(t.0[j]) {
                                    exists|cs: Seq<ChimeraSessionCommand>|
                                        {
                                            &&& #[trigger] commands_of(t.0, cs)
                                            &&& final(self)@.exit_requested == (old(self)@.exit_requested || any_terminate(cs))
                                            &&& final(self)@.command == final_command(
                                                old(self)@.command,
                                                cs,
                                            )
                                            &&& a == (if any_restart(cs) {
                                                SessionAction::KillChild
                                            } else {
                                                SessionAction::Continue
                                            })
                                            &&& final(self)@.codec.remainder == t.1
                                            &&& final(self)@.connected == old(self)@.connected
                                        }
                                } else {
                                    !final(self)@.connected && final(self)@.codec.remainder
                                        == Seq::<u8>::empty() && final(self)@.command == old(self)@.command && final(self)@.exit_requested == old(self)@.exit_requested && a == SessionAction::DropConnection
                                }
                            },
                            None => !final(self)@.connected && final(self)@.codec.remainder
                                == Seq::<u8>::empty() && final(self)@.command == old(self)@.command && final(self)@.exit_requested == old(self)@.exit_requested
                                && a == SessionAction::DropConnection,
                        }
                    }
                },
            },
    {
        match &ev {
            SessionEvent::IncomingConnection => {
                self.stream_interpreter.reset();
                self.connected = true;
                SessionAction::Continue
            },
            SessionEvent::ChildExited => SessionAction::Respawn,
            SessionEvent::ReadFailed => {
                self.stream_interpreter.reset();
                self.connected = false;
                SessionAction::DropConnection
            },
            SessionEvent::DataRead(data) => {
                if data.len() == 0 {
                    // A zero-byte read is a disconnect: decoding it could
                    // never make progress.
                    self.stream_interpreter.reset();
                    self.connected = false;
                    return SessionAction::DropConnection;
                }
                match self.stream_interpreter.decode(data.as_slice()) {
                    Ok(cmds) => {
                        let ghost cs = cmds@;
                        let kill = self.apply_commands(cmds);
                        let act = if kill {
                            SessionAction::KillChild
                        } else {
                            SessionAction::Continue
                        };
                        proof {
                            match frames_decode(
                                merged_buffer(
                                    old(self)@.codec.remainder,
                                    data@,
                                    old(self)@.codec.limit,
                                ),
                            ) {
                                Some(t) => {
                                    assert(commands_of(t.0, cs));
                                    assert({
                                        &&& commands_of(t.0, cs)
                                        &&& self@.exit_requested == (old(self)@.exit_requested
                                            || any_terminate(cs))
                                        &&& self@.command == final_command(old(self)@.command, cs)
                                        &&& act == (if any_restart(cs) {
                                            SessionAction::KillChild
                                        } else {
                                            SessionAction::Continue
                                        })
                                        &&& self@.codec.remainder == t.1
                                        &&& self@.connected == old(self)@.connected
                                    });
                                },
                                None => {
                                    assert(false);
                                },
                            }
                        }
                        act
                    },
                    Err(_) => {
                        self.stream_interpreter.reset();
                        self.connected = false;
                        SessionAction::DropConnection
                    },
                }
            },
        }
    }
}

} // verus!
