//! Session supervisor control plane: a framed control protocol codec and the
//! decision core of a single-child process supervisor.
use vstd::prelude::*;

pub mod command;
pub mod record;
pub mod session;
pub mod stream_command;

verus! {

/// Symbolic name of the session executable spawned at startup.
pub const DEFAULT_SESSION_NAME: &'static str = "";

/// Environment variable through which the control-socket path is handed to
/// the spawned child.
pub const SOCK_ENV_VAR_NAME: &'static str = "CHIMERA_SESSION_SOCK";

/// Capacity of the reassembly buffer used by the session control protocol.
pub const COMMAND_LIMIT_BYTES: usize = 256;

} // verus!
