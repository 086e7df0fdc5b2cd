//! Message-dispatch core of a peer connection: a sequential
//! receive, dispatch and recover loop over a pluggable [`Handler`].
pub mod external;
pub mod handler;
pub mod trace;
pub mod listener;
pub mod laws;

pub use handler::Handler;
pub use listener::Listener;
pub use trace::Call;
