//! Codex `/ide` provider.
pub mod codex;
pub mod codex_laws;
pub mod contest_laws;
pub mod conversation_laws;
pub mod editor_context;
pub mod election;
pub mod election_laws;
pub mod encoding;
pub mod endpoint_laws;
pub mod json;
pub mod mail_laws;
pub mod names;
pub mod path;
pub mod path_laws;
pub mod protocol;
pub mod protocol_laws;
pub mod provider;
pub mod queue;
pub mod router;
pub mod router_laws;
pub mod routing;
pub mod routing_laws;
pub mod sequence;
pub mod server;
pub mod server_laws;
pub mod session;
pub mod session_laws;
pub mod text;
pub mod text_laws;
pub mod unix;
pub mod windows;
