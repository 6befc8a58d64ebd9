//! holoProxy: a proxy between clients of the Anthropic Messages API or of the
//! OpenAI Chat Completions API and any OpenAI-compatible model.
//!
//! - `converter`, `context`, `upstream`: a request on its way to the model.
//! - `relay`, `stream`, `events`, `protocol`, `reading`, `wire`: the reply as an
//!   Anthropic message.
//! - `passthrough`: the reply to an OpenAI client.
//! - `dsml`, `fallback`, `notations`, `tools`: tool calls that a model writes into
//!   its text.
//! - `recovery`: replies that broke off.
//! - `config`, `server`, `tray`: the models, and switching between them.
//! - `text`, `json`, `pattern`, `types`: what the others are made of.
pub mod config;
pub mod context;
pub mod converter;
pub mod dsml;
pub mod events;
pub mod fallback;
pub mod json;
pub mod notations;
pub mod passthrough;
pub mod pattern;
pub mod protocol;
pub mod reading;
pub mod recovery;
pub mod relay;
pub mod server;
pub mod stream;
pub mod text;
pub mod tools;
pub mod tray;
pub mod types;
pub mod upstream;
pub mod wire;
