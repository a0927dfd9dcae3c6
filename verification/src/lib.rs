//! Agent core: the ReAct loop state machine, prompt assembly with HMAC trust
//! boundaries, injection screening, memory routing, context assembly and
//! content chunking.

pub mod clock;
pub mod random;
pub mod text;
pub mod keyed;
pub mod utf8_text;
pub mod agent_loop;
pub mod retrieval;
pub mod prompt;
pub mod injection;
pub mod memory;
pub mod context;
pub mod analyzer;
pub mod interview;
pub mod digest;
pub mod script_runner;
pub mod obsidian;
pub mod discovery;
pub mod ingest;
pub mod learning;
pub mod knowledge;
pub mod skills;
pub mod manifest;
pub mod orchestration;
pub mod spawning;
pub mod policy;
pub mod recommendations;
pub mod approvals;
pub mod device;
pub mod services;
pub mod mcp;
pub mod governor;
