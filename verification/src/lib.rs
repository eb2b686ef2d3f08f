//! Verified core of a NETCONF / YANG language server: instance-document
//! parsing and classification, tolerant repair of in-progress documents,
//! leaf value validation, and the small text helpers the editor features use.

pub mod text;
pub mod num;
pub mod decimal;
pub mod syntax;
pub mod template;
pub mod xml;
pub mod json;
pub mod inst;
pub mod incomplete;
pub mod valcheck;
pub mod schema;
pub mod depth;
pub mod inst_map;
pub mod jmap;
pub mod config;
pub mod format;
pub mod hover;
pub mod semantic;
pub mod workspace;
pub mod server;
pub mod completion;
pub mod xcomp;
pub mod jcomp;
pub mod stmt;
pub mod goto;
pub mod references;
pub mod closure;
pub mod diagnostic;
pub mod fold;
pub mod position;
pub mod launcher;
