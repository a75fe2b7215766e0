//! The evaluation harness: golden ref→def edges per case, scoring a resolved
//! graph against them (precision/recall tallies), running cases through
//! extraction and a resolver, and deriving oracle pairs from SCIP indexes.

pub mod scoped_call;
pub mod score;
pub mod corpus;
pub mod runner;
pub mod oracle;
