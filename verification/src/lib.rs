//! Query-plan execution for a federated GraphQL gateway.
pub mod assoc;
pub mod executor;
pub mod fetch;
pub mod json;
pub mod laws;
pub mod machine;
pub mod merge;
pub mod path;
pub mod plan;
pub mod selection;
pub mod semantics;
pub mod services;
pub mod gateway;
