//! A runtime for interaction nets.
//!
//! An interaction net is a graph of agents. Two agents that meet at their
//! principal ports form an active pair, and reducing the pair rewrites the
//! graph around it. Here agents live in an [`AgentStore`] under stable
//! integer ids, the pending pairs wait in a queue, and a [`Machine`] reduces
//! them oldest first: a tag is bound or followed by the engine itself, two
//! custom agents are handed to the [`Rule`] registered for their types.
//!
//! * [`agent`], [`store`], [`queue`] and [`net`] hold the state of a net.
//! * [`rule`] and [`machine`] hold the rules, the builder and the reduction
//!   loop.
//! * [`peano`] has unary numbers and the rules that add them.
//! * [`grammar`], [`parser`], [`syntax`] and [`printer`] read and write the
//!   source syntax of nets.
//!
//! The machine reduces one pair at a time. A caller that wants several
//! threads at work shares the machine behind a lock and lets each thread
//! call [`Machine::step`].
pub mod agent;
pub mod error;
pub mod grammar;
pub mod machine;
pub mod net;
pub mod parser;
pub mod peano;
pub mod printer;
pub mod queue;
pub mod rule;
pub mod store;
pub mod syntax;

pub use agent::{Agent, AgentView};
pub use error::Error;
pub use machine::{Action, Machine, MachineBuilder};
pub use net::Net;
pub use rule::{Context, Rule, RuleTable};
pub use store::AgentStore;
