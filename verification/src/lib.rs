//! Dead-code pruning for shader modules.
//!
//! A [`Pruner`](live::Pruner) is told which functions and entry points of a
//! [`Module`](ir::Module) matter, and which parts of their results. It walks
//! the function bodies backwards, records which expressions, statements and
//! parts of variables are needed, and rebuilds a module that holds only those.
pub mod ask_laws;
pub mod block_laws;
pub mod branch_laws;
pub mod call_laws;
pub mod context;
pub mod demand_laws;
pub mod depth_laws;
pub mod derive;
pub mod expr;
pub mod flow;
pub mod flow_laws;
pub mod grow_laws;
pub mod ir;
pub mod item_laws;
pub mod keep_laws;
pub mod left_laws;
pub mod live;
pub mod need;
pub mod need_laws;
pub mod part;
pub mod part_laws;
pub mod prune;
pub mod pruner;
pub mod ready_laws;
pub mod remap;
pub mod rewrite;
pub mod rewrite_laws;
pub mod scope_laws;
pub mod sizes;
pub mod store;
pub mod store_laws;
pub mod table;
pub mod uses;
