//! Verified list-variable planning components: the list solution model, segment
//! relocation layouts, family-block moves and their selector, list variable slots,
//! list move selector building, move selector configuration, and the incremental
//! precedence makespan constraint.

pub mod config;
pub mod score;
pub mod segment;
pub mod solution;
pub mod family_block_move;
pub mod family_block_selector;
pub mod slot;
pub mod builder;
pub mod list_union;
pub mod precedence;
pub mod precedence_constraint;
pub mod solver_config;

