//! The decision logic of the Jujutsu version control system, verified with
//! Verus.

pub mod arrange;
pub mod btree_util;
pub mod command_config;
pub mod commit;
pub mod config;
pub mod config_env;
pub mod config_gc;
pub mod config_layers;
pub mod dag_walk;
pub mod decimal;
pub mod dfs;
pub mod digraph;
pub mod dominance;
pub mod dominator_tree;
pub mod evolution;
pub mod fake_filter;
pub mod fake_formatter;
pub mod file_search;
pub mod filter;
pub mod fix;
pub mod fsmonitor;
pub mod gpg_signing;
pub mod graph_dominators;
pub mod graph_lines;
pub mod hash_util;
pub mod index_collections;
pub mod lock;
pub mod raw_config;
pub mod redo;
pub mod seq_util;
pub mod show;
pub mod simple_op_heads_store;
pub mod text;
pub mod tree_builder;
