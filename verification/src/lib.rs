//! Mining of association rules whose consequent is a rare item.
//!
//! A dataset of transactions is read into item ids (`itemizer`, `reader`), its
//! item frequencies tell the rare items from the common ones (`rarity`), the
//! transactions with a rare item go into a prefix tree (`fptree`), growth on the
//! tree gives the frequent itemsets (`growth`), and those give the rules
//! (`rules`). `mine` runs the passes; `index` counts the transactions that hold an
//! itemset.

pub mod config;
pub mod fptree;
pub mod growth;
pub mod index;
pub mod itemizer;
pub mod itemset;
pub mod mine;
pub mod rarity;
pub mod reader;
pub mod render;
pub mod rules;
pub mod support;
pub mod text;
