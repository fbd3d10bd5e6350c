//! An intrusive singly-linked list over slab-allocated links.
//!
//! Objects are identified by a `usize` handle. Each link field of a family of
//! objects is a `LinkOps` table holding one `Link` per object; a list records
//! only the handle of its first object and rewrites links in that table.
pub mod link;
mod graph;
pub mod chain;
pub mod list;
pub mod laws;
