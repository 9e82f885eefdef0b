//! A multi-tenant registry of repository webhooks: tenants own webhooks, webhooks own
//! routes from a repository to a destination channel, and snapshots of a webhook's
//! routes can be exported and merged back in by natural-key upsert.
//!
//! `registry::Registry` holds the three tables and every command on them; `model` states what
//! the tables are as values and what each command does to them; `merge` models the restore
//! of a snapshot as a fold over a per-webhook map; `laws` proves the properties that hold
//! across commands. Deleting a webhook deletes the routes under it. Identifiers and secrets
//! are drawn at random; should a few draws all be taken, an identifier is built that differs
//! from every existing one, so creation never fails on a clash. Stored repository names are
//! case-folded. Delivering a secret to its user is left to the caller.

pub mod config;
pub mod text;
pub mod types;
pub mod laws;
pub mod merge;
pub mod model;
pub mod registry;
