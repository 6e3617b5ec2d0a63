//! Core of a "smart list" synchronizer for a Mastodon-compatible service:
//! a filter-title parser, a follow/relationship cache, a set-reconciliation
//! planner for list membership, and a per-account sync scheduler with
//! deduplication and cooldown.

pub mod api_cache;
pub mod api_client;
pub mod api_helpers;
pub mod api_models;
pub mod auth;
pub mod config;
pub mod error;
pub mod id_set;
pub mod list_manager;
pub mod runner;
pub mod store;

pub use api_models::{Account, CredentialAccount, List, Relationship};
