//! Synchronizes a declarative, file-tree-encoded description of chat spaces
//! and rooms into a Matrix homeserver, resolving room membership from an
//! LDAP directory.
//!
//! The crate holds the verified core: the desired-state tree model and its
//! validation, the identity-template pipeline that turns directory entries
//! into user identities, the membership aggregator, and the reconciliation
//! planner that diffs desired state against live room state.  Network and
//! filesystem access stay outside; callers hand the library plain values
//! (a parsed source tree, a directory snapshot, a live member list) and
//! receive plans and reports back.

pub mod config;
pub mod folders;
pub mod ldap;
pub mod mxid;
pub mod reconcile;
pub mod resolve;
pub mod template;
