//! A reactive state-synchronization and incremental-render engine.
//!
//! The library keeps a server-held application state consistent with a set of
//! rendered views and re-renders only the parts of a view that depend on
//! changed data.  Its pieces, leaves first:
//!
//! * [`signal`] — the per-value dependency-tracked reactive cell, and the
//!   dirty set that a write to a cell feeds.
//! * [`idmap`] — a small association map from node ids to records, backing
//!   the view-tree bookkeeping.
//! * [`numfmt`] — decimal rendering for markup emission.
//! * [`dom`] — the node-identified view tree: unbuilt specs, built records,
//!   and the builder that expands constructors into subtrees.
//! * [`client`] — the client runtime: persistent node records, the dirty
//!   re-render pass, markup emission, and the named-value subscriptions.
//! * [`state`] — the stateful sync protocol: single and multiple value
//!   shapes, full snapshots and keyed deltas, and the wire envelope.
//! * [`server`] — the server event bus: the FIFO event queue, route lookup,
//!   dispatch planning, and removal of dead connections.
//! * [`ui`] — an arena-backed element tree with a two-axis layout pass.

pub mod client;
pub mod dom;
pub mod idmap;
pub mod numfmt;
pub mod server;
pub mod signal;
pub mod state;
pub mod ui;
