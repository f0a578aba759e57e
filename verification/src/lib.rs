//! Core of an SSH honeypot: the session handler decisions, the bounded event
//! bus, the collector that aggregates credential and address events into
//! counter tables and an in-memory per-address counter map, and the geo
//! enrichment that turns addresses into country codes for telemetry points.
//! All network, storage and telemetry transport lives outside this crate; the
//! logic here is pure and carries contracts.

pub mod bus;
pub mod collector;
pub mod geo;
pub mod telemetry;
pub mod countmap;
pub mod events;
pub mod server;
pub mod store;
