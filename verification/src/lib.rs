//! Verified core of a frame-chain alignment system for packetised LiDAR
//! points, GNSS poses and device calibrations.
//!
//! Timestamps are integer nanoseconds and real-valued measurements are carried
//! by their IEEE-754 bit patterns, so every rule in this crate is decided by
//! exact integer arithmetic.

pub mod blocks;
pub mod builder;
pub mod clock;
pub mod db;
pub mod demo;
pub mod derive;
pub mod edges;
pub mod epoch;
pub mod geo;
pub mod graph;
pub mod ingest;
pub mod model;
pub mod order;
pub mod provenance;
pub mod query;
pub mod routes;
pub mod rows;
pub mod scalar;
pub mod se3;
pub mod server;
pub mod service;
pub mod store;
pub mod text;
pub mod time;
pub mod units;
pub mod view;
pub mod web;
