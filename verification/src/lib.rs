//! Fare logic for isodapane maps of Swiss public transport.
//!
//! A ticket in the Zürich tariff is priced by the set of fare zones a journey
//! crosses. This crate holds the zone sets, the station graph, the multi-label
//! search over it, the price tables and the national distance tariff. Reading
//! files, fetching data and anything measured in floating point stay outside.

pub mod bits;
pub mod calibrate;
pub mod components;
pub mod curve;
pub mod fares;
pub mod frontier;
pub mod graph;
pub mod graph_json;
pub mod heap;
pub mod json;
pub mod national;
pub mod osdm;
pub mod pipeline;
pub mod rail;
pub mod routes;
pub mod search;
pub mod search_laws;
pub mod search_proof;
pub mod seqs;
pub mod shortcuts;
pub mod sorting;
pub mod stations;
pub mod text;
pub mod unions;
pub mod validate;
pub mod web;
pub mod wfs;
pub mod zones;
pub mod zoneset;
