//! Correlation engine for room signals: time series storage, a symmetric
//! correlation matrix, spline classification and the correlation topology
//! (neighbours, clusters, degree centrality, bridge rooms).
//!
//! Measured values are carried as a type parameter `F`; every computation on
//! them lives with the caller, while the structure that holds them and the
//! graph logic built on the rooms they belong to are verified here.

pub mod components;
pub mod detector;
pub mod disjoint_sets;
pub mod graph;
pub mod matrix;
pub mod name_order;
pub mod predictor;
pub mod series;
pub mod spline;
pub mod topology;
