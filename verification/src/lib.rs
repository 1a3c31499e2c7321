//! Mesh communications among drifting balloons and ground towers.
pub mod ablation;
pub mod aggregation;
pub mod balloon;
pub mod beacon;
pub mod bundle;
pub mod carry_laws;
pub mod chance;
pub mod config;
pub mod connectivity;
pub mod forest;
pub mod graph;
pub mod grounding;
pub mod link_churn;
pub mod link_detection;
pub mod mesh_adjacency;
pub mod mesh_depth;
pub mod protocol;
pub mod protocol_sweep;
pub mod report;
pub mod sim;
pub mod sim_laws;
pub mod spatial_grid;
pub mod sweep;
pub mod sweep_laws;
pub mod table;
pub mod telemetry;
pub mod text;
pub mod tower;
pub mod union_find;
pub mod wind_cache;
pub mod wind_field;
pub mod wind_file;
