//! Registration, validation and scheduling of terrain generation passes.
pub mod id_map;
pub mod report;
pub mod generator_state;
pub mod wait_counts;
pub mod data_usage;
pub mod generation;
pub mod scheduler_pass_data;
pub mod pass_dependencies;
pub mod terrain_generation;
