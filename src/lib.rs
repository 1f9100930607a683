pub mod annotations;
pub mod analyze;
pub mod checks;
pub mod eligibility;
pub mod execute;
pub mod graph;
pub mod ingest;
pub mod laws;
pub mod model;
pub mod patterns;
pub mod text;
