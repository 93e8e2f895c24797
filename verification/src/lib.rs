pub mod order;
pub mod version_order;
pub mod text;
pub mod version;
pub mod version_traits;
pub mod range_grammar;
pub mod range_model;
pub mod range;
pub mod range_parse;
pub mod requirement;
pub mod package_id;
pub mod candidate;
pub mod package_filter;
pub mod status;
pub mod graph;
pub mod laws;
pub mod package_data;
pub mod variant_key;
pub mod variant;
pub mod variant_slice;
pub mod repo;
pub mod context;
pub mod scope;
pub mod failure;
pub mod phase;
pub mod rez_solver;
pub mod local_packages;
pub mod python_ast;
pub mod package_py;
pub mod package_source;
pub mod cli;
pub mod solve_api;
pub mod family_loads;
pub mod lazy_solve;
pub mod variant_laws;
