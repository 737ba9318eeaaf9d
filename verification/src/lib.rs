//! Enforces a naming and dependency-path convention over a workspace
//! of library modules: canonical names are derived from each library
//! directory's relative path, manifests are rewritten so that package
//! names and local dependency paths follow the convention, and a
//! debounced watch scheduler coalesces bursts of manifest changes into
//! a bounded number of re-runs.

pub mod engine;
pub mod manifest;
pub mod paths;
pub mod scheduler;

pub use engine::check_libs;
pub use engine::fix;
pub use paths::common_prefix;
pub use paths::is_lib_dir;
pub use paths::lib_rel_path_to_lib_name;
pub use paths::relative_path;
