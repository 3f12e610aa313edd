pub mod backup;
pub mod config;
pub mod json;
pub mod paths;
pub mod registry;
pub mod remote;
pub mod system;
pub mod text;
pub mod version;
