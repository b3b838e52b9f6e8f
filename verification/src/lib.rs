pub mod access;
pub mod crypto;
pub mod display;
pub mod edit;
pub mod env_file;
pub mod error;
pub mod gitconf;
pub mod hex;
pub mod json;
pub mod lifecycle;
pub mod locate;
pub mod merge;
pub mod merging;
pub mod ops;
pub mod path_order;
pub mod recipients;
pub mod rotate;
pub mod scope;
pub mod seal;
pub mod session;
pub mod shell;
pub mod strmap;
pub mod text;
pub mod token;
pub mod vault;
