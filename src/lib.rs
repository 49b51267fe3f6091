pub mod bundle;
pub mod module;
pub mod output;
pub mod paths;
pub mod resolve;
pub mod utf16;
