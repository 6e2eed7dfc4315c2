pub mod adlist;
pub mod layout;
pub mod redis_cli;
pub mod zipmap;
