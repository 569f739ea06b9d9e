//! FlowRoute's core: the rules that decide which domains a browser reaches
//! through the upstream proxy and which go direct, the proxy core's
//! configuration derived from them, and the reading of what the system
//! tools answer. Every function here is verified against its contract, but
//! for two trusted ones in `text` that call std: `push_char`
//! (`String::push`) and `to_lowercase_chars` (`str::to_lowercase`, whose
//! result is named `lowercase`).
pub mod browser;
pub mod clash_api;
pub mod config;
pub mod dns_check;
pub mod mihomo;
pub mod sorted;
pub mod sysproxy;
pub mod text;
