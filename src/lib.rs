pub mod ast;
pub mod call;
pub mod duration;
pub mod error;
pub mod evm;
pub mod hex;
pub mod ledger;
pub mod linker;
pub mod matcher;
pub mod reporter;
pub mod snapshot;
pub mod source_map;
pub mod test_runner;
pub mod trace;
pub mod utils;
pub mod wei;
