use vstd::prelude::*;

pub mod command;
pub mod db;
pub mod path;
pub mod value;
pub mod wal;

pub use command::CommErr;
pub use db::{Database, DbError};
pub use value::Value;
pub use wal::{make_record, read_record, split_lines};

verus! {

} // verus!
