//! Record store and backup/retention core of a local finance
//! planner. The library holds the logic with real invariants: a
//! lossless codec between records and the delimited text of their
//! backing files, the whole-file record store semantics (all or
//! nothing, file order kept, lenient dates), backup file naming,
//! and the deterministic retention policy that decides which
//! timestamped snapshots survive. File handles, advisory locks and
//! directory walks belong to the thin shell around the library,
//! which passes file texts and directory listings in and takes
//! texts, names and decisions out.

pub mod backup_name;
pub mod codec;
pub mod config;
pub mod delim;
pub mod errors;
pub mod records;
pub mod retention;
pub mod stamp;
pub mod store;
pub mod syntax;
pub mod text;
