//! A constant database (CDB): an immutable key/value file built once and
//! queried many times, with the file format, the builder and the reader
//! verified against a mathematical model of the database.
pub mod hash;
pub mod layout;
pub mod mode;
pub mod model;
pub mod table;
pub mod query;
pub mod builder;
pub mod image;
pub mod theorems;
pub mod base;
