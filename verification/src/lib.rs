pub mod io;
pub mod loads;
pub mod lobject;
pub mod longjump;
pub mod toml;
pub mod urllib;
pub mod sh;
pub mod toml_writer;
pub mod strpack;
pub mod strformat;
pub mod utf8;
pub mod strlib;
pub mod mathlib;
pub mod oslib;
pub mod pkglib;
pub mod baselib;
pub mod tablib;
pub mod dblib;
pub mod llex;
pub mod midi;
pub mod loadstate;
