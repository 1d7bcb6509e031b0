//! Assembles a root filesystem from binary packages of an Alpine-style
//! repository.
//!
//! The library holds the rules of the assembly and proves them: how the
//! repository index is read ([`index`]), where an archive is fetched from and
//! how its container of gzip members is taken apart ([`download`]), which
//! files a package claims and how the claims of all packages and the
//! explicitly configured files come together ([`assemble`]) in one mapping
//! from destination paths to source paths ([`mapping`]). Fetching, unpacking
//! and copying are left to the caller, who hands their outcomes in as values.

pub mod assemble;
pub mod config;
pub mod download;
pub mod index;
pub mod mapping;
pub mod order;
pub mod table;
pub mod text;
