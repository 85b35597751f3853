pub mod async_fns;
pub mod debversion;
pub mod deps_available;
pub mod packages;
pub mod parsers;
pub mod solvers;
