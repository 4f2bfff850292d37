//! The paging metadata of each supported architecture.

pub mod aarch64;
pub mod arm;
pub mod loongarch64;
pub mod riscv;
pub mod x86_64;
