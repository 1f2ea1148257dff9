//! A small just-in-time compiler for a subset of CIL.
//!
//! CIL stack code is lowered to a register IR (`codegen_ir`), the IR is
//! optimised by inlining push/pop pairs and redundant moves, and the result
//! is encoded as x86-64 machine code (`codegen::x86_64`). Compiled methods are
//! laid out one after another in an image of executable memory (`mem_mgr`).
pub mod codegen_ir;
pub mod cil;
pub mod mem_mgr;
pub mod codegen;
