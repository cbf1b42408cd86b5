//! A decoder for a stack-machine object-serialization wire format.
//!
//! A byte stream of single-byte opcodes with inline operands drives a small
//! virtual machine: values are pushed on an evaluation stack, memoized in a
//! table so that composite objects can be shared, and assembled into lists,
//! tuples and dictionaries.  The machine in [`machine`] owns the whole
//! decode; [`opcode`] reads one opcode with its operands, [`string`] decodes
//! backslash-escaped operands, [`bignum`] holds the arbitrary-precision
//! integers, and [`value`] is the decoded value tree.

pub mod bignum;
pub mod machine;
pub mod opcode;
pub mod string;
pub mod value;
