//! A memory-hard hashing scheme built around a small byte-stack virtual
//! machine.
//!
//! * `rng`: the MurmurHash2 based generator used for padding and the MD5 based
//!   generator used to derive programs and opcode tables.
//! * `tools`: narrowing of generator values to fixed-width integers.
//! * `bytes`: big-endian byte strings and the helpers that build them.
//! * `bignum`, `cipher`, `fingerprint`: the calls into `num-bigint`, `aes` and
//!   `sha2`.
//! * `algorithm_creator`: derivation of opcode tables and VM programs.
//! * `instructions`: the instruction set, one instruction at a time.
//! * `instruction_laws`: what the instructions compute, stated over the bytes
//!   they read and write.
//! * `algorithm_processor`: the machine, padding, block management and the
//!   digest.

pub mod algorithm_creator;
pub mod algorithm_processor;
pub mod bignum;
pub mod bytes;
pub mod cipher;
pub mod fingerprint;
pub mod instruction_laws;
pub mod instructions;
pub mod rng;
pub mod tools;
