//! Abstract domains for the static verification of eBPF programs.
//!
//! The library is layered: exact arithmetic and linear expressions, intervals,
//! a split difference-bound matrix, the zone domain built on it, finite-width
//! arithmetic, register types, the byte-level model of the stack, and the
//! combined eBPF domain with its transfer functions and assertion checks.
#![allow(unused_imports)]

pub mod act_laws;
pub mod acts;
pub mod add_bottom;
pub mod alu_laws;
pub mod arith;
pub mod array_domain;
pub mod bitset_domain;
pub mod branch_laws;
pub mod branching;
pub mod byte_read;
pub mod call_laws;
pub mod check_laws;
pub mod config;
pub mod demands;
pub mod dsu;
pub mod ebpf_access;
pub mod ebpf_addsub;
pub mod ebpf_arith;
pub mod ebpf_assertions;
pub mod ebpf_bin;
pub mod ebpf_calls;
pub mod ebpf_check;
pub mod ebpf_checker;
pub mod ebpf_domain;
pub mod ebpf_memory;
pub mod ebpf_store;
pub mod ebpf_transformer;
pub mod ebpf_un;
pub mod finite_assume;
pub mod finite_domain;
pub mod interval;
pub mod interval_laws;
pub mod jump_laws;
pub mod limit_laws;
pub mod load_laws;
pub mod numeric_ops;
pub mod numeric_steps;
pub mod ord_map;
pub mod pointer_laws;
pub mod rcp;
pub mod register_laws;
pub mod splitdbm;
pub mod step_laws;
pub mod string_constraints;
pub mod syntax;
pub mod text;
pub mod type_domain;
pub mod type_encoding;
pub mod var_id_map;
pub mod var_registry;
pub mod word_laws;
pub mod zone_domain;
pub mod zone_map;
pub mod zone_model;
pub mod zone_text;
