//! `zkc_core`: everything between the compiler frontend and a proof — the
//! Core IR and its witness solver, the R1CS and Plonkish lowerings, the
//! hand-written Goldilocks field, FFT, Merkle commitments, Fiat–Shamir, FRI
//! and the STARK.
pub mod field;
pub mod goldilocks;
pub mod bn254;
pub mod ir;
pub mod witness;
pub mod r1cs;
pub mod lower;
pub mod plonkish;
pub mod fusion;
pub mod hash;
pub mod merkle;
pub mod transcript;
pub mod fft;
pub mod roundtrip;
pub mod polynomial;
pub mod air;
pub mod fri;
pub mod fold;
pub mod stark;
pub mod stats;

pub use field::ZkField;
