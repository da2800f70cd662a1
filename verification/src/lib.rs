//! Framing, validation and selection logic of an SRP-PHAT acoustic source
//! localizer, with every real number carried as its IEEE-754 bit pattern.
pub mod binary64;
pub mod codec;
pub mod gcc_phat;
pub mod solve;
pub mod srp;
