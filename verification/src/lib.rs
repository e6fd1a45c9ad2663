//! A type checker structured around an LCF-style proof kernel.
//!
//! - `lang` defines the terms and types that the kernel checks;
//! - `kernel` defines the typing judgements and the only ways to prove them;
//! - `ast` defines derivations (evidence) that can be checked by the kernel;
//! - `derivations` turns evidence into kernel proofs, inferring structural steps;
//! - `parser` reads lambda terms with type annotations into evidence;
//! - `printer` gives the text of a term, which the parser reads back.
pub mod ast;
pub mod derivations;
pub mod kernel;
pub mod lang;
pub mod parser;
pub mod printer;
