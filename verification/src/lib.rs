//! Template hydration: literal placeholder substitution in a message
//! template, carried through every layer of base64-wrapped JSON inside it.

pub mod codec;
pub mod contract;
pub mod envelope;
pub mod error;
pub mod hydrate;
pub mod msg;
pub mod substitute;
pub mod text;
pub mod tree;
pub mod vars;
