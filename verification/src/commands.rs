//! What the commands of the client decide before they answer.

pub mod branches;
