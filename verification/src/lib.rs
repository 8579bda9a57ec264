//! An infix arithmetic expression pipeline, verified end to end on its
//! symbolic part: a scanner that turns a string into tokens, a shunting-yard
//! converter that reorders them into postfix, and a postfix reducer that
//! recovers the expression each operator applies to.
//!
//! Numbers travel through the pipeline as opaque 32-bit scalar codes; the
//! caller chooses the encoding, parses each numeric lexeme into it, and folds
//! the resulting expression tree with its own arithmetic.

pub mod token;
pub mod scan;
pub mod yard;
pub mod rpn;
pub mod lemmas;
