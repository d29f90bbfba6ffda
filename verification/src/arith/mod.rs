//! Numbers, variables and linear expressions.
pub mod extended_number;
pub mod linear_constraint;
pub mod linear_expression;
pub mod number;
pub mod variable;
