//! Turns the target prices that cart lines carry in a `_Price` attribute into
//! percentage-decrease instructions on those lines, with exact arithmetic.
pub mod cart;
pub mod decimal;
pub mod discount;
