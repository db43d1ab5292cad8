//! The check inventory. Within a stage nothing fails fast: the artist gets every
//! problem at once. Between stages it does: with master errors, downsampling is
//! meaningless.
pub mod master;
pub mod output;
