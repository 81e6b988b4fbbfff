//! A base-conversion circuit component: a value's digits in one base are laid
//! out row by row beside the digits a correspondence table gives in another
//! base, with running sums that rebuild both values in the field.
pub mod base_conversion;
pub mod digits;
pub mod field;
pub mod helpers;
pub mod table;
