//! Small exercises on strings and collections.

pub mod add_employee;
pub mod find_median;
pub mod pig_latin;
