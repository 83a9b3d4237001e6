//! Reads comma-separated text into a table of typed cells and describes its
//! columns: true and false counts for booleans, nulls and unique values for
//! text, nulls and the exact smallest and largest value for numbers.

pub mod dataframe;
pub mod datatype;
pub mod number;
pub mod results;
pub mod text;
