use vstd::prelude::*;

pub mod order;
pub mod bag;
pub mod random;
pub mod names;
pub mod phoneme;
pub mod errors;
pub mod phoneme_table;
pub mod word;
pub mod transformation;
pub mod splice;
pub mod weighted_vec;
pub mod patterns;
pub mod validation;
pub mod generation;
pub mod reading;
pub mod text;
pub mod grid;
pub mod lexicon;
pub mod format;
pub mod word_table;
pub mod orthography;
pub mod analysis;
pub mod spelling;
pub mod messages;
pub mod phoneme_grid;
pub mod arguments;
pub mod transformation_arguments;
pub mod transform_table;
pub mod grid_html;
pub mod grid_text;
pub mod grid_json;

verus! {

} // verus!
