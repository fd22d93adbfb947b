use vstd::prelude::*;

pub mod corpus;
pub mod cyclic_array;
pub mod error;
pub mod generator;
pub mod model;
pub mod random_number_generator;

pub use cyclic_array::CyclicArray;
pub use error::MarkovError;
pub use generator::StringBasedMarkovTextGenerator;
pub use random_number_generator::RandomNumberGenerator;

verus! {

} // verus!
