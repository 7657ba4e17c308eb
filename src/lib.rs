//! Containers whose behaviour is stated and proved with Verus.
pub mod data_structures;
