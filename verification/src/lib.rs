//! A small algebra of four-component tuples (points, vectors and colours in
//! homogeneous coordinates) over IEEE 754 binary32 numbers.
//!
//! Every number is held by its bit pattern and all arithmetic is carried out on
//! integers, so each operation is proved to return the correctly rounded result
//! that the standard prescribes.
//!
//! - `ieee`: what a bit pattern stands for, and what each operation must return;
//! - `round`, `nearest`: rounding, and the proof that it is to the nearest, ties to even;
//! - `scalar`, `quotient`, `root`: the number type and its arithmetic;
//! - `util`: the tuple;
//! - `projectile`: a projectile under gravity and wind;
//! - `laws`: what holds of all of it.
pub mod ieee;
pub mod laws;
pub mod nearest;
pub mod projectile;
pub mod quotient;
pub mod root;
pub mod round;
pub mod scalar;
pub mod util;
