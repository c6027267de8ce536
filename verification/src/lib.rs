//! The workings of a vector drawing editor: the drawing and its operations, the canvas with
//! its gestures, the inspector, and what travels through the clipboard and by drag and drop.
//!
//! Everything is written over the numbers of [`scalar::Scalar`]. [`micro::Micro`] counts in
//! millionths; an application may bring the numbers of its machine.
use vstd::prelude::*;

pub mod aim;
pub mod ancestry;
pub mod base64;
pub mod bodies;
pub mod bounds;
pub mod canvas;
pub mod clipboard;
pub mod color;
pub mod document;
pub mod draw;
pub mod drift;
pub mod exact;
pub mod figures;
pub mod foreign;
pub mod gauge;
pub mod geometry;
pub mod gesture;
pub mod grips;
pub mod hit;
pub mod homeward;
pub mod homing;
pub mod hulls;
pub mod images;
pub mod inks;
pub mod inspector;
pub mod knobs;
pub mod layers;
pub mod likeness;
pub mod marks;
pub mod micro;
pub mod millionths;
pub mod motion;
pub mod nearness;
pub mod node;
pub mod ops;
pub mod order;
pub mod outlines;
pub mod paste;
pub mod plane;
pub mod presses;
pub mod products;
pub mod ranks;
pub mod rigid;
pub mod rosters;
pub mod rotor;
pub mod round_trip;
pub mod rounds;
pub mod sayings;
pub mod scalar;
pub mod scene;
pub mod shown;
pub mod snap;
pub mod stretches;
pub mod strides;
pub mod svg;
pub mod svg_write;
pub mod sway;
pub mod sweeps;
pub mod text;
pub mod transfer;
pub mod travel;
pub mod tree;
pub mod turn;
pub mod turning;
pub mod viewport;
pub mod views;
pub mod walks;
pub mod zooms;

verus! {

} // verus!
