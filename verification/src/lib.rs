//! The text side of a KITTI object-detection scene, and the order of the
//! corners of its boxes.
//!
//! A scene comes with two texts. The annotation text holds one labelled
//! object per line ([`annotation`]); the calibration text holds the matrices
//! that relate the laser scanner, the camera and the image ([`calibration`]).
//! Both are cut into lines and words in the same way ([`text`]), and both
//! hold numbers ([`number`]). A number is kept as the word that denotes it:
//! whoever computes with it converts the word, which is known to convert.
//!
//! A labelled object is drawn as a box, and the eight corners of a box are
//! handed on in a fixed order ([`order`], [`order_laws`]). The order goes by
//! how the coordinates of the corners compare, so integers stand for them
//! here ([`vertex`]).

pub mod annotation;
pub mod calibration;
pub mod error;
pub mod number;
pub mod order;
pub mod order_laws;
pub mod text;
pub mod vertex;
