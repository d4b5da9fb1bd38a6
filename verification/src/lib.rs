//! A small real-time ray-marching renderer.
//!
//! The engine works over signed 16.16 fixed-point coordinates: a value `v`
//! stands for the real number `v / SCALE`.  Every arithmetic step is exact
//! integer arithmetic, so every function carries a contract that pins its
//! result down precisely.
//!
//! - [`fx`]: scalar fixed-point arithmetic and the integer square root;
//! - [`math`]: vectors, colors, and their operations;
//! - [`camera`]: the view pose, its cached ray basis, and the interactive
//!   pose mutations;
//! - [`scene`]: shapes with signed distance fields, the sphere-tracing
//!   search, and the per-pixel shading pass.

pub mod fx;
pub mod math;
pub mod camera;
pub mod scene;
