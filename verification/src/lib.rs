//! Physical-memory management core of a small kernel: a buddy-system page
//! allocator over a fixed pool of base pages, plus the power-of-two ring
//! buffers that back the UART line drivers.
#![allow(non_camel_case_types)]
#![allow(non_snake_case)]

pub mod buddy;
pub mod phys;
pub mod ring;
pub mod uart;
