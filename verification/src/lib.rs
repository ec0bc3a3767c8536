//! A freestanding runtime shim: a header-tracking heap allocator over a
//! simulated linear memory, and comparator-driven sort and search over
//! fixed-stride records stored in that memory. Beside it, image conversion
//! between PNG, JPEG and WebP on top of the `image` and `webp` crates.

pub mod arena;
pub mod array;
pub mod convert;
pub mod heap;
pub mod layout;
