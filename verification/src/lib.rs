//! A user-space memory allocator built on OS anonymous memory mappings:
//! power-of-two size classes, per-thread free-list pools carved out of
//! fixed-size slab chunks, a direct path for large objects, and a
//! thread-exit walk that returns every chunk to the memory source.
pub mod classes;
pub mod source;
pub mod pool;
pub mod laws;
