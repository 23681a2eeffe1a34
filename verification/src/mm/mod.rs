pub mod allocator;
