pub mod array2d;
pub mod hashmap;
pub mod index;
pub mod table;
pub mod graph;
