pub mod y2024;
