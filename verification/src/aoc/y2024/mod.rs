pub mod d01;
pub mod d01_seq_similarity;
pub mod d02;
pub mod d04;
pub mod d25;
pub mod d24;
pub mod d14;
pub mod d22_price_changes;
pub mod d07_permute_ternary_ops;
pub mod d19_matching_patterns;
pub mod d18;
pub mod d18_falling_block_maze;
pub mod d11_stone_dyn_count;
pub mod d11;
pub mod d09_defragment;
pub mod d24_circuit_repair;
pub mod d10;
pub mod d15;
pub mod d23_graph_cliques;
pub mod d16_turning_maze;
pub mod d05_sort_rules;
pub mod d08_antenna_lines;
pub mod d03;
pub mod d06;
pub mod d13_int_xsect_claw;
pub mod d20_cheat_maze;
