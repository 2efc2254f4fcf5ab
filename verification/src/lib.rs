//! Verified algorithm and rendering-support library.
//!
//! The crate collects small verified components: a bit vector packed into
//! bytes, binary search over unimodal arrays, undirected graphs with a
//! breadth-first path search, Huffman coding, k-way merge of sorted linked
//! lists, and the colour and plain-text image-raster types that a renderer
//! writes its output through.

pub mod bfs;
pub mod binary_search;
pub mod bit_vector;
pub mod color;
pub mod huffman_codes;
pub mod graph;
pub mod materials;
pub mod merge_k_sorted_list;
pub mod ppm;
