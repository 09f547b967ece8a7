//! Grid mazes carved at random and solved with A*, run-length and Huffman coding,
//! double-buffered terminal canvases, Conway's Game of Life, and the port plan of
//! a parallel scanner.
pub mod ascii_buffer;
pub mod ascii_scene;
pub mod buffer;
pub mod conway;
pub mod generate;
pub mod huffman;
pub mod maze;
pub mod ports;
pub mod rle;
mod rng;
pub mod scene;
pub mod search;
mod text;
