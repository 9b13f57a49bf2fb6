//! Rectangular grid mazes: construction of the grid and its walls, resumable
//! generation and solving algorithms, and an incremental set of merged wall
//! segments for drawing.
pub mod cell;
pub mod maze_svg_render;
pub mod maze;
pub mod random;
pub mod generator_algorithms;
pub mod solver_algorithms;
pub mod maze_renderer;
