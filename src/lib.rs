pub mod board;
pub mod constants;
pub mod crossword_move;
pub mod gaddag;
pub mod move_context;
pub mod move_generator;
pub mod rack;
pub mod step;
pub mod walk;
pub mod walk_path;
pub mod walk_shape;
