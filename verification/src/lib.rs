pub mod bitboard;
pub mod rng;
pub mod util;
pub mod grid;
pub mod moves;
pub mod clock;
pub mod descent;
pub mod symmetry;
pub mod cycle;
pub mod window;
pub mod cycle_moves;
pub mod relocate;
pub mod solvers;
pub mod cycle_window;
pub mod guided;
pub mod patterns;
pub mod tokens;
pub mod judge;
pub mod territory;
pub mod band;
pub mod strips;
pub mod strip_assembly;
pub mod connected;
pub mod messages;
pub mod penalty;
pub mod penalty_window;
pub mod rank_window;
pub mod continuation;
pub mod interleave;
