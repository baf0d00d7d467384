pub mod types;
pub mod text;
pub mod bitboard;
pub mod moves;
pub mod attacks;
pub mod zobrist;
pub mod board;
pub mod fen;
pub mod movegen;
pub mod perft;
pub mod cuckoo;
pub mod move_events;
pub mod book;
pub mod endgame;
pub mod evaluation;
pub mod features;
pub mod magic;
pub mod ordered_movegen;
pub mod nnue;
pub mod nnue_sf;
pub mod sf_threats;
pub mod nnue_sf256;
pub mod nnue_q900;
pub mod weights;
pub mod nnue_juntas;
pub mod attack_laws;
