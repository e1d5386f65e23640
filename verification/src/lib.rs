//! A Grand Chess engine: board, attacks, legal move generation, search and the
//! text protocol around them, with machine-checked contracts.

pub mod types;
pub mod squareset;
pub mod geometry;
pub mod text;
pub mod zobrist;
pub mod attacks;
pub mod position;
pub mod board;
pub mod play;
pub mod legal;
pub mod fen;
pub mod movegen;
pub mod movegen_laws;
pub mod rules;
pub mod attack_laws;
pub mod play_laws;
pub mod params;
pub mod see;
pub mod see_laws;
pub mod history;
pub mod history_laws;
pub mod tt;
pub mod tt_laws;
pub mod nnue;
pub mod nnue_laws;
pub mod symmetry_laws;
pub mod eval;
pub mod movepick;
pub mod notation;
pub mod text_laws;
pub mod score;
pub mod score_laws;
pub mod timing;
pub mod timing_laws;
pub mod start;
pub mod fen_laws;
pub mod searcher;
pub mod worth;
pub mod draw_laws;
pub mod outcome_laws;
pub mod order_laws;
pub mod tree_laws;
pub mod quiesce;
pub mod node;
pub mod search;
pub mod iterate;
pub mod search_laws;
pub mod iterate_laws;
pub mod answer;
pub mod answer_laws;
pub mod book;
pub mod book_laws;
pub mod uci;
pub mod uci_laws;
