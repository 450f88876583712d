//! Sudoku boards, puzzle generation, technique-based grading and the state of
//! a game in play.

pub mod mask;
pub mod geometry;
pub mod board;
pub mod board_laws;
pub mod difficulty;
pub mod grid;
pub mod solver;
pub mod seqs;
pub mod singles;
pub mod single_laws;
pub mod spots;
pub mod locked;
pub mod technique_laws;
pub mod combos;
pub mod subsets;
pub mod subset_laws;
pub mod subset_patterns;
pub mod fish;
pub mod fish_laws;
pub mod chains;
pub mod chain_laws;
pub mod link_laws;
pub mod kites;
pub mod chain_patterns;
pub mod wings;
pub mod wing_laws;
pub mod wing_patterns;
pub mod rectangle;
pub mod rectangle_laws;
pub mod bifurcation;
pub mod trial_laws;
pub mod grade;
pub mod grade_laws;
pub mod tier_laws;
pub mod random;
pub mod generator;
pub mod generator_laws;
pub mod text;
pub mod text_laws;
pub mod settings;
pub mod theme;
pub mod replay;
pub mod game;
pub mod game_laws;
pub mod play_laws;
pub mod replay_laws;
pub mod screens;
pub mod key_laws;
pub mod export;
pub mod display_laws;
