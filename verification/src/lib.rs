//! Opening-range-breakout engine, ranked on prop-firm evaluation and payout
//! expected value.

pub mod account_laws;
pub mod backtest;
pub mod backtest_laws;
pub mod cell_laws;
pub mod data;
pub mod draws;
pub mod engine;
pub mod ev;
pub mod feature_laws;
pub mod features;
pub mod fold_laws;
pub mod grid_laws;
pub mod key_laws;
pub mod mc;
pub mod mc_laws;
pub mod money_laws;
pub mod num;
pub mod order;
pub mod parallel;
pub mod rank_laws;
pub mod ranking;
pub mod regime_laws;
pub mod run_laws;
pub mod seed_laws;
pub mod session;
pub mod session_laws;
pub mod sim_laws;
pub mod stat_laws;
pub mod stats;
pub mod terms_laws;
pub mod text;
pub mod text_laws;
pub mod trade_laws;
pub mod types;
pub mod walk;
pub mod walk_laws;
