pub mod data_model;
pub mod game_logic;
pub mod priority_queue;
pub mod search;
pub mod a_star;
pub mod a_star_to_opponent;
pub mod l_p_a_star;
pub mod square_outline_iterator;
pub mod bot;
pub mod agent;
pub mod session;
pub mod commands;
pub mod clock;
pub mod render_board;
