//! A daily word-guessing game: guess scoring, dictionary handling,
//! daily word selection and the play session.

pub mod evaluate;
pub mod dictionary;
pub mod daily;
pub mod game;
