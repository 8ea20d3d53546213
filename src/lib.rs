//! Turn and game engine of a multiplayer prompt/response card game played in
//! group chats: the card catalog, the per-game tables of players and dealt
//! cards, the drawing of cards, judging, scoring and the commands that drive
//! them.
pub mod entities;
pub mod text;
pub mod parser;
pub mod utils;
