//! The records of the game: cards and packs of the catalog, games, their
//! players and the cards dealt to them.
pub mod card;
pub mod chat;
pub mod chat_pack;
pub mod hand;
pub mod pack;
pub mod player;
