//! The help message.
use vstd::prelude::*;
use crate::text::{decimal, push_decimal, push_str};

verus! {

/// Lines of the help message before the inline command.
pub const HELP: &'static str = "*Cards Against Humanity Bot*\n\n/close - close the game and get a winner\n/help - this message\n/start - start or join the game in this chat\n/settings - change game setting\n/status - show game status\n/rank - show players ranking\n\nTo view you hand and choose a card for this game use the inline command `";

/// The help message of the game `chat_id`, for the bot `bot_name`.
pub open spec fn help_text(chat_id: u64, bot_name: Seq<char>) -> Seq<char> {
    HELP@ + bot_name + " "@ + decimal(chat_id as nat) + "`\n                "@
}

/// The help message: the commands, and how to open one's hand in the game
/// `chat_id` through the bot `bot_name`.
pub fn execute(chat_id: u64, bot_name: &str) -> (r: String)
    ensures
        r@ == help_text(chat_id, bot_name@),
{
    let mut s = String::new();
    push_str(&mut s, HELP);
    push_str(&mut s, bot_name);
    push_str(&mut s, " ");
    push_decimal(&mut s, chat_id);
    push_str(&mut s, "`\n                ");
    assert(s@ =~= help_text(chat_id, bot_name@));
    s
}

} // verus!
