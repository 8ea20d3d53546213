//! The state of the current round.
use vstd::prelude::*;
use crate::entities::card;
use crate::entities::chat;
use crate::entities::hand;
use crate::entities::hand::played_by;
use crate::entities::pack::Catalog;
use crate::entities::player::judge_slot;
use crate::parser::play::{first_played, others};
use crate::text::{decimal, push_decimal, push_str};

verus! {

/// Why the state of the round cannot be shown.
#[derive(Clone, Copy, Debug, PartialEq, Eq, Structural)]
pub enum StatusError {
    NotEnoughPlayers,
    /// No player judges the round.
    NoJudge,
    /// The judge holds no prompt card.
    NoBlackCard,
    /// The judge holds more than one card of the round.
    MultiBlackCard,
    /// The judge's card of the round is no prompt card.
    InvalidBlackCard,
}

impl StatusError {
    /// Message shown for this error.
    pub fn message(&self) -> &'static str {
        match self {
            StatusError::NotEnoughPlayers => "Not enough players in the game",
            StatusError::NoJudge => "No judge in game (this is a bug)",
            StatusError::NoBlackCard => "No black card in game (this is a bug)",
            StatusError::MultiBlackCard => "Multiple black card in game (this is a bug)",
            StatusError::InvalidBlackCard => "Invalid black card in game (this is a bug)",
        }
    }
}

/// The line telling whether `name` has played, and how many cards when the
/// round asks for more than one.
pub open spec fn player_line(name: Seq<char>, n: nat, pick: u64) -> Seq<char> {
    "\n"@ + name + " have"@ + (if n > 0 {
        seq![]
    } else {
        "n't"@
    }) + " played"@ + if pick == 1 || n == 0 {
        seq![]
    } else {
        " "@ + decimal(n) + " card"@ + if n > 1 {
            "s"@
        } else {
            seq![]
        }
    }
}

/// The lines of the players `ps`.
pub open spec fn player_lines(chat: &chat::Model, ps: Seq<u64>) -> Seq<char>
    decreases ps.len(),
{
    if ps.len() == 0 {
        seq![]
    } else {
        player_lines(chat, ps.drop_last()) + player_line(
            chat.name_of(ps.last()),
            played_by(chat.hands@, ps.last(), chat.turn),
            chat.pick,
        )
    }
}

/// The state of the round: its number, the prompt card, the judge, and who
/// has played.
pub open spec fn status_text(chat: &chat::Model, catalog: Catalog, black: usize) -> Seq<char> {
    let judge = judge_slot(chat.turn as int, chat.players as int) as u64;
    "Turn "@ + decimal(chat.turn as nat) + "\n\n*"@ + catalog.cards@[black as int].text@
        + "*\n\nJudge is "@ + chat.name_of(judge) + player_lines(chat, others(chat))
}

/// Shows the state of the current round of `chat`, without telling which
/// cards were played.
pub fn execute(chat: &chat::Model, catalog: &Catalog) -> (r: Result<String, StatusError>)
    requires
        catalog.wf(),
        chat.wf(catalog),
    ensures
        ({
            let judge = judge_slot(chat.turn as int, chat.players as int) as u64;
            let n = played_by(chat.hands@, judge, chat.turn);
            let black = first_played(chat.hands@, judge, chat.turn);
            &&& !chat.quorum() ==> r == Err::<String, StatusError>(StatusError::NotEnoughPlayers)
            &&& chat.quorum() && n == 0 ==> r == Err::<String, StatusError>(StatusError::NoBlackCard)
            &&& chat.quorum() && n > 1 ==> r == Err::<String, StatusError>(StatusError::MultiBlackCard)
            &&& chat.quorum() && n == 1 && catalog.cards@[black->Some_0 as int].color != card::Color::Black
                ==> r == Err::<String, StatusError>(StatusError::InvalidBlackCard)
            &&& chat.quorum() && n == 1 && catalog.cards@[black->Some_0 as int].color == card::Color::Black
                ==> r is Ok && r->Ok_0@ == status_text(chat, *catalog, black->Some_0)
        }),
{
    let rando: u64 = if chat.rando_carlissian { 1 } else { 0 };
    if chat.players < chat::QUORUM && chat.players + rando < chat::QUORUM {
        return Err(StatusError::NotEnoughPlayers);
    }
    let judge = chat.next_player_turn();
    let n = crate::parser::choice::played_count(&chat.hands, judge, chat.turn);
    if n == 0 {
        return Err(StatusError::NoBlackCard);
    }
    if n > 1 {
        return Err(StatusError::MultiBlackCard);
    }
    let black = match crate::parser::play::first_played_card(&chat.hands, judge, chat.turn) {
        Some(c) => c,
        None => {
            proof {
                lemma_played_first(chat.hands@, judge, chat.turn);
            }
            return Err(StatusError::NoBlackCard);
        },
    };
    proof {
        crate::parser::play::lemma_first_played_dealt(chat.hands@, judge, chat.turn);
        let q = choose|q: int| 0 <= q < chat.hands@.len() && chat.hands@[q].card_id == black;
        assert(chat.hands@[q].card_id < catalog.cards@.len());
    }
    if catalog.cards[black].color != card::Color::Black {
        return Err(StatusError::InvalidBlackCard);
    }
    let mut msg = String::new();
    push_str(&mut msg, "Turn ");
    push_decimal(&mut msg, chat.turn);
    push_str(&mut msg, "\n\n*");
    push_str(&mut msg, catalog.cards[black].text.as_str());
    push_str(&mut msg, "*\n\nJudge is ");
    let jn = chat.name(judge);
    push_str(&mut msg, jn.as_str());
    let ghost head = msg@;
    let ps = crate::parser::play::other_players(chat, judge);
    let mut i: usize = 0;
    while i < ps.len()
        invariant
            chat.wf(catalog),
            i <= ps@.len(),
            ps@ == others(chat),
            forall|k: int| 0 <= k < ps@.len() ==> #[trigger] ps@[k] <= chat.players,
            msg@ == head + player_lines(chat, ps@.subrange(0, i as int)),
        decreases ps@.len() - i,
    {
        let p = ps[i];
        let k = crate::parser::choice::played_count(&chat.hands, p, chat.turn);
        let name = chat.name(p);
        push_player_line(&mut msg, &name, k, chat.pick);
        proof {
            assert(ps@.subrange(0, i + 1).drop_last() =~= ps@.subrange(0, i as int));
            assert(msg@ =~= head + player_lines(chat, ps@.subrange(0, i + 1)));
        }
        i = i + 1;
    }
    assert(ps@.subrange(0, i as int) =~= ps@);
    Ok(msg)
}

/// Appends the line of `name`, who played `k` cards.
fn push_player_line(msg: &mut String, name: &String, k: u64, pick: u64)
    ensures
        final(msg)@ == old(msg)@ + player_line(name@, k as nat, pick),
{
    push_str(msg, "\n");
    push_str(msg, name.as_str());
    push_str(msg, " have");
    if k == 0 {
        push_str(msg, "n't");
    }
    push_str(msg, " played");
    if pick != 1 && k > 0 {
        push_str(msg, " ");
        push_decimal(msg, k);
        push_str(msg, " card");
        if k > 1 {
            push_str(msg, "s");
        }
    }
    assert(msg@ =~= old(msg)@ + player_line(name@, k as nat, pick));
}

/// A player who played has a first played card.
proof fn lemma_played_first(hands: Seq<hand::Model>, player: u64, turn: u64)
    ensures
        played_by(hands, player, turn) > 0 ==> first_played(hands, player, turn) is Some,
    decreases hands.len(),
{
    if hands.len() > 0 {
        lemma_played_first(hands.drop_last(), player, turn);
    }
}

} // verus!
