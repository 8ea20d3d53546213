//! Joining a game.
use vstd::prelude::*;
use crate::entities::chat;
use crate::entities::chat::{dealt_round, effective_players, ChatError, QUORUM};
use crate::entities::pack::Catalog;
use crate::entities::player;
use crate::entities::hand::rows_until;
use crate::text::push_str;

verus! {

/// Why a player could not join.
#[derive(Clone, Copy, Debug, PartialEq, Eq, Structural)]
pub enum StartError {
    /// The sender already plays this game.
    AlreadyExists,
    Chat(ChatError),
}

/// Adds the sender, known as `telegram_id`, to `chat` as its next player.
/// When enough players then take part, the current round is dealt again
/// (the first round, when the game was still in its lobby) and its prompt
/// card is returned. Nothing changes when the sender already plays or the
/// round cannot be dealt.
pub fn execute(chat: &mut chat::Model, catalog: &Catalog, telegram_id: i64, name: String) -> (r:
    Result<Option<usize>, StartError>)
    requires
        catalog.wf(),
        old(chat).wf(catalog),
    ensures
        (r == Err::<Option<usize>, StartError>(StartError::AlreadyExists)) == player::has_player(
            old(chat),
            telegram_id,
        ),
        r is Err ==> final(chat).same_as(old(chat)),
        !player::has_player(old(chat), telegram_id) && old(chat).players < u64::MAX && (
        effective_players((old(chat).players + 1) as u64, old(chat).rando_carlissian) < QUORUM
            || chat::enough_cards(
            old(chat).hands@,
            old(chat).packs@,
            if old(chat).turn == 0 {
                1
            } else {
                old(chat).turn
            },
            (old(chat).players + 1) as u64,
            old(chat).rando_carlissian,
            *catalog,
        )) ==> r is Ok,
        r is Ok ==> {
            &&& final(chat).wf(catalog)
            &&& final(chat).players == old(chat).players + 1
            &&& final(chat).members@.subrange(0, old(chat).members@.len() as int) == old(
                chat,
            ).members@
            &&& final(chat).members@.last() == player::Model {
                id: final(chat).players,
                telegram_id,
                name,
                turn: final(chat).players,
                points: 0,
            }
            &&& final(chat).rando_carlissian == old(chat).rando_carlissian
            &&& final(chat).packs@ == old(chat).packs@
            &&& final(chat).end_date == old(chat).end_date
            &&& (r->Ok_0 is Some) == (effective_players(
                final(chat).players,
                final(chat).rando_carlissian,
            ) >= QUORUM)
            &&& r->Ok_0 is None ==> final(chat).hands@ == old(chat).hands@ && final(chat).turn
                == old(chat).turn && final(chat).pick == old(chat).pick
            &&& r->Ok_0 is Some ==> final(chat).turn == (if old(chat).turn == 0 {
                1
            } else {
                old(chat).turn
            }) && dealt_round(
                old(chat).hands@,
                old(chat).packs@,
                final(chat).turn,
                final(chat).players,
                final(chat).rando_carlissian,
                *catalog,
                r->Ok_0->Some_0,
                final(chat).hands@,
                final(chat).pick,
            )
        },
{
    if player::find(chat, telegram_id).is_some() {
        return Err(StartError::AlreadyExists);
    }
    let old_owner = chat.owner;
    let old_turn = chat.turn;
    if let Err(e) = player::insert(chat, catalog, telegram_id, name) {
        return Err(StartError::Chat(e));
    }
    let rando: u64 = if chat.rando_carlissian {
        1
    } else {
        0
    };
    if chat.players < QUORUM && chat.players + rando < QUORUM {
        return Ok(None);
    }
    if chat.turn == 0 {
        proof {
            chat::lemma_responses_later(chat.hands@, 0, 1, catalog.cards@);
            assert(rows_until(chat.hands@, 1)) by {
                assert forall|a: int| 0 <= a < chat.hands@.len() implies (#[trigger] chat.hands@[a]).picked_on_turn
                    <= 1 && match chat.hands@[a].played_on_turn {
                    Some(t) => t <= 1,
                    None => true,
                } by {
                    assert(chat.hands@[a].picked_on_turn <= 0);
                }
            }
        }
        chat.turn = 1;
    }
    match chat.reset(catalog) {
        Ok(c) => Ok(Some(c)),
        Err(e) => {
            chat.members.pop();
            chat.players = chat.players - 1;
            chat.owner = old_owner;
            chat.turn = old_turn;
            proof {
                assert(chat.members@ =~= old(chat).members@);
            }
            Err(StartError::Chat(e))
        },
    }
}

/// The welcome of the `players`-th player, before the announcement of the
/// round, if one was dealt.
pub open spec fn welcome_text(players: u64, round: Seq<char>) -> Seq<char> {
    "Player created"@ + (if players == 1 {
        ", you're the owner of this game, that means you're the only one who can use /settings and /close the game, you can start to play as soon as someone else joins"@
    } else if players == 2 {
        ", you're the second one on this game, you can start playing by enabling "@ + chat::RANDO_CARLISSIAN@ + " from /settings"@
    } else if players == 3 {
        ", you're the third one on this game, you can now play freely without "@ + chat::RANDO_CARLISSIAN@
    } else {
        seq![]
    }) + "\n\n"@ + round
}

/// Welcomes the `players`-th player; `round` announces the round dealt, or
/// is empty.
pub fn message(players: u64, round: &str) -> (r: String)
    ensures
        r@ == welcome_text(players, round@),
{
    let mut s = String::new();
    push_str(&mut s, "Player created");
    if players == 1 {
        push_str(&mut s, ", you're the owner of this game, that means you're the only one who can use /settings and /close the game, you can start to play as soon as someone else joins");
    } else if players == 2 {
        push_str(&mut s, ", you're the second one on this game, you can start playing by enabling ");
        push_str(&mut s, chat::RANDO_CARLISSIAN);
        push_str(&mut s, " from /settings");
    } else if players == 3 {
        push_str(&mut s, ", you're the third one on this game, you can now play freely without ");
        push_str(&mut s, chat::RANDO_CARLISSIAN);
    }
    push_str(&mut s, "\n\n");
    push_str(&mut s, round);
    assert(s@ =~= welcome_text(players, round@));
    s
}

} // verus!
