//! Closing a game on request of its owner.
use vstd::prelude::*;
use crate::entities::chat;
use crate::entities::chat::{ChatError, CloseReport};
use crate::entities::player;
use crate::text::push_str;

verus! {

/// Why a game could not be closed.
#[derive(Debug)]
pub enum CloseError {
    /// Only the owner, whose link this is, closes the game.
    NotOwner(String),
    /// No round has been completed yet.
    Unstarted,
    Chat(ChatError),
}

impl CloseError {
    /// Message shown for this error.
    pub fn message(&self) -> (r: String)
        ensures
            self is NotOwner ==> r@ == "You're not the game owner, only "@ + self->NotOwner_0@
                + " can use this command"@,
    {
        let mut s = String::new();
        match self {
            CloseError::NotOwner(owner) => {
                push_str(&mut s, "You're not the game owner, only ");
                push_str(&mut s, owner.as_str());
                push_str(&mut s, " can use this command");
                assert(s@ =~= "You're not the game owner, only "@ + owner@ + " can use this command"@);
            },
            CloseError::Unstarted => {
                push_str(&mut s, "You can't close an unstarted game");
            },
            CloseError::Chat(e) => {
                push_str(&mut s, e.message());
            },
        }
        s
    }
}

/// What the owner's request to close `before` at time `now` owes: refused
/// before a round is completed, otherwise the game is closed and the
/// outcome announced.
pub open spec fn close_outcome(
    before: &chat::Model,
    after: &chat::Model,
    now: i64,
    c: Result<CloseReport, ChatError>,
    r: Result<Option<String>, CloseError>,
) -> bool {
    if before.turn <= 1 {
        r is Err && r->Err_0 is Unstarted && after.same_as(before) && after.end_date
            == before.end_date
    } else {
        before.closed(now, c, after) && match c {
                Ok(report) => r is Ok && r->Ok_0 is Some && r->Ok_0->Some_0@ == before.close_text(
                    &report,
                ),
                Err(e) => r is Err && r->Err_0 is Chat && r->Err_0->Chat_0 == e,
            }
    }
}

/// Closes `chat` on request of the sender, known as `telegram_id`, and
/// returns the announcement. Ignored when the game is already over or the
/// sender does not play; refused to anybody but the owner.
pub fn execute(chat: &mut chat::Model, telegram_id: i64) -> (r: Result<Option<String>, CloseError>)
    requires
        old(chat).wf_members(),
        old(chat).owner == (if old(chat).players == 0 {
            None
        } else {
            Some(1u64)
        }),
    ensures
        old(chat).end_date is Some || !player::has_player(old(chat), telegram_id) ==> r == Ok::<
            Option<String>,
            CloseError,
        >(None) && final(chat).same_as(old(chat)) && final(chat).end_date == old(chat).end_date,
        old(chat).end_date is None && player::has_player(old(chat), telegram_id) ==> {
            if old(chat).members@[0].telegram_id != telegram_id {
                r is Err && r->Err_0 is NotOwner && r->Err_0->NotOwner_0@ == player::link_of(
                    old(chat).members@[0].name@,
                    old(chat).members@[0].telegram_id,
                ) && final(chat).same_as(old(chat)) && final(chat).end_date == old(chat).end_date
            } else {
                exists|now: i64, c: Result<CloseReport, ChatError>|
                    close_outcome(old(chat), final(chat), now, c, r)
            }
        },
{
    if chat.end_date.is_some() {
        return Ok(None);
    }
    let i = match player::find(chat, telegram_id) {
        Some(i) => i,
        None => {
            return Ok(None);
        },
    };
    if chat.members[0].telegram_id != telegram_id {
        return Err(CloseError::NotOwner(chat.members[0].tg_link()));
    }
    if chat.turn <= 1 {
        let r = Err(CloseError::Unstarted);
        assert(close_outcome(chat, chat, 0, Err(ChatError::Empty), r));
        return r;
    }
    let now = chat::now();
    let ghost before = *chat;
    let res = chat.close(now);
    let ghost closed = res;
    match res {
        Ok(report) => {
            proof {
                assert forall|k: int| 0 <= k < report.winners@.len() implies #[trigger] report.winners@[k]
                    <= chat.players by {
                    lemma_winner_ids(&before, report.points, k);
                }
            }
            let msg = chat.close_message(&report);
            let r = Ok(Some(msg));
            proof {
                assert(closed->Ok_0 == report);
                assert(before.names_of(report.winners@) =~= chat.names_of(report.winners@));
                assert(before.close_text(&report) == chat.close_text(&report));
                assert(before.closed(now, closed, chat));
                assert(close_outcome(&before, chat, now, closed, r));
            }
            r
        },
        Err(e) => {
            let r = Err(CloseError::Chat(e));
            proof {
                assert(before.closed(now, closed, chat));
                assert(closed == Err::<CloseReport, ChatError>(e));
                assert(r is Err && r->Err_0 is Chat && r->Err_0->Chat_0 == e);
                assert(close_outcome(&before, chat, now, closed, r));
            }
            r
        },
    }
}

/// Every winner is a player of the game or the automated player.
pub proof fn lemma_winner_ids(chat: &chat::Model, top: u64, k: int)
    requires
        chat.wf_members(),
        0 <= k < chat.winners(top).len(),
    ensures
        chat.winners(top)[k] <= chat.players,
{
    lemma_tied_ids(chat.members@, top, chat.players);
    let t = chat::tied(chat.members@, top);
    if k < t.len() {
        assert(chat.winners(top)[k] == t[k]);
    }
}

/// Ids in `tied(members, top)` are ids of `members`.
pub proof fn lemma_tied_ids(members: Seq<player::Model>, top: u64, n: u64)
    requires
        members.len() <= n,
        forall|i: int| 0 <= i < members.len() ==> (#[trigger] members[i]).id == i + 1,
    ensures
        forall|k: int| 0 <= k < chat::tied(members, top).len() ==> #[trigger] chat::tied(members, top)[k] <= n,
    decreases members.len(),
{
    if members.len() > 0 {
        let s = members.drop_last();
        assert forall|i: int| 0 <= i < s.len() implies (#[trigger] s[i]).id == i + 1 by {
            assert(s[i] == members[i]);
        }
        lemma_tied_ids(s, top, n);
        let t = chat::tied(members, top);
        let r = chat::tied(s, top);
        assert forall|k: int| 0 <= k < t.len() implies #[trigger] t[k] <= n by {
            if k < r.len() {
                assert(t[k] == r[k]);
            } else {
                assert(members[members.len() - 1].id == members.len());
            }
        }
    }
}

} // verus!
