//! Players of a game: identity, turn-order slot and score.
use vstd::prelude::*;
use crate::text::{push_signed_decimal, push_str, signed_decimal};
use crate::entities::chat;
use crate::entities::pack::Catalog;

verus! {

/// Slot of the player who judges round `turn` among `n` players:
/// slots are 1-based and rotate with the turn.
pub open spec fn judge_slot(turn: int, n: int) -> int {
    ((turn - 1) % n) + 1
}

/// The judge rotates: every slot from 1 to `n` judges in turn, the slot
/// after the last is the first, and the judge of a turn comes back every
/// `n` turns.
pub proof fn lemma_judge_rotation(turn: int, n: int)
    requires
        n > 0,
    ensures
        1 <= judge_slot(turn, n) <= n,
        judge_slot(turn + n, n) == judge_slot(turn, n),
        judge_slot(turn + 1, n) == if judge_slot(turn, n) == n {
            1
        } else {
            judge_slot(turn, n) + 1
        },
{
    assert(((turn + n) - 1) % n == (turn - 1) % n) by (nonlinear_arith)
        requires n > 0;
    let m = (turn - 1) % n;
    assert(0 <= m < n) by (nonlinear_arith)
        requires n > 0, m == (turn - 1) % n;
    assert(turn % n == if m == n - 1 { 0 } else { m + 1 }) by (nonlinear_arith)
        requires n > 0, m == (turn - 1) % n, 0 <= m < n;
}

/// Computes `judge_slot` on machine integers.
pub fn judge_slot_of(turn: u64, n: u64) -> (r: u64)
    requires
        n > 0,
    ensures
        r == judge_slot(turn as int, n as int),
        1 <= r <= n,
{
    let m = turn % n;
    if m == 0 {
        assert(judge_slot(turn as int, n as int) == n) by {
            assert((turn as int - 1) % (n as int) == n - 1) by (nonlinear_arith)
                requires turn as int % n as int == 0, n > 0;
        }
        n
    } else {
        assert(judge_slot(turn as int, n as int) == m) by {
            assert((turn as int - 1) % (n as int) == m - 1) by (nonlinear_arith)
                requires turn as int % n as int == m, m > 0, n > 0;
        }
        m
    }
}

/// A player of a game. Players are numbered from 1 in the order they
/// joined; `turn` is that number, the slot that decides when they judge.
pub struct Model {
    pub id: u64,
    pub telegram_id: i64,
    pub name: String,
    pub turn: u64,
    pub points: u64,
}

/// A link to a user, shown as `name`.
pub open spec fn link_of(name: Seq<char>, telegram_id: i64) -> Seq<char> {
    "["@ + name + "](tg://user?id="@ + signed_decimal(telegram_id as int) + ")"@
}

impl Model {
    /// A link to the player, shown as their name.
    pub fn tg_link(&self) -> (r: String)
        ensures
            r@ == link_of(self.name@, self.telegram_id),
    {
        let mut s = String::new();
        push_str(&mut s, "[");
        push_str(&mut s, self.name.as_str());
        push_str(&mut s, "](tg://user?id=");
        push_signed_decimal(&mut s, self.telegram_id);
        push_str(&mut s, ")");
        assert(s@ =~= link_of(self.name@, self.telegram_id));
        s
    }

    /// Whether this player judges the current round of `chat`.
    pub fn is_my_turn(&self, chat: &chat::Model) -> (r: bool)
        requires
            chat.players > 0,
        ensures
            r == (self.turn == judge_slot(chat.turn as int, chat.players as int)),
    {
        self.turn == judge_slot_of(chat.turn, chat.players)
    }
}

/// `telegram_id` is a player of `chat`.
pub open spec fn has_player(chat: &chat::Model, telegram_id: i64) -> bool {
    exists|i: int| 0 <= i < chat.members@.len() && chat.members@[i].telegram_id == telegram_id
}

/// Position in `chat.members` of the player known as `telegram_id`.
pub fn find(chat: &chat::Model, telegram_id: i64) -> (r: Option<usize>)
    ensures
        r is Some <==> has_player(chat, telegram_id),
        r is Some ==> r->Some_0 < chat.members@.len() && chat.members@[r->Some_0 as int].telegram_id
            == telegram_id,
{
    let mut i: usize = 0;
    while i < chat.members.len()
        invariant
            i <= chat.members@.len(),
            forall|k: int| 0 <= k < i ==> chat.members@[k].telegram_id != telegram_id,
        decreases chat.members@.len() - i,
    {
        if chat.members[i].telegram_id == telegram_id {
            return Some(i);
        }
        i = i + 1;
    }
    None
}

/// Adds a player to `chat` in the next slot, with no points; the first one
/// owns the game. Returns the new player's id.
pub fn insert(chat: &mut chat::Model, catalog: &Catalog, telegram_id: i64, name: String) -> (r:
    Result<u64, chat::ChatError>)
    requires
        old(chat).wf(catalog),
    ensures
        (r is Err) == (old(chat).players == u64::MAX),
        r is Err ==> r == Err::<u64, chat::ChatError>(chat::ChatError::Limit) && *final(chat) == *old(
            chat,
        ),
        r is Ok ==> {
            &&& r->Ok_0 == old(chat).players + 1
            &&& final(chat).wf(catalog)
            &&& final(chat).players == old(chat).players + 1
            &&& final(chat).members@.len() == old(chat).members@.len() + 1
            &&& final(chat).members@.subrange(0, old(chat).members@.len() as int) == old(
                chat,
            ).members@
            &&& final(chat).members@.last() == Model {
                id: r->Ok_0,
                telegram_id,
                name,
                turn: r->Ok_0,
                points: 0,
            }
            &&& final(chat).hands@ == old(chat).hands@
            &&& final(chat).packs@ == old(chat).packs@
            &&& final(chat).id == old(chat).id
            &&& final(chat).telegram_id == old(chat).telegram_id
            &&& final(chat).start_date == old(chat).start_date
            &&& final(chat).end_date == old(chat).end_date
            &&& final(chat).turn == old(chat).turn
            &&& final(chat).pick == old(chat).pick
            &&& final(chat).rando_carlissian == old(chat).rando_carlissian
        },
{
    if chat.players == u64::MAX {
        return Err(chat::ChatError::Limit);
    }
    let id = chat.players + 1;
    chat.members.push(Model { id, telegram_id, name, turn: id, points: 0 });
    chat.players = id;
    chat.owner = Some(1);
    proof {
        assert(chat.members@.subrange(0, old(chat).members@.len() as int) =~= old(chat).members@);
        chat::lemma_no_rows_of(chat.hands@, old(chat).players, id, chat.turn, catalog.cards@);
    }
    Ok(id)
}

} // verus!
