//! Playing a card, and the judge's choice of the winning cards.
use vstd::prelude::*;
use crate::entities::chat;
use crate::entities::chat::{dealt_round, ChatError};
use crate::entities::hand;
use crate::entities::card;
use crate::entities::hand::{held, played_by, played_responses, rows_until, AUTO_PLAYER};
use crate::entities::pack::Catalog;
use crate::entities::player;
use crate::entities::player::{judge_slot, judge_slot_of};
use crate::text::push_str;

verus! {

/// What came of a choice.
#[derive(Debug)]
pub enum Choice {
    /// Nothing was done: the sender does not play, or the selection does not
    /// fit their part in the round.
    Ignored,
    /// A player played a card; `ready` when every player has played all the
    /// cards of the round and the judge can choose.
    Played { ready: bool },
    /// The judge chose the cards of `winner`, who scored, and the next round
    /// was dealt with `card` as prompt card.
    Judged { winner: u64, card: usize },
    /// The next round could not be dealt, for `error`: the choice was
    /// undone and the game is as it was.
    Ended { error: ChatError },
}

/// Every player but the judge has played all the `pick` cards of `turn`.
pub open spec fn all_played(hands: Seq<hand::Model>, turn: u64, players: u64, pick: u64) -> bool {
    forall|p: u64|
        1 <= p <= players && p != judge_slot(turn as int, players as int) ==> #[trigger] played_by(
            hands,
            p,
            turn,
        ) >= pick
}

/// The rows with those of `cards` marked as winning.
pub open spec fn mark_won(hands: Seq<hand::Model>, cards: Seq<usize>) -> Seq<hand::Model> {
    Seq::new(
        hands.len(),
        |i: int|
            if cards.contains(hands[i].card_id) {
                hand::Model { won: true, ..hands[i] }
            } else {
                hands[i]
            },
    )
}

/// What a player's choice of `card` does: it is ignored unless `id` holds
/// the card, a response card, and has cards left to play this round; otherwise the card is
/// played, at the next position among the player's cards of the round.
pub open spec fn player_outcome(
    before: &chat::Model,
    after: &chat::Model,
    catalog: Catalog,
    id: u64,
    card: usize,
    r: Choice,
) -> bool {
    let h = before.hands@;
    let turn = before.turn;
    let fits = id != AUTO_PLAYER && card < catalog.cards@.len() && catalog.cards@[card as int].color
        == card::Color::White && exists|i: int|
        0 <= i < h.len() && h[i].card_id == card && h[i].player_id == id
            && h[i].played_on_turn is None;
    &&& r is Ignored || r is Played
    &&& r is Ignored <==> !fits || played_by(h, id, turn) >= before.pick
    &&& r is Ignored ==> after.same_as(before)
    &&& r is Played ==> {
        &&& after.same_but_hands(before)
        &&& after.pick == before.pick
        &&& exists|i: int|
            0 <= i < h.len() && h[i].card_id == card && after.hands@ == h.update(
                i,
                hand::Model {
                    played_on_turn: Some(turn),
                    seq: played_by(h, id, turn) as u64,
                    ..h[i]
                },
            )
        &&& r->ready == all_played(after.hands@, turn, before.players, before.pick)
    }
}

/// What the judge's choice of `cards` does: it is ignored unless they are
/// cards one other player played this round; otherwise that player scores,
/// the cards win and the next round is dealt, or, when it cannot be, the
/// game stays as it was before the choice.
pub open spec fn judge_outcome(
    before: &chat::Model,
    after: &chat::Model,
    catalog: Catalog,
    cards: Seq<usize>,
    r: Choice,
) -> bool {
    let h = before.hands@;
    let turn = before.turn;
    let judge = judge_slot(turn as int, before.players as int) as u64;
    let fits = exists|q: u64| q != judge && selection_of(h, cards, turn, q);
    &&& r is Ignored || r is Judged || r is Ended
    &&& r is Ignored <==> !fits
    &&& r is Ignored ==> after.same_as(before)
    &&& r is Judged ==> {
        let q = r->winner;
        &&& q != judge && selection_of(h, cards, turn, q)
        &&& after.turn == turn + 1
        &&& after.members@ == if q == AUTO_PLAYER {
            before.members@
        } else {
            before.members@.update(
                q - 1,
                player::Model {
                    points: (before.members@[q - 1].points + 1) as u64,
                    ..before.members@[q - 1]
                },
            )
        }
        &&& after.players == before.players
        &&& after.packs@ == before.packs@
        &&& after.rando_carlissian == before.rando_carlissian
        &&& after.end_date == before.end_date
        &&& dealt_round(
            mark_won(h, cards),
            before.packs@,
            after.turn,
            before.players,
            before.rando_carlissian,
            catalog,
            r->card,
            after.hands@,
            after.pick,
        )
    }
    &&& r is Ended ==> after.same_as(before) && after.end_date == before.end_date
}

/// The announcement that the judge `name` can choose.
pub open spec fn ready_text(pick: u64, name: Seq<char>) -> Seq<char> {
    "All players have choosen their card"@ + (if pick > 1 {
        "s"@
    } else {
        seq![]
    }) + ", now "@ + name + " can choose the winner"@
}

/// Announces that every player has played and the judge can choose.
pub fn ready_message(chat: &chat::Model) -> (r: String)
    requires
        chat.wf_members(),
        chat.players > 0,
    ensures
        r@ == ready_text(chat.pick, chat.name_of(judge_slot(chat.turn as int, chat.players as int) as u64)),
{
    let mut s = String::new();
    push_str(&mut s, "All players have choosen their card");
    if chat.pick > 1 {
        push_str(&mut s, "s");
    }
    push_str(&mut s, ", now ");
    let judge = chat.next_player_turn();
    let name = chat.name(judge);
    push_str(&mut s, name.as_str());
    push_str(&mut s, " can choose the winner");
    assert(s@ =~= ready_text(chat.pick, chat.name_of(judge_slot(chat.turn as int, chat.players as int) as u64)));
    s
}

/// Position among `hands` of the row of `card`.
pub fn find_row(hands: &Vec<hand::Model>, card: usize) -> (r: Option<usize>)
    ensures
        r is Some <==> hand::dealt(hands@, card as int),
        r is Some ==> r->Some_0 < hands@.len() && hands@[r->Some_0 as int].card_id == card,
{
    let mut i: usize = 0;
    while i < hands.len()
        invariant
            i <= hands@.len(),
            forall|k: int| 0 <= k < i ==> hands@[k].card_id != card,
        decreases hands@.len() - i,
    {
        if hands[i].card_id == card {
            return Some(i);
        }
        i = i + 1;
    }
    None
}

/// Number of cards `player` played on `turn`.
pub fn played_count(hands: &Vec<hand::Model>, player: u64, turn: u64) -> (r: u64)
    ensures
        r == played_by(hands@, player, turn),
{
    let mut r: u64 = 0;
    let mut i: usize = 0;
    while i < hands.len()
        invariant
            i <= hands@.len(),
            r == played_by(hands@.subrange(0, i as int), player, turn),
            r <= i,
        decreases hands@.len() - i,
    {
        assert(hands@.subrange(0, i + 1).drop_last() =~= hands@.subrange(0, i as int));
        if hands[i].player_id == player && hands[i].played_on_turn == Some(turn) {
            r = r + 1;
        }
        i = i + 1;
    }
    assert(hands@.subrange(0, i as int) =~= hands@);
    r
}

/// Whether every player but the judge has played all the cards of the round.
pub fn ready_to_judge(hands: &Vec<hand::Model>, turn: u64, players: u64, pick: u64) -> (r: bool)
    requires
        players > 0,
    ensures
        r == all_played(hands@, turn, players, pick),
{
    let judge = judge_slot_of(turn, players);
    let mut p: u64 = 1;
    while p <= players
        invariant
            1 <= p <= players + 1,
            players > 0,
            judge == judge_slot(turn as int, players as int),
            forall|q: u64| 1 <= q < p && q != judge ==> #[trigger] played_by(hands@, q, turn) >= pick,
        decreases players + 1 - p,
    {
        if p != judge && played_count(hands, p, turn) < pick {
            return false;
        }
        if p == players {
            return true;
        }
        p = p + 1;
    }
    true
}

/// Plays `card` for player `id` in the current round of `chat`: the card
/// must be one they hold, and they must not have played all the cards the
/// round asks for. The card is marked played with its position among the
/// player's cards of the round.
pub fn as_player(chat: &mut chat::Model, catalog: &Catalog, id: u64, card: usize) -> (r: Choice)
    requires
        catalog.wf(),
        old(chat).wf(catalog),
        old(chat).players > 0,
    ensures
        final(chat).wf(catalog),
        player_outcome(old(chat), final(chat), *catalog, id, card, r),
{
    let idx = match find_row(&chat.hands, card) {
        Some(i) => i,
        None => {
            return Choice::Ignored;
        },
    };
    let row = chat.hands[idx];
    proof {
        assert(row.card_id < catalog.cards@.len());
    }
    if id == AUTO_PLAYER || catalog.cards[row.card_id].color != card::Color::White {
        return Choice::Ignored;
    }
    if row.player_id != id || row.played_on_turn.is_some() {
        proof {
            assert forall|i: int|
                0 <= i < chat.hands@.len() && chat.hands@[i].card_id == card implies !(
                chat.hands@[i].player_id == id && chat.hands@[i].played_on_turn is None) by {
                if i != idx {
                    assert(chat.hands@[i].card_id != chat.hands@[idx as int].card_id);
                }
            }
        }
        return Choice::Ignored;
    }
    let played = played_count(&chat.hands, id, chat.turn);
    if played >= chat.pick {
        return Choice::Ignored;
    }
    let updated = hand::Model { played_on_turn: Some(chat.turn), seq: played, ..row };
    proof {
        chat::lemma_play_counts(chat.hands@, idx as int, updated, chat.turn, catalog.cards@);
    }
    chat.hands.set(idx, updated);
    let ready = ready_to_judge(&chat.hands, chat.turn, chat.players, chat.pick);
    proof {
        assert(chat.hands@ == old(chat).hands@.update(idx as int, updated));
        assert forall|a: int, b: int|
            0 <= a < chat.hands@.len() && 0 <= b < chat.hands@.len() && a != b implies chat.hands@[a].card_id
            != chat.hands@[b].card_id by {
            assert(old(chat).hands@[a].card_id != old(chat).hands@[b].card_id);
        }
        assert forall|a: int| 0 <= a < chat.hands@.len() implies (#[trigger] chat.hands@[a]).player_id
            <= chat.players by {
            assert(old(chat).hands@[a].player_id <= chat.players);
        }
        assert forall|a: int| 0 <= a < chat.hands@.len() implies #[trigger] chat.hands@[a].card_id
            < catalog.cards@.len() by {
            assert(old(chat).hands@[a].card_id < catalog.cards@.len());
        }
        assert forall|a: int| 0 <= a < chat.hands@.len() implies (#[trigger] chat.hands@[a]).picked_on_turn
            <= chat.turn && match chat.hands@[a].played_on_turn {
            Some(t) => t <= chat.turn,
            None => true,
        } by {
            assert(old(chat).hands@[a].picked_on_turn <= chat.turn);
        }
        assert forall|p: u64| 1 <= p <= chat.players implies #[trigger] held(chat.hands@, p)
            + played_responses(chat.hands@, p, chat.turn, catalog.cards@) <= hand::HAND_SIZE by {
            assert(held(old(chat).hands@, p) + played_responses(
                old(chat).hands@,
                p,
                chat.turn,
                catalog.cards@,
            ) <= hand::HAND_SIZE);
        }
    }
    Choice::Played { ready }
}

/// The cards `cards` are rows of `hands`, all of player `q`, all played on
/// `turn`.
pub open spec fn selection_of(hands: Seq<hand::Model>, cards: Seq<usize>, turn: u64, q: u64) -> bool {
    &&& cards.len() > 0
    &&& forall|k: int|
        0 <= k < cards.len() ==> exists|i: int|
            0 <= i < hands.len() && hands[i].card_id == #[trigger] cards[k] && hands[i].player_id
                == q && hands[i].played_on_turn == Some(turn)
}

/// Whether `v` holds `x`.
pub fn holds(v: &Vec<usize>, x: usize) -> (r: bool)
    ensures
        r == v@.contains(x),
{
    let mut i: usize = 0;
    while i < v.len()
        invariant
            i <= v@.len(),
            forall|k: int| 0 <= k < i ==> v@[k] != x,
        decreases v@.len() - i,
    {
        if v[i] == x {
            proof {
                assert(v@[i as int] == x);
            }
            return true;
        }
        i = i + 1;
    }
    false
}

/// The rows with those of `cards` marked as winning.
fn mark_won_rows(hands: &Vec<hand::Model>, cards: &Vec<usize>) -> (r: Vec<hand::Model>)
    ensures
        r@ == mark_won(hands@, cards@),
{
    let mut r: Vec<hand::Model> = Vec::new();
    let mut i: usize = 0;
    while i < hands.len()
        invariant
            i <= hands@.len(),
            r@ == mark_won(hands@, cards@).subrange(0, i as int),
        decreases hands@.len() - i,
    {
        let h = hands[i];
        if holds(cards, h.card_id) {
            r.push(hand::Model { won: true, ..h });
        } else {
            r.push(h);
        }
        proof {
            assert(r@ =~= mark_won(hands@, cards@).subrange(0, i + 1));
        }
        i = i + 1;
    }
    assert(mark_won(hands@, cards@).subrange(0, i as int) =~= mark_won(hands@, cards@));
    r
}

/// The player whose cards `cards` are, when they are all rows of one player
/// played on `turn`.
fn selection_owner(hands: &Vec<hand::Model>, cards: &Vec<usize>, turn: u64) -> (r: Option<u64>)
    requires
        distinct_cards_of(hands@),
    ensures
        r is Some ==> selection_of(hands@, cards@, turn, r->Some_0),
        r is None ==> forall|q: u64| !selection_of(hands@, cards@, turn, q),
{
    if cards.len() == 0 {
        return None;
    }
    let first = match find_row(hands, cards[0]) {
        Some(i) => i,
        None => {
            return None;
        },
    };
    let q = hands[first].player_id;
    let mut k: usize = 0;
    while k < cards.len()
        invariant
            distinct_cards_of(hands@),
            k <= cards@.len(),
            cards@.len() > 0,
            first < hands@.len(),
            hands@[first as int].card_id == cards@[0],
            q == hands@[first as int].player_id,
            forall|x: int|
                0 <= x < k ==> exists|i: int|
                    0 <= i < hands@.len() && hands@[i].card_id == #[trigger] cards@[x]
                        && hands@[i].player_id == q && hands@[i].played_on_turn == Some(turn),
        decreases cards@.len() - k,
    {
        let i = match find_row(hands, cards[k]) {
            Some(i) => i,
            None => {
                proof {
                    assert forall|q2: u64| !selection_of(hands@, cards@, turn, q2) by {
                        if selection_of(hands@, cards@, turn, q2) {
                            assert(exists|i: int|
                                0 <= i < hands@.len() && hands@[i].card_id == cards@[k as int]);
                        }
                    }
                }
                return None;
            },
        };
        if hands[i].player_id != q || hands[i].played_on_turn != Some(turn) {
            proof {
                assert forall|q2: u64| !selection_of(hands@, cards@, turn, q2) by {
                    if selection_of(hands@, cards@, turn, q2) {
                        let a = choose|a: int|
                            0 <= a < hands@.len() && hands@[a].card_id == cards@[0] && hands@[a].player_id
                                == q2 && hands@[a].played_on_turn == Some(turn);
                        let b = choose|b: int|
                            0 <= b < hands@.len() && hands@[b].card_id == cards@[k as int]
                                && hands@[b].player_id == q2 && hands@[b].played_on_turn == Some(turn);
                        assert(a == first);
                        assert(b == i);
                    }
                }
            }
            return None;
        }
        k = k + 1;
    }
    Some(q)
}

/// No card has two rows.
pub open spec fn distinct_cards_of(hands: Seq<hand::Model>) -> bool {
    hand::distinct_cards(hands)
}

/// The judge of `chat` chooses the cards `cards`, which must all be cards
/// another player played this round. That player scores a point (the
/// automated player scores by its winning cards), the cards are marked as
/// winning and the next round is dealt. When it cannot be dealt, the choice
/// is undone and the error reported.
pub fn as_judge(chat: &mut chat::Model, catalog: &Catalog, cards: &Vec<usize>) -> (r: Choice)
    requires
        catalog.wf(),
        old(chat).wf(catalog),
        old(chat).players > 0,
    ensures
        final(chat).wf(catalog),
        judge_outcome(old(chat), final(chat), *catalog, cards@, r),
        forall|q: u64|
            q != judge_slot(old(chat).turn as int, old(chat).players as int) && #[trigger] selection_of(
                old(chat).hands@,
                cards@,
                old(chat).turn,
                q,
            ) && old(chat).turn < u64::MAX && (q == AUTO_PLAYER || old(chat).members@[q - 1].points
                < u64::MAX) && old(chat).quorum() && chat::enough_cards(
                mark_won(old(chat).hands@, cards@),
                old(chat).packs@,
                (old(chat).turn + 1) as u64,
                old(chat).players,
                old(chat).rando_carlissian,
                *catalog,
            ) ==> r is Judged,
{
    let judge = chat.next_player_turn();
    let turn = chat.turn;
    let q = match selection_owner(&chat.hands, cards, turn) {
        Some(q) => q,
        None => {
            return Choice::Ignored;
        },
    };
    if q == judge {
        proof {
            assert forall|q2: u64| !(q2 != judge && selection_of(chat.hands@, cards@, turn, q2)) by {
                if q2 != judge && selection_of(chat.hands@, cards@, turn, q2) {
                    let a = choose|a: int|
                        0 <= a < chat.hands@.len() && chat.hands@[a].card_id == cards@[0]
                            && chat.hands@[a].player_id == q2;
                    let b = choose|b: int|
                        0 <= b < chat.hands@.len() && chat.hands@[b].card_id == cards@[0]
                            && chat.hands@[b].player_id == q && chat.hands@[b].played_on_turn
                            == Some(turn);
                    assert(a == b);
                }
            }
        }
        return Choice::Ignored;
    }
    proof {
        let a = choose|a: int|
            0 <= a < chat.hands@.len() && chat.hands@[a].card_id == cards@[0] && chat.hands@[a].player_id
                == q && chat.hands@[a].played_on_turn == Some(turn);
        assert(chat.hands@[a].player_id <= chat.players);
    }
    let scored = q != AUTO_PLAYER;
    let nm = chat.members.len();
    assert(q <= nm);
    if (scored && chat.members[(q - 1) as usize].points == u64::MAX) || turn == u64::MAX {
        return Choice::Ended { error: ChatError::Limit };
    }
    let mut rows = mark_won_rows(&chat.hands, cards);
    proof {
        assert forall|a: int, b: int|
            0 <= a < rows@.len() && 0 <= b < rows@.len() && a != b implies rows@[a].card_id
            != rows@[b].card_id by {
            assert(chat.hands@[a].card_id != chat.hands@[b].card_id);
        }
        assert forall|a: int| 0 <= a < rows@.len() implies (#[trigger] rows@[a]).player_id
            <= chat.players && rows@[a].card_id < catalog.cards@.len() by {
            assert(chat.hands@[a].player_id <= chat.players);
            assert(chat.hands@[a].card_id < catalog.cards@.len());
        }
    }
    proof {
        assert forall|a: int| 0 <= a < rows@.len() implies (#[trigger] rows@[a]).player_id
            == chat.hands@[a].player_id && rows@[a].picked_on_turn == chat.hands@[a].picked_on_turn
            && rows@[a].played_on_turn == chat.hands@[a].played_on_turn && rows@[a].card_id
            == chat.hands@[a].card_id by {}
        chat::lemma_same_counts(rows@, chat.hands@, catalog.cards@);
        assert(rows_until(rows@, (turn + 1) as u64)) by {
            assert forall|a: int| 0 <= a < rows@.len() implies (#[trigger] rows@[a]).picked_on_turn
                <= turn + 1 && match rows@[a].played_on_turn {
                Some(t) => t <= turn + 1,
                None => true,
            } by {
                assert(chat.hands@[a].picked_on_turn <= turn);
            }
        }
        assert(rows_until(rows@, turn)) by {
            assert forall|a: int| 0 <= a < rows@.len() implies (#[trigger] rows@[a]).picked_on_turn
                <= turn && match rows@[a].played_on_turn {
                Some(t) => t <= turn,
                None => true,
            } by {
                assert(chat.hands@[a].picked_on_turn <= turn);
            }
        }
        chat::lemma_responses_later(rows@, turn, (turn + 1) as u64, catalog.cards@);
        assert forall|p: u64| 1 <= p <= chat.players implies #[trigger] held(rows@, p) + played_responses(
            rows@,
            p,
            (turn + 1) as u64,
            catalog.cards@,
        ) <= hand::HAND_SIZE by {
            assert(held(chat.hands@, p) + played_responses(chat.hands@, p, turn, catalog.cards@)
                <= hand::HAND_SIZE);
        }
    }
    std::mem::swap(&mut chat.hands, &mut rows);
    if scored {
        let i = (q - 1) as usize;
        let p = chat.members[i].points;
        chat.members[i].points = p + 1;
        proof {
            assert(chat.members@ =~= old(chat).members@.update(
                i as int,
                player::Model { points: (p + 1) as u64, ..old(chat).members@[i as int] },
            ));
        }
    }
    let ghost updated = chat.members@;
    proof {
        if scored {
            assert(updated == old(chat).members@.update(
                q - 1,
                player::Model {
                    points: (old(chat).members@[q - 1].points + 1) as u64,
                    ..old(chat).members@[q - 1]
                },
            ));
        } else {
            assert(updated == old(chat).members@);
        }
    }
    chat.turn = turn + 1;
    match chat.reset(catalog) {
        Ok(card) => Choice::Judged { winner: q, card },
        Err(error) => {
            std::mem::swap(&mut chat.hands, &mut rows);
            if scored {
                let i = (q - 1) as usize;
                let p = chat.members[i].points;
                chat.members[i].points = p - 1;
            }
            chat.turn = turn;
            proof {
                assert(chat.members@ =~= old(chat).members@);
            }
            Choice::Ended { error }
        },
    }
}

/// Handles the choice of `cards` by the sender, known as `telegram_id`, in
/// `chat`: the judge chooses the winning cards, another player plays one
/// card. Ignored when the game is over, the sender does not play, or a
/// player selects more than one card.
pub fn execute(chat: &mut chat::Model, catalog: &Catalog, telegram_id: i64, cards: &Vec<usize>) -> (r:
    Choice)
    requires
        catalog.wf(),
        old(chat).wf(catalog),
    ensures
        final(chat).wf(catalog),
        old(chat).end_date is Some || !player::has_player(old(chat), telegram_id) ==> r is Ignored
            && final(chat).same_as(old(chat)),
        old(chat).end_date is None && player::has_player(old(chat), telegram_id) ==> exists|i: int|
            0 <= i < old(chat).members@.len() && old(chat).members@[i].telegram_id == telegram_id && if old(
                chat,
            ).members@[i].turn == judge_slot(old(chat).turn as int, old(chat).players as int) {
                judge_outcome(old(chat), final(chat), *catalog, cards@, r)
            } else if cards@.len() == 1 {
                player_outcome(old(chat), final(chat), *catalog, old(chat).members@[i].id, cards@[0], r)
            } else {
                r is Ignored && final(chat).same_as(old(chat))
            },
{
    if chat.end_date.is_some() {
        return Choice::Ignored;
    }
    let i = match player::find(chat, telegram_id) {
        Some(i) => i,
        None => {
            return Choice::Ignored;
        },
    };
    if chat.members[i].is_my_turn(chat) {
        as_judge(chat, catalog, cards)
    } else if cards.len() == 1 {
        let id = chat.members[i].id;
        as_player(chat, catalog, id, cards[0])
    } else {
        Choice::Ignored
    }
}

} // verus!
