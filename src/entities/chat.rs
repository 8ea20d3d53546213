//! A game: its counters, its players, the cards dealt in it and the packs
//! enabled for it, with the round reset that deals a new round.
use vstd::prelude::*;
use crate::entities::card;
use crate::entities::hand;
use crate::entities::hand::{
    back_to_hand,
    cards_below,
    played_responses,
    distinct_cards,
    held,
    played_by,
    pool,
    rows_until,
    PickError,
    AUTO_PLAYER,
};
use crate::entities::pack::Catalog;
use crate::text::{decimal, push_decimal, push_str};
use crate::entities::player;
use crate::entities::player::{judge_slot, judge_slot_of};

verus! {

/// Players needed to play, the automated player included.
pub const QUORUM: u64 = 3;

/// Why a game could not be found, created, dealt or closed.
#[derive(Clone, Copy, Debug, PartialEq, Eq, Structural)]
pub enum ChatError {
    /// Games are not played in channels.
    Channel,
    /// Games are not played in private chats.
    Private,
    /// Nobody has scored.
    Empty,
    /// The draw ran out of cards.
    Pick(PickError),
    /// No prompt card was dealt for the round.
    NoBlackCard,
    /// Fewer than `QUORUM` players, the automated player included.
    NotEnoughPlayers,
    /// A counter of the game reached its largest value.
    Limit,
}

impl ChatError {
    /// Message shown for this error.
    pub fn message(&self) -> &'static str {
        match self {
            ChatError::Channel => "This bot doesn't works on channels",
            ChatError::Private => "This bot doesn't works on private chats",
            ChatError::Empty => "There seems to be no players in this game (this is probably a bug)",
            ChatError::Pick(e) => e.message(),
            ChatError::NoBlackCard => "No black card picked (this is a bug)",
            ChatError::NotEnoughPlayers => "Not enough players in the game",
            ChatError::Limit => "This game cannot go on any longer",
        }
    }
}

/// The kinds of conversation.
#[derive(Clone, Copy, Debug, PartialEq, Eq, Structural)]
pub enum ChatKind {
    Private,
    Group,
    Supergroup,
    Channel,
}

/// A game, with the tables that belong to it.
pub struct Model {
    pub id: u64,
    /// The conversation the game is played in.
    pub telegram_id: i64,
    /// The first player who joined.
    pub owner: Option<u64>,
    pub start_date: i64,
    /// Set when the game is closed.
    pub end_date: Option<i64>,
    /// Number of players, the automated player left out.
    pub players: u64,
    /// Current round; 0 until the first round is dealt.
    pub turn: u64,
    /// Whether the automated player takes part.
    pub rando_carlissian: bool,
    /// Number of response cards each player plays this round.
    pub pick: u64,
    /// The players, in order of joining.
    pub members: Vec<player::Model>,
    /// The cards dealt in this game.
    pub hands: Vec<hand::Model>,
    /// Ids of the enabled packs.
    pub packs: Vec<usize>,
}

/// Players counted for the quorum.
pub open spec fn effective_players(players: u64, rando: bool) -> int {
    players + if rando {
        1int
    } else {
        0int
    }
}

/// The rows that stay when `turn` is dealt again: response cards players
/// played on `turn` go back to their holders; every other card dealt or
/// played on `turn` (the prompt card, the cards the automated player played
/// at once, the cards dealt and still held) is taken back.
pub open spec fn rewind(hands: Seq<hand::Model>, turn: u64, cards: Seq<card::Model>) -> Seq<
    hand::Model,
>
    decreases hands.len(),
{
    if hands.len() == 0 {
        seq![]
    } else {
        let r = rewind(hands.drop_last(), turn, cards);
        let h = hands.last();
        if back_to_hand(h, turn, cards) {
            r.push(hand::Model { played_on_turn: None, ..h })
        } else if h.picked_on_turn == turn || h.played_on_turn == Some(turn) {
            r
        } else {
            r.push(h)
        }
    }
}

/// The last row of `hands` stays when `turn` is dealt again.
pub open spec fn last_stays(hands: Seq<hand::Model>, turn: u64, cards: Seq<card::Model>) -> bool {
    back_to_hand(hands.last(), turn, cards) || !(hands.last().picked_on_turn == turn
        || hands.last().played_on_turn == Some(turn))
}

/// Every row of `rewind(hands, turn, cards)` keeps the player and card of a
/// row of `hands`, no card twice, none of them is played on `turn`, and
/// none is of a later turn than the rows of `hands`.
pub proof fn lemma_rewind(hands: Seq<hand::Model>, turn: u64, cards: Seq<card::Model>)
    ensures
        forall|i: int|
            0 <= i < rewind(hands, turn, cards).len() ==> exists|j: int|
                0 <= j < hands.len() && hands[j].card_id == (#[trigger] rewind(
                    hands,
                    turn,
                    cards,
                )[i]).card_id && hands[j].player_id == rewind(hands, turn, cards)[i].player_id,
        distinct_cards(hands) ==> distinct_cards(rewind(hands, turn, cards)),
        forall|p: u64| #[trigger] played_by(rewind(hands, turn, cards), p, turn) == 0,
        forall|t: u64| rows_until(hands, t) ==> #[trigger] rows_until(rewind(hands, turn, cards), t),
    decreases hands.len(),
{
    if hands.len() > 0 {
        let s = hands.drop_last();
        lemma_rewind(s, turn, cards);
        let r = rewind(s, turn, cards);
        let h = hands.last();
        let q = rewind(hands, turn, cards);
        let pushed = last_stays(hands, turn, cards);
        assert(hands[hands.len() - 1] == h);
        if pushed {
            assert(q =~= r.push(q.last()));
            assert(q.last().card_id == h.card_id && q.last().player_id == h.player_id);
            assert(q.last().played_on_turn != Some(turn));
        } else {
            assert(q == r);
        }
        assert forall|i: int| 0 <= i < q.len() implies exists|j: int|
            0 <= j < hands.len() && hands[j].card_id == (#[trigger] q[i]).card_id
                && hands[j].player_id == q[i].player_id by {
            if i < r.len() {
                assert(q[i] == r[i]);
                let j = choose|j: int|
                    0 <= j < s.len() && s[j].card_id == r[i].card_id && s[j].player_id
                        == r[i].player_id;
                assert(hands[j] == s[j]);
            } else {
                assert(q[i] == q.last());
            }
        }
        if distinct_cards(hands) {
            assert(distinct_cards(s)) by {
                assert forall|a: int, b: int|
                    0 <= a < s.len() && 0 <= b < s.len() && a != b implies s[a].card_id
                    != s[b].card_id by {
                    assert(s[a] == hands[a]);
                    assert(s[b] == hands[b]);
                }
            }
            if pushed {
                assert forall|a: int, b: int|
                    0 <= a < q.len() && 0 <= b < q.len() && a != b implies q[a].card_id
                    != q[b].card_id by {
                    if a < r.len() && b < r.len() {
                        assert(q[a] == r[a]);
                        assert(q[b] == r[b]);
                    } else if a < r.len() {
                        assert(q[a] == r[a]);
                        let j = choose|j: int|
                            0 <= j < s.len() && s[j].card_id == r[a].card_id && s[j].player_id
                                == r[a].player_id;
                        assert(hands[j] == s[j]);
                    } else if b < r.len() {
                        assert(q[b] == r[b]);
                        let j = choose|j: int|
                            0 <= j < s.len() && s[j].card_id == r[b].card_id && s[j].player_id
                                == r[b].player_id;
                        assert(hands[j] == s[j]);
                    }
                }
            }
        }
        assert forall|p: u64| #[trigger] played_by(q, p, turn) == 0 by {
            assert(played_by(r, p, turn) == 0);
            if pushed {
                hand::lemma_played_push(r, q.last());
            }
        }
        assert forall|t: u64| rows_until(hands, t) implies #[trigger] rows_until(q, t) by {
            assert(rows_until(s, t)) by {
                assert forall|i: int| 0 <= i < s.len() implies (#[trigger] s[i]).picked_on_turn <= t
                    && match s[i].played_on_turn {
                    Some(x) => x <= t,
                    None => true,
                } by {
                    assert(s[i] == hands[i]);
                }
            }
            assert forall|i: int| 0 <= i < q.len() implies (#[trigger] q[i]).picked_on_turn <= t
                && match q[i].played_on_turn {
                Some(x) => x <= t,
                None => true,
            } by {
                assert(rows_until(r, t));
                if i < r.len() {
                    assert(q[i] == r[i]);
                    assert(r[i].picked_on_turn <= t);
                } else {
                    assert(q[i] == q.last());
                    assert(hands[hands.len() - 1].picked_on_turn <= t);
                }
            }
        }
    }
}

/// Relies on chrono's `Utc::now`: the current time, in seconds since the Unix
/// epoch. Nothing is known of its value.
#[verifier::external_body]
pub(crate) fn now() -> i64 {
    chrono::Utc::now().timestamp()
}

/// `games[i]` is the game being played in conversation `telegram_id`.
pub open spec fn live_game(games: Seq<Model>, telegram_id: i64, i: int) -> bool {
    0 <= i < games.len() && games[i].telegram_id == telegram_id && games[i].end_date is None
}

/// What looking up the game of conversation `telegram_id` in `before`
/// does, opening one at time `now` when there is none.
pub open spec fn opened(
    before: Seq<Model>,
    after: Seq<Model>,
    catalog: Catalog,
    telegram_id: i64,
    kind: ChatKind,
    now: i64,
    r: Result<usize, ChatError>,
) -> bool {
    &&& ((exists|i: int| live_game(before, telegram_id, i)) ==> r is Ok && after
        == before && live_game(before, telegram_id, r->Ok_0 as int) && forall|j: int|
        0 <= j < r->Ok_0 ==> !live_game(before, telegram_id, j))
    &&& (!(exists|i: int| live_game(before, telegram_id, i)) ==> {
        &&& kind == ChatKind::Channel ==> r == Err::<usize, ChatError>(ChatError::Channel)
            && after == before
        &&& kind == ChatKind::Private ==> r == Err::<usize, ChatError>(ChatError::Private)
            && after == before
        &&& kind != ChatKind::Channel && kind != ChatKind::Private ==> r is Ok ==> {
            let g = after[r->Ok_0 as int];
            &&& r->Ok_0 == before.len()
            &&& after.len() == before.len() + 1
            &&& after.subrange(0, before.len() as int) == before
            &&& g.id == before.len() + 1
            &&& g.telegram_id == telegram_id
            &&& g.owner is None
            &&& g.start_date == now
            &&& g.end_date is None
            &&& g.players == 0
            &&& g.turn == 0
            &&& !g.rando_carlissian
            &&& g.members@.len() == 0
            &&& g.hands@.len() == 0
            &&& g.packs@ == Seq::new(catalog.packs@.len(), |i: int| i as usize)
            &&& g.wf(&catalog)
        }
        &&& kind != ChatKind::Channel && kind != ChatKind::Private ==> (r is Err <==> before.len()
            >= u64::MAX) && (r is Err ==> r == Err::<usize, ChatError>(ChatError::Limit) && after
            == before)
    })
}

/// Finds the game being played in conversation `telegram_id` (the first
/// one, should there be several), or opens one at time `now`, with every
/// pack enabled. Games are not played in channels
/// or private chats. Returns the game's position.
pub fn find_or_insert_at(
    games: &mut Vec<Model>,
    catalog: &Catalog,
    telegram_id: i64,
    kind: ChatKind,
    now: i64,
) -> (r: Result<usize, ChatError>)
    ensures
        opened(old(games)@, final(games)@, *catalog, telegram_id, kind, now, r),
{
    let mut i: usize = 0;
    while i < games.len()
        invariant
            i <= games@.len(),
            games@ == old(games)@,
            forall|k: int| 0 <= k < i ==> !live_game(games@, telegram_id, k),
        decreases games@.len() - i,
    {
        if games[i].telegram_id == telegram_id && games[i].end_date.is_none() {
            let r = Ok(i);
            proof {
                assert(live_game(old(games)@, telegram_id, i as int));
                assert(opened(old(games)@, games@, *catalog, telegram_id, kind, now, r));
            }
            return r;
        }
        i = i + 1;
    }
    match kind {
        ChatKind::Channel => {
            return Err(ChatError::Channel);
        },
        ChatKind::Private => {
            return Err(ChatError::Private);
        },
        _ => {},
    }
    let n = games.len();
    if n as u64 >= u64::MAX {
        return Err(ChatError::Limit);
    }
    games.push(
        Model {
            id: n as u64 + 1,
            telegram_id,
            owner: None,
            start_date: now,
            end_date: None,
            players: 0,
            turn: 0,
            rando_carlissian: false,
            pick: 1,
            members: Vec::new(),
            hands: Vec::new(),
            packs: crate::entities::chat_pack::init(catalog),
        },
    );
    proof {
        assert(games@.subrange(0, n as int) =~= old(games)@);
    }
    Ok(n)
}

/// Finds the game being played in conversation `telegram_id`, or opens one
/// now, as `find_or_insert_at` does.
pub fn find_or_insert(games: &mut Vec<Model>, catalog: &Catalog, telegram_id: i64, kind: ChatKind) -> (r:
    Result<usize, ChatError>)
    ensures
        exists|now: i64| #[trigger] opened(old(games)@, final(games)@, *catalog, telegram_id, kind, now, r),
{
    let now = now();
    let r = find_or_insert_at(games, catalog, telegram_id, kind, now);
    assert(opened(old(games)@, games@, *catalog, telegram_id, kind, now, r));
    r
}

/// Position of the game with id `id`.
pub fn find_by_id(games: &Vec<Model>, id: u64) -> (r: Option<usize>)
    ensures
        r is Some ==> r->Some_0 < games@.len() && games@[r->Some_0 as int].id == id,
        r is None ==> forall|i: int| 0 <= i < games@.len() ==> games@[i].id != id,
{
    let mut i: usize = 0;
    while i < games.len()
        invariant
            i <= games@.len(),
            forall|k: int| 0 <= k < i ==> games@[k].id != id,
        decreases games@.len() - i,
    {
        if games[i].id == id {
            return Some(i);
        }
        i = i + 1;
    }
    None
}

/// Number of winning cards among the rows of `player`.
pub fn won_count(hands: &Vec<hand::Model>, player: u64) -> (r: u64)
    ensures
        r == won_by(hands@, player),
{
    let mut r: u64 = 0;
    let mut i: usize = 0;
    while i < hands.len()
        invariant
            i <= hands@.len(),
            r == won_by(hands@.subrange(0, i as int), player),
            r <= i,
        decreases hands@.len() - i,
    {
        assert(hands@.subrange(0, i + 1).drop_last() =~= hands@.subrange(0, i as int));
        if hands[i].player_id == player && hands[i].won {
            r = r + 1;
        }
        i = i + 1;
    }
    assert(hands@.subrange(0, i as int) =~= hands@);
    r
}

/// The rows of `hands` as `rewind` leaves them.
pub fn rewind_hands(hands: &Vec<hand::Model>, turn: u64, catalog: &Catalog) -> (r: Vec<hand::Model>)
    requires
        cards_below(hands@, catalog.cards@.len() as int),
    ensures
        r@ == rewind(hands@, turn, catalog.cards@),
{
    let mut r: Vec<hand::Model> = Vec::new();
    let mut i: usize = 0;
    while i < hands.len()
        invariant
            i <= hands@.len(),
            cards_below(hands@, catalog.cards@.len() as int),
            r@ == rewind(hands@.subrange(0, i as int), turn, catalog.cards@),
        decreases hands@.len() - i,
    {
        assert(hands@.subrange(0, i + 1).drop_last() =~= hands@.subrange(0, i as int));
        assert(hands@.subrange(0, i + 1).last() == hands@[i as int]);
        let h = hands[i];
        assert(h.card_id < catalog.cards@.len());
        let back = h.played_on_turn == Some(turn) && h.player_id != AUTO_PLAYER
            && catalog.cards[h.card_id].color == card::Color::White;
        if back {
            r.push(hand::Model { played_on_turn: None, ..h });
        } else if h.picked_on_turn == turn || h.played_on_turn == Some(turn) {
        } else {
            r.push(h);
        }
        i = i + 1;
    }
    assert(hands@.subrange(0, i as int) =~= hands@);
    r
}

/// After a rewind, a player holds at most the cards they held and the
/// response cards they played on `turn`, and nobody has played on `turn`.
pub proof fn lemma_rewind_held(hands: Seq<hand::Model>, turn: u64, cards: Seq<card::Model>)
    ensures
        forall|p: u64|
            #[trigger] held(rewind(hands, turn, cards), p) <= held(hands, p) + played_responses(
                hands,
                p,
                turn,
                cards,
            ),
        forall|p: u64| #[trigger] played_responses(rewind(hands, turn, cards), p, turn, cards) == 0,
    decreases hands.len(),
{
    if hands.len() > 0 {
        let s = hands.drop_last();
        lemma_rewind_held(s, turn, cards);
        let r = rewind(s, turn, cards);
        let q = rewind(hands, turn, cards);
        if last_stays(hands, turn, cards) {
            let x = q.last();
            assert(q =~= r.push(x));
            hand::lemma_held_push(r, x);
            hand::lemma_responses_push(r, x, cards);
        }
        assert forall|p: u64| #[trigger] held(q, p) <= held(hands, p) + played_responses(
            hands,
            p,
            turn,
            cards,
        ) by {
            assert(held(r, p) <= held(s, p) + played_responses(s, p, turn, cards));
        }
        assert forall|p: u64| #[trigger] played_responses(q, p, turn, cards) == 0 by {
            assert(played_responses(r, p, turn, cards) == 0);
        }
    }
}

/// Rows added after `before` that are no response card played on `turn`
/// leave the count of such cards as it was.
pub proof fn lemma_responses_prefix(
    before: Seq<hand::Model>,
    after: Seq<hand::Model>,
    turn: u64,
    cards: Seq<card::Model>,
)
    requires
        before.len() <= after.len(),
        after.subrange(0, before.len() as int) == before,
        forall|i: int| before.len() <= i < after.len() ==> !back_to_hand(#[trigger] after[i], turn, cards),
    ensures
        forall|p: u64| #[trigger] played_responses(after, p, turn, cards) == played_responses(
            before,
            p,
            turn,
            cards,
        ),
    decreases after.len(),
{
    if after.len() > before.len() {
        let a = after.drop_last();
        assert(a.subrange(0, before.len() as int) =~= before);
        assert forall|i: int| before.len() <= i < a.len() implies !back_to_hand(#[trigger] a[i], turn, cards) by {
            assert(a[i] == after[i]);
        }
        lemma_responses_prefix(before, a, turn, cards);
        assert(after[after.len() - 1] == after.last());
        assert forall|p: u64| #[trigger] played_responses(after, p, turn, cards) == played_responses(
            before,
            p,
            turn,
            cards,
        ) by {
            assert(played_responses(a, p, turn, cards) == played_responses(before, p, turn, cards));
        }
    } else {
        assert(after =~= before);
    }
}

/// With every row dealt and played by `turn`, nobody has played on a later
/// turn.
pub proof fn lemma_responses_later(hands: Seq<hand::Model>, turn: u64, later: u64, cards: Seq<card::Model>)
    requires
        rows_until(hands, turn),
        turn < later,
    ensures
        forall|p: u64| #[trigger] played_responses(hands, p, later, cards) == 0,
    decreases hands.len(),
{
    if hands.len() > 0 {
        let s = hands.drop_last();
        assert(rows_until(s, turn)) by {
            assert forall|i: int| 0 <= i < s.len() implies (#[trigger] s[i]).picked_on_turn <= turn
                && match s[i].played_on_turn {
                Some(t) => t <= turn,
                None => true,
            } by {
                assert(s[i] == hands[i]);
            }
        }
        lemma_responses_later(s, turn, later, cards);
        assert(hands[hands.len() - 1] == hands.last());
        assert forall|p: u64| #[trigger] played_responses(hands, p, later, cards) == 0 by {
            assert(played_responses(s, p, later, cards) == 0);
        }
    }
}

/// Rows of players numbered above `n` are none when every row is of a player
/// up to `n`.
pub proof fn lemma_no_rows_of(hands: Seq<hand::Model>, n: u64, p: u64, turn: u64, cards: Seq<card::Model>)
    requires
        forall|i: int| 0 <= i < hands.len() ==> (#[trigger] hands[i]).player_id <= n,
        p > n,
    ensures
        held(hands, p) == 0,
        played_responses(hands, p, turn, cards) == 0,
    decreases hands.len(),
{
    if hands.len() > 0 {
        let s = hands.drop_last();
        assert forall|i: int| 0 <= i < s.len() implies (#[trigger] s[i]).player_id <= n by {
            assert(s[i] == hands[i]);
        }
        lemma_no_rows_of(s, n, p, turn, cards);
        assert(hands[hands.len() - 1] == hands.last());
    }
}

/// Rows that differ only in what the counts do not read give the same
/// counts.
pub proof fn lemma_same_counts(a: Seq<hand::Model>, b: Seq<hand::Model>, cards: Seq<card::Model>)
    requires
        a.len() == b.len(),
        forall|i: int|
            0 <= i < a.len() ==> (#[trigger] a[i]).player_id == b[i].player_id && a[i].picked_on_turn
                == b[i].picked_on_turn && a[i].played_on_turn == b[i].played_on_turn && a[i].card_id
                == b[i].card_id,
    ensures
        forall|p: u64| #[trigger] held(a, p) == held(b, p),
        forall|p: u64, t: u64| #[trigger] played_responses(a, p, t, cards) == played_responses(b, p, t, cards),
        forall|p: u64, t: u64| #[trigger] played_by(a, p, t) == played_by(b, p, t),
    decreases a.len(),
{
    if a.len() > 0 {
        let a2 = a.drop_last();
        let b2 = b.drop_last();
        assert forall|i: int| 0 <= i < a2.len() implies (#[trigger] a2[i]).player_id == b2[i].player_id
            && a2[i].picked_on_turn == b2[i].picked_on_turn && a2[i].played_on_turn == b2[i].played_on_turn
            && a2[i].card_id == b2[i].card_id by {
            assert(a2[i] == a[i]);
            assert(b2[i] == b[i]);
        }
        lemma_same_counts(a2, b2, cards);
        assert(a[a.len() - 1] == a.last());
        assert(b[b.len() - 1] == b.last());
        assert forall|p: u64| #[trigger] held(a, p) == held(b, p) by {
            assert(held(a2, p) == held(b2, p));
        }
        assert forall|p: u64, t: u64| #[trigger] played_responses(a, p, t, cards) == played_responses(
            b,
            p,
            t,
            cards,
        ) by {
            assert(played_responses(a2, p, t, cards) == played_responses(b2, p, t, cards));
        }
        assert forall|p: u64, t: u64| #[trigger] played_by(a, p, t) == played_by(b, p, t) by {
            assert(played_by(a2, p, t) == played_by(b2, p, t));
        }
    }
}

/// Playing a held response card moves it from its holder's hand to the
/// response cards they played on `turn`.
pub proof fn lemma_play_counts(h: Seq<hand::Model>, i: int, x: hand::Model, turn: u64, cards: Seq<card::Model>)
    requires
        0 <= i < h.len(),
        h[i].played_on_turn is None,
        x.player_id == h[i].player_id,
        back_to_hand(x, turn, cards),
    ensures
        forall|p: u64|
            #[trigger] played_responses(h.update(i, x), p, turn, cards) == played_responses(h, p, turn, cards)
                + (if p == x.player_id {
                1nat
            } else {
                0nat
            }),
        forall|p: u64|
            #[trigger] held(h.update(i, x), p) + (if p == x.player_id {
                1nat
            } else {
                0nat
            }) == held(h, p),
    decreases h.len(),
{
    let u = h.update(i, x);
    if i == h.len() - 1 {
        assert(u.drop_last() =~= h.drop_last());
        assert(u.last() == x);
        assert(h.last() == h[i]);
    } else {
        lemma_play_counts(h.drop_last(), i, x, turn, cards);
        assert(u.drop_last() =~= h.drop_last().update(i, x));
        assert(u.last() == h.last());
        assert forall|p: u64| #[trigger] played_responses(u, p, turn, cards) == played_responses(
            h,
            p,
            turn,
            cards,
        ) + (if p == x.player_id {
            1nat
        } else {
            0nat
        }) by {
            assert(played_responses(h.drop_last().update(i, x), p, turn, cards) == played_responses(
                h.drop_last(),
                p,
                turn,
                cards,
            ) + (if p == x.player_id {
                1nat
            } else {
                0nat
            }));
        }
        assert forall|p: u64|
            #[trigger] held(u, p) + (if p == x.player_id {
                1nat
            } else {
                0nat
            }) == held(h, p) by {
            assert(held(h.drop_last().update(i, x), p) + (if p == x.player_id {
                1nat
            } else {
                0nat
            }) == held(h.drop_last(), p));
        }
    }
}

/// The number of cards a draw leaves a player with, from `n` held before.
pub open spec fn topped_up(n: nat) -> nat {
    if n < hand::HAND_SIZE {
        hand::HAND_SIZE as nat
    } else {
        n
    }
}

/// No card is dealt twice in a game: a well-formed game, which every
/// operation of the library keeps well-formed, has at most one row for each
/// card.
pub proof fn lemma_no_duplicate_deal(chat: &Model, catalog: &Catalog, i: int, j: int)
    requires
        chat.wf(catalog),
        0 <= i < chat.hands@.len(),
        0 <= j < chat.hands@.len(),
        i != j,
    ensures
        chat.hands@[i].card_id != chat.hands@[j].card_id,
{
}

/// No player holds more than ten cards: a well-formed game, which every
/// operation of the library keeps well-formed, bounds every player's hand.
pub proof fn lemma_hand_size_bound(chat: &Model, catalog: &Catalog, p: u64)
    requires
        chat.wf(catalog),
        1 <= p <= chat.players,
    ensures
        held(chat.hands@, p) <= hand::HAND_SIZE,
{
}

/// A card that can be dealt after the rows `longer` is in the pool of
/// `shorter`, when `shorter` is the start of `longer`.
pub proof fn lemma_pool_prefix(
    shorter: Seq<hand::Model>,
    longer: Seq<hand::Model>,
    packs: Seq<usize>,
    cards: Seq<card::Model>,
    color: card::Color,
    c: usize,
)
    requires
        shorter.len() <= longer.len(),
        longer.subrange(0, shorter.len() as int) == shorter,
        cards.len() <= usize::MAX,
        hand::eligible(longer, packs, cards, color, c as int),
    ensures
        pool(shorter, packs, cards, color, cards.len()).contains(c),
{
    assert(!hand::dealt(shorter, c as int)) by {
        if hand::dealt(shorter, c as int) {
            let j = choose|j: int| 0 <= j < shorter.len() && shorter[j].card_id == c;
            assert(longer[j] == longer.subrange(0, shorter.len() as int)[j]);
        }
    }
    lemma_pool_contains(shorter, packs, cards, color, cards.len(), c);
}

/// Enough cards are left to deal round `turn` again among `players`
/// players: a prompt card, and, whichever prompt card is drawn, eleven
/// response cards per player plus the cards the automated player plays.
pub open spec fn enough_cards(
    hands: Seq<hand::Model>,
    packs: Seq<usize>,
    turn: u64,
    players: u64,
    rando: bool,
    catalog: Catalog,
) -> bool {
    let base = rewind(hands, turn, catalog.cards@);
    let blacks = hand::full_pool(base, packs, catalog, card::Color::Black);
    let whites = hand::full_pool(base, packs, catalog, card::Color::White);
    &&& blacks.len() > 0
    &&& forall|c: usize|
        blacks.contains(c) ==> whites.len() >= 11 * players + if rando {
            card::pick_count(catalog.cards@[c as int].pick) as int
        } else {
            0
        }
}

/// Rows added after `before` take at most one card each out of a pool.
pub proof fn lemma_pool_shrinks(
    before: Seq<hand::Model>,
    after: Seq<hand::Model>,
    packs: Seq<usize>,
    cards: Seq<card::Model>,
    color: card::Color,
)
    requires
        before.len() <= after.len(),
        after.subrange(0, before.len() as int) == before,
        cards.len() <= usize::MAX,
    ensures
        pool(before, packs, cards, color, cards.len()).len() <= pool(after, packs, cards, color, cards.len()).len()
            + (after.len() - before.len()),
{
    broadcast use vstd::seq_lib::group_seq_properties, vstd::set::group_set_axioms;
    let n = cards.len();
    let pb = pool(before, packs, cards, color, n);
    let pa = pool(after, packs, cards, color, n);
    let k = after.len() - before.len();
    let added = Seq::new(k as nat, |i: int| after[before.len() + i].card_id);
    hand::lemma_pool_sorted(before, packs, cards, color, n);
    hand::lemma_pool_sorted(after, packs, cards, color, n);
    assert(pb.no_duplicates()) by {
        assert forall|i: int, j: int| 0 <= i < pb.len() && 0 <= j < pb.len() && i != j implies pb[i] != pb[j] by {
            if i < j {
                assert(pb[i] < pb[j]);
            } else {
                assert(pb[j] < pb[i]);
            }
        }
    }
    pb.unique_seq_to_set();
    pa.lemma_cardinality_of_set();
    added.lemma_cardinality_of_set();
    assert(pb.to_set().subset_of(pa.to_set().union(added.to_set()))) by {
        assert forall|c: usize| pb.to_set().contains(c) implies pa.to_set().union(added.to_set()).contains(c) by {
            let i = choose|i: int| 0 <= i < pb.len() && pb[i] == c;
            assert(hand::eligible(before, packs, cards, color, c as int));
            if hand::dealt(after, c as int) {
                let j = choose|j: int| 0 <= j < after.len() && after[j].card_id == c;
                if j < before.len() {
                    assert(after[j] == after.subrange(0, before.len() as int)[j]);
                } else {
                    assert(added[j - before.len()] == c);
                    assert(added.to_set().contains(c));
                }
            } else {
                lemma_pool_contains(after, packs, cards, color, n, c);
                assert(pa.to_set().contains(c));
            }
        }
    }
    vstd::set_lib::lemma_len_union(pa.to_set(), added.to_set());
    vstd::set_lib::lemma_len_subset(pb.to_set(), pa.to_set().union(added.to_set()));
}

/// Rows added after `before` whose cards are of another colour leave a
/// pool as it was.
pub proof fn lemma_pool_other_color(
    before: Seq<hand::Model>,
    after: Seq<hand::Model>,
    packs: Seq<usize>,
    cards: Seq<card::Model>,
    color: card::Color,
    n: nat,
)
    requires
        before.len() <= after.len(),
        after.subrange(0, before.len() as int) == before,
        forall|i: int|
            before.len() <= i < after.len() ==> (#[trigger] after[i]).card_id < cards.len()
                && cards[after[i].card_id as int].color != color,
    ensures
        pool(after, packs, cards, color, n) == pool(before, packs, cards, color, n),
    decreases n,
{
    if n > 0 {
        lemma_pool_other_color(before, after, packs, cards, color, (n - 1) as nat);
        let c = n - 1;
        if hand::eligible(before, packs, cards, color, c) {
            assert(!hand::dealt(after, c)) by {
                if hand::dealt(after, c) {
                    let j = choose|j: int| 0 <= j < after.len() && after[j].card_id == c;
                    if j < before.len() {
                        assert(after[j] == after.subrange(0, before.len() as int)[j]);
                    }
                }
            }
        }
        if hand::eligible(after, packs, cards, color, c) {
            assert(!hand::dealt(before, c)) by {
                if hand::dealt(before, c) {
                    let j = choose|j: int| 0 <= j < before.len() && before[j].card_id == c;
                    assert(after[j] == after.subrange(0, before.len() as int)[j]);
                }
            }
        }
    }
}

/// An eligible card below `n` is in the pool of the first `n` cards.
pub proof fn lemma_pool_contains(
    hands: Seq<hand::Model>,
    packs: Seq<usize>,
    cards: Seq<card::Model>,
    color: card::Color,
    n: nat,
    c: usize,
)
    requires
        c < n,
        n <= usize::MAX,
        hand::eligible(hands, packs, cards, color, c as int),
    ensures
        pool(hands, packs, cards, color, n).contains(c),
    decreases n,
{
    let p = pool(hands, packs, cards, color, (n - 1) as nat);
    if c == n - 1 {
        assert(pool(hands, packs, cards, color, n) == p.push(c));
        assert(pool(hands, packs, cards, color, n)[p.len() as int] == c);
    } else {
        lemma_pool_contains(hands, packs, cards, color, (n - 1) as nat, c);
        let j = choose|j: int| 0 <= j < p.len() && p[j] == c;
        if hand::eligible(hands, packs, cards, color, n - 1) {
            assert(pool(hands, packs, cards, color, n)[j] == c);
        }
    }
}

/// Dealing round `turn` again among `players` players turns the rows
/// `before` into `after`, with `c` as prompt card and `pick` as the number of
/// cards to play: the rows of `turn` are rewound, the judge holds the prompt
/// card, dealt from the enabled packs and played at once, every player holds
/// a full hand, nobody else has played, and the automated player, when it
/// takes part, has played `pick` cards and holds no new card. Every row
/// added is of this turn and the prompt card is the only prompt card among
/// them.
pub open spec fn dealt_round(
    before: Seq<hand::Model>,
    packs: Seq<usize>,
    turn: u64,
    players: u64,
    rando: bool,
    catalog: Catalog,
    c: usize,
    after: Seq<hand::Model>,
    pick: u64,
) -> bool {
    let base = rewind(before, turn, catalog.cards@);
    let judge = judge_slot(turn as int, players as int) as u64;
    &&& hand::full_pool(base, packs, catalog, card::Color::Black).contains(c)
    &&& pick == card::pick_count(catalog.cards@[c as int].pick)
    &&& base.len() <= after.len()
    &&& after.subrange(0, base.len() as int) == base
    &&& after.contains(hand::dealt_row(judge, c, turn, true))
    &&& forall|i: int|
        base.len() <= i < after.len() ==> (#[trigger] after[i]).picked_on_turn == turn && (
        after[i].card_id == c || catalog.cards@[after[i].card_id as int].color
            == card::Color::White)
    &&& forall|i: int|
        base.len() <= i < after.len() ==> (#[trigger] after[i]).played_on_turn is None
            || after[i].played_on_turn == Some(turn)
    &&& forall|i: int|
        base.len() <= i < after.len() && (#[trigger] after[i]).played_on_turn is Some ==> after[i].player_id
            == AUTO_PLAYER || after[i].card_id == c
    &&& forall|p: u64|
        1 <= p <= players ==> #[trigger] held(after, p) == topped_up(held(base, p))
    &&& held(after, AUTO_PLAYER) == held(base, AUTO_PLAYER)
    &&& forall|p: u64|
        1 <= p <= players ==> #[trigger] played_by(after, p, turn) == if p == judge {
            1nat
        } else {
            0nat
        }
    &&& played_by(after, AUTO_PLAYER, turn) == if rando {
        pick as nat
    } else {
        0nat
    }
}

/// Number of winning cards among the rows of `player`.
pub open spec fn won_by(hands: Seq<hand::Model>, player: u64) -> nat
    decreases hands.len(),
{
    if hands.len() == 0 {
        0
    } else {
        won_by(hands.drop_last(), player) + if hands.last().player_id == player
            && hands.last().won {
            1nat
        } else {
            0nat
        }
    }
}

/// Ids of the players with `top` points, in order.
pub open spec fn tied(members: Seq<player::Model>, top: u64) -> Seq<u64>
    decreases members.len(),
{
    if members.len() == 0 {
        seq![]
    } else {
        let r = tied(members.drop_last(), top);
        if members.last().points == top {
            r.push(members.last().id)
        } else {
            r
        }
    }
}

/// Name shown for the automated player.
pub const RANDO_CARLISSIAN: &'static str = "Rando Carlissian";

/// `parts` joined with `sep` between them.
pub open spec fn joined(parts: Seq<Seq<char>>, sep: Seq<char>) -> Seq<char>
    decreases parts.len(),
{
    if parts.len() == 0 {
        seq![]
    } else if parts.len() == 1 {
        parts[0]
    } else {
        joined(parts.drop_last(), sep) + sep + parts.last()
    }
}

/// The outcome of closing a game.
#[derive(Debug)]
pub struct CloseReport {
    /// Rounds played.
    pub turns: u64,
    /// Ids of the players with the most points; `AUTO_PLAYER` for the
    /// automated player.
    pub winners: Vec<u64>,
    /// Their points.
    pub points: u64,
}

impl Model {
    /// Points of the automated player: its winning cards, when it takes part.
    pub open spec fn auto_score(&self) -> nat {
        if self.rando_carlissian {
            won_by(self.hands@, AUTO_PLAYER)
        } else {
            0
        }
    }

    /// `top` is the highest score of the game, and it is positive.
    pub open spec fn is_top(&self, top: u64) -> bool {
        &&& top > 0
        &&& forall|i: int| 0 <= i < self.members@.len() ==> (#[trigger] self.members@[i]).points <= top
        &&& self.auto_score() <= top
        &&& (exists|i: int| 0 <= i < self.members@.len() && self.members@[i].points == top)
            || self.auto_score() == top
    }

    /// Everybody with `top` points: the players in order, then the automated
    /// player.
    pub open spec fn winners(&self, top: u64) -> Seq<u64> {
        tied(self.members@, top) + if self.auto_score() == top {
            seq![AUTO_PLAYER]
        } else {
            seq![]
        }
    }

    /// Nobody has scored.
    pub open spec fn scoreless(&self) -> bool {
        &&& forall|i: int| 0 <= i < self.members@.len() ==> (#[trigger] self.members@[i]).points == 0
        &&& self.auto_score() == 0
    }

    /// What closing the game at time `now` owes: nothing changes when nobody
    /// has scored; otherwise the game ends at `now` and the report names
    /// everybody with the highest score, that score, and the rounds played.
    pub open spec fn closed(&self, now: i64, r: Result<CloseReport, ChatError>, after: &Model) -> bool {
        &&& (r is Err) == self.scoreless()
        &&& r is Err ==> r == Err::<CloseReport, ChatError>(ChatError::Empty) && after.same_as(self)
            && after.end_date == self.end_date
        &&& r is Ok ==> {
            &&& self.is_top(r->Ok_0.points)
            &&& r->Ok_0.winners@ == self.winners(r->Ok_0.points)
            &&& r->Ok_0.turns == if self.turn > 0 {
                self.turn - 1
            } else {
                0
            }
            &&& after.end_date == Some(now)
            &&& after.same_as_but_end(self)
        }
    }

    /// The same game but for its end time.
    pub open spec fn same_as_but_end(&self, other: &Model) -> bool {
        &&& self.id == other.id
        &&& self.telegram_id == other.telegram_id
        &&& self.owner == other.owner
        &&& self.start_date == other.start_date
        &&& self.players == other.players
        &&& self.turn == other.turn
        &&& self.rando_carlissian == other.rando_carlissian
        &&& self.members@ == other.members@
        &&& self.packs@ == other.packs@
        &&& self.hands@ == other.hands@
        &&& self.pick == other.pick
    }

    /// How the player `id` is named in messages: a link to the player, or
    /// the automated player's name.
    pub open spec fn name_of(&self, id: u64) -> Seq<char> {
        if id == AUTO_PLAYER {
            RANDO_CARLISSIAN@
        } else {
            player::link_of(self.members@[id - 1].name@, self.members@[id - 1].telegram_id)
        }
    }

    /// Names of the players `ids`.
    pub open spec fn names_of(&self, ids: Seq<u64>) -> Seq<Seq<char>> {
        Seq::new(ids.len(), |i: int| self.name_of(ids[i]))
    }

    /// Name of the player `id` in messages.
    pub fn name(&self, id: u64) -> (r: String)
        requires
            self.wf_members(),
            id <= self.players,
        ensures
            r@ == self.name_of(id),
    {
        if id == AUTO_PLAYER {
            let mut s = String::new();
            push_str(&mut s, RANDO_CARLISSIAN);
            assert(s@ =~= RANDO_CARLISSIAN@);
            s
        } else {
            let n = self.members.len();
            assert(id - 1 < n);
            self.members[(id - 1) as usize].tg_link()
        }
    }

    /// The players are numbered 1, 2, ... in order.
    pub open spec fn wf_members(&self) -> bool {
        &&& self.members@.len() == self.players
        &&& forall|i: int|
            0 <= i < self.members@.len() ==> (#[trigger] self.members@[i]).id == i + 1
                && self.members@[i].turn == i + 1
    }

    /// The text announcing the outcome of a close.
    pub open spec fn close_text(&self, report: &CloseReport) -> Seq<char> {
        let names = self.names_of(report.winners@);
        "After "@ + decimal(report.turns as nat) + " turns the winner"@ + (if names.len() > 1 {
            "s are"@
        } else {
            " is"@
        }) + " "@ + joined(names, " and "@) + " with "@ + decimal(report.points as nat)
            + " points"@ + if report.winners@.len() == 1 && report.winners@[0] == AUTO_PLAYER {
            "\n\n*SHAME ON YOU!!!*"@
        } else {
            seq![]
        }
    }

    /// Announces the outcome of a close.
    pub fn close_message(&self, report: &CloseReport) -> (r: String)
        requires
            self.wf_members(),
            forall|i: int| 0 <= i < report.winners@.len() ==> #[trigger] report.winners@[i] <= self.players,
        ensures
            r@ == self.close_text(report),
    {
        let mut s = String::new();
        push_str(&mut s, "After ");
        push_decimal(&mut s, report.turns);
        push_str(&mut s, " turns the winner");
        if report.winners.len() > 1 {
            push_str(&mut s, "s are");
        } else {
            push_str(&mut s, " is");
        }
        push_str(&mut s, " ");
        let ghost head = s@;
        let mut i: usize = 0;
        while i < report.winners.len()
            invariant
                self.wf_members(),
                forall|k: int| 0 <= k < report.winners@.len() ==> #[trigger] report.winners@[k] <= self.players,
                i <= report.winners@.len(),
                s@ == head + joined(self.names_of(report.winners@.subrange(0, i as int)), " and "@),
            decreases report.winners@.len() - i,
        {
            if i > 0 {
                push_str(&mut s, " and ");
            }
            let n = self.name(report.winners[i]);
            push_str(&mut s, n.as_str());
            proof {
                let part = self.names_of(report.winners@.subrange(0, i + 1));
                assert(part.drop_last() =~= self.names_of(report.winners@.subrange(0, i as int)));
                assert(part.last() == n@);
                if i == 0 {
                    assert(part.len() == 1);
                    assert(s@ =~= head + joined(part, " and "@));
                } else {
                    assert(s@ =~= head + joined(part, " and "@));
                }
            }
            i = i + 1;
        }
        assert(report.winners@.subrange(0, i as int) =~= report.winners@);
        push_str(&mut s, " with ");
        push_decimal(&mut s, report.points);
        push_str(&mut s, " points");
        if report.winners.len() == 1 && report.winners[0] == AUTO_PLAYER {
            push_str(&mut s, "\n\n*SHAME ON YOU!!!*");
        }
        proof {
            let names = self.names_of(report.winners@);
            assert(names.len() == report.winners@.len());
        }
        assert(s@ =~= self.close_text(report));
        s
    }

    /// The text announcing a round with prompt card `c`.
    pub open spec fn round_text(&self, catalog: Catalog, c: usize) -> Seq<char> {
        let judge = judge_slot(self.turn as int, self.players as int) as u64;
        "Turn "@ + decimal(self.turn as nat) + "\n\n"@ + card::descr_of(
            catalog.cards@[c as int].text@,
            catalog.cards@[c as int].pick,
        ) + "\n\nJudge is "@ + self.name_of(judge)
    }

    /// Announces the current round, whose prompt card is `c`.
    pub fn round_message(&self, catalog: &Catalog, c: usize) -> (r: String)
        requires
            self.wf_members(),
            self.players > 0,
            c < catalog.cards@.len(),
        ensures
            r@ == self.round_text(*catalog, c),
    {
        let judge = self.next_player_turn();
        let mut s = String::new();
        push_str(&mut s, "Turn ");
        push_decimal(&mut s, self.turn);
        push_str(&mut s, "\n\n");
        let d = catalog.cards[c].descr();
        push_str(&mut s, d.as_str());
        push_str(&mut s, "\n\nJudge is ");
        let n = self.name(judge);
        push_str(&mut s, n.as_str());
        assert(s@ =~= self.round_text(*catalog, c));
        s
    }

    /// Closes the game at time `now`: reports everybody with the highest
    /// score, ties included. Fails, changing nothing, when nobody has scored.
    pub fn close(&mut self, now: i64) -> (r: Result<CloseReport, ChatError>)
        ensures
            old(self).closed(now, r, final(self)),
    {
        let mut top: u64 = 0;
        let mut i: usize = 0;
        while i < self.members.len()
            invariant
                i <= self.members@.len(),
                forall|k: int| 0 <= k < i ==> (#[trigger] self.members@[k]).points <= top,
                top == 0 || exists|k: int| 0 <= k < i && self.members@[k].points == top,
            decreases self.members@.len() - i,
        {
            if self.members[i].points > top {
                top = self.members[i].points;
            }
            i = i + 1;
        }
        let auto: u64 = if self.rando_carlissian {
            won_count(&self.hands, AUTO_PLAYER)
        } else {
            0
        };
        if auto > top {
            top = auto;
        }
        if top == 0 {
            return Err(ChatError::Empty);
        }
        let mut winners: Vec<u64> = Vec::new();
        let mut j: usize = 0;
        while j < self.members.len()
            invariant
                j <= self.members@.len(),
                winners@ == tied(self.members@.subrange(0, j as int), top),
            decreases self.members@.len() - j,
        {
            assert(self.members@.subrange(0, j + 1).drop_last() =~= self.members@.subrange(0, j as int));
            if self.members[j].points == top {
                winners.push(self.members[j].id);
            }
            j = j + 1;
        }
        assert(self.members@.subrange(0, j as int) =~= self.members@);
        if auto == top {
            winners.push(AUTO_PLAYER);
        }
        proof {
            assert(winners@ =~= self.winners(top));
        }
        let turns = if self.turn > 0 {
            self.turn - 1
        } else {
            0
        };
        self.end_date = Some(now);
        Ok(CloseReport { turns, winners, points: top })
    }

    /// The game's tables agree with its counters: players are numbered
    /// 1, 2, ... in order, the first one owns the game, every row names a
    /// card of the catalog and a player of the game, and no card is dealt
    /// twice.
    pub open spec fn wf(&self, catalog: &Catalog) -> bool {
        &&& self.members@.len() == self.players
        &&& forall|i: int|
            0 <= i < self.members@.len() ==> (#[trigger] self.members@[i]).id == i + 1
                && self.members@[i].turn == i + 1
        &&& self.owner == if self.players == 0 {
            None
        } else {
            Some(1u64)
        }
        &&& cards_below(self.hands@, catalog.cards@.len() as int)
        &&& distinct_cards(self.hands@)
        &&& forall|i: int| 0 <= i < self.hands@.len() ==> (#[trigger] self.hands@[i]).player_id
            <= self.players
        &&& rows_until(self.hands@, self.turn)
        &&& forall|p: u64|
            1 <= p <= self.players ==> #[trigger] held(self.hands@, p) + played_responses(
                self.hands@,
                p,
                self.turn,
                catalog.cards@,
            ) <= hand::HAND_SIZE
    }

    /// Whether enough players take part to play.
    pub open spec fn quorum(&self) -> bool {
        effective_players(self.players, self.rando_carlissian) >= QUORUM
    }

    /// The same game with other rows and another pick count.
    pub open spec fn same_but_hands(&self, other: &Model) -> bool {
        &&& self.id == other.id
        &&& self.telegram_id == other.telegram_id
        &&& self.owner == other.owner
        &&& self.start_date == other.start_date
        &&& self.end_date == other.end_date
        &&& self.players == other.players
        &&& self.turn == other.turn
        &&& self.rando_carlissian == other.rando_carlissian
        &&& self.members@ == other.members@
        &&& self.packs@ == other.packs@
    }

    /// The same game with other enabled packs.
    pub open spec fn same_but_packs(&self, other: &Model) -> bool {
        &&& self.id == other.id
        &&& self.telegram_id == other.telegram_id
        &&& self.owner == other.owner
        &&& self.start_date == other.start_date
        &&& self.end_date == other.end_date
        &&& self.players == other.players
        &&& self.turn == other.turn
        &&& self.rando_carlissian == other.rando_carlissian
        &&& self.members@ == other.members@
        &&& self.hands@ == other.hands@
        &&& self.pick == other.pick
    }

    /// The same game, compared by contents.
    pub open spec fn same_as(&self, other: &Model) -> bool {
        &&& self.same_but_hands(other)
        &&& self.hands@ == other.hands@
        &&& self.pick == other.pick
    }

    /// Deals the current round again: the rows of the round are rewound,
    /// the judge draws a prompt card, every player's hand is filled up and,
    /// when it takes part, the automated player plays as many cards as the
    /// prompt asks for. Returns the prompt card. Deals nothing and changes
    /// nothing unless enough players take part, or when the cards run out.
    pub fn reset(&mut self, catalog: &Catalog) -> (r: Result<usize, ChatError>)
        requires
            catalog.wf(),
            old(self).wf(catalog),
        ensures
            r is Err ==> *final(self) == *old(self),
            !old(self).quorum() <==> r == Err::<usize, ChatError>(ChatError::NotEnoughPlayers),
            r is Err && old(self).quorum() ==> r->Err_0 is Pick,
            old(self).quorum() && enough_cards(
                old(self).hands@,
                old(self).packs@,
                old(self).turn,
                old(self).players,
                old(self).rando_carlissian,
                *catalog,
            ) ==> r is Ok,
            r is Ok ==> {
                &&& final(self).wf(catalog)
                &&& final(self).same_but_hands(old(self))
                &&& dealt_round(
                    old(self).hands@,
                    old(self).packs@,
                    old(self).turn,
                    old(self).players,
                    old(self).rando_carlissian,
                    *catalog,
                    r->Ok_0,
                    final(self).hands@,
                    final(self).pick,
                )
            },
    {
        let rando: u64 = if self.rando_carlissian {
            1
        } else {
            0
        };
        if self.players < QUORUM && self.players + rando < QUORUM {
            return Err(ChatError::NotEnoughPlayers);
        }
        let turn = self.turn;
        let judge = self.next_player_turn();
        let mut hands = rewind_hands(&self.hands, turn, catalog);
        let ghost base = hands@;
        proof {
            lemma_rewind(self.hands@, turn, catalog.cards@);
            assert forall|i: int| 0 <= i < base.len() implies (#[trigger] base[i]).card_id
                < catalog.cards@.len() && base[i].player_id <= self.players by {
                let j = choose|j: int|
                    0 <= j < self.hands@.len() && self.hands@[j].card_id == base[i].card_id
                        && self.hands@[j].player_id == base[i].player_id;
                assert(self.hands@[j].card_id < catalog.cards@.len());
            }
        }
        let ncards = catalog.cards.len();
        let ghost enough = enough_cards(
            self.hands@,
            self.packs@,
            self.turn,
            self.players,
            self.rando_carlissian,
            *catalog,
        );
        let mut black: Option<usize> = None;
        let ghost mut black_at: int = 0;
        let mut i: usize = 0;
        while i < self.members.len()
            invariant
                catalog.wf(),
                self.wf(catalog),
                self.quorum(),
                ncards == catalog.cards@.len(),
                turn == self.turn,
                judge == judge_slot(turn as int, self.players as int),
                1 <= judge <= self.players,
                i <= self.members@.len(),
                base == rewind(self.hands@, turn, catalog.cards@),
                base.len() <= hands@.len(),
                hands@.subrange(0, base.len() as int) == base,
                cards_below(hands@, catalog.cards@.len() as int),
                distinct_cards(hands@),
                forall|k: int| 0 <= k < hands@.len() ==> (#[trigger] hands@[k]).player_id <= self.players,
                forall|k: int|
                    base.len() <= k < hands@.len() ==> (#[trigger] hands@[k]).picked_on_turn == turn
                        && (black is Some && hands@[k].card_id == black->Some_0
                        || catalog.cards@[hands@[k].card_id as int].color == card::Color::White),
                forall|k: int|
                    base.len() <= k < hands@.len() ==> (#[trigger] hands@[k]).played_on_turn is None
                        || hands@[k].played_on_turn == Some(turn),
                forall|k: int|
                    base.len() <= k < hands@.len() && (#[trigger] hands@[k]).played_on_turn is Some
                        ==> hands@[k].player_id == AUTO_PLAYER || (black is Some && hands@[k].card_id
                        == black->Some_0),
                black is Some <==> judge <= i,
                black is Some ==> 0 <= black_at < hands@.len() && hands@[black_at] == hand::dealt_row(
                    judge,
                    black->Some_0,
                    turn,
                    true,
                ) && hand::full_pool(base, self.packs@, *catalog, card::Color::Black).contains(black->Some_0),
                forall|p: u64|
                    1 <= p <= i ==> #[trigger] held(hands@, p) == topped_up(held(base, p)),
                forall|p: u64| (p == 0 || p > i) ==> #[trigger] held(hands@, p) == held(base, p),
                forall|p: u64|
                    1 <= p <= i ==> #[trigger] played_by(hands@, p, turn) == if p == judge {
                        1nat
                    } else {
                        0nat
                    },
                forall|p: u64| (p == 0 || p > i) ==> #[trigger] played_by(hands@, p, turn) == 0,
                enough == enough_cards(
                    self.hands@,
                    self.packs@,
                    self.turn,
                    self.players,
                    self.rando_carlissian,
                    *catalog,
                ),
                hands@.len() - base.len() <= 11 * i,
            decreases self.members@.len() - i,
        {
            let pid = self.members[i].id;
            assert(self.members@[i as int].id == i + 1);
            let is_judge = self.members[i].is_my_turn(self);
            assert(self.members@[i as int].turn == i + 1);
            let ghost before = hands@;
            proof {
                if enough {
                    let blacks0 = hand::full_pool(base, self.packs@, *catalog, card::Color::Black);
                    let whites0 = hand::full_pool(base, self.packs@, *catalog, card::Color::White);
                    assert(blacks0.contains(blacks0[0]));
                    assert(whites0.len() >= 11 * self.players);
                    assert(i < self.players);
                    assert(hand::wanted(before, pid) <= 10);
                    lemma_pool_shrinks(base, before, self.packs@, catalog.cards@, card::Color::White);
                    if is_judge {
                        assert forall|x: int| base.len() <= x < before.len() implies (#[trigger] before[x]).card_id
                            < catalog.cards@.len() && catalog.cards@[before[x].card_id as int].color
                            != card::Color::Black by {
                            assert(before[x].card_id < catalog.cards@.len());
                        }
                        lemma_pool_other_color(
                            base,
                            before,
                            self.packs@,
                            catalog.cards@,
                            card::Color::Black,
                            catalog.cards@.len(),
                        );
                    }
                }
            }
            let res = hand::draw(&mut hands, &self.packs, catalog, pid, turn, is_judge);
            match res {
                Err(e) => {
                    return Err(ChatError::Pick(e));
                },
                Ok(drawn) => {
                    proof {
                        assert(hands@.subrange(0, base.len() as int) =~= base) by {
                            assert forall|k: int| 0 <= k < base.len() implies hands@[k] == base[k] by {
                                assert(hands@[k] == hands@.subrange(0, before.len() as int)[k]);
                                assert(before[k] == before.subrange(0, base.len() as int)[k]);
                            }
                        }
                        assert forall|k: int| 0 <= k < hands@.len() implies (#[trigger] hands@[k]).player_id
                            <= self.players by {
                            if k < before.len() {
                                assert(hands@[k] == hands@.subrange(0, before.len() as int)[k]);
                            }
                        }
                        if is_judge {
                            black_at = before.len() as int;
                            let c = drawn->Some_0;
                            // the prompt card was eligible among the rows before, which
                            // hold every row of `base`
                            hand::lemma_pool_member(before, self.packs@, *catalog, card::Color::Black, c);
                            lemma_pool_prefix(base, before, self.packs@, catalog.cards@, card::Color::Black, c);
                        } else if black is Some {
                            assert(hands@[black_at] == hands@.subrange(0, before.len() as int)[black_at]);
                        }
                        let now_black = if is_judge {
                            drawn
                        } else {
                            black
                        };
                        assert forall|k: int| base.len() <= k < hands@.len() implies (#[trigger] hands@[k]).picked_on_turn
                            == turn && (now_black is Some && hands@[k].card_id == now_black->Some_0
                            || catalog.cards@[hands@[k].card_id as int].color == card::Color::White) by {
                            if k < before.len() {
                                assert(hands@[k] == hands@.subrange(0, before.len() as int)[k]);
                            } else if !(is_judge && k == before.len()) {
                                let w = hands@[k].card_id;
                                hand::lemma_pool_member(before, self.packs@, *catalog, card::Color::White, w);
                            }
                        }
                    }
                    proof {
                        assert forall|k: int| base.len() <= k < hands@.len() implies (#[trigger] hands@[k]).played_on_turn
                            is None || hands@[k].played_on_turn == Some(turn) by {
                            if k < before.len() {
                                assert(hands@[k] == hands@.subrange(0, before.len() as int)[k]);
                            }
                        }
                        let now_black = if is_judge {
                            drawn
                        } else {
                            black
                        };
                        assert forall|k: int|
                            base.len() <= k < hands@.len() && (#[trigger] hands@[k]).played_on_turn is Some
                                implies hands@[k].player_id == AUTO_PLAYER || (now_black is Some
                            && hands@[k].card_id == now_black->Some_0) by {
                            if k < before.len() {
                                assert(hands@[k] == hands@.subrange(0, before.len() as int)[k]);
                            }
                        }
                    }
                    if is_judge {
                        black = drawn;
                    }
                },
            }
            i = i + 1;
        }
        let c = match black {
            Some(c) => c,
            None => {
                proof {
                    assert(judge <= self.members@.len());
                }
                return Err(ChatError::NoBlackCard);
            },
        };
        let pick = catalog.cards[c].pick();
        if self.rando_carlissian {
            let mut k: u64 = 0;
            while k < pick
                invariant
                    catalog.wf(),
                    self.wf(catalog),
                    k <= pick,
                    self.quorum(),
                    ncards == catalog.cards@.len(),
                    turn == self.turn,
                    base == rewind(self.hands@, turn, catalog.cards@),
                    base.len() <= hands@.len(),
                    hands@.subrange(0, base.len() as int) == base,
                    cards_below(hands@, catalog.cards@.len() as int),
                    distinct_cards(hands@),
                    forall|x: int| 0 <= x < hands@.len() ==> (#[trigger] hands@[x]).player_id <= self.players,
                    forall|x: int|
                        base.len() <= x < hands@.len() ==> (#[trigger] hands@[x]).picked_on_turn == turn
                            && (hands@[x].card_id == c
                            || catalog.cards@[hands@[x].card_id as int].color == card::Color::White),
                    forall|x: int|
                        base.len() <= x < hands@.len() ==> (#[trigger] hands@[x]).played_on_turn is None
                            || hands@[x].played_on_turn == Some(turn),
                    forall|x: int|
                        base.len() <= x < hands@.len() && (#[trigger] hands@[x]).played_on_turn is Some
                            ==> hands@[x].player_id == AUTO_PLAYER || hands@[x].card_id == c,
                    held(hands@, AUTO_PLAYER) == held(base, AUTO_PLAYER),
                    0 <= black_at < hands@.len() && hands@[black_at] == hand::dealt_row(
                        judge,
                        c,
                        turn,
                        true,
                    ),
                    forall|p: u64|
                        1 <= p <= self.players ==> #[trigger] held(hands@, p) == topped_up(held(base, p)),
                    forall|p: u64|
                        1 <= p <= self.players ==> #[trigger] played_by(hands@, p, turn) == if p == judge {
                            1nat
                        } else {
                            0nat
                        },
                    played_by(hands@, AUTO_PLAYER, turn) == k,
                    hand::full_pool(base, self.packs@, *catalog, card::Color::Black).contains(c),
                    pick == card::pick_count(catalog.cards@[c as int].pick),
                    enough == enough_cards(
                        self.hands@,
                        self.packs@,
                        self.turn,
                        self.players,
                        self.rando_carlissian,
                        *catalog,
                    ),
                    self.rando_carlissian,
                    hands@.len() - base.len() <= 11 * self.players + k,
                decreases pick - k,
            {
                let ghost before = hands@;
                proof {
                    if enough {
                        lemma_pool_shrinks(base, before, self.packs@, catalog.cards@, card::Color::White);
                    }
                }
                let res = hand::draw(&mut hands, &self.packs, catalog, AUTO_PLAYER, turn, false);
                if let Err(e) = res {
                    return Err(ChatError::Pick(e));
                }
                proof {
                    assert(hands@.subrange(0, base.len() as int) =~= base) by {
                        assert forall|x: int| 0 <= x < base.len() implies hands@[x] == base[x] by {
                            assert(hands@[x] == hands@.subrange(0, before.len() as int)[x]);
                            assert(before[x] == before.subrange(0, base.len() as int)[x]);
                        }
                    }
                    assert(hands@[black_at] == hands@.subrange(0, before.len() as int)[black_at]);
                    assert forall|x: int| 0 <= x < hands@.len() implies (#[trigger] hands@[x]).player_id
                        <= self.players by {
                        if x < before.len() {
                            assert(hands@[x] == hands@.subrange(0, before.len() as int)[x]);
                        }
                    }
                    assert forall|x: int| base.len() <= x < hands@.len() implies (#[trigger] hands@[x]).picked_on_turn
                        == turn && (hands@[x].card_id == c || catalog.cards@[hands@[x].card_id as int].color
                        == card::Color::White) by {
                        if x < before.len() {
                            assert(hands@[x] == hands@.subrange(0, before.len() as int)[x]);
                        } else {
                            let w = hands@[x].card_id;
                            hand::lemma_pool_member(before, self.packs@, *catalog, card::Color::White, w);
                        }
                    }
                    assert forall|x: int| base.len() <= x < hands@.len() implies (#[trigger] hands@[x]).played_on_turn
                        is None || hands@[x].played_on_turn == Some(turn) by {
                        if x < before.len() {
                            assert(hands@[x] == hands@.subrange(0, before.len() as int)[x]);
                        }
                    }
                    assert forall|x: int|
                        base.len() <= x < hands@.len() && (#[trigger] hands@[x]).played_on_turn is Some
                            implies hands@[x].player_id == AUTO_PLAYER || hands@[x].card_id == c by {
                        if x < before.len() {
                            assert(hands@[x] == hands@.subrange(0, before.len() as int)[x]);
                        }
                    }
                }
                k = k + 1;
            }
        }
        self.hands = hands;
        self.pick = pick;
        proof {
            assert(self.hands@[black_at] == hand::dealt_row(judge, c, turn, true));
            let fin = self.hands@;
            lemma_rewind_held(old(self).hands@, turn, catalog.cards@);
            lemma_rewind(old(self).hands@, turn, catalog.cards@);
            hand::lemma_pool_member(base, self.packs@, *catalog, card::Color::Black, c);
            assert forall|i: int| base.len() <= i < fin.len() implies !back_to_hand(
                #[trigger] fin[i],
                turn,
                catalog.cards@,
            ) by {
                if fin[i].played_on_turn is Some && fin[i].player_id != AUTO_PLAYER {
                    assert(fin[i].card_id == c);
                }
            }
            lemma_responses_prefix(base, fin, turn, catalog.cards@);
            assert forall|p: u64| 1 <= p <= self.players implies #[trigger] held(fin, p) + played_responses(
                fin,
                p,
                turn,
                catalog.cards@,
            ) <= hand::HAND_SIZE by {
                assert(held(base, p) <= held(old(self).hands@, p) + played_responses(
                    old(self).hands@,
                    p,
                    turn,
                    catalog.cards@,
                ));
                assert(played_responses(base, p, turn, catalog.cards@) == 0);
            }
            assert forall|i: int| 0 <= i < fin.len() implies (#[trigger] fin[i]).picked_on_turn <= turn && match fin[i].played_on_turn {
                Some(t) => t <= turn,
                None => true,
            } by {
                if i < base.len() {
                    assert(fin[i] == fin.subrange(0, base.len() as int)[i]);
                    assert(rows_until(base, turn));
                }
            }
        }
        Ok(c)
    }

    /// Slot of the player who judges the current round.
    pub fn next_player_turn(&self) -> (r: u64)
        requires
            self.players > 0,
        ensures
            r == judge_slot(self.turn as int, self.players as int),
            1 <= r <= self.players,
    {
        judge_slot_of(self.turn, self.players)
    }
}

} // verus!
