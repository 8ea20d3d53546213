//! Cards dealt in a game, and the drawing of new ones.
//!
//! A hand row records one card dealt to one player of a game. Within a game a
//! card is dealt at most once, so the card identifies its row.
use vstd::prelude::*;
use crate::entities::card;
use crate::entities::pack::Catalog;

verus! {

/// Player id that stands for the automated player.
pub const AUTO_PLAYER: u64 = 0;

/// Number of response cards a player holds after a draw.
pub const HAND_SIZE: u64 = 10;

/// One card dealt to a player of a game.
#[derive(Clone, Copy, Debug, PartialEq, Eq, Structural)]
pub struct Model {
    /// The player's id, or `AUTO_PLAYER`.
    pub player_id: u64,
    pub card_id: usize,
    /// Turn on which the card was dealt.
    pub picked_on_turn: u64,
    /// Turn on which the card was played; `None` while it is held.
    pub played_on_turn: Option<u64>,
    /// Position of the card among those its player played on that turn.
    pub seq: u64,
    /// Part of a winning submission.
    pub won: bool,
}

/// Why a draw could not be made.
#[derive(Clone, Copy, Debug, PartialEq, Eq, Structural)]
pub enum PickError {
    /// No prompt card of an enabled pack is left to deal.
    NoBlackCard,
    /// Too few response cards of enabled packs are left to deal.
    NoWhiteCards,
}

impl PickError {
    /// Message shown for this error.
    pub fn message(&self) -> &'static str {
        match self {
            PickError::NoBlackCard => "No more black cards to deal",
            PickError::NoWhiteCards => "No more white cards to deal",
        }
    }
}

/// `card` has a row among `hands`.
pub open spec fn dealt(hands: Seq<Model>, card: int) -> bool {
    exists|i: int| 0 <= i < hands.len() && hands[i].card_id == card
}

/// No card has two rows.
pub open spec fn distinct_cards(hands: Seq<Model>) -> bool {
    forall|i: int, j: int|
        0 <= i < hands.len() && 0 <= j < hands.len() && i != j ==> hands[i].card_id
            != hands[j].card_id
}

/// Every row names a card of a catalog of `n` cards.
pub open spec fn cards_below(hands: Seq<Model>, n: int) -> bool {
    forall|i: int| 0 <= i < hands.len() ==> #[trigger] hands[i].card_id < n
}

/// `card` can be dealt: it has the colour asked for, belongs to an enabled
/// pack and has not been dealt yet.
pub open spec fn eligible(
    hands: Seq<Model>,
    packs: Seq<usize>,
    cards: Seq<card::Model>,
    color: card::Color,
    card: int,
) -> bool {
    &&& 0 <= card < cards.len()
    &&& cards[card].color == color
    &&& packs.contains(cards[card].pack_id)
    &&& !dealt(hands, card)
}

/// The cards among the first `n` of the catalog that can be dealt, in order.
pub open spec fn pool(
    hands: Seq<Model>,
    packs: Seq<usize>,
    cards: Seq<card::Model>,
    color: card::Color,
    n: nat,
) -> Seq<usize>
    decreases n,
{
    if n == 0 {
        seq![]
    } else {
        let p = pool(hands, packs, cards, color, (n - 1) as nat);
        if eligible(hands, packs, cards, color, n - 1) {
            p.push((n - 1) as usize)
        } else {
            p
        }
    }
}

/// The cards of the catalog that can be dealt.
pub open spec fn full_pool(
    hands: Seq<Model>,
    packs: Seq<usize>,
    catalog: Catalog,
    color: card::Color,
) -> Seq<usize> {
    pool(hands, packs, catalog.cards@, color, catalog.cards@.len())
}

/// Number of cards `player` holds: dealt to them and not played.
pub open spec fn held(hands: Seq<Model>, player: u64) -> nat
    decreases hands.len(),
{
    if hands.len() == 0 {
        0
    } else {
        held(hands.drop_last(), player) + if hands.last().player_id == player
            && hands.last().played_on_turn is None {
            1nat
        } else {
            0nat
        }
    }
}

/// `h` is a response card a player played on `turn`: it goes back to its
/// holder when `turn` is dealt again.
pub open spec fn back_to_hand(h: Model, turn: u64, cards: Seq<card::Model>) -> bool {
    &&& h.played_on_turn == Some(turn)
    &&& h.player_id != AUTO_PLAYER
    &&& h.card_id < cards.len()
    &&& cards[h.card_id as int].color == card::Color::White
}

/// Number of response cards `player` played on `turn`.
pub open spec fn played_responses(
    hands: Seq<Model>,
    player: u64,
    turn: u64,
    cards: Seq<card::Model>,
) -> nat
    decreases hands.len(),
{
    if hands.len() == 0 {
        0
    } else {
        played_responses(hands.drop_last(), player, turn, cards) + if hands.last().player_id
            == player && back_to_hand(hands.last(), turn, cards) {
            1nat
        } else {
            0nat
        }
    }
}

/// A row added at the end counts for its player if it is a response card
/// played on that turn.
pub proof fn lemma_responses_push(s: Seq<Model>, x: Model, cards: Seq<card::Model>)
    ensures
        forall|p: u64, t: u64|
            #[trigger] played_responses(s.push(x), p, t, cards) == played_responses(s, p, t, cards)
                + if x.player_id == p && back_to_hand(x, t, cards) {
                1nat
            } else {
                0nat
            },
{
    assert(s.push(x).drop_last() =~= s);
}

/// No row is dealt or played after `turn`.
pub open spec fn rows_until(hands: Seq<Model>, turn: u64) -> bool {
    forall|i: int|
        0 <= i < hands.len() ==> (#[trigger] hands[i]).picked_on_turn <= turn && match hands[i].played_on_turn {
            Some(t) => t <= turn,
            None => true,
        }
}

/// Number of response cards a draw deals to `player`: enough to fill a
/// player's hand, and one card for the automated player.
pub open spec fn wanted(hands: Seq<Model>, player: u64) -> nat {
    if player == AUTO_PLAYER {
        1
    } else if held(hands, player) < HAND_SIZE {
        (HAND_SIZE - held(hands, player)) as nat
    } else {
        0
    }
}

/// The row of a card dealt to `player` on `turn` by a draw.
pub open spec fn dealt_row(player: u64, card: usize, turn: u64, played: bool) -> Model {
    Model {
        player_id: player,
        card_id: card,
        picked_on_turn: turn,
        played_on_turn: if played {
            Some(turn)
        } else {
            None
        },
        seq: 0,
        won: false,
    }
}

/// Number of cards `player` played on `turn`.
pub open spec fn played_by(hands: Seq<Model>, player: u64, turn: u64) -> nat
    decreases hands.len(),
{
    if hands.len() == 0 {
        0
    } else {
        played_by(hands.drop_last(), player, turn) + if hands.last().player_id == player
            && hands.last().played_on_turn == Some(turn) {
            1nat
        } else {
            0nat
        }
    }
}

/// A row added at the end counts for its player if played on that turn.
pub proof fn lemma_played_push(s: Seq<Model>, x: Model)
    ensures
        forall|p: u64, t: u64|
            #[trigger] played_by(s.push(x), p, t) == played_by(s, p, t) + if x.player_id == p
                && x.played_on_turn == Some(t) {
                1nat
            } else {
                0nat
            },
{
    assert(s.push(x).drop_last() =~= s);
}

/// A row added at the end counts for its player if not played.
pub proof fn lemma_held_push(s: Seq<Model>, x: Model)
    ensures
        forall|p: u64|
            #[trigger] held(s.push(x), p) == held(s, p) + if x.player_id == p && x.played_on_turn
                is None {
                1nat
            } else {
                0nat
            },
{
    assert(s.push(x).drop_last() =~= s);
}

/// A pool is strictly increasing and holds only cards that can be dealt.
pub proof fn lemma_pool_sorted(
    hands: Seq<Model>,
    packs: Seq<usize>,
    cards: Seq<card::Model>,
    color: card::Color,
    n: nat,
)
    requires
        n <= usize::MAX,
    ensures
        forall|i: int|
            0 <= i < pool(hands, packs, cards, color, n).len() ==> {
                &&& #[trigger] pool(hands, packs, cards, color, n)[i] < n
                &&& eligible(hands, packs, cards, color, pool(hands, packs, cards, color, n)[i] as int)
            },
        forall|i: int, j: int|
            0 <= i < j < pool(hands, packs, cards, color, n).len() ==> pool(
                hands,
                packs,
                cards,
                color,
                n,
            )[i] < pool(hands, packs, cards, color, n)[j],
    decreases n,
{
    if n > 0 {
        lemma_pool_sorted(hands, packs, cards, color, (n - 1) as nat);
        let p = pool(hands, packs, cards, color, (n - 1) as nat);
        let q = pool(hands, packs, cards, color, n);
        if eligible(hands, packs, cards, color, n - 1) {
            assert(q == p.push((n - 1) as usize));
            assert forall|i: int| 0 <= i < q.len() implies #[trigger] q[i] < n && eligible(
                hands,
                packs,
                cards,
                color,
                q[i] as int,
            ) by {
                if i < p.len() {
                    assert(q[i] == p[i]);
                }
            }
            assert forall|i: int, j: int| 0 <= i < j < q.len() implies q[i] < q[j] by {
                assert(q[i] == p[i]);
                if j < p.len() {
                    assert(q[j] == p[j]);
                }
            }
        }
    }
}

/// A card of a pool can be dealt.
pub proof fn lemma_pool_member(
    hands: Seq<Model>,
    packs: Seq<usize>,
    catalog: Catalog,
    color: card::Color,
    c: usize,
)
    requires
        catalog.cards@.len() <= usize::MAX,
        full_pool(hands, packs, catalog, color).contains(c),
    ensures
        eligible(hands, packs, catalog.cards@, color, c as int),
{
    lemma_pool_sorted(hands, packs, catalog.cards@, color, catalog.cards@.len());
    let p = full_pool(hands, packs, catalog, color);
    let i = choose|i: int| 0 <= i < p.len() && p[i] == c;
    assert(eligible(hands, packs, catalog.cards@, color, p[i] as int));
}

/// With only pack `k` enabled, every card that can be dealt belongs to
/// pack `k`.
pub proof fn lemma_single_pack_pool(hands: Seq<Model>, catalog: Catalog, k: usize, color: card::Color)
    requires
        catalog.wf(),
        catalog.cards@.len() <= usize::MAX,
    ensures
        forall|i: int|
            0 <= i < full_pool(hands, seq![k], catalog, color).len() ==> catalog.cards@[#[trigger] full_pool(
                hands,
                seq![k],
                catalog,
                color,
            )[i] as int].pack_id == k,
{
    lemma_pool_sorted(hands, seq![k], catalog.cards@, color, catalog.cards@.len());
    assert forall|i: int| 0 <= i < full_pool(hands, seq![k], catalog, color).len() implies catalog.cards@[#[trigger] full_pool(
        hands,
        seq![k],
        catalog,
        color,
    )[i] as int].pack_id == k by {
        let c = full_pool(hands, seq![k], catalog, color)[i];
        assert(seq![k].contains(catalog.cards@[c as int].pack_id));
        let j = choose|j: int| 0 <= j < 1 && seq![k][j] == catalog.cards@[c as int].pack_id;
    }
}

/// A card of the colour asked for that has not been dealt can be dealt as
/// soon as its pack is enabled, whatever was enabled before.
pub proof fn lemma_enabled_pack_pool(hands: Seq<Model>, packs: Seq<usize>, catalog: Catalog, color: card::Color, c: usize)
    requires
        catalog.wf(),
        catalog.cards@.len() <= usize::MAX,
        c < catalog.cards@.len(),
        catalog.cards@[c as int].color == color,
        packs.contains(catalog.cards@[c as int].pack_id),
        !dealt(hands, c as int),
    ensures
        full_pool(hands, packs, catalog, color).contains(c),
{
    crate::entities::chat::lemma_pool_contains(hands, packs, catalog.cards@, color, catalog.cards@.len(), c);
}

/// Relies on rand's `Rng::sample` with `Uniform::new(0, len)`: a value below
/// `len`. `Uniform::new` panics when `len` is 0.
#[verifier::external_body]
fn random_index(len: usize) -> (r: usize)
    requires
        len > 0,
    ensures
        r < len,
{
    rand::Rng::sample(&mut rand::thread_rng(), rand::distributions::Uniform::new(0, len))
}

/// Relies on `rand::seq::index::sample`: exactly `amount` distinct indices
/// below `length`. It panics when `amount > length`.
#[verifier::external_body]
fn random_indices(length: usize, amount: usize) -> (r: Vec<usize>)
    requires
        amount <= length,
    ensures
        r@.len() == amount,
        forall|i: int| 0 <= i < r@.len() ==> #[trigger] r@[i] < length,
        forall|i: int, j: int| 0 <= i < r@.len() && 0 <= j < r@.len() && i != j ==> r@[i] != r@[j],
{
    rand::seq::index::sample(&mut rand::thread_rng(), length, amount).into_vec()
}

/// For each card of the catalog, whether it has a row among `hands`.
fn dealt_flags(hands: &Vec<Model>, n: usize) -> (r: Vec<bool>)
    requires
        cards_below(hands@, n as int),
    ensures
        r@.len() == n,
        forall|c: int| 0 <= c < n ==> r@[c] == dealt(hands@, c),
{
    let mut r: Vec<bool> = Vec::new();
    let mut c: usize = 0;
    while c < n
        invariant
            c <= n,
            r@.len() == c,
            forall|k: int| 0 <= k < c ==> !r@[k],
        decreases n - c,
    {
        r.push(false);
        c = c + 1;
    }
    let mut i: usize = 0;
    while i < hands.len()
        invariant
            i <= hands@.len(),
            cards_below(hands@, n as int),
            r@.len() == n,
            forall|k: int|
                0 <= k < n ==> r@[k] == exists|j: int| 0 <= j < i && hands@[j].card_id == k,
        decreases hands@.len() - i,
    {
        let card = hands[i].card_id;
        r.set(card, true);
        assert forall|k: int| 0 <= k < n implies r@[k] == exists|j: int|
            0 <= j < i + 1 && hands@[j].card_id == k by {
            if k == card {
                assert(hands@[i as int].card_id == k);
            }
        }
        i = i + 1;
    }
    r
}

/// For each pack of the catalog, whether it is among `packs`.
fn enabled_flags(packs: &Vec<usize>, n: usize) -> (r: Vec<bool>)
    ensures
        r@.len() == n,
        forall|p: int| 0 <= p < n ==> r@[p] == packs@.contains(p as usize),
{
    let mut r: Vec<bool> = Vec::new();
    let mut c: usize = 0;
    while c < n
        invariant
            c <= n,
            r@.len() == c,
            forall|k: int| 0 <= k < c ==> !r@[k],
        decreases n - c,
    {
        r.push(false);
        c = c + 1;
    }
    let mut i: usize = 0;
    while i < packs.len()
        invariant
            i <= packs@.len(),
            r@.len() == n,
            forall|k: int|
                0 <= k < n ==> r@[k] == exists|j: int| 0 <= j < i && packs@[j] == k,
        decreases packs@.len() - i,
    {
        let p = packs[i];
        if p < n {
            r.set(p, true);
        }
        assert forall|k: int| 0 <= k < n implies r@[k] == exists|j: int|
            0 <= j < i + 1 && packs@[j] == k by {
            if k == p {
                assert(packs@[i as int] == k);
            }
        }
        i = i + 1;
    }
    assert forall|p: int| 0 <= p < n implies r@[p] == packs@.contains(p as usize) by {
        if packs@.contains(p as usize) {
            let j = choose|j: int| 0 <= j < packs@.len() && packs@[j] == p as usize;
            assert(packs@[j] == p);
        }
    }
    r
}

/// The cards of `color` that can still be dealt, in catalog order.
fn eligible_cards(
    hands: &Vec<Model>,
    packs: &Vec<usize>,
    catalog: &Catalog,
    color: card::Color,
) -> (r: Vec<usize>)
    requires
        catalog.wf(),
        cards_below(hands@, catalog.cards@.len() as int),
    ensures
        r@ == full_pool(hands@, packs@, *catalog, color),
{
    let n = catalog.cards.len();
    let taken = dealt_flags(hands, n);
    let enabled = enabled_flags(packs, catalog.packs.len());
    let mut r: Vec<usize> = Vec::new();
    let mut c: usize = 0;
    while c < n
        invariant
            catalog.wf(),
            n == catalog.cards@.len(),
            c <= n,
            taken@.len() == n,
            forall|k: int| 0 <= k < n ==> taken@[k] == dealt(hands@, k),
            enabled@.len() == catalog.packs@.len(),
            forall|p: int|
                0 <= p < catalog.packs@.len() ==> enabled@[p] == packs@.contains(p as usize),
            r@ == pool(hands@, packs@, catalog.cards@, color, c as nat),
        decreases n - c,
    {
        let card = &catalog.cards[c];
        assert(card.pack_id < catalog.packs@.len());
        if card.color == color && enabled[card.pack_id] && !taken[c] {
            r.push(c);
        }
        c = c + 1;
    }
    r
}

/// Number of cards `player` holds.
fn held_count(hands: &Vec<Model>, player: u64) -> (r: usize)
    ensures
        r == held(hands@, player),
{
    let mut r: usize = 0;
    let mut i: usize = 0;
    while i < hands.len()
        invariant
            i <= hands@.len(),
            r == held(hands@.subrange(0, i as int), player),
            r <= i,
        decreases hands@.len() - i,
    {
        assert(hands@.subrange(0, i + 1).drop_last() =~= hands@.subrange(0, i as int));
        if hands[i].player_id == player && hands[i].played_on_turn.is_none() {
            r = r + 1;
        }
        i = i + 1;
    }
    assert(hands@.subrange(0, i as int) =~= hands@);
    r
}

/// Appends to `hands` a row for each of the drawn positions `picks` in the
/// pool `whites`: the card at that position, dealt to `player_id` on
/// `turn`, played at once for the automated player.
pub fn deal_rows(hands: &mut Vec<Model>, whites: &Vec<usize>, picks: &Vec<usize>, player_id: u64, turn: u64)
    requires
        forall|a: int| 0 <= a < picks@.len() ==> #[trigger] picks@[a] < whites@.len(),
    ensures
        final(hands)@.len() == old(hands)@.len() + picks@.len(),
        final(hands)@.subrange(0, old(hands)@.len() as int) == old(hands)@,
        forall|a: int|
            old(hands)@.len() <= a < final(hands)@.len() ==> #[trigger] final(hands)@[a] == dealt_row(
                player_id,
                whites@[picks@[a - old(hands)@.len()] as int],
                turn,
                player_id == AUTO_PLAYER,
            ),
        player_id != AUTO_PLAYER ==> held(final(hands)@, player_id) == held(old(hands)@, player_id)
            + picks@.len(),
        player_id == AUTO_PLAYER ==> held(final(hands)@, player_id) == held(old(hands)@, player_id),
        forall|p: u64| p != player_id ==> #[trigger] held(final(hands)@, p) == held(old(hands)@, p),
        forall|p: u64, t: u64| #[trigger]
            played_by(final(hands)@, p, t) == played_by(old(hands)@, p, t) + if p == player_id && t
                == turn && player_id == AUTO_PLAYER {
                picks@.len() as int
            } else {
                0
            },
{
    let ghost start = hands@;
    let mut i: usize = 0;
    while i < picks.len()
        invariant
            i <= picks@.len(),
            forall|a: int| 0 <= a < picks@.len() ==> #[trigger] picks@[a] < whites@.len(),
            hands@.len() == start.len() + i,
            hands@.subrange(0, start.len() as int) == start,
            forall|a: int|
                start.len() <= a < hands@.len() ==> #[trigger] hands@[a] == dealt_row(
                    player_id,
                    whites@[picks@[a - start.len()] as int],
                    turn,
                    player_id == AUTO_PLAYER,
                ),
            player_id != AUTO_PLAYER ==> held(hands@, player_id) == held(start, player_id) + i,
            player_id == AUTO_PLAYER ==> held(hands@, player_id) == held(start, player_id),
            forall|p: u64| p != player_id ==> #[trigger] held(hands@, p) == held(start, p),
            forall|p: u64, t: u64| #[trigger]
                played_by(hands@, p, t) == played_by(start, p, t) + if p == player_id && t == turn
                    && player_id == AUTO_PLAYER {
                    i as int
                } else {
                    0
                },
        decreases picks@.len() - i,
    {
        let card = whites[picks[i]];
        let row = Model {
            player_id,
            card_id: card,
            picked_on_turn: turn,
            played_on_turn: if player_id == AUTO_PLAYER {
                Some(turn)
            } else {
                None
            },
            seq: 0,
            won: false,
        };
        proof {
            lemma_held_push(hands@, row);
            lemma_played_push(hands@, row);
        }
        hands.push(row);
        proof {
            assert(hands@.subrange(0, start.len() as int) =~= start);
        }
        i = i + 1;
    }
}

/// Deals cards of the enabled `packs` of a game, whose rows are `hands`, to
/// `player_id` on `turn`: a prompt card when `draw_black`, played at once,
/// then response cards drawn at random without repetition, enough to fill a
/// player's hand, or one card played at once for the automated player. No
/// card already dealt in the game is dealt again. Returns the prompt card.
/// Fails, dealing nothing, when the cards left are too few.
pub fn draw(
    hands: &mut Vec<Model>,
    packs: &Vec<usize>,
    catalog: &Catalog,
    player_id: u64,
    turn: u64,
    draw_black: bool,
) -> (r: Result<Option<usize>, PickError>)
    requires
        catalog.wf(),
        cards_below(old(hands)@, catalog.cards@.len() as int),
        distinct_cards(old(hands)@),
    ensures
        ({
            let blacks = full_pool(old(hands)@, packs@, *catalog, card::Color::Black);
            let whites = full_pool(old(hands)@, packs@, *catalog, card::Color::White);
            let want = wanted(old(hands)@, player_id);
            let k: int = if draw_black {
                1
            } else {
                0
            };
            &&& (r == Err::<Option<usize>, PickError>(PickError::NoBlackCard)) == (draw_black
                && blacks.len() == 0)
            &&& (r == Err::<Option<usize>, PickError>(PickError::NoWhiteCards)) == (!(draw_black
                && blacks.len() == 0) && whites.len() < want)
            &&& r is Err ==> final(hands)@ == old(hands)@
            &&& r is Ok ==> {
                &&& final(hands)@.len() == old(hands)@.len() + k + want
                &&& final(hands)@.subrange(0, old(hands)@.len() as int) == old(hands)@
                &&& draw_black ==> r->Ok_0 is Some && blacks.contains(r->Ok_0->Some_0)
                    && final(hands)@[old(hands)@.len() as int] == dealt_row(
                    player_id,
                    r->Ok_0->Some_0,
                    turn,
                    true,
                )
                &&& !draw_black ==> r->Ok_0 is None
                &&& forall|i: int|
                    old(hands)@.len() + k <= i < final(hands)@.len() ==> whites.contains(
                        #[trigger] final(hands)@[i].card_id,
                    ) && final(hands)@[i] == dealt_row(
                        player_id,
                        final(hands)@[i].card_id,
                        turn,
                        player_id == AUTO_PLAYER,
                    )
                &&& distinct_cards(final(hands)@)
                &&& cards_below(final(hands)@, catalog.cards@.len() as int)
                &&& player_id != AUTO_PLAYER ==> held(final(hands)@, player_id) == held(
                    old(hands)@,
                    player_id,
                ) + want
                &&& player_id == AUTO_PLAYER ==> held(final(hands)@, player_id) == held(
                    old(hands)@,
                    player_id,
                )
                &&& player_id != AUTO_PLAYER && held(old(hands)@, player_id) <= HAND_SIZE ==> held(
                    final(hands)@,
                    player_id,
                ) == HAND_SIZE
                &&& forall|p: u64| p != player_id ==> #[trigger] held(final(hands)@, p) == held(
                    old(hands)@,
                    p,
                )
                &&& forall|p: u64, t: u64| #[trigger]
                    played_by(final(hands)@, p, t) == played_by(old(hands)@, p, t) + if p
                        == player_id && t == turn {
                        k + if player_id == AUTO_PLAYER {
                            want as int
                        } else {
                            0
                        }
                    } else {
                        0
                    }
            }
        }),
{
    let ghost old_hands = hands@;
    let blacks = eligible_cards(hands, packs, catalog, card::Color::Black);
    let whites = eligible_cards(hands, packs, catalog, card::Color::White);
    let want: usize = if player_id == AUTO_PLAYER {
        1
    } else {
        let n = held_count(hands, player_id);
        if n < 10 {
            10 - n
        } else {
            0
        }
    };
    assert(want == wanted(old_hands, player_id));
    if draw_black && blacks.len() == 0 {
        return Err(PickError::NoBlackCard);
    }
    if whites.len() < want {
        return Err(PickError::NoWhiteCards);
    }
    let ncards = catalog.cards.len();
    proof {
        lemma_pool_sorted(old_hands, packs@, catalog.cards@, card::Color::Black, catalog.cards@.len());
        lemma_pool_sorted(old_hands, packs@, catalog.cards@, card::Color::White, catalog.cards@.len());
    }
    let res = if draw_black {
        let index = random_index(blacks.len());
        let black = blacks[index];
        let row = Model {
            player_id,
            card_id: black,
            picked_on_turn: turn,
            played_on_turn: Some(turn),
            seq: 0,
            won: false,
        };
        proof {
            lemma_held_push(hands@, row);
            lemma_played_push(hands@, row);
            assert(blacks@.contains(black));
        }
        hands.push(row);
        Some(black)
    } else {
        None
    };
    let ghost start: int = hands@.len() as int;
    let picks = random_indices(whites.len(), want);
    let ghost mid = hands@;
    deal_rows(hands, &whites, &picks, player_id, turn);
    proof {
        assert(hands@.subrange(0, old_hands.len() as int) =~= old_hands) by {
            assert forall|k: int| 0 <= k < old_hands.len() implies hands@[k] == old_hands[k] by {
                assert(hands@[k] == hands@.subrange(0, mid.len() as int)[k]);
                assert(mid[k] == mid.subrange(0, old_hands.len() as int)[k]);
            }
        }
        if draw_black {
            assert(hands@[old_hands.len() as int] == hands@.subrange(0, mid.len() as int)[old_hands.len() as int]);
        }
        assert forall|p: u64, t: u64| #[trigger] played_by(hands@, p, t) == played_by(old_hands, p, t)
            + if p == player_id && t == turn {
            (if draw_black {
                1int
            } else {
                0int
            }) + if player_id == AUTO_PLAYER {
                want as int
            } else {
                0
            }
        } else {
            0
        } by {
            assert(played_by(mid, p, t) == played_by(old_hands, p, t) + if p == player_id && t == turn
                && draw_black {
                1int
            } else {
                0int
            });
        }
        assert forall|p: u64| p != player_id implies #[trigger] held(hands@, p) == held(old_hands, p) by {
            assert(held(mid, p) == held(old_hands, p));
        }
        assert(held(mid, player_id) == held(old_hands, player_id));
    }
    proof {
        let fin = hands@;
        assert(fin.subrange(0, old_hands.len() as int) =~= old_hands);
        assert forall|a: int| old_hands.len() + (if draw_black { 1int } else { 0int }) <= a < fin.len()
            implies whites@.contains(#[trigger] fin[a].card_id) by {
            assert(whites@[picks@[a - start] as int] == fin[a].card_id);
        }
        assert forall|a: int| 0 <= a < fin.len() implies #[trigger] fin[a].card_id
            < catalog.cards@.len() by {
            if a >= start {
                assert(whites@[picks@[a - start] as int] == fin[a].card_id);
            } else if a >= old_hands.len() {
                assert(blacks@.contains(fin[a].card_id));
            } else {
                assert(fin[a] == old_hands[a]);
            }
        }
        assert forall|a: int, b: int|
            0 <= a < fin.len() && 0 <= b < fin.len() && a != b implies fin[a].card_id
            != fin[b].card_id by {
            if a < b {
                lemma_rows_distinct(old_hands, fin, packs@, *catalog, whites@, picks@, start, a, b);
            } else {
                lemma_rows_distinct(old_hands, fin, packs@, *catalog, whites@, picks@, start, b, a);
            }
        }
    }
    Ok(res)
}

/// Rows of a draw: the old rows, at most one prompt card, then response
/// cards picked from the pool by distinct indices.
proof fn lemma_rows_distinct(
    old_hands: Seq<Model>,
    fin: Seq<Model>,
    packs: Seq<usize>,
    catalog: Catalog,
    whites: Seq<usize>,
    picks: Seq<usize>,
    start: int,
    a: int,
    b: int,
)
    requires
        catalog.wf(),
        distinct_cards(old_hands),
        old_hands.len() <= start <= old_hands.len() + 1,
        fin.len() == start + picks.len(),
        fin.subrange(0, old_hands.len() as int) == old_hands,
        start == old_hands.len() + 1 ==> eligible(
            old_hands,
            packs,
            catalog.cards@,
            card::Color::Black,
            fin[old_hands.len() as int].card_id as int,
        ),
        forall|x: int| 0 <= x < picks.len() ==> #[trigger] picks[x] < whites.len(),
        forall|x: int, y: int|
            0 <= x < picks.len() && 0 <= y < picks.len() && x != y ==> picks[x] != picks[y],
        forall|x: int|
            0 <= x < whites.len() ==> eligible(
                old_hands,
                packs,
                catalog.cards@,
                card::Color::White,
                #[trigger] whites[x] as int,
            ),
        forall|x: int, y: int| 0 <= x < y < whites.len() ==> whites[x] < whites[y],
        forall|x: int| start <= x < fin.len() ==> #[trigger] fin[x].card_id == whites[picks[x - start] as int],
        0 <= a < b < fin.len(),
    ensures
        fin[a].card_id != fin[b].card_id,
{
    if b < old_hands.len() {
        assert(fin[a] == old_hands[a]);
        assert(fin[b] == old_hands[b]);
    } else if b < start {
        // b is the prompt card, a an old row
        assert(fin[a] == old_hands[a]);
        assert(!dealt(old_hands, fin[b].card_id as int));
    } else {
        let wb = whites[picks[b - start] as int];
        assert(eligible(old_hands, packs, catalog.cards@, card::Color::White, wb as int));
        if a < old_hands.len() {
            assert(fin[a] == old_hands[a]);
            assert(!dealt(old_hands, wb as int));
        } else if a < start {
            assert(catalog.cards@[fin[a].card_id as int].color == card::Color::Black);
        } else {
            let pa = picks[a - start] as int;
            let pb = picks[b - start] as int;
            assert(pa != pb);
            if pa < pb {
                assert(whites[pa] < whites[pb]);
            } else {
                assert(whites[pb] < whites[pa]);
            }
        }
    }
}

} // verus!
