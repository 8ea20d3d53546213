//! What a player sees when they open their hand: the cards they can play,
//! or, for the judge, the submissions to choose from.
use vstd::prelude::*;
use crate::entities::card;
use crate::entities::chat;
use crate::entities::hand;
use crate::entities::hand::played_by;
use crate::entities::pack::Catalog;
use crate::entities::player;
use crate::text::{decimal, push_decimal, push_str};
use crate::utils::{escaped, unescaped};
use crate::entities::chat::joined;
use crate::entities::player::judge_slot;

verus! {

/// Longest line shown for one option.
pub const LINE_LIMIT: usize = 50;

/// Why a hand cannot be shown.
#[derive(Clone, Copy, Debug, PartialEq, Eq, Structural)]
pub enum PlayError {
    /// Nothing to show, and nothing to say.
    Clear,
    GameEnded,
    NotEnoughPlayers,
    PlayerNotFound,
    NoBlackCard,
    /// The judge waits for the other players.
    NotJudgeTurn,
    AlreadyPlayed,
}

impl PlayError {
    /// Message shown for this error.
    pub fn message(&self) -> &'static str {
        match self {
            PlayError::Clear => "",
            PlayError::GameEnded => "🛑 This game have been closed",
            PlayError::NotEnoughPlayers => "⚠️ Not enough players in the game",
            PlayError::PlayerNotFound => "⛔ You're not part of this game, use /start to join",
            PlayError::NoBlackCard => "🪳 No black card in game (this is a bug)",
            PlayError::NotJudgeTurn => "⏳ It's not your turn to play",
            PlayError::AlreadyPlayed => "⌛ You already played this turn",
        }
    }
}

/// `c` has the Unicode White_Space property.
pub open spec fn white_space(c: char) -> bool {
    ('\t' <= c && c <= '\r') || c == ' ' || c == '\u{85}' || c == '\u{a0}' || c == '\u{1680}' || (
    '\u{2000}' <= c && c <= '\u{200a}') || c == '\u{2028}' || c == '\u{2029}' || c == '\u{202f}'
        || c == '\u{205f}' || c == '\u{3000}'
}

/// The words of `s`: its longest runs of characters that are not white
/// space, in order.
pub open spec fn words_of(s: Seq<char>) -> Seq<Seq<char>>
    decreases s.len(),
{
    if s.len() == 0 {
        seq![]
    } else {
        let w = words_of(s.drop_last());
        let c = s.last();
        if white_space(c) {
            w
        } else if s.len() >= 2 && !white_space(s[s.len() - 2]) && w.len() > 0 {
            w.update(w.len() - 1, w.last().push(c))
        } else {
            w.push(seq![c])
        }
    }
}

/// Relies on `str::split_whitespace`: the words of `s`, in order, split at
/// the characters with the Unicode White_Space property, without empty
/// words.
#[verifier::external_body]
pub(crate) fn words(s: &str) -> (r: Vec<String>)
    ensures
        r@.len() == words_of(s@).len(),
        forall|i: int| 0 <= i < r@.len() ==> (#[trigger] r@[i])@ == words_of(s@)[i],
{
    s.split_whitespace().map(String::from).collect()
}

/// The views of pairs of strings.
pub open spec fn pairs_view(v: Seq<(String, String)>) -> Seq<(Seq<char>, Seq<char>)> {
    Seq::new(v.len(), |i: int| (v[i].0@, v[i].1@))
}

/// `words` laid out on numbered lines of at most `LINE_LIMIT` characters
/// (a longer word stands alone), each with `id` and its position as option
/// id.
pub open spec fn fold_lines(words: Seq<Seq<char>>, id: Seq<char>) -> Seq<(Seq<char>, Seq<char>)>
    decreases words.len(),
{
    if words.len() == 0 {
        seq![]
    } else {
        let acc = fold_lines(words.drop_last(), id);
        let w = words.last();
        if acc.len() == 0 {
            seq![(id + ";0"@, "1: "@ + w)]
        } else if acc.last().1.len() + 1 + w.len() > LINE_LIMIT {
            acc.push((id + ";"@ + decimal(acc.len()), decimal(acc.len() + 1) + ": "@ + w))
        } else {
            acc.update(acc.len() - 1, (acc.last().0, acc.last().1 + " "@ + w))
        }
    }
}

/// Lays out the words `words` as `fold_lines` does.
pub fn split_words(words: &Vec<String>, id: &str) -> (r: Vec<(String, String)>)
    ensures
        pairs_view(r@) == fold_lines(Seq::new(words@.len(), |i: int| words@[i]@), id@),
{
    let ghost ws = Seq::new(words@.len(), |i: int| words@[i]@);
    let mut acc: Vec<(String, String)> = Vec::new();
    let mut i: usize = 0;
    while i < words.len()
        invariant
            i <= words@.len(),
            ws == Seq::new(words@.len(), |i: int| words@[i]@),
            pairs_view(acc@) == fold_lines(ws.subrange(0, i as int), id@),
            acc@.len() <= i,
        decreases words@.len() - i,
    {
        let ghost prev = pairs_view(acc@);
        proof {
            assert(ws.subrange(0, i + 1).drop_last() =~= ws.subrange(0, i as int));
            assert(ws.subrange(0, i + 1).last() == words@[i as int]@);
        }
        let word = words[i].as_str();
        let n = acc.len();
        if n == 0 {
            let mut line_id = String::new();
            push_str(&mut line_id, id);
            push_str(&mut line_id, ";0");
            let mut line = String::new();
            push_str(&mut line, "1: ");
            push_str(&mut line, word);
            acc.push((line_id, line));
            proof {
                assert(pairs_view(acc@) =~= seq![(id@ + ";0"@, "1: "@ + word@)]);
            }
        } else {
                let (last_id, mut last) = acc.pop().unwrap();
            proof {
                assert(pairs_view(acc@) =~= prev.drop_last());
                assert(last_id@ == prev.last().0);
                assert(last@ == prev.last().1);
            }
            let len = last.as_str().unicode_len();
            let wlen = word.unicode_len();
            if len as u128 + 1 + wlen as u128 > LINE_LIMIT as u128 {
                acc.push((last_id, last));
                let mut line_id = String::new();
                push_str(&mut line_id, id);
                push_str(&mut line_id, ";");
                push_decimal(&mut line_id, n as u64);
                let mut line = String::new();
                push_decimal(&mut line, (n + 1) as u64);
                push_str(&mut line, ": ");
                push_str(&mut line, word);
                acc.push((line_id, line));
                proof {
                    assert(pairs_view(acc@) =~= prev.push(
                        (id@ + ";"@ + decimal(n as nat), decimal((n + 1) as nat) + ": "@ + word@),
                    ));
                }
            } else {
                push_str(&mut last, " ");
                push_str(&mut last, word);
                let ghost joined = last@;
                acc.push((last_id, last));
                proof {
                    assert(joined =~= prev.last().1 + " "@ + word@);
                    assert(pairs_view(acc@) =~= prev.update(
                        n - 1,
                        (prev.last().0, prev.last().1 + " "@ + word@),
                    ));
                }
            }
        }
        i = i + 1;
    }
    assert(ws.subrange(0, i as int) =~= ws);
    acc
}

/// The lines of `text` with their option ids: the text on one line when it
/// is short enough, otherwise its words laid out by `fold_lines`.
pub open spec fn split_spec(text: Seq<char>, id: Seq<char>) -> Seq<(Seq<char>, Seq<char>)> {
    if text.len() > LINE_LIMIT {
        fold_lines(words_of(text), id)
    } else {
        seq![(id, text)]
    }
}

/// Splits `text` into lines short enough to be read in a list of options;
/// each gets an id made of `id` and its position, since option ids must
/// differ.
pub fn split_multiline_cards(text: String, id: String) -> (r: Vec<(String, String)>)
    ensures
        pairs_view(r@) == split_spec(text@, id@),
{
    let text_len = text.as_str().unicode_len();
    if text_len > LINE_LIMIT {
        let ws = words(text.as_str());
        let r = split_words(&ws, id.as_str());
        assert(Seq::new(ws@.len(), |i: int| ws@[i]@) =~= words_of(text@));
        r
    } else {
        let ghost t = text@;
        let ghost d = id@;
        let mut r: Vec<(String, String)> = Vec::new();
        r.push((id, text));
        assert(pairs_view(r@) =~= seq![(d, t)]);
        r
    }
}

/// One option of the list a player picks from.
#[derive(Debug)]
pub struct InlineOption {
    /// What the choice sends back when picked.
    pub id: String,
    /// The line shown in the list.
    pub title: String,
    /// The message posted in the game when picked.
    pub message: String,
    /// Whether `message` is written in markup.
    pub markdown: bool,
    /// Whether the message offers to open the hand again.
    pub hand_button: bool,
}

/// Ids and titles of options.
pub open spec fn option_lines(v: Seq<InlineOption>) -> Seq<(Seq<char>, Seq<char>)> {
    Seq::new(v.len(), |i: int| (v[i].id@, v[i].title@))
}

/// Lines of the response cards `player` holds, in the order they were
/// dealt, each card with its id.
pub open spec fn hand_lines(hands: Seq<hand::Model>, cards: Seq<card::Model>, player: u64) -> Seq<
    (Seq<char>, Seq<char>),
>
    decreases hands.len(),
{
    if hands.len() == 0 {
        seq![]
    } else {
        let h = hands.last();
        hand_lines(hands.drop_last(), cards, player) + if h.player_id == player && h.played_on_turn
            is None && h.card_id < cards.len() && cards[h.card_id as int].color == card::Color::White {
            split_spec(escaped(cards[h.card_id as int].text@), decimal(h.card_id as nat))
        } else {
            seq![]
        }
    }
}

/// The message a player posts when playing their `nth` card of a round.
pub open spec fn played_text(pick: u64, nth: nat) -> Seq<char> {
    if pick == 1 {
        "I've choosen my card"@
    } else {
        "I've choosen my "@ + decimal(nth) + "° card"@
    }
}

/// Appends options for `lines`, all with the same message and flags.
fn push_options(
    out: &mut Vec<InlineOption>,
    lines: Vec<(String, String)>,
    message: &String,
    markdown: bool,
    hand_button: bool,
    unescape: bool,
)
    ensures
        final(out)@.len() == old(out)@.len() + lines@.len(),
        final(out)@.subrange(0, old(out)@.len() as int) == old(out)@,
        forall|i: int|
            0 <= i < lines@.len() ==> {
                let o = #[trigger] final(out)@[old(out)@.len() + i];
                &&& o.id@ == lines@[i].0@
                &&& o.title@ == if unescape {
                    crate::utils::unescaped(lines@[i].1@)
                } else {
                    lines@[i].1@
                }
                &&& o.message@ == message@
                &&& o.markdown == markdown
                &&& o.hand_button == hand_button
            },
{
    let ghost start = out@;
    let mut i: usize = 0;
    while i < lines.len()
        invariant
            i <= lines@.len(),
            out@.len() == start.len() + i,
            out@.subrange(0, start.len() as int) == start,
            forall|k: int|
                0 <= k < i ==> {
                    let o = #[trigger] out@[start.len() + k];
                    &&& o.id@ == lines@[k].0@
                    &&& o.title@ == if unescape {
                        crate::utils::unescaped(lines@[k].1@)
                    } else {
                        lines@[k].1@
                    }
                    &&& o.message@ == message@
                    &&& o.markdown == markdown
                    &&& o.hand_button == hand_button
                },
        decreases lines@.len() - i,
    {
        let title = if unescape {
            crate::utils::unescape_markdown(lines[i].1.as_str())
        } else {
            lines[i].1.clone()
        };
        out.push(
            InlineOption {
                id: lines[i].0.clone(),
                title,
                message: message.clone(),
                markdown,
                hand_button,
            },
        );
        proof {
            assert(out@.subrange(0, start.len() as int) =~= start);
        }
        i = i + 1;
    }
}

/// What player `id`, who is not the judge, is shown: the response cards
/// they hold, unless they have played all the cards the round asks for.
pub open spec fn player_view(
    chat: &chat::Model,
    catalog: Catalog,
    id: u64,
    r: Result<Vec<InlineOption>, PlayError>,
) -> bool {
    let played = played_by(chat.hands@, id, chat.turn);
    &&& r is Err <==> played >= chat.pick
    &&& r is Err ==> r->Err_0 == PlayError::AlreadyPlayed
    &&& r is Ok ==> {
        &&& option_lines(r->Ok_0@) == hand_lines(chat.hands@, catalog.cards@, id)
        &&& forall|i: int|
            0 <= i < r->Ok_0@.len() ==> {
                &&& (#[trigger] r->Ok_0@[i]).message@ == played_text(chat.pick, played + 1)
                &&& !r->Ok_0@[i].markdown
                &&& r->Ok_0@[i].hand_button == (played + 1 < chat.pick)
            }
    }
}

/// What the judge is shown: the submissions of the others, once everybody
/// has played all the cards the round asks for.
pub open spec fn judge_view(
    chat: &chat::Model,
    catalog: Catalog,
    r: Result<Vec<InlineOption>, PlayError>,
) -> bool {
    let ps = others(chat);
    let judge = judge_slot(chat.turn as int, chat.players as int) as u64;
    let black = first_played(chat.hands@, judge, chat.turn);
    let waiting = exists|k: int|
        0 <= k < ps.len() && (played_by(chat.hands@, #[trigger] ps[k], chat.turn) == 0
            || played_by(chat.hands@, ps[k], chat.turn) < chat.pick);
    &&& ps.len() == 0 ==> r == Err::<Vec<InlineOption>, PlayError>(PlayError::NotEnoughPlayers)
    &&& ps.len() > 0 && black is None ==> r == Err::<Vec<InlineOption>, PlayError>(
        PlayError::NoBlackCard,
    )
    &&& ps.len() > 0 && black is Some ==> (r is Err <==> waiting)
    &&& ps.len() > 0 && black is Some && waiting ==> r == Err::<Vec<InlineOption>, PlayError>(
        PlayError::NotJudgeTurn,
    )
    &&& r is Ok ==> {
        &&& option_views(r->Ok_0@) == judge_options(chat, catalog, black->Some_0, ps)
        &&& forall|i: int|
            0 <= i < r->Ok_0@.len() ==> (#[trigger] r->Ok_0@[i]).markdown
                && !r->Ok_0@[i].hand_button
    }
}

/// The options of a player who is not the judge: the response cards they
/// hold. Fails when they have played all the cards the round asks for.
pub fn as_player(chat: &chat::Model, catalog: &Catalog, id: u64) -> (r: Result<
    Vec<InlineOption>,
    PlayError,
>)
    ensures
        player_view(chat, *catalog, id, r),
{
    let played = crate::parser::choice::played_count(&chat.hands, id, chat.turn);
    if played >= chat.pick {
        return Err(PlayError::AlreadyPlayed);
    }
    let nth = played + 1;
    let mut message = String::new();
    if chat.pick == 1 {
        push_str(&mut message, "I've choosen my card");
    } else {
        push_str(&mut message, "I've choosen my ");
        push_decimal(&mut message, nth);
        push_str(&mut message, "° card");
    }
    assert(message@ =~= played_text(chat.pick, nth as nat));
    let hand_button = nth < chat.pick;
    let mut out: Vec<InlineOption> = Vec::new();
    let mut i: usize = 0;
    while i < chat.hands.len()
        invariant
            i <= chat.hands@.len(),
            message@ == played_text(chat.pick, nth as nat),
            option_lines(out@) == hand_lines(chat.hands@.subrange(0, i as int), catalog.cards@, id),
            forall|k: int|
                0 <= k < out@.len() ==> {
                    &&& (#[trigger] out@[k]).message@ == message@
                    &&& !out@[k].markdown
                    &&& out@[k].hand_button == hand_button
                },
        decreases chat.hands@.len() - i,
    {
        let h = chat.hands[i];
        let ghost prev = out@;
        assert(chat.hands@.subrange(0, i + 1).drop_last() =~= chat.hands@.subrange(0, i as int));
        if h.player_id == id && h.played_on_turn.is_none() && h.card_id < catalog.cards.len()
            && catalog.cards[h.card_id].color == card::Color::White {
            let text = catalog.cards[h.card_id].text();
            let card_id = crate::text::to_decimal(h.card_id as u64);
            let lines = split_multiline_cards(text, card_id);
            let ghost lv = pairs_view(lines@);
            push_options(&mut out, lines, &message, false, hand_button, false);
            proof {
                assert forall|k: int| 0 <= k < prev.len() implies out@[k] == prev[k] by {
                    assert(out@[k] == out@.subrange(0, prev.len() as int)[k]);
                }
                assert forall|k: int| prev.len() <= k < out@.len() implies {
                    &&& (#[trigger] out@[k]).message@ == message@
                    &&& !out@[k].markdown
                    &&& out@[k].hand_button == hand_button
                    &&& out@[k].id@ == lv[k - prev.len()].0
                    &&& out@[k].title@ == lv[k - prev.len()].1
                } by {
                    let j = k - prev.len();
                    assert(out@[prev.len() + j] == out@[k]);
                }
                assert(option_lines(out@) =~= option_lines(prev) + lv);
                assert forall|k: int| 0 <= k < out@.len() implies {
                    &&& (#[trigger] out@[k]).message@ == message@
                    &&& !out@[k].markdown
                    &&& out@[k].hand_button == hand_button
                } by {
                    if k < prev.len() {
                        assert(out@[k] == prev[k]);
                    }
                }
            }
        } else {
            proof {
                assert(hand_lines(chat.hands@.subrange(0, i + 1), catalog.cards@, id) =~= hand_lines(
                    chat.hands@.subrange(0, i as int),
                    catalog.cards@,
                    id,
                ));
            }
        }
        i = i + 1;
    }
    assert(chat.hands@.subrange(0, i as int) =~= chat.hands@);
    Ok(out)
}

/// Cards `player` played on `turn` at position `s`, in the order they were
/// dealt.
pub open spec fn cards_at(hands: Seq<hand::Model>, player: u64, turn: u64, s: u64) -> Seq<usize>
    decreases hands.len(),
{
    if hands.len() == 0 {
        seq![]
    } else {
        let h = hands.last();
        cards_at(hands.drop_last(), player, turn, s) + if h.player_id == player && h.played_on_turn
            == Some(turn) && h.seq == s {
            seq![h.card_id]
        } else {
            seq![]
        }
    }
}

/// Cards `player` played on `turn` at positions below `n`, by position.
pub open spec fn submission(hands: Seq<hand::Model>, player: u64, turn: u64, n: nat) -> Seq<usize>
    decreases n,
{
    if n == 0 {
        seq![]
    } else {
        submission(hands, player, turn, (n - 1) as nat) + cards_at(
            hands,
            player,
            turn,
            (n - 1) as u64,
        )
    }
}

/// The cards `player` played on `turn`, in the order they were played.
pub open spec fn submitted(hands: Seq<hand::Model>, player: u64, turn: u64) -> Seq<usize> {
    submission(hands, player, turn, played_by(hands, player, turn))
}

/// The card `player` played first on `turn`, in the order of dealing.
pub open spec fn first_played(hands: Seq<hand::Model>, player: u64, turn: u64) -> Option<usize>
    decreases hands.len(),
{
    if hands.len() == 0 {
        None
    } else {
        let f = first_played(hands.drop_last(), player, turn);
        if f is Some {
            f
        } else if hands.last().player_id == player && hands.last().played_on_turn == Some(turn) {
            Some(hands.last().card_id)
        } else {
            None
        }
    }
}

/// The players among `1..=n` but `judge`, in order.
pub open spec fn others_upto(n: nat, judge: u64) -> Seq<u64>
    decreases n,
{
    if n == 0 {
        seq![]
    } else if n == judge {
        others_upto((n - 1) as nat, judge)
    } else {
        others_upto((n - 1) as nat, judge).push(n as u64)
    }
}

/// Everybody whose cards the judge chooses from: the other players, then
/// the automated player.
pub open spec fn others(chat: &chat::Model) -> Seq<u64> {
    others_upto(chat.players as nat, judge_slot(chat.turn as int, chat.players as int) as u64) + if chat.rando_carlissian {
        seq![hand::AUTO_PLAYER]
    } else {
        seq![]
    }
}

/// Texts of `cards`, escaped.
pub open spec fn texts_of(catalog: Catalog, cards: Seq<usize>) -> Seq<Seq<char>> {
    Seq::new(cards.len(), |i: int| escaped(catalog.cards@[cards[i] as int].text@))
}

/// Ids of `cards`, in decimal.
pub open spec fn ids_of(cards: Seq<usize>) -> Seq<Seq<char>> {
    Seq::new(cards.len(), |i: int| decimal(cards[i] as nat))
}

/// The message the judge posts when choosing the cards `cards` of `name`
/// for the prompt card `black`.
pub open spec fn chosen_text(catalog: Catalog, black: usize, name: Seq<char>, cards: Seq<usize>) -> Seq<char> {
    "*"@ + escaped(catalog.cards@[black as int].text@) + "*\n\nI've choosen "@ + name + "'s card"@ + (if cards.len() > 1 {
        "s"@
    } else {
        seq![]
    }) + ":\n\n*"@ + joined(texts_of(catalog, cards), "\n"@) + "*"@
}

/// The options of `p`'s submission: its card texts laid out in lines, its
/// card ids as option id, and the message that names the winner.
pub open spec fn submission_options(chat: &chat::Model, catalog: Catalog, black: usize, p: u64) -> Seq<
    (Seq<char>, Seq<char>, Seq<char>),
> {
    let cards = submitted(chat.hands@, p, chat.turn);
    let lines = split_spec(joined(texts_of(catalog, cards), " - "@), joined(ids_of(cards), " "@));
    Seq::new(
        lines.len(),
        |i: int| (lines[i].0, unescaped(lines[i].1), chosen_text(catalog, black, chat.name_of(p), cards)),
    )
}

/// The options of the submissions of `ps`, one after the other.
pub open spec fn judge_options(chat: &chat::Model, catalog: Catalog, black: usize, ps: Seq<u64>) -> Seq<
    (Seq<char>, Seq<char>, Seq<char>),
>
    decreases ps.len(),
{
    if ps.len() == 0 {
        seq![]
    } else {
        judge_options(chat, catalog, black, ps.drop_last()) + submission_options(
            chat,
            catalog,
            black,
            ps.last(),
        )
    }
}

/// Ids, titles and messages of options.
pub open spec fn option_views(v: Seq<InlineOption>) -> Seq<(Seq<char>, Seq<char>, Seq<char>)> {
    Seq::new(v.len(), |i: int| (v[i].id@, v[i].title@, v[i].message@))
}

/// The cards `player` played on `turn`, in the order they were played.
pub fn played_cards(hands: &Vec<hand::Model>, player: u64, turn: u64) -> (r: Vec<usize>)
    ensures
        r@ == submitted(hands@, player, turn),
{
    let n = crate::parser::choice::played_count(hands, player, turn);
    let mut r: Vec<usize> = Vec::new();
    let mut s: u64 = 0;
    while s < n
        invariant
            s <= n,
            n == played_by(hands@, player, turn),
            r@ == submission(hands@, player, turn, s as nat),
        decreases n - s,
    {
        let ghost before = r@;
        let mut i: usize = 0;
        while i < hands.len()
            invariant
                i <= hands@.len(),
                r@ == before + cards_at(hands@.subrange(0, i as int), player, turn, s),
            decreases hands@.len() - i,
        {
            assert(hands@.subrange(0, i + 1).drop_last() =~= hands@.subrange(0, i as int));
            let h = hands[i];
            if h.player_id == player && h.played_on_turn == Some(turn) && h.seq == s {
                r.push(h.card_id);
            }
            assert(r@ =~= before + cards_at(hands@.subrange(0, i + 1), player, turn, s));
            i = i + 1;
        }
        assert(hands@.subrange(0, i as int) =~= hands@);
        s = s + 1;
    }
    r
}

/// The card `player` played first on `turn`.
pub fn first_played_card(hands: &Vec<hand::Model>, player: u64, turn: u64) -> (r: Option<usize>)
    ensures
        r == first_played(hands@, player, turn),
{
    let mut i: usize = 0;
    while i < hands.len()
        invariant
            i <= hands@.len(),
            first_played(hands@.subrange(0, i as int), player, turn) is None,
        decreases hands@.len() - i,
    {
        assert(hands@.subrange(0, i + 1).drop_last() =~= hands@.subrange(0, i as int));
        if hands[i].player_id == player && hands[i].played_on_turn == Some(turn) {
            proof {
                lemma_first_played_stays(hands@, player, turn, i as int + 1);
            }
            return Some(hands[i].card_id);
        }
        i = i + 1;
    }
    assert(hands@.subrange(0, i as int) =~= hands@);
    None
}

/// Once found among the first `n` rows, the first played card stays.
proof fn lemma_first_played_stays(hands: Seq<hand::Model>, player: u64, turn: u64, n: int)
    requires
        0 <= n <= hands.len(),
    ensures
        first_played(hands.subrange(0, n), player, turn) is Some ==> first_played(hands, player, turn)
            == first_played(hands.subrange(0, n), player, turn),
    decreases hands.len() - n,
{
    if n < hands.len() {
        lemma_first_played_stays(hands, player, turn, n + 1);
        assert(hands.subrange(0, n + 1).drop_last() =~= hands.subrange(0, n));
    } else {
        assert(hands.subrange(0, n) =~= hands);
    }
}

/// `parts` joined with `sep` between them.
pub fn join_strings(parts: &Vec<String>, sep: &str) -> (r: String)
    ensures
        r@ == joined(Seq::new(parts@.len(), |i: int| parts@[i]@), sep@),
{
    let ghost ps = Seq::new(parts@.len(), |i: int| parts@[i]@);
    let mut s = String::new();
    let mut i: usize = 0;
    while i < parts.len()
        invariant
            i <= parts@.len(),
            ps == Seq::new(parts@.len(), |i: int| parts@[i]@),
            s@ == joined(ps.subrange(0, i as int), sep@),
        decreases parts@.len() - i,
    {
        if i > 0 {
            push_str(&mut s, sep);
        }
        push_str(&mut s, parts[i].as_str());
        proof {
            let part = ps.subrange(0, i + 1);
            assert(part.drop_last() =~= ps.subrange(0, i as int));
            if i == 0 {
                assert(s@ =~= joined(part, sep@));
            } else {
                assert(s@ =~= joined(part, sep@));
            }
        }
        i = i + 1;
    }
    assert(ps.subrange(0, i as int) =~= ps);
    s
}

/// Every card of `cards_at` and `submission` is the card of a row.
proof fn lemma_submission_rows(hands: Seq<hand::Model>, player: u64, turn: u64, n: nat)
    ensures
        forall|k: int|
            0 <= k < submission(hands, player, turn, n).len() ==> hand::dealt(
                hands,
                #[trigger] submission(hands, player, turn, n)[k] as int,
            ),
    decreases n,
{
    if n > 0 {
        lemma_submission_rows(hands, player, turn, (n - 1) as nat);
        lemma_cards_at_rows(hands, player, turn, (n - 1) as u64);
        let a = submission(hands, player, turn, (n - 1) as nat);
        let b = cards_at(hands, player, turn, (n - 1) as u64);
        assert forall|k: int| 0 <= k < (a + b).len() implies hand::dealt(hands, #[trigger] (a + b)[k] as int) by {
            if k < a.len() {
                assert((a + b)[k] == a[k]);
            } else {
                assert((a + b)[k] == b[k - a.len()]);
            }
        }
    }
}

proof fn lemma_cards_at_rows(hands: Seq<hand::Model>, player: u64, turn: u64, s: u64)
    ensures
        forall|k: int|
            0 <= k < cards_at(hands, player, turn, s).len() ==> hand::dealt(
                hands,
                #[trigger] cards_at(hands, player, turn, s)[k] as int,
            ),
    decreases hands.len(),
{
    if hands.len() > 0 {
        let d = hands.drop_last();
        lemma_cards_at_rows(d, player, turn, s);
        let c = cards_at(hands, player, turn, s);
        let a = cards_at(d, player, turn, s);
        assert forall|k: int| 0 <= k < c.len() implies hand::dealt(hands, #[trigger] c[k] as int) by {
            if k < a.len() {
                assert(c[k] == a[k]);
                let j = choose|j: int| 0 <= j < d.len() && d[j].card_id == a[k];
                assert(hands[j] == d[j]);
            } else {
                assert(hands[hands.len() - 1].card_id == c[k]);
            }
        }
    }
}

/// Everybody whose cards the judge chooses from.
pub fn other_players(chat: &chat::Model, judge: u64) -> (r: Vec<u64>)
    requires
        judge == judge_slot(chat.turn as int, chat.players as int),
    ensures
        r@ == others(chat),
        forall|k: int| 0 <= k < r@.len() ==> #[trigger] r@[k] <= chat.players,
{
    let mut r: Vec<u64> = Vec::new();
    let mut p: u64 = 0;
    while p < chat.players
        invariant
            p <= chat.players,
            r@ == others_upto(p as nat, judge),
            forall|k: int| 0 <= k < r@.len() ==> #[trigger] r@[k] <= p,
        decreases chat.players - p,
    {
        p = p + 1;
        if p != judge {
            r.push(p);
        }
    }
    if chat.rando_carlissian {
        r.push(hand::AUTO_PLAYER);
    }
    assert(r@ =~= others(chat));
    r
}

/// The options of the judge: the submissions of the other players, each
/// laid out in lines. Fails while somebody has not played all the cards the
/// round asks for, or when the judge holds no prompt card.
pub fn as_judge(chat: &chat::Model, catalog: &Catalog) -> (r: Result<Vec<InlineOption>, PlayError>)
    requires
        catalog.wf(),
        chat.wf(catalog),
        chat.players > 0,
    ensures
        judge_view(chat, *catalog, r),
{
    let judge = chat.next_player_turn();
    let ps = other_players(chat, judge);
    if ps.len() == 0 {
        return Err(PlayError::NotEnoughPlayers);
    }
    let black = match first_played_card(&chat.hands, judge, chat.turn) {
        Some(c) => c,
        None => {
            return Err(PlayError::NoBlackCard);
        },
    };
    proof {
        lemma_first_played_dealt(chat.hands@, judge, chat.turn);
        assert(judge_slot(chat.turn as int, chat.players as int) as u64 == judge);
        assert(first_played(chat.hands@, judge_slot(chat.turn as int, chat.players as int) as u64, chat.turn) == Some(black));
    }
    let mut k: usize = 0;
    while k < ps.len()
        invariant
            k <= ps@.len(),
            ps@ == others(chat),
            first_played(chat.hands@, judge_slot(chat.turn as int, chat.players as int) as u64, chat.turn)
                == Some(black),
            forall|x: int|
                0 <= x < k ==> !(played_by(chat.hands@, #[trigger] ps@[x], chat.turn) == 0
                    || played_by(chat.hands@, ps@[x], chat.turn) < chat.pick),
        decreases ps@.len() - k,
    {
        let n = crate::parser::choice::played_count(&chat.hands, ps[k], chat.turn);
        if n == 0 || n < chat.pick {
            proof {
                assert(ps@[k as int] == others(chat)[k as int]);
            }
            return Err(PlayError::NotJudgeTurn);
        }
        k = k + 1;
    }
    let mut black_text = String::new();
    push_str(&mut black_text, "*");
    let bt = catalog.cards[black].text();
    push_str(&mut black_text, bt.as_str());
    push_str(&mut black_text, "*\n\nI've choosen ");
    let mut out: Vec<InlineOption> = Vec::new();
    let mut j: usize = 0;
    while j < ps.len()
        invariant
            catalog.wf(),
            chat.wf(catalog),
            chat.players > 0,
            j <= ps@.len(),
            ps@ == others(chat),
            forall|x: int| 0 <= x < ps@.len() ==> #[trigger] ps@[x] <= chat.players,
            black < catalog.cards@.len(),
            first_played(chat.hands@, judge_slot(chat.turn as int, chat.players as int) as u64, chat.turn)
                == Some(black),
            black_text@ == "*"@ + escaped(catalog.cards@[black as int].text@) + "*\n\nI've choosen "@,
            option_views(out@) == judge_options(chat, *catalog, black, ps@.subrange(0, j as int)),
            forall|i: int| 0 <= i < out@.len() ==> (#[trigger] out@[i]).markdown && !out@[i].hand_button,
        decreases ps@.len() - j,
    {
        let p = ps[j];
        let cards = played_cards(&chat.hands, p, chat.turn);
        proof {
            lemma_submission_rows(chat.hands@, p, chat.turn, played_by(chat.hands@, p, chat.turn));
        }
        let mut texts: Vec<String> = Vec::new();
        let mut ids: Vec<String> = Vec::new();
        let mut c: usize = 0;
        while c < cards.len()
            invariant
                catalog.wf(),
                chat.wf(catalog),
                c <= cards@.len(),
                cards@ == submitted(chat.hands@, p, chat.turn),
                forall|x: int| 0 <= x < cards@.len() ==> hand::dealt(chat.hands@, #[trigger] cards@[x] as int),
                Seq::new(texts@.len(), |i: int| texts@[i]@) == texts_of(*catalog, cards@.subrange(0, c as int)),
                Seq::new(ids@.len(), |i: int| ids@[i]@) == ids_of(cards@.subrange(0, c as int)),
            decreases cards@.len() - c,
        {
            let card = cards[c];
            proof {
                assert(hand::dealt(chat.hands@, cards@[c as int] as int));
                let q = choose|q: int| 0 <= q < chat.hands@.len() && chat.hands@[q].card_id == card;
                assert(chat.hands@[q].card_id < catalog.cards@.len());
            }
            let ghost tv = Seq::new(texts@.len(), |i: int| texts@[i]@);
            let ghost iv = Seq::new(ids@.len(), |i: int| ids@[i]@);
            let t = catalog.cards[card].text();
            let d = crate::text::to_decimal(card as u64);
            let ghost tt = t@;
            let ghost dd = d@;
            texts.push(t);
            ids.push(d);
            proof {
                assert(Seq::new(texts@.len(), |i: int| texts@[i]@) =~= tv.push(tt));
                assert(Seq::new(ids@.len(), |i: int| ids@[i]@) =~= iv.push(dd));
                assert(texts_of(*catalog, cards@.subrange(0, c + 1)) =~= texts_of(*catalog, cards@.subrange(0, c as int)).push(tt));
                assert(ids_of(cards@.subrange(0, c + 1)) =~= ids_of(cards@.subrange(0, c as int)).push(dd));
                assert(Seq::new(texts@.len(), |i: int| texts@[i]@) =~= texts_of(*catalog, cards@.subrange(0, c + 1)));
                assert(Seq::new(ids@.len(), |i: int| ids@[i]@) =~= ids_of(cards@.subrange(0, c + 1)));
            }
            c = c + 1;
        }
        proof {
            assert(cards@.subrange(0, c as int) =~= cards@);
        }
        let line = join_strings(&texts, " - ");
        let id = join_strings(&ids, " ");
        let mut message = String::new();
        push_str(&mut message, black_text.as_str());
        let name = chat.name(p);
        push_str(&mut message, name.as_str());
        push_str(&mut message, "'s card");
        if cards.len() > 1 {
            push_str(&mut message, "s");
        }
        push_str(&mut message, ":\n\n*");
        let body = join_strings(&texts, "\n");
        push_str(&mut message, body.as_str());
        push_str(&mut message, "*");
        proof {
            assert(message@ =~= chosen_text(*catalog, black, chat.name_of(p), cards@));
        }
        let lines = split_multiline_cards(line, id);
        let ghost lv = pairs_view(lines@);
        let ghost prev = out@;
        push_options(&mut out, lines, &message, true, false, true);
        proof {
            let so = submission_options(chat, *catalog, black, p);
            assert(ps@.subrange(0, j + 1).drop_last() =~= ps@.subrange(0, j as int));
            assert(so.len() == lv.len());
            assert forall|x: int| 0 <= x < prev.len() implies out@[x] == prev[x] by {
                assert(out@[x] == out@.subrange(0, prev.len() as int)[x]);
            }
            assert forall|x: int| prev.len() <= x < out@.len() implies (
                out@[x].id@,
                out@[x].title@,
                out@[x].message@,
            ) == so[x - prev.len()] by {
                let y = x - prev.len();
                assert(out@[prev.len() + y] == out@[x]);
            }
            assert(option_views(out@) =~= option_views(prev) + so);
            assert forall|i: int| 0 <= i < out@.len() implies (#[trigger] out@[i]).markdown && !out@[i].hand_button by {
                if i < prev.len() {
                    assert(out@[i] == prev[i]);
                } else {
                    let y = i - prev.len();
                    assert(out@[prev.len() + y] == out@[i]);
                }
            }
        }
        j = j + 1;
    }
    assert(ps@.subrange(0, j as int) =~= ps@);
    Ok(out)
}

/// The first card played is the card of a row.
pub proof fn lemma_first_played_dealt(hands: Seq<hand::Model>, player: u64, turn: u64)
    ensures
        first_played(hands, player, turn) is Some ==> hand::dealt(
            hands,
            first_played(hands, player, turn)->Some_0 as int,
        ),
    decreases hands.len(),
{
    if hands.len() > 0 {
        let d = hands.drop_last();
        lemma_first_played_dealt(d, player, turn);
        if first_played(d, player, turn) is Some {
            let j = choose|j: int| 0 <= j < d.len() && d[j].card_id == first_played(d, player, turn)->Some_0;
            assert(hands[j] == d[j]);
        } else {
            assert(hands[hands.len() - 1] == hands.last());
        }
    }
}

/// Shows the hand of the sender, known as `telegram_id`, in `chat`: the
/// response cards they can play, or, for the judge, the submissions to
/// choose from.
pub fn execute(chat: &chat::Model, catalog: &Catalog, telegram_id: i64) -> (r: Result<
    Vec<InlineOption>,
    PlayError,
>)
    requires
        catalog.wf(),
        chat.wf(catalog),
    ensures
        chat.end_date is Some ==> r == Err::<Vec<InlineOption>, PlayError>(PlayError::GameEnded),
        chat.end_date is None && !chat.quorum() ==> r == Err::<Vec<InlineOption>, PlayError>(
            PlayError::NotEnoughPlayers,
        ),
        chat.end_date is None && chat.quorum() && !player::has_player(chat, telegram_id) ==> r
            == Err::<Vec<InlineOption>, PlayError>(PlayError::PlayerNotFound),
        chat.end_date is None && chat.quorum() && player::has_player(chat, telegram_id) ==> exists|
            i: int,
        |
            0 <= i < chat.members@.len() && chat.members@[i].telegram_id == telegram_id && if chat.members@[i].turn
                == judge_slot(chat.turn as int, chat.players as int) {
                judge_view(chat, *catalog, r)
            } else {
                player_view(chat, *catalog, chat.members@[i].id, r)
            },
{
    if chat.end_date.is_some() {
        return Err(PlayError::GameEnded);
    }
    let rando: u64 = if chat.rando_carlissian {
        1
    } else {
        0
    };
    if chat.players < chat::QUORUM && chat.players + rando < chat::QUORUM {
        return Err(PlayError::NotEnoughPlayers);
    }
    let i = match player::find(chat, telegram_id) {
        Some(i) => i,
        None => {
            return Err(PlayError::PlayerNotFound);
        },
    };
    if chat.members[i].is_my_turn(chat) {
        as_judge(chat, catalog)
    } else {
        as_player(chat, catalog, chat.members[i].id)
    }
}

} // verus!
