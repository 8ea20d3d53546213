use cah_bot::entities::chat::{find_or_insert, find_or_insert_at, ChatError, ChatKind, Model};
use cah_bot::entities::hand::{deal_rows, draw, PickError, AUTO_PLAYER};
use cah_bot::entities::pack::{init, Card, Catalog, Pack};
use cah_bot::entities::player::judge_slot_of;
use cah_bot::entities::card::Color;
use cah_bot::parser::choice::{self, Choice};
use cah_bot::parser::close::{self, CloseError};
use cah_bot::parser::start::{self, StartError};

fn cards(prefix: &str, n: usize, pick: Option<u64>) -> Vec<Card> {
    (0..n)
        .map(|i| Card { text: format!("{prefix} {i}"), pick })
        .collect()
}

fn catalog(whites: usize) -> Catalog {
    init(&vec![
        Pack {
            name: "Base".to_string(),
            official: true,
            black: cards("Prompt", 3, None),
            white: cards("Answer", whites, None),
        },
        Pack {
            name: "Extra".to_string(),
            official: false,
            black: cards("Other prompt", 2, None),
            white: cards("Other answer", 20, None),
        },
    ])
}

fn new_game(catalog: &Catalog) -> Model {
    let mut games = Vec::new();
    let i = find_or_insert_at(&mut games, catalog, -100, ChatKind::Group, 1_700_000_000).unwrap();
    games.remove(i)
}

fn join(chat: &mut Model, catalog: &Catalog, ids: &[i64]) {
    for id in ids {
        start::execute(chat, catalog, *id, format!("P{id}")).unwrap();
    }
}

fn held(chat: &Model, player: u64) -> usize {
    chat.hands
        .iter()
        .filter(|h| h.player_id == player && h.played_on_turn.is_none())
        .count()
}

fn no_card_twice(chat: &Model) -> bool {
    let mut ids: Vec<usize> = chat.hands.iter().map(|h| h.card_id).collect();
    let n = ids.len();
    ids.sort();
    ids.dedup();
    ids.len() == n
}

#[test]
fn judge_rotates_over_three_players() {
    let slots: Vec<u64> = (1..=6).map(|t| judge_slot_of(t, 3)).collect();
    assert_eq!(slots, vec![1, 2, 3, 1, 2, 3]);
    assert_eq!(judge_slot_of(0, 3), 3);
}

#[test]
fn catalog_numbers_packs_and_cards() {
    let c = catalog(40);
    assert_eq!(c.packs.len(), 2);
    assert_eq!(c.cards.len(), 3 + 40 + 2 + 20);
    assert_eq!(c.cards[0].color, Color::Black);
    assert_eq!(c.cards[3].color, Color::White);
    assert_eq!(c.cards[43].pack_id, 1);
    assert_eq!(c.cards[43].text, "Other prompt 0");
    assert!(c.cards.iter().enumerate().all(|(i, card)| card.id == i));
}

#[test]
fn games_are_found_or_opened() {
    let c = catalog(40);
    let mut games = Vec::new();
    let a = find_or_insert_at(&mut games, &c, 7, ChatKind::Supergroup, 5).unwrap();
    let b = find_or_insert_at(&mut games, &c, 7, ChatKind::Supergroup, 6).unwrap();
    assert_eq!(a, b);
    assert_eq!(games.len(), 1);
    assert_eq!(games[0].start_date, 5);
    assert_eq!(games[0].packs, vec![0, 1]);
    assert_eq!(
        find_or_insert_at(&mut games, &c, 8, ChatKind::Channel, 6).unwrap_err(),
        ChatError::Channel
    );
    assert_eq!(
        find_or_insert_at(&mut games, &c, 8, ChatKind::Private, 6).unwrap_err(),
        ChatError::Private
    );
    let d = find_or_insert(&mut games, &c, 9, ChatKind::Group).unwrap();
    assert_eq!(d, 1);
    assert!(games[1].start_date > 1_600_000_000);
}

#[test]
fn no_round_below_quorum() {
    let c = catalog(40);
    let mut chat = new_game(&c);
    assert_eq!(start::execute(&mut chat, &c, 1, "A".into()).unwrap(), None);
    assert_eq!(start::execute(&mut chat, &c, 2, "B".into()).unwrap(), None);
    assert!(chat.hands.is_empty());
    assert_eq!(chat.turn, 0);
    assert_eq!(chat.owner, Some(1));
    assert_eq!(
        start::execute(&mut chat, &c, 2, "B".into()).unwrap_err(),
        StartError::AlreadyExists
    );
}

#[test]
fn third_player_starts_the_first_round() {
    let c = catalog(40);
    let mut chat = new_game(&c);
    join(&mut chat, &c, &[1, 2]);
    let prompt = start::execute(&mut chat, &c, 3, "C".into()).unwrap().unwrap();
    assert_eq!(chat.turn, 1);
    assert_eq!(chat.players, 3);
    assert_eq!(c.cards[prompt].color, Color::Black);
    for p in 1..=3 {
        assert_eq!(held(&chat, p), 10);
    }
    let judge_rows: Vec<_> = chat
        .hands
        .iter()
        .filter(|h| h.played_on_turn == Some(1))
        .collect();
    assert_eq!(judge_rows.len(), 1);
    assert_eq!(judge_rows[0].player_id, 1);
    assert_eq!(judge_rows[0].card_id, prompt);
    assert!(no_card_twice(&chat));
    assert_eq!(chat.pick, 1);
}

#[test]
fn failed_round_changes_nothing() {
    // 25 response cards cannot fill three hands of ten
    let c = catalog(5);
    let mut chat = new_game(&c);
    join(&mut chat, &c, &[1, 2]);
    let err = start::execute(&mut chat, &c, 3, "C".into()).unwrap_err();
    assert_eq!(err, StartError::Chat(ChatError::Pick(PickError::NoWhiteCards)));
    assert_eq!(chat.players, 2);
    assert_eq!(chat.members.len(), 2);
    assert_eq!(chat.turn, 0);
    assert!(chat.hands.is_empty());
}

#[test]
fn draw_tops_up_to_ten_without_repeats() {
    let c = catalog(40);
    let mut hands = Vec::new();
    let packs = vec![0, 1];
    let prompt = draw(&mut hands, &packs, &c, 1, 1, true).unwrap().unwrap();
    assert_eq!(c.cards[prompt].color, Color::Black);
    assert_eq!(hands.len(), 11);
    assert_eq!(hands[0].played_on_turn, Some(1));
    assert!(hands[1..].iter().all(|h| h.played_on_turn.is_none()
        && c.cards[h.card_id].color == Color::White));
    // a full hand gets nothing more
    assert_eq!(draw(&mut hands, &packs, &c, 1, 1, false).unwrap(), None);
    assert_eq!(hands.len(), 11);
    // the automated player gets one card, played at once
    draw(&mut hands, &packs, &c, AUTO_PLAYER, 1, false).unwrap();
    assert_eq!(hands.len(), 12);
    assert_eq!(hands[11].played_on_turn, Some(1));
    let mut ids: Vec<usize> = hands.iter().map(|h| h.card_id).collect();
    ids.sort();
    ids.dedup();
    assert_eq!(ids.len(), 12);
}

#[test]
fn draw_fails_when_pool_is_short() {
    let c = catalog(5);
    let mut hands = Vec::new();
    assert_eq!(
        draw(&mut hands, &vec![0], &c, 1, 1, false),
        Err(PickError::NoWhiteCards)
    );
    assert!(hands.is_empty());
    assert_eq!(
        draw(&mut hands, &vec![], &c, 1, 1, true),
        Err(PickError::NoBlackCard)
    );
}

#[test]
fn single_pack_restricts_draws() {
    let c = catalog(40);
    let mut hands = Vec::new();
    draw(&mut hands, &vec![1], &c, 1, 1, true).unwrap();
    assert!(hands.iter().all(|h| c.cards[h.card_id].pack_id == 1));
    // enabling the other pack again makes its cards eligible
    draw(&mut hands, &vec![0, 1], &c, 2, 1, false).unwrap();
    draw(&mut hands, &vec![0, 1], &c, 3, 1, false).unwrap();
    assert_eq!(hands.len(), 31);
    assert!(hands.iter().any(|h| c.cards[h.card_id].pack_id == 0));
    let mut ids: Vec<usize> = hands.iter().map(|h| h.card_id).collect();
    ids.sort();
    ids.dedup();
    assert_eq!(ids.len(), 31);
}

fn playing_game(c: &Catalog) -> Model {
    let mut chat = new_game(c);
    join(&mut chat, c, &[1, 2, 3]);
    chat
}

fn first_held(chat: &Model, player: u64) -> usize {
    chat.hands
        .iter()
        .find(|h| h.player_id == player && h.played_on_turn.is_none())
        .unwrap()
        .card_id
}

#[test]
fn ready_to_judge_after_all_submissions() {
    let c = catalog(40);
    let mut chat = playing_game(&c);
    // slot 1 judges turn 1
    let a = first_held(&chat, 2);
    match choice::execute(&mut chat, &c, 2, &vec![a]) {
        Choice::Played { ready } => assert!(!ready),
        other => panic!("{other:?}"),
    }
    // a second card is refused: the round asks for one
    let a2 = first_held(&chat, 2);
    assert!(matches!(choice::execute(&mut chat, &c, 2, &vec![a2]), Choice::Ignored));
    let b = first_held(&chat, 3);
    match choice::execute(&mut chat, &c, 3, &vec![b]) {
        Choice::Played { ready } => assert!(ready),
        other => panic!("{other:?}"),
    }
    let row = chat.hands.iter().find(|h| h.card_id == b).unwrap();
    assert_eq!(row.played_on_turn, Some(1));
    assert_eq!(row.seq, 0);
}

#[test]
fn judge_choice_scores_and_deals_next_round() {
    let c = catalog(40);
    let mut chat = playing_game(&c);
    let a = first_held(&chat, 2);
    let b = first_held(&chat, 3);
    choice::execute(&mut chat, &c, 2, &vec![a]);
    choice::execute(&mut chat, &c, 3, &vec![b]);
    // the judge cannot pick its own prompt card nor cards of two players
    assert!(matches!(choice::execute(&mut chat, &c, 1, &vec![a, b]), Choice::Ignored));
    match choice::execute(&mut chat, &c, 1, &vec![b]) {
        Choice::Judged { winner, card } => {
            assert_eq!(winner, 3);
            assert_eq!(c.cards[card].color, Color::Black);
        }
        other => panic!("{other:?}"),
    }
    assert_eq!(chat.turn, 2);
    assert_eq!(chat.members[2].points, 1);
    assert!(chat.hands.iter().find(|h| h.card_id == b).unwrap().won);
    // slot 2 judges turn 2 and everybody holds ten cards again
    assert!(chat
        .hands
        .iter()
        .any(|h| h.player_id == 2 && h.played_on_turn == Some(2)));
    for p in 1..=3 {
        assert_eq!(held(&chat, p), 10);
    }
    assert!(no_card_twice(&chat));
}

#[test]
fn failed_next_round_changes_nothing() {
    // only one prompt card: none is left for the second round
    let c = init(&vec![Pack {
        name: "Tiny".to_string(),
        official: true,
        black: cards("Prompt", 1, None),
        white: cards("Answer", 60, None),
    }]);
    let mut chat = playing_game(&c);
    let a = first_held(&chat, 2);
    let b = first_held(&chat, 3);
    choice::execute(&mut chat, &c, 2, &vec![a]);
    choice::execute(&mut chat, &c, 3, &vec![b]);
    let hands_before = chat.hands.clone();
    match choice::execute(&mut chat, &c, 1, &vec![a]) {
        Choice::Ended { error } => {
            assert_eq!(error, ChatError::Pick(PickError::NoBlackCard));
        }
        other => panic!("{other:?}"),
    }
    // the point, the winning mark and the turn are all undone, and the game
    // stays open
    assert_eq!(chat.turn, 1);
    assert_eq!(chat.members[1].points, 0);
    assert_eq!(chat.hands, hands_before);
    assert_eq!(chat.end_date, None);
}

#[test]
fn close_reports_tied_winners() {
    let c = catalog(40);
    let mut chat = playing_game(&c);
    chat.turn = 4;
    chat.members[0].points = 5;
    chat.members[1].points = 5;
    chat.members[2].points = 3;
    let report = chat.close(99).unwrap();
    assert_eq!(report.winners, vec![1, 2]);
    assert_eq!(report.points, 5);
    assert_eq!(report.turns, 3);
    assert_eq!(chat.end_date, Some(99));
    assert_eq!(
        chat.close_message(&report),
        "After 3 turns the winners are [P1](tg://user?id=1) and [P2](tg://user?id=2) with 5 points"
    );
}

#[test]
fn close_without_points_changes_nothing() {
    let c = catalog(40);
    let mut chat = playing_game(&c);
    chat.turn = 4;
    assert_eq!(chat.close(99).unwrap_err(), ChatError::Empty);
    assert_eq!(chat.end_date, None);
}

#[test]
fn close_command_checks_owner_and_start() {
    let c = catalog(40);
    let mut chat = playing_game(&c);
    match close::execute(&mut chat, 2) {
        Err(CloseError::NotOwner(link)) => assert_eq!(link, "[P1](tg://user?id=1)"),
        other => panic!("{other:?}"),
    }
    assert!(matches!(close::execute(&mut chat, 1), Err(CloseError::Unstarted)));
    assert!(matches!(close::execute(&mut chat, 42), Ok(None)));
    chat.turn = 2;
    assert!(matches!(
        close::execute(&mut chat, 1),
        Err(CloseError::Chat(ChatError::Empty))
    ));
    chat.members[1].points = 2;
    let msg = close::execute(&mut chat, 1).unwrap().unwrap();
    assert_eq!(
        msg,
        "After 1 turns the winner is [P2](tg://user?id=2) with 2 points"
    );
    assert!(chat.end_date.is_some());
    assert_eq!(
        CloseError::Unstarted.message(),
        "You can't close an unstarted game"
    );
}

#[test]
fn automated_player_counts_for_quorum() {
    let c = catalog(40);
    let mut chat = new_game(&c);
    chat.rando_carlissian = true;
    join(&mut chat, &c, &[1]);
    assert!(chat.hands.is_empty());
    let prompt = start::execute(&mut chat, &c, 2, "B".into()).unwrap();
    assert!(prompt.is_some());
    let auto_played = chat
        .hands
        .iter()
        .filter(|h| h.player_id == AUTO_PLAYER && h.played_on_turn == Some(1))
        .count();
    assert_eq!(auto_played as u64, chat.pick);
}

#[test]
fn played_card_returns_when_round_is_dealt_again() {
    let c = catalog(60);
    let mut chat = playing_game(&c);
    let a = first_held(&chat, 2);
    choice::execute(&mut chat, &c, 2, &vec![a]);
    // a fourth player joins: the round is dealt again
    assert!(start::execute(&mut chat, &c, 4, "D".into()).unwrap().is_some());
    assert_eq!(chat.turn, 1);
    let row = chat.hands.iter().find(|h| h.card_id == a).unwrap();
    assert_eq!(row.player_id, 2);
    assert_eq!(row.played_on_turn, None);
    // the stale prompt card was taken back: only the new one is in play,
    // held by the judge
    let prompts: Vec<_> = chat
        .hands
        .iter()
        .filter(|h| c.cards[h.card_id].color == Color::Black)
        .collect();
    assert_eq!(prompts.len(), 1);
    assert_eq!(prompts[0].played_on_turn, Some(1));
    assert_eq!(prompts[0].player_id, 1);
    for p in 1..=4 {
        assert_eq!(held(&chat, p), 10);
    }
    assert!(no_card_twice(&chat));
}

#[test]
fn automated_player_holds_nothing() {
    let c = catalog(60);
    let mut chat = new_game(&c);
    chat.rando_carlissian = true;
    join(&mut chat, &c, &[1, 2]);
    assert_eq!(held(&chat, AUTO_PLAYER), 0);
}

#[test]
fn drawn_positions_become_rows() {
    let mut hands = Vec::new();
    deal_rows(&mut hands, &vec![10, 20, 30], &vec![2, 0], 4, 7);
    assert_eq!(hands.len(), 2);
    assert_eq!(hands[0].card_id, 30);
    assert_eq!(hands[1].card_id, 10);
    assert!(hands.iter().all(|h| h.player_id == 4
        && h.picked_on_turn == 7
        && h.played_on_turn.is_none()
        && !h.won));
    deal_rows(&mut hands, &vec![10, 20, 30], &vec![1], AUTO_PLAYER, 7);
    assert_eq!(hands[2].card_id, 20);
    assert_eq!(hands[2].played_on_turn, Some(7));
}
