use cah_bot::entities::chat::{find_or_insert_at, ChatKind, Model};
use cah_bot::entities::pack::{init, Card, Catalog, Pack};
use cah_bot::parser::help;
use cah_bot::parser::play::{self, split_multiline_cards, PlayError};
use cah_bot::parser::rank;
use cah_bot::parser::settings::{self, parse_action, Action, SettingsError};
use cah_bot::parser::start;
use cah_bot::parser::status::{self, StatusError};
use cah_bot::parser::{parse_inline_query, parse_inline_query_response, parse_message, Command};
use cah_bot::utils::{escape_markdown, unescape_markdown};

fn cards(prefix: &str, n: usize, pick: Option<u64>) -> Vec<Card> {
    (0..n)
        .map(|i| Card { text: format!("{prefix} {i}"), pick })
        .collect()
}

fn catalog() -> Catalog {
    init(&vec![
        Pack {
            name: "Base_set".to_string(),
            official: true,
            black: cards("Why?", 3, None),
            white: cards("Answer", 40, None),
        },
        Pack {
            name: "Extra".to_string(),
            official: false,
            black: cards("Pick two", 2, Some(2)),
            white: cards("Other", 20, None),
        },
    ])
}

fn new_game(c: &Catalog) -> Model {
    let mut games = Vec::new();
    let i = find_or_insert_at(&mut games, c, -5, ChatKind::Group, 10).unwrap();
    games.remove(i)
}

#[test]
fn escaping_markup() {
    assert_eq!(escape_markdown("a_b*c."), "a\\_b\\*c\\.");
    assert_eq!(escape_markdown("plain"), "plain");
    assert_eq!(escape_markdown(""), "");
    assert_eq!(unescape_markdown("a\\_b\\*c\\."), "a_b*c.");
    assert_eq!(unescape_markdown("a\\b\\"), "a\\b\\");
    assert_eq!(unescape_markdown(&escape_markdown("x\\_y!")), "x\\_y!");
}

#[test]
fn short_text_stays_on_one_line() {
    let lines = split_multiline_cards("short text".to_string(), "7".to_string());
    assert_eq!(lines, vec![("7".to_string(), "short text".to_string())]);
}

#[test]
fn long_text_is_split_in_numbered_lines() {
    let text = "one two three four five six seven eight nine ten eleven twelve thirteen";
    let lines = split_multiline_cards(text.to_string(), "4 5".to_string());
    assert_eq!(
        lines,
        vec![
            (
                "4 5;0".to_string(),
                "1: one two three four five six seven eight nine".to_string()
            ),
            ("4 5;1".to_string(), "2: ten eleven twelve thirteen".to_string()),
        ]
    );
}

#[test]
fn words_split_at_any_white_space() {
    let text = "one\ttwo\u{a0}three  four\u{3000}five six seven eight nine ten eleven";
    let lines = split_multiline_cards(text.to_string(), "1".to_string());
    assert_eq!(
        lines,
        vec![
            ("1;0".to_string(), "1: one two three four five six seven eight nine".to_string()),
            ("1;1".to_string(), "2: ten eleven".to_string()),
        ]
    );
}

#[test]
fn commands_are_read() {
    assert_eq!(parse_message("/start", "@bot"), Some(Command::Start));
    assert_eq!(parse_message("  /close@bot now", "@bot"), Some(Command::Close));
    assert_eq!(parse_message("/rank@other", "@bot"), None);
    assert_eq!(parse_message("hello", "@bot"), None);
    assert_eq!(parse_message("", "@bot"), None);
    assert_eq!(parse_message("/help", "@bot"), Some(Command::Help));
    assert_eq!(parse_message("/settings", "@bot"), Some(Command::Settings));
    assert_eq!(parse_message("/status@bot", "@bot"), Some(Command::Status));
}

#[test]
fn chosen_ids_are_read() {
    assert_eq!(parse_inline_query_response("12 7;1"), Some(vec![12, 7]));
    assert_eq!(parse_inline_query_response("3"), Some(vec![3]));
    assert_eq!(parse_inline_query_response(";"), None);
    assert_eq!(parse_inline_query_response("3 x"), None);
    assert_eq!(parse_inline_query("42"), Some(42));
    assert_eq!(parse_inline_query("-4"), None);
    assert_eq!(parse_inline_query(""), None);
}

#[test]
fn settings_buttons_are_read() {
    assert_eq!(parse_action("close"), Action::Close);
    assert_eq!(parse_action("skip15"), Action::Skip(15));
    assert_eq!(parse_action("rando0"), Action::Rando(0));
    assert_eq!(parse_action("allx"), Action::All(0));
    assert_eq!(parse_action("official30"), Action::Official(30));
    assert_eq!(parse_action("3-15"), Action::Toggle(3, 15));
    assert_eq!(parse_action("x-15"), Action::Unknown);
    assert_eq!(parse_action("nothing"), Action::Unknown);
}

#[test]
fn help_names_the_inline_command() {
    let text = help::execute(9, "@bot");
    assert!(text.starts_with("*Cards Against Humanity Bot*\n\n"));
    assert!(text.contains("/close - close the game and get a winner\n"));
    assert!(text.ends_with("`@bot 9`\n                "));
}

#[test]
fn welcome_messages() {
    assert_eq!(
        start::message(2, ""),
        "Player created, you're the second one on this game, you can start playing by enabling Rando Carlissian from /settings\n\n"
    );
    assert_eq!(start::message(5, "round"), "Player created\n\nround");
}

#[test]
fn settings_toggle_packs_and_keyboard() {
    let c = catalog();
    let mut chat = new_game(&c);
    start::execute(&mut chat, &c, 1, "A".into()).unwrap();
    start::execute(&mut chat, &c, 2, "B".into()).unwrap();
    match settings::execute(&mut chat, &c, 2, None) {
        Err(SettingsError::NotOwner(link)) => assert_eq!(link, "[A](tg://user?id=1)"),
        other => panic!("{other:?}"),
    }
    assert!(matches!(settings::execute(&mut chat, &c, 2, Some("0-0")), Ok(None)));
    let view = settings::execute(&mut chat, &c, 1, Some("0-0")).unwrap().unwrap();
    assert_eq!(chat.packs, vec![1]);
    assert_eq!(view.keyboard.len(), 7);
    assert_eq!(view.keyboard[0][0], ("Rando Carlissian ◻".to_string(), "rando0".to_string()));
    assert_eq!(view.keyboard[1][0].0, "Enable all packs");
    assert_eq!(view.keyboard[2][0].0, "Enable official packs");
    assert_eq!(view.keyboard[3][0], ("Base\\_set ◻".to_string(), "0-0".to_string()));
    assert_eq!(view.keyboard[4][0], ("Extra ☑".to_string(), "1-0".to_string()));
    assert!(view.keyboard[5].is_empty());
    assert_eq!(view.keyboard[6][0], ("Close settings".to_string(), "close".to_string()));
    settings::execute(&mut chat, &c, 1, Some("official0")).unwrap();
    assert_eq!(chat.packs, vec![1, 0]);
    settings::execute(&mut chat, &c, 1, Some("all0")).unwrap();
    assert!(chat.packs.is_empty());
    settings::execute(&mut chat, &c, 1, Some("all0")).unwrap();
    assert_eq!(chat.packs, vec![0, 1]);
    let closed = settings::execute(&mut chat, &c, 1, Some("close")).unwrap().unwrap();
    assert!(closed.keyboard.is_empty());
    // the automated player completes the quorum and the round is dealt
    let view = settings::execute(&mut chat, &c, 1, Some("rando0")).unwrap().unwrap();
    assert!(chat.rando_carlissian);
    assert_eq!(chat.turn, 1);
    assert!(view.round.unwrap().starts_with("Turn 1\n\n*"));
    chat.turn = 2;
    assert!(matches!(
        settings::execute(&mut chat, &c, 1, None),
        Err(SettingsError::AlreadyStarter)
    ));
}

#[test]
fn hand_and_submissions_are_shown() {
    let c = catalog();
    let mut chat = new_game(&c);
    assert_eq!(play::execute(&chat, &c, 1).unwrap_err(), PlayError::NotEnoughPlayers);
    for id in 1..=3 {
        start::execute(&mut chat, &c, id, format!("P{id}")).unwrap();
    }
    assert_eq!(play::execute(&chat, &c, 9).unwrap_err(), PlayError::PlayerNotFound);
    // the judge waits for the others
    assert_eq!(play::execute(&chat, &c, 1).unwrap_err(), PlayError::NotJudgeTurn);
    let options = play::execute(&chat, &c, 2).unwrap();
    assert_eq!(options.len(), 10);
    let expected_message = if chat.pick == 1 {
        "I've choosen my card".to_string()
    } else {
        "I've choosen my 1° card".to_string()
    };
    assert!(options.iter().all(|o| o.message == expected_message));
    let first: usize = options[0].id.parse().unwrap();
    assert_eq!(options[0].title, escape_markdown(&c.cards[first].text));
    let status_text = status::execute(&chat, &c).unwrap();
    assert!(status_text.starts_with("Turn 1\n\n*"));
    assert!(status_text.contains("\n\nJudge is [P1](tg://user?id=1)"));
    assert!(status_text.ends_with(
        "\n[P2](tg://user?id=2) haven't played\n[P3](tg://user?id=3) haven't played"
    ));
    chat.end_date = Some(1);
    assert_eq!(play::execute(&chat, &c, 2).unwrap_err(), PlayError::GameEnded);
}

#[test]
fn status_needs_quorum() {
    let c = catalog();
    let chat = new_game(&c);
    assert_eq!(status::execute(&chat, &c).unwrap_err(), StatusError::NotEnoughPlayers);
}

#[test]
fn ranking_orders_by_points() {
    let c = catalog();
    let mut chat = new_game(&c);
    for id in 1..=3 {
        start::execute(&mut chat, &c, id, format!("P{id}")).unwrap();
    }
    chat.members[0].points = 1;
    chat.members[1].points = 4;
    chat.members[2].points = 1;
    assert_eq!(
        rank::execute(&chat),
        "Turn 1\n\n[P2](tg://user?id=2) 4 points\n[P1](tg://user?id=1) 1 points\n[P3](tg://user?id=3) 1 points"
    );
}

fn first_held(chat: &Model, player: u64) -> usize {
    chat.hands
        .iter()
        .find(|h| h.player_id == player && h.played_on_turn.is_none())
        .unwrap()
        .card_id
}

#[test]
fn judge_sees_the_submissions() {
    let c = catalog();
    let mut chat = new_game(&c);
    // only the official pack: every prompt asks for one card
    chat.packs = vec![0];
    for id in 1..=3 {
        start::execute(&mut chat, &c, id, format!("P{id}")).unwrap();
    }
    let a = first_held(&chat, 2);
    let b = first_held(&chat, 3);
    cah_bot::parser::choice::execute(&mut chat, &c, 2, &vec![a]);
    assert_eq!(play::execute(&chat, &c, 2).unwrap_err(), PlayError::AlreadyPlayed);
    cah_bot::parser::choice::execute(&mut chat, &c, 3, &vec![b]);
    let options = play::execute(&chat, &c, 1).unwrap();
    assert_eq!(options.len(), 2);
    let prompt = chat
        .hands
        .iter()
        .find(|h| h.player_id == 1 && h.played_on_turn == Some(1))
        .unwrap()
        .card_id;
    assert_eq!(options[0].id, a.to_string());
    assert_eq!(options[0].title, c.cards[a].text);
    assert_eq!(
        options[0].message,
        format!(
            "*{}*\n\nI've choosen [P2](tg://user?id=2)'s card:\n\n*{}*",
            escape_markdown(&c.cards[prompt].text),
            escape_markdown(&c.cards[a].text)
        )
    );
    assert!(options.iter().all(|o| o.markdown && !o.hand_button));
    assert_eq!(options[1].id, b.to_string());
    assert!(status::execute(&chat, &c)
        .unwrap()
        .ends_with("\n[P2](tg://user?id=2) have played\n[P3](tg://user?id=3) have played"));
}

#[test]
fn reset_refuses_below_quorum() {
    let c = catalog();
    let mut chat = new_game(&c);
    start::execute(&mut chat, &c, 1, "A".into()).unwrap();
    assert_eq!(
        chat.reset(&c).unwrap_err(),
        cah_bot::entities::chat::ChatError::NotEnoughPlayers
    );
    assert!(chat.hands.is_empty());
}

#[test]
fn service_refusals_are_let_go() {
    assert!(cah_bot::parser::ignored_error(Some(400)));
    assert!(!cah_bot::parser::ignored_error(Some(429)));
    assert!(!cah_bot::parser::ignored_error(None));
}
