//! The settings of a game: the automated player and the enabled packs,
//! shown as a keyboard of buttons.
use vstd::prelude::*;
use crate::entities::chat;
use crate::entities::chat::{dealt_round, effective_players, ChatError, QUORUM, RANDO_CARLISSIAN};
use crate::entities::pack::Catalog;
use crate::entities::player;
use crate::entities::hand::rows_until;
use crate::parser::play::pairs_view;
use crate::text::{decimal, digits_value, is_number, parse_number, push_decimal, push_str};
use crate::utils::escaped;

verus! {

/// Mark of an enabled setting.
pub const ENABLED: &'static str = "☑";

/// Mark of a disabled setting.
pub const DISABLED: &'static str = "◻";

/// Packs shown on one page of the keyboard.
pub const PAGE: u64 = 15;

/// Why the settings could not be shown or changed.
#[derive(Debug)]
pub enum SettingsError {
    /// Only the owner, whose link this is, changes the settings.
    NotOwner(String),
    /// The settings are fixed once the first round is over.
    AlreadyStarter,
    Chat(ChatError),
}

impl SettingsError {
    /// Message shown for this error.
    pub fn message(&self) -> (r: String)
        ensures
            self is NotOwner ==> r@ == "You're not the game owner, only "@ + self->NotOwner_0@
                + " can use this command"@,
    {
        let mut s = String::new();
        match self {
            SettingsError::NotOwner(owner) => {
                push_str(&mut s, "You're not the game owner, only ");
                push_str(&mut s, owner.as_str());
                push_str(&mut s, " can use this command");
                assert(s@ =~= "You're not the game owner, only "@ + owner@ + " can use this command"@);
            },
            SettingsError::AlreadyStarter => {
                push_str(&mut s, "You can't change setting on an already started game");
            },
            SettingsError::Chat(e) => {
                push_str(&mut s, e.message());
            },
        }
        s
    }
}

/// A button of the keyboard: what it shows, what it sends back.
pub type Button = (String, String);

/// What a button of the settings keyboard asks for.
#[derive(Clone, Copy, Debug, PartialEq, Eq, Structural)]
pub enum Action {
    /// Close the keyboard.
    Close,
    /// Show the page of packs from this position.
    Skip(u64),
    /// Toggle the automated player.
    Rando(u64),
    /// Enable every pack, or disable them all when they all are.
    All(u64),
    /// Enable the official packs, or disable them when they all are.
    Official(u64),
    /// Toggle a pack.
    Toggle(u64, u64),
    /// Nothing known.
    Unknown,
}

/// `s` starts with `p`.
pub open spec fn starts_with(s: Seq<char>, p: Seq<char>) -> bool {
    p.len() <= s.len() && s.subrange(0, p.len() as int) == p
}

/// The number written in `s`, or 0.
pub open spec fn number_or_zero(s: Seq<char>) -> u64 {
    if is_number(s) {
        digits_value(s) as u64
    } else {
        0
    }
}

/// The first `-` of `s` stands at `k`.
pub open spec fn first_dash(s: Seq<char>, k: int) -> bool {
    0 <= k < s.len() && s[k] == '-' && forall|j: int| 0 <= j < k ==> s[j] != '-'
}

/// The number after the prefix `p` of `s`, or 0.
pub open spec fn tail_number(s: Seq<char>, p: Seq<char>) -> u64 {
    number_or_zero(s.subrange(p.len() as int, s.len() as int))
}

/// What the data `d` of a button asks for.
pub open spec fn action_of(d: Seq<char>) -> Action {
    if d == "close"@ {
        Action::Close
    } else if starts_with(d, "skip"@) {
        Action::Skip(tail_number(d, "skip"@))
    } else if starts_with(d, "rando"@) {
        Action::Rando(tail_number(d, "rando"@))
    } else if starts_with(d, "all"@) {
        Action::All(tail_number(d, "all"@))
    } else if starts_with(d, "official"@) {
        Action::Official(tail_number(d, "official"@))
    } else if exists|k: int| first_dash(d, k) && is_number(d.subrange(0, k)) {
        let k = choose|k: int| first_dash(d, k) && is_number(d.subrange(0, k));
        Action::Toggle(
            digits_value(d.subrange(0, k)) as u64,
            number_or_zero(d.subrange(k + 1, d.len() as int)),
        )
    } else {
        Action::Unknown
    }
}

/// Whether `s` starts with `p`.
pub fn has_prefix(s: &str, p: &str) -> (r: bool)
    ensures
        r == starts_with(s@, p@),
{
    let n = s.unicode_len();
    let m = p.unicode_len();
    if m > n {
        return false;
    }
    let mut i: usize = 0;
    while i < m
        invariant
            m <= n,
            n == s@.len(),
            m == p@.len(),
            i <= m,
            forall|k: int| 0 <= k < i ==> s@[k] == p@[k],
        decreases m - i,
    {
        if s.get_char(i) != p.get_char(i) {
            proof {
                assert(s@.subrange(0, m as int)[i as int] != p@[i as int]);
            }
            return false;
        }
        i = i + 1;
    }
    assert(s@.subrange(0, m as int) =~= p@);
    true
}

/// The number after the first `k` characters of `s`, or 0.
fn number_after(s: &str, k: usize) -> (r: u64)
    requires
        k <= s@.len(),
    ensures
        r == number_or_zero(s@.subrange(k as int, s@.len() as int)),
{
    let n = s.unicode_len();
    match parse_number(s, k, n) {
        Some(v) => v,
        None => 0,
    }
}

/// Reads what the data `d` of a button asks for.
pub fn parse_action(d: &str) -> (r: Action)
    ensures
        r == action_of(d@),
{
    let n = d.unicode_len();
    proof {
        reveal_strlit("close");
    }
    if has_prefix(d, "close") && n == 5 {
        proof {
            assert(d@ =~= d@.subrange(0, 5));
        }
        return Action::Close;
    }
    proof {
        if d@ == "close"@ {
            assert(d@.subrange(0, 5) =~= d@);
        }
    }
    if has_prefix(d, "skip") {
        proof { reveal_strlit("skip"); }
        return Action::Skip(number_after(d, 4));
    }
    if has_prefix(d, "rando") {
        proof { reveal_strlit("rando"); }
        return Action::Rando(number_after(d, 5));
    }
    if has_prefix(d, "all") {
        proof { reveal_strlit("all"); }
        return Action::All(number_after(d, 3));
    }
    if has_prefix(d, "official") {
        proof { reveal_strlit("official"); }
        return Action::Official(number_after(d, 8));
    }
    let mut k: usize = 0;
    while k < n
        invariant
            n == d@.len(),
            k <= n,
            forall|j: int| 0 <= j < k ==> d@[j] != '-',
            d@ != "close"@,
            !starts_with(d@, "skip"@),
            !starts_with(d@, "rando"@),
            !starts_with(d@, "all"@),
            !starts_with(d@, "official"@),
        decreases n - k,
    {
        if d.get_char(k) == '-' {
            proof {
                assert(first_dash(d@, k as int));
                assert forall|k2: int| first_dash(d@, k2) implies k2 == k by {
                    if k2 < k {
                        assert(d@[k2] != '-');
                    } else if k2 > k {
                        assert(d@[k as int] != '-');
                    }
                }
            }
            match parse_number(d, 0, k) {
                Some(id) => {
                    let start = number_after(d, k + 1);
                    proof {
                        assert(first_dash(d@, k as int) && is_number(d@.subrange(0, k as int)));
                        let c = choose|c: int| first_dash(d@, c) && is_number(d@.subrange(0, c));
                        assert(c == k);
                    }
                    return Action::Toggle(id, start);
                },
                None => {
                    proof {
                        assert(!exists|c: int| first_dash(d@, c) && is_number(d@.subrange(0, c)));
                    }
                    return Action::Unknown;
                },
            }
        }
        k = k + 1;
    }
    Action::Unknown
}

/// The page position a button keeps.
pub open spec fn start_of(a: Action) -> u64 {
    match a {
        Action::Skip(n) => n,
        Action::Rando(n) => n,
        Action::All(n) => n,
        Action::Official(n) => n,
        Action::Toggle(_, n) => n,
        _ => 0,
    }
}

/// Every official pack of the catalog is enabled.
pub open spec fn officials_enabled(catalog: Catalog, packs: Seq<usize>) -> bool {
    forall|p: int| 0 <= p < catalog.packs@.len() && (#[trigger] catalog.packs@[p]).official ==> packs.contains(p as usize)
}

/// Whether every official pack of the catalog is among `packs`.
fn all_officials_enabled(catalog: &Catalog, packs: &Vec<usize>) -> (r: bool)
    requires
        catalog.wf(),
    ensures
        r == officials_enabled(*catalog, packs@),
{
    let mut i: usize = 0;
    while i < catalog.packs.len()
        invariant
            catalog.wf(),
            i <= catalog.packs@.len(),
            forall|p: int| 0 <= p < i && (#[trigger] catalog.packs@[p]).official ==> packs@.contains(p as usize),
        decreases catalog.packs@.len() - i,
    {
        if catalog.packs[i].official && !crate::parser::choice::holds(packs, i) {
            return false;
        }
        i = i + 1;
    }
    true
}

/// `packs` without those that `drop` marks.
fn keep_packs(packs: &Vec<usize>, catalog: &Catalog, id: usize, officials: bool) -> (r: Vec<usize>)
    requires
        catalog.wf(),
    ensures
        forall|x: usize| #[trigger] r@.contains(x) == (packs@.contains(x) && !dropped(*catalog, id, officials, x)),
{
    let mut r: Vec<usize> = Vec::new();
    let mut i: usize = 0;
    while i < packs.len()
        invariant
            catalog.wf(),
            i <= packs@.len(),
            forall|x: usize| #[trigger]
                r@.contains(x) == (packs@.subrange(0, i as int).contains(x) && !dropped(
                    *catalog,
                    id,
                    officials,
                    x,
                )),
        decreases packs@.len() - i,
    {
        let p = packs[i];
        let drop = if officials {
            p < catalog.packs.len() && catalog.packs[p].official
        } else {
            p == id
        };
        let ghost prev = r@;
        if !drop {
            r.push(p);
        }
        proof {
            assert(packs@.subrange(0, i + 1) =~= packs@.subrange(0, i as int).push(p));
            assert forall|x: usize| #[trigger]
                r@.contains(x) == (packs@.subrange(0, i + 1).contains(x) && !dropped(
                    *catalog,
                    id,
                    officials,
                    x,
                )) by {
                if r@.contains(x) && x != p {
                    let j = choose|j: int| 0 <= j < r@.len() && r@[j] == x;
                    assert(prev[j] == x);
                }
                if x == p && !drop {
                    assert(r@[r@.len() - 1] == x);
                }
                if prev.contains(x) {
                    let j = choose|j: int| 0 <= j < prev.len() && prev[j] == x;
                    assert(r@[j] == x);
                }
                let s1 = packs@.subrange(0, i + 1);
                let s0 = packs@.subrange(0, i as int);
                assert(s1[i as int] == p);
                assert(prev.contains(x) == (s0.contains(x) && !dropped(*catalog, id, officials, x)));
                assert(drop == dropped(*catalog, id, officials, p));
                if s1.contains(x) && x != p {
                    let j = choose|j: int| 0 <= j < s1.len() && s1[j] == x;
                    assert(s0[j] == x);
                }
                if s0.contains(x) {
                    let j = choose|j: int| 0 <= j < s0.len() && s0[j] == x;
                    assert(s1[j] == x);
                }
            }
        }
        i = i + 1;
    }
    assert(packs@.subrange(0, i as int) =~= packs@);
    r
}

/// `x` is removed: it is an official pack, or it is `id`.
pub open spec fn dropped(catalog: Catalog, id: usize, officials: bool, x: usize) -> bool {
    if officials {
        x < catalog.packs@.len() && catalog.packs@[x as int].official
    } else {
        x == id
    }
}

/// Adds to `packs` the packs of the catalog it lacks, all of them or the
/// official ones.
fn add_packs(packs: &mut Vec<usize>, catalog: &Catalog, officials: bool)
    requires
        catalog.wf(),
    ensures
        forall|x: usize| #[trigger] final(packs)@.contains(x) == (old(packs)@.contains(x) || (x
            < catalog.packs@.len() && (!officials || catalog.packs@[x as int].official))),
{
    let mut i: usize = 0;
    while i < catalog.packs.len()
        invariant
            catalog.wf(),
            i <= catalog.packs@.len(),
            forall|x: usize| #[trigger] packs@.contains(x) == (old(packs)@.contains(x) || (x < i
                && (!officials || catalog.packs@[x as int].official))),
        decreases catalog.packs@.len() - i,
    {
        if (!officials || catalog.packs[i].official) && !crate::parser::choice::holds(packs, i) {
            let ghost prev = packs@;
            packs.push(i);
            proof {
                assert forall|x: usize| #[trigger] packs@.contains(x) == (prev.contains(x) || x == i) by {
                    if packs@.contains(x) && x != i {
                        let j = choose|j: int| 0 <= j < packs@.len() && packs@[j] == x;
                        assert(prev[j] == x);
                    }
                    if prev.contains(x) {
                        let j = choose|j: int| 0 <= j < prev.len() && prev[j] == x;
                        assert(packs@[j] == x);
                    }
                    if x == i {
                        assert(packs@[packs@.len() - 1] == x);
                    }
                }
            }
        }
        i = i + 1;
    }
}

/// Changes the enabled packs of `chat` as `action` asks: every pack, the
/// official packs, or one pack, on or off.
pub fn apply_packs(chat: &mut chat::Model, catalog: &Catalog, action: Action)
    requires
        catalog.wf(),
    ensures
        final(chat).same_but_packs(old(chat)),
        forall|x: usize| #[trigger] final(chat).packs@.contains(x) == packs_after(*catalog, old(chat).packs@, action, x),
{
    match action {
        Action::All(_) => {
            if chat.packs.len() == catalog.packs.len() {
                chat.packs = Vec::new();
            } else {
                add_packs(&mut chat.packs, catalog, false);
            }
        },
        Action::Official(_) => {
            if all_officials_enabled(catalog, &chat.packs) {
                chat.packs = keep_packs(&chat.packs, catalog, 0, true);
            } else {
                add_packs(&mut chat.packs, catalog, true);
            }
        },
        Action::Toggle(id, _) => {
            if id < catalog.packs.len() as u64 {
                let id = id as usize;
                if crate::parser::choice::holds(&chat.packs, id) {
                    chat.packs = keep_packs(&chat.packs, catalog, id, false);
                } else {
                    let ghost prev = chat.packs@;
                    chat.packs.push(id);
                    proof {
                        assert forall|x: usize| #[trigger] chat.packs@.contains(x) == (prev.contains(x) || x == id) by {
                            if chat.packs@.contains(x) && x != id {
                                let j = choose|j: int| 0 <= j < chat.packs@.len() && chat.packs@[j] == x;
                                assert(prev[j] == x);
                            }
                            if prev.contains(x) {
                                let j = choose|j: int| 0 <= j < prev.len() && prev[j] == x;
                                assert(chat.packs@[j] == x);
                            }
                            if x == id {
                                assert(chat.packs@[chat.packs@.len() - 1] == x);
                            }
                        }
                    }
                }
            }
        },
        _ => {},
    }
}

/// Whether pack `x` is enabled after `action`, from the enabled packs
/// `packs`.
pub open spec fn packs_after(catalog: Catalog, packs: Seq<usize>, action: Action, x: usize) -> bool {
    let n = catalog.packs@.len();
    match action {
        Action::All(_) => if packs.len() == n {
            false
        } else {
            packs.contains(x) || x < n
        },
        Action::Official(_) => if officials_enabled(catalog, packs) {
            packs.contains(x) && !(x < n && catalog.packs@[x as int].official)
        } else {
            packs.contains(x) || (x < n && catalog.packs@[x as int].official)
        },
        Action::Toggle(id, _) => if id < n {
            if x == id {
                !packs.contains(x)
            } else {
                packs.contains(x)
            }
        } else {
            packs.contains(x)
        },
        _ => packs.contains(x),
    }
}

/// The mark of a setting that is on or off.
pub open spec fn mark(on: bool) -> Seq<char> {
    if on {
        ENABLED@
    } else {
        DISABLED@
    }
}

/// The word of a button that switches something off when it is on.
pub open spec fn switch_word(on: bool) -> Seq<char> {
    if on {
        "Disable"@
    } else {
        "Enable"@
    }
}

/// Labels and data of a keyboard.
pub open spec fn rows_view(kb: Seq<Vec<Button>>) -> Seq<Seq<(Seq<char>, Seq<char>)>> {
    Seq::new(kb.len(), |i: int| pairs_view(kb[i]@))
}

/// Number of packs on the page that starts at `start`, of `n`.
pub open spec fn page_len(n: int, start: int) -> int {
    if start >= n {
        0
    } else if n - start < PAGE {
        n - start
    } else {
        PAGE as int
    }
}

/// The buttons of the packs on the page that starts at `start`.
pub open spec fn page_rows(chat: &chat::Model, catalog: Catalog, start: u64) -> Seq<Seq<(Seq<char>, Seq<char>)>> {
    Seq::new(
        page_len(catalog.packs@.len() as int, start as int) as nat,
        |i: int|
            seq![
                (
                    escaped(catalog.packs@[start + i].name@) + " "@ + mark(chat.packs@.contains((start + i) as usize)),
                    decimal((start + i) as nat) + "-"@ + decimal(start as nat),
                ),
            ],
    )
}

/// The buttons to turn the page.
pub open spec fn nav_row(n: int, start: u64) -> Seq<(Seq<char>, Seq<char>)> {
    (if start > 0 {
        seq![("<<"@, "skip"@ + decimal(if start >= PAGE { (start - PAGE) as nat } else { 0 }))]
    } else {
        seq![]
    }) + if start + PAGE < n {
        seq![(">>"@, "skip"@ + decimal((start + PAGE) as nat))]
    } else {
        seq![]
    }
}

/// The settings keyboard of `chat` showing the page of packs at `start`.
pub open spec fn keyboard_rows(chat: &chat::Model, catalog: Catalog, start: u64) -> Seq<Seq<(Seq<char>, Seq<char>)>> {
    let n = catalog.packs@.len();
    seq![
        seq![(RANDO_CARLISSIAN@ + " "@ + mark(chat.rando_carlissian), "rando"@ + decimal(start as nat))],
        seq![(switch_word(chat.packs@.len() == n) + " all packs"@, "all"@ + decimal(start as nat))],
        seq![
            (
                switch_word(officials_enabled(catalog, chat.packs@)) + " official packs"@,
                "official"@ + decimal(start as nat),
            ),
        ],
    ] + page_rows(chat, catalog, start) + seq![nav_row(n as int, start), seq![("Close settings"@, "close"@)]]
}

/// A keyboard row of one button.
fn one_button(label: String, data: String) -> (r: Vec<Button>)
    ensures
        pairs_view(r@) == seq![(label@, data@)],
{
    let ghost l = label@;
    let ghost d = data@;
    let mut r: Vec<Button> = Vec::new();
    r.push((label, data));
    assert(pairs_view(r@) =~= seq![(l, d)]);
    r
}

/// `a` followed by `b` and the decimal form of `n`.
fn text_number(a: &str, n: u64) -> (r: String)
    ensures
        r@ == a@ + decimal(n as nat),
{
    let mut s = String::new();
    push_str(&mut s, a);
    push_decimal(&mut s, n);
    assert(s@ =~= a@ + decimal(n as nat));
    s
}

/// The settings keyboard of `chat` showing the page of packs at `start`.
pub fn keyboard(chat: &chat::Model, catalog: &Catalog, start: u64) -> (r: Vec<Vec<Button>>)
    requires
        catalog.wf(),
    ensures
        rows_view(r@) == keyboard_rows(chat, *catalog, start),
{
    let n = catalog.packs.len();
    let mut kb: Vec<Vec<Button>> = Vec::new();
    let mut label = String::new();
    push_str(&mut label, RANDO_CARLISSIAN);
    push_str(&mut label, " ");
    push_str(&mut label, if chat.rando_carlissian { ENABLED } else { DISABLED });
    kb.push(one_button(label, text_number("rando", start)));
    let mut label = String::new();
    push_str(&mut label, if chat.packs.len() == n { "Disable" } else { "Enable" });
    push_str(&mut label, " all packs");
    kb.push(one_button(label, text_number("all", start)));
    let mut label = String::new();
    push_str(&mut label, if all_officials_enabled(catalog, &chat.packs) { "Disable" } else { "Enable" });
    push_str(&mut label, " official packs");
    kb.push(one_button(label, text_number("official", start)));
    let ghost head = rows_view(kb@);
    proof {
        let want = keyboard_rows(chat, *catalog, start);
        assert(head[0] == want[0]);
        assert(head[1] == want[1]);
        assert(head[2] == want[2]);
    }
    let count: u64 = if start >= n as u64 {
        0
    } else if (n as u64) - start < PAGE {
        (n as u64) - start
    } else {
        PAGE
    };
    let mut i: u64 = 0;
    while i < count
        invariant
            catalog.wf(),
            n == catalog.packs@.len(),
            count == page_len(n as int, start as int),
            i <= count,
            kb@.len() == 3 + i,
            rows_view(kb@) == head + page_rows(chat, *catalog, start).subrange(0, i as int),
        decreases count - i,
    {
        let p = (start + i) as usize;
        let mut label = catalog.packs[p].name();
        push_str(&mut label, " ");
        push_str(&mut label, if crate::parser::choice::holds(&chat.packs, p) { ENABLED } else { DISABLED });
        let mut data = String::new();
        push_decimal(&mut data, start + i);
        push_str(&mut data, "-");
        push_decimal(&mut data, start);
        let ghost prev = rows_view(kb@);
        kb.push(one_button(label, data));
        proof {
            assert(rows_view(kb@) =~= prev.push(page_rows(chat, *catalog, start)[i as int]));
            assert(rows_view(kb@) =~= head + page_rows(chat, *catalog, start).subrange(0, i + 1));
        }
        i = i + 1;
    }
    let mut nav: Vec<Button> = Vec::new();
    if start > 0 {
        nav.push((String::from_str("<<"), text_number("skip", if start >= PAGE { start - PAGE } else { 0 })));
    }
    if start < n as u64 && (n as u64) - start > PAGE {
        nav.push((String::from_str(">>"), text_number("skip", start + PAGE)));
    }
    proof {
        assert(pairs_view(nav@) =~= nav_row(n as int, start));
    }
    let ghost before_nav = rows_view(kb@);
    let ghost nav_view = pairs_view(nav@);
    kb.push(nav);
    let ghost mid = rows_view(kb@);
    let close_row = one_button(String::from_str("Close settings"), String::from_str("close"));
    let ghost close_view = pairs_view(close_row@);
    kb.push(close_row);
    proof {
        assert(mid =~= before_nav.push(nav_view));
        assert(rows_view(kb@) =~= mid.push(close_view));
        let want = keyboard_rows(chat, *catalog, start);
        assert(want.len() == rows_view(kb@).len());
        assert(page_rows(chat, *catalog, start).subrange(0, count as int) =~= page_rows(chat, *catalog, start));
        assert(rows_view(kb@) =~= keyboard_rows(chat, *catalog, start));
    }
    kb
}

/// What the settings command shows: the keyboard, and the announcement of
/// a round dealt when the automated player joined.
#[derive(Debug)]
pub struct SettingsView {
    pub keyboard: Vec<Vec<Button>>,
    pub round: Option<String>,
}

/// The action asked for by the data of a pressed button, if any.
pub open spec fn action_for(query_data: Option<&str>) -> Action {
    match query_data {
        Some(d) => action_of(d@),
        None => Action::Unknown,
    }
}

/// What the owner's `action` does to `before`, giving `after` and `r`:
/// toggling the automated player deals the round when enough players then
/// take part (and undoes it all when that fails); the pack buttons change
/// the enabled packs; the keyboard shows the page asked for, unless closed.
pub open spec fn settings_outcome(
    before: &chat::Model,
    after: &chat::Model,
    catalog: Catalog,
    action: Action,
    r: Result<Option<SettingsView>, SettingsError>,
) -> bool {
    &&& r is Err ==> r->Err_0 is Chat && action is Rando && after.same_as(before)
    &&& r is Ok ==> {
        &&& r->Ok_0 is Some
        &&& rows_view(r->Ok_0->Some_0.keyboard@) == if action is Close {
            seq![]
        } else {
            keyboard_rows(after, catalog, start_of(action))
        }
        &&& if action is Rando {
            &&& after.rando_carlissian == !before.rando_carlissian
            &&& after.packs@ == before.packs@
            &&& after.members@ == before.members@
            &&& after.players == before.players
            &&& if effective_players(before.players, !before.rando_carlissian) >= QUORUM {
                &&& after.turn == if before.turn == 0 {
                    1
                } else {
                    before.turn
                }
                &&& r->Ok_0->Some_0.round is Some
                &&& exists|c: usize|
                    dealt_round(
                        before.hands@,
                        before.packs@,
                        after.turn,
                        after.players,
                        after.rando_carlissian,
                        catalog,
                        c,
                        after.hands@,
                        after.pick,
                    ) && r->Ok_0->Some_0.round->Some_0@ == after.round_text(catalog, c)
            } else {
                &&& r->Ok_0->Some_0.round is None
                &&& after.hands@ == before.hands@
                &&& after.turn == before.turn
                &&& after.pick == before.pick
            }
        } else {
            &&& r->Ok_0->Some_0.round is None
            &&& after.same_but_packs(before)
            &&& forall|x: usize| #[trigger] after.packs@.contains(x) == packs_after(catalog, before.packs@, action, x)
        }
    }
}

/// Shows the settings of `chat` to the sender, known as `telegram_id`, and
/// applies the button they pressed, whose data is `query_data`. Ignored
/// when the sender does not play; refused once the first round is over,
/// and to anybody but the owner (silently for a pressed button).
pub fn execute(
    chat: &mut chat::Model,
    catalog: &Catalog,
    telegram_id: i64,
    query_data: Option<&str>,
) -> (r: Result<Option<SettingsView>, SettingsError>)
    requires
        catalog.wf(),
        old(chat).wf(catalog),
    ensures
        final(chat).wf(catalog),
        ({
            let before = old(chat);
            let plays = player::has_player(before, telegram_id);
            let owner = before.members@[0];
            let by_owner = plays && before.turn <= 1 && owner.telegram_id == telegram_id;
            let rando = !before.rando_carlissian;
            &&& !plays ==> r is Ok && r->Ok_0 is None && final(chat).same_as(before)
            &&& plays && before.turn > 1 ==> r is Err && r->Err_0 is AlreadyStarter
                && final(chat).same_as(before)
            &&& plays && before.turn <= 1 && owner.telegram_id != telegram_id ==> final(chat).same_as(
                before,
            ) && if query_data is None {
                r is Err && r->Err_0 is NotOwner && r->Err_0->NotOwner_0@ == player::link_of(
                    owner.name@,
                    owner.telegram_id,
                )
            } else {
                r is Ok && r->Ok_0 is None
            }
            &&& by_owner ==> settings_outcome(before, final(chat), *catalog, action_for(query_data), r)
            &&& by_owner && (effective_players(before.players, rando) < QUORUM || chat::enough_cards(
                before.hands@,
                before.packs@,
                if before.turn == 0 {
                    1
                } else {
                    before.turn
                },
                before.players,
                rando,
                *catalog,
            )) ==> r is Ok
        }),
{
    if player::find(chat, telegram_id).is_none() {
        return Ok(None);
    }
    if chat.turn > 1 {
        return Err(SettingsError::AlreadyStarter);
    }
    if chat.members[0].telegram_id != telegram_id {
        if query_data.is_none() {
            return Err(SettingsError::NotOwner(chat.members[0].tg_link()));
        } else {
            return Ok(None);
        }
    }
    let action = match query_data {
        Some(d) => parse_action(d),
        None => Action::Unknown,
    };
    let mut start: u64 = 0;
    let mut round: Option<String> = None;
    match action {
        Action::Close => {},
        Action::Skip(n) => {
            start = n;
        },
        Action::Rando(n) => {
            start = n;
            let old_turn = chat.turn;
            chat.rando_carlissian = !chat.rando_carlissian;
            let rando: u64 = if chat.rando_carlissian { 1 } else { 0 };
            if chat.players >= QUORUM || chat.players + rando >= QUORUM {
                if chat.turn == 0 {
                    proof {
                        chat::lemma_responses_later(chat.hands@, 0, 1, catalog.cards@);
                        assert(rows_until(chat.hands@, 1)) by {
                            assert forall|a: int| 0 <= a < chat.hands@.len() implies (#[trigger] chat.hands@[a]).picked_on_turn
                                <= 1 && match chat.hands@[a].played_on_turn {
                                Some(t) => t <= 1,
                                None => true,
                            } by {
                                assert(chat.hands@[a].picked_on_turn <= 0);
                            }
                        }
                    }
                    chat.turn = 1;
                }
                match chat.reset(catalog) {
                    Ok(c) => {
                        proof {
                            assert(chat.players > 0);
                            assert(chat.wf_members());
                        }
                        let msg = chat.round_message(catalog, c);
                        round = Some(msg);
                    },
                    Err(e) => {
                        chat.rando_carlissian = !chat.rando_carlissian;
                        chat.turn = old_turn;
                        return Err(SettingsError::Chat(e));
                    },
                }
            }
        },
        Action::All(n) => {
            start = n;
            apply_packs(chat, catalog, action);
        },
        Action::Official(n) => {
            start = n;
            apply_packs(chat, catalog, action);
        },
        Action::Toggle(_, n) => {
            start = n;
            apply_packs(chat, catalog, action);
        },
        Action::Unknown => {},
    }
    let keyboard = if action == Action::Close {
        Vec::new()
    } else {
        keyboard(chat, catalog, start)
    };
    proof {
        if action == Action::Close {
            assert(rows_view(keyboard@) =~= seq![]);
        }
    }
    Ok(Some(SettingsView { keyboard, round }))
}

} // verus!
