//! The commands of the game, one module each, and the parsing of what
//! players send.
pub mod start;
pub mod choice;
pub mod close;
pub mod play;
pub mod settings;
pub mod status;
pub mod rank;
pub mod help;

use vstd::prelude::*;
use crate::parser::play::{words, words_of};
use crate::text::{digits_value, is_number, parse_number};

verus! {

/// The commands of the game.
#[derive(Clone, Copy, Debug, PartialEq, Eq, Structural)]
pub enum Command {
    Help,
    Start,
    Settings,
    Status,
    Rank,
    Close,
}

/// Errors of the chat service with this code are the service refusing a
/// request, such as a message it cannot show: they are let go, where other
/// errors end the handling of the update.
pub fn ignored_error(code: Option<i64>) -> (r: bool)
    ensures
        r == (code == Some(400i64)),
{
    match code {
        Some(c) => c == 400,
        None => false,
    }
}

/// `s` ends with `p`.
pub open spec fn ends_with(s: Seq<char>, p: Seq<char>) -> bool {
    p.len() <= s.len() && s.subrange(s.len() - p.len(), s.len() as int) == p
}

/// The command named `w`.
pub open spec fn command_named(w: Seq<char>) -> Option<Command> {
    if w == "/help"@ {
        Some(Command::Help)
    } else if w == "/start"@ {
        Some(Command::Start)
    } else if w == "/settings"@ {
        Some(Command::Settings)
    } else if w == "/status"@ {
        Some(Command::Status)
    } else if w == "/rank"@ {
        Some(Command::Rank)
    } else if w == "/close"@ {
        Some(Command::Close)
    } else {
        None
    }
}

/// The command that `msg` starts with, the bot's name `bot_name` allowed
/// after it.
pub open spec fn command_of(msg: Seq<char>, bot_name: Seq<char>) -> Option<Command> {
    let ws = words_of(msg);
    if ws.len() == 0 {
        None
    } else {
        let w = ws[0];
        command_named(
            if ends_with(w, bot_name) {
                w.subrange(0, w.len() - bot_name.len())
            } else {
                w
            },
        )
    }
}

/// Whether `s` ends with `p`.
pub fn has_suffix(s: &str, p: &str) -> (r: bool)
    ensures
        r == ends_with(s@, p@),
{
    let n = s.unicode_len();
    let m = p.unicode_len();
    if m > n {
        return false;
    }
    let mut i: usize = 0;
    while i < m
        invariant
            m <= n,
            n == s@.len(),
            m == p@.len(),
            i <= m,
            forall|k: int| 0 <= k < i ==> s@[n - m + k] == p@[k],
        decreases m - i,
    {
        if s.get_char(n - m + i) != p.get_char(i) {
            proof {
                assert(s@.subrange(n - m, n as int)[i as int] != p@[i as int]);
            }
            return false;
        }
        i = i + 1;
    }
    assert(s@.subrange(n - m, n as int) =~= p@);
    true
}

/// Whether `s` is `t`.
fn same_text(s: &str, t: &str) -> (r: bool)
    ensures
        r == (s@ == t@),
{
    let n = s.unicode_len();
    if n != t.unicode_len() {
        return false;
    }
    let mut i: usize = 0;
    while i < n
        invariant
            n == s@.len(),
            n == t@.len(),
            i <= n,
            forall|k: int| 0 <= k < i ==> s@[k] == t@[k],
        decreases n - i,
    {
        if s.get_char(i) != t.get_char(i) {
            return false;
        }
        i = i + 1;
    }
    assert(s@ =~= t@);
    true
}

/// Reads the command a message starts with; the bot's name `bot_name` may
/// follow the command.
pub fn parse_message(msg: &str, bot_name: &str) -> (r: Option<Command>)
    ensures
        r == command_of(msg@, bot_name@),
{
    let ws = words(msg);
    if ws.len() == 0 {
        return None;
    }
    let first = ws[0].as_str();
    let w = if has_suffix(first, bot_name) {
        let n = first.unicode_len();
        let m = bot_name.unicode_len();
        first.substring_char(0, n - m)
    } else {
        first
    };
    if same_text(w, "/help") {
        Some(Command::Help)
    } else if same_text(w, "/start") {
        Some(Command::Start)
    } else if same_text(w, "/settings") {
        Some(Command::Settings)
    } else if same_text(w, "/status") {
        Some(Command::Status)
    } else if same_text(w, "/rank") {
        Some(Command::Rank)
    } else if same_text(w, "/close") {
        Some(Command::Close)
    } else {
        None
    }
}

/// The game a hand is opened for: the query is its id.
pub fn parse_inline_query(query: &str) -> (r: Option<u64>)
    ensures
        r is Some <==> is_number(query@),
        r is Some ==> r->Some_0 == digits_value(query@),
{
    let n = query.unicode_len();
    let r = parse_number(query, 0, n);
    assert(query@.subrange(0, n as int) =~= query@);
    r
}

/// Position of the first `;` of `s`, or its length.
pub open spec fn id_end(s: Seq<char>) -> int
    decreases s.len(),
{
    if s.len() == 0 {
        0
    } else if id_end(s.drop_last()) < s.len() - 1 {
        id_end(s.drop_last())
    } else if s.last() == ';' {
        s.len() - 1
    } else {
        s.len() as int
    }
}

/// The words of `s` before its first `;` are all numbers: the cards chosen.
pub open spec fn chosen_cards(s: Seq<char>, r: Option<Vec<usize>>) -> bool {
    let ws = words_of(s.subrange(0, id_end(s)));
    match r {
        Some(v) => ws.len() > 0 && v@.len() == ws.len() && forall|i: int|
            0 <= i < ws.len() ==> is_number(#[trigger] ws[i]) && digits_value(ws[i]) <= usize::MAX
                && v@[i] == digits_value(ws[i]),
        None => ws.len() == 0 || exists|i: int|
            0 <= i < ws.len() && !(is_number(#[trigger] ws[i]) && digits_value(ws[i]) <= usize::MAX),
    }
}

/// Reads the cards of a chosen option from its id: numbers separated by
/// white space, up to the first `;`.
pub fn parse_inline_query_response(result_id: &str) -> (r: Option<Vec<usize>>)
    ensures
        chosen_cards(result_id@, r),
{
    let n = result_id.unicode_len();
    let mut k: usize = 0;
    let mut stop = false;
    while !stop && k < n
        invariant
            n == result_id@.len(),
            k <= n,
            id_end(result_id@.subrange(0, k as int)) == k,
            stop ==> k < n && result_id@[k as int] == ';',
        decreases n - k + if stop { 0int } else { 1int },
    {
        assert(result_id@.subrange(0, k + 1).drop_last() =~= result_id@.subrange(0, k as int));
        if result_id.get_char(k) == ';' {
            stop = true;
        } else {
            k = k + 1;
        }
    }
    proof {
        lemma_id_end(result_id@, k as int);
    }
    let head = result_id.substring_char(0, k);
    assert(head@ == result_id@.subrange(0, id_end(result_id@)));
    let ws = words(head);
    if ws.len() == 0 {
        return None;
    }
    let mut out: Vec<usize> = Vec::new();
    let mut i: usize = 0;
    while i < ws.len()
        invariant
            i <= ws@.len(),
            head@ == result_id@.subrange(0, id_end(result_id@)),
            ws@.len() == words_of(head@).len(),
            forall|j: int| 0 <= j < ws@.len() ==> (#[trigger] ws@[j])@ == words_of(head@)[j],
            out@.len() == i,
            forall|j: int|
                0 <= j < i ==> is_number(#[trigger] words_of(head@)[j]) && digits_value(words_of(head@)[j])
                    <= usize::MAX && out@[j] == digits_value(words_of(head@)[j]),
        decreases ws@.len() - i,
    {
        let w = ws[i].as_str();
        let len = w.unicode_len();
        proof {
            assert(w@.subrange(0, len as int) =~= w@);
        }
        match parse_number(w, 0, len) {
            Some(v) => {
                if v > usize::MAX as u64 {
                    proof {
                        assert(!(is_number(words_of(head@)[i as int]) && digits_value(words_of(head@)[i as int]) <= usize::MAX));
                    }
                    return None;
                }
                out.push(v as usize);
            },
            None => {
                proof {
                    assert(!(is_number(words_of(head@)[i as int]) && digits_value(words_of(head@)[i as int]) <= usize::MAX));
                }
                return None;
            },
        }
        i = i + 1;
    }
    Some(out)
}

/// The scan for `;` stops at `id_end`.
proof fn lemma_id_end(s: Seq<char>, k: int)
    requires
        0 <= k <= s.len(),
        id_end(s.subrange(0, k)) == k,
        k < s.len() ==> s[k] == ';',
    ensures
        id_end(s) == k,
    decreases s.len() - k,
{
    if k < s.len() {
        lemma_id_end_stays(s, k + 1);
        assert(s.subrange(0, k + 1).drop_last() =~= s.subrange(0, k));
    } else {
        assert(s.subrange(0, k) =~= s);
    }
}

/// Once a `;` is found, `id_end` no longer changes.
proof fn lemma_id_end_stays(s: Seq<char>, n: int)
    requires
        0 < n <= s.len(),
    ensures
        id_end(s.subrange(0, n)) < n ==> id_end(s) == id_end(s.subrange(0, n)),
    decreases s.len() - n,
{
    if n < s.len() {
        lemma_id_end_stays(s, n + 1);
        assert(s.subrange(0, n + 1).drop_last() =~= s.subrange(0, n));
    } else {
        assert(s.subrange(0, n) =~= s);
    }
}

} // verus!
