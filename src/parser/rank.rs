//! The ranking of the players of a game.
use vstd::prelude::*;
use crate::entities::chat;
use crate::entities::chat::won_by;
use crate::entities::hand::AUTO_PLAYER;
use crate::text::{decimal, push_decimal, push_str};

verus! {

/// Position of the first highest score among `s`, a list of scores and
/// player ids.
pub open spec fn max_index(s: Seq<(u64, u64)>) -> int
    decreases s.len(),
{
    if s.len() <= 1 {
        0
    } else {
        let m = max_index(s.drop_last());
        if s.last().0 > s[m].0 {
            s.len() - 1
        } else {
            m
        }
    }
}

/// `max_index` points at a highest score.
pub proof fn lemma_max_index(s: Seq<(u64, u64)>)
    requires
        s.len() > 0,
    ensures
        0 <= max_index(s) < s.len(),
        forall|j: int| 0 <= j < s.len() ==> #[trigger] s[j].0 <= s[max_index(s)].0,
    decreases s.len(),
{
    if s.len() > 1 {
        lemma_max_index(s.drop_last());
        let m = max_index(s.drop_last());
        assert forall|j: int| 0 <= j < s.len() implies #[trigger] s[j].0 <= s[max_index(s)].0 by {
            if j < s.len() - 1 {
                assert(s[j] == s.drop_last()[j]);
            }
            assert(s[m] == s.drop_last()[m]);
        }
    }
}

/// `s` from the highest score down; equal scores keep their order.
pub open spec fn ranking(s: Seq<(u64, u64)>) -> Seq<(u64, u64)>
    decreases s.len(),
{
    if s.len() == 0 {
        seq![]
    } else {
        let m = max_index(s);
        if 0 <= m < s.len() {
            seq![s[m]] + ranking(s.remove(m))
        } else {
            seq![]
        }
    }
}

/// Scores and ids of the players in order, then the automated player's.
pub open spec fn scores(chat: &chat::Model) -> Seq<(u64, u64)> {
    Seq::new(chat.members@.len(), |i: int| (chat.members@[i].points, chat.members@[i].id)) + if chat.rando_carlissian {
        seq![(won_by(chat.hands@, AUTO_PLAYER) as u64, AUTO_PLAYER)]
    } else {
        seq![]
    }
}

/// The lines of the ranking `r`.
pub open spec fn rank_lines(chat: &chat::Model, r: Seq<(u64, u64)>) -> Seq<char>
    decreases r.len(),
{
    if r.len() == 0 {
        seq![]
    } else {
        rank_lines(chat, r.drop_last()) + "\n"@ + chat.name_of(r.last().1) + " "@ + decimal(r.last().0 as nat) + " points"@
    }
}

/// The ranking of `chat`: the turn, then every player with their points,
/// from the highest down.
pub open spec fn rank_text(chat: &chat::Model) -> Seq<char> {
    "Turn "@ + decimal(chat.turn as nat) + "\n"@ + rank_lines(chat, ranking(scores(chat)))
}

/// Position of the first highest score.
fn first_max(s: &Vec<(u64, u64)>) -> (r: usize)
    requires
        s@.len() > 0,
    ensures
        r == max_index(s@),
{
    let mut m: usize = 0;
    let mut i: usize = 1;
    while i < s.len()
        invariant
            1 <= i <= s@.len(),
            m == max_index(s@.subrange(0, i as int)),
            m < i,
        decreases s@.len() - i,
    {
        proof {
            assert(s@.subrange(0, i + 1).drop_last() =~= s@.subrange(0, i as int));
            assert(s@.subrange(0, i + 1)[m as int] == s@[m as int]);
        }
        if s[i].0 > s[m].0 {
            m = i;
        }
        i = i + 1;
    }
    assert(s@.subrange(0, i as int) =~= s@);
    m
}

/// `s` from the highest score down; equal scores keep their order.
pub fn rank_scores(s: Vec<(u64, u64)>) -> (r: Vec<(u64, u64)>)
    ensures
        r@ == ranking(s@),
{
    let ghost init = s@;
    let mut rest = s;
    let mut out: Vec<(u64, u64)> = Vec::new();
    while rest.len() > 0
        invariant
            out@ + ranking(rest@) == ranking(init),
        decreases rest@.len(),
    {
        let m = first_max(&rest);
        proof {
            lemma_max_index(rest@);
        }
        let ghost before = rest@;
        let e = rest.remove(m);
        out.push(e);
        proof {
            assert(ranking(before) == seq![before[m as int]] + ranking(rest@));
            assert(out@ + ranking(rest@) =~= out@.drop_last() + ranking(before));
        }
    }
    assert(out@ + ranking(rest@) =~= out@);
    out
}

/// The scores of the game.
fn game_scores(chat: &chat::Model) -> (r: Vec<(u64, u64)>)
    ensures
        r@ == scores(chat),
{
    let mut r: Vec<(u64, u64)> = Vec::new();
    let mut i: usize = 0;
    while i < chat.members.len()
        invariant
            i <= chat.members@.len(),
            r@ == Seq::new(i as nat, |k: int| (chat.members@[k].points, chat.members@[k].id)),
        decreases chat.members@.len() - i,
    {
        r.push((chat.members[i].points, chat.members[i].id));
        assert(r@ =~= Seq::new((i + 1) as nat, |k: int| (chat.members@[k].points, chat.members@[k].id)));
        i = i + 1;
    }
    if chat.rando_carlissian {
        r.push((chat::won_count(&chat.hands, AUTO_PLAYER), AUTO_PLAYER));
    }
    assert(r@ =~= scores(chat));
    r
}

/// Every id of the ranking names a player of the game or the automated
/// player.
proof fn lemma_ranking_ids(s: Seq<(u64, u64)>, n: u64)
    requires
        forall|i: int| 0 <= i < s.len() ==> (#[trigger] s[i]).1 <= n,
    ensures
        forall|i: int| 0 <= i < ranking(s).len() ==> (#[trigger] ranking(s)[i]).1 <= n,
    decreases s.len(),
{
    if s.len() > 0 {
        lemma_max_index(s);
        let m = max_index(s);
        let t = s.remove(m);
        assert forall|i: int| 0 <= i < t.len() implies (#[trigger] t[i]).1 <= n by {
            if i < m {
                assert(t[i] == s[i]);
            } else {
                assert(t[i] == s[i + 1]);
            }
        }
        lemma_ranking_ids(t, n);
        let r = ranking(s);
        assert forall|i: int| 0 <= i < r.len() implies (#[trigger] r[i]).1 <= n by {
            if i > 0 {
                assert(r[i] == ranking(t)[i - 1]);
            }
        }
    }
}

/// Shows the ranking of `chat`.
pub fn execute(chat: &chat::Model) -> (r: String)
    requires
        chat.wf_members(),
    ensures
        r@ == rank_text(chat),
{
    let ranked = rank_scores(game_scores(chat));
    proof {
        assert forall|i: int| 0 <= i < scores(chat).len() implies (#[trigger] scores(chat)[i]).1 <= chat.players by {
            if i < chat.members@.len() {
                assert(chat.members@[i].id == i + 1);
            }
        }
        lemma_ranking_ids(scores(chat), chat.players);
    }
    let mut msg = String::new();
    push_str(&mut msg, "Turn ");
    push_decimal(&mut msg, chat.turn);
    push_str(&mut msg, "\n");
    let ghost head = msg@;
    let mut i: usize = 0;
    while i < ranked.len()
        invariant
            chat.wf_members(),
            i <= ranked@.len(),
            forall|k: int| 0 <= k < ranked@.len() ==> (#[trigger] ranked@[k]).1 <= chat.players,
            msg@ == head + rank_lines(chat, ranked@.subrange(0, i as int)),
        decreases ranked@.len() - i,
    {
        let (points, id) = ranked[i];
        push_str(&mut msg, "\n");
        let name = chat.name(id);
        push_str(&mut msg, name.as_str());
        push_str(&mut msg, " ");
        push_decimal(&mut msg, points);
        push_str(&mut msg, " points");
        proof {
            assert(ranked@.subrange(0, i + 1).drop_last() =~= ranked@.subrange(0, i as int));
            assert(msg@ =~= head + rank_lines(chat, ranked@.subrange(0, i + 1)));
        }
        i = i + 1;
    }
    assert(ranked@.subrange(0, i as int) =~= ranked@);
    msg
}

} // verus!
