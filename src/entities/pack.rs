//! Packs and the card catalog built from them.
use vstd::prelude::*;
use crate::entities::card;
use crate::utils::{escape_markdown, escaped};

verus! {

/// A pack of the catalog. Its `id` is its position in the catalog.
pub struct Model {
    pub id: usize,
    pub name: String,
    pub official: bool,
}

impl Model {
    /// The pack's name, escaped for markup.
    pub fn name(&self) -> (r: String)
        ensures
            r@ == escaped(self.name@),
    {
        escape_markdown(self.name.as_str())
    }
}

/// The catalog: every pack and every card, each identified by its position.
pub struct Catalog {
    pub packs: Vec<Model>,
    pub cards: Vec<card::Model>,
}

impl Catalog {
    /// Identities are positions and every card belongs to a known pack.
    pub open spec fn wf(&self) -> bool {
        &&& forall|i: int| 0 <= i < self.packs@.len() ==> (#[trigger] self.packs@[i]).id == i
        &&& forall|i: int|
            0 <= i < self.cards@.len() ==> {
                &&& (#[trigger] self.cards@[i]).id == i
                &&& self.cards@[i].pack_id < self.packs@.len()
            }
    }
}

/// A card as the catalog's data gives it.
pub struct Card {
    pub text: String,
    /// Responses a prompt asks for, when more than one.
    pub pick: Option<u64>,
}

/// A pack as the catalog's data gives it.
pub struct Pack {
    pub name: String,
    pub white: Vec<Card>,
    pub black: Vec<Card>,
    pub official: bool,
}

/// Pack, colour, text and pick count of a card.
pub type Entry = (usize, card::Color, Seq<char>, Option<u64>);

/// The entries of the cards of `cards`, of colour `color`, in pack `pack`.
pub open spec fn entries_of(cards: Seq<Card>, pack: usize, color: card::Color) -> Seq<Entry> {
    Seq::new(cards.len(), |i: int| (pack, color, cards[i].text@, cards[i].pick))
}

/// The cards of the packs `data`, pack after pack, the prompt cards of a
/// pack before its response cards.
pub open spec fn catalog_entries(data: Seq<Pack>) -> Seq<Entry>
    decreases data.len(),
{
    if data.len() == 0 {
        seq![]
    } else {
        let p = data.last();
        let i = (data.len() - 1) as usize;
        catalog_entries(data.drop_last()) + entries_of(p.black@, i, card::Color::Black) + entries_of(
            p.white@,
            i,
            card::Color::White,
        )
    }
}

/// The entries of the cards of a catalog.
pub open spec fn card_entries(cards: Seq<card::Model>) -> Seq<Entry> {
    Seq::new(cards.len(), |i: int| (cards[i].pack_id, cards[i].color, cards[i].text@, cards[i].pick))
}

/// Appends the cards `cards` of pack `pack` to the catalog `out`.
fn push_cards(out: &mut Vec<card::Model>, cards: &Vec<Card>, pack: usize, color: card::Color)
    requires
        forall|i: int| 0 <= i < old(out)@.len() ==> (#[trigger] old(out)@[i]).id == i,
    ensures
        final(out)@.len() == old(out)@.len() + cards@.len(),
        forall|i: int| 0 <= i < final(out)@.len() ==> (#[trigger] final(out)@[i]).id == i,
        final(out)@.subrange(0, old(out)@.len() as int) == old(out)@,
        card_entries(final(out)@) == card_entries(old(out)@) + entries_of(cards@, pack, color),
        forall|i: int| old(out)@.len() <= i < final(out)@.len() ==> (#[trigger] final(out)@[i]).pack_id == pack,
{
    let ghost start = out@;
    let mut i: usize = 0;
    while i < cards.len()
        invariant
            i <= cards@.len(),
            out@.len() == start.len() + i,
            out@.subrange(0, start.len() as int) == start,
            forall|k: int| 0 <= k < out@.len() ==> (#[trigger] out@[k]).id == k,
            card_entries(out@) == card_entries(start) + entries_of(cards@.subrange(0, i as int), pack, color),
            forall|k: int| start.len() <= k < out@.len() ==> (#[trigger] out@[k]).pack_id == pack,
        decreases cards@.len() - i,
    {
        let id = out.len();
        let ghost prev = out@;
        let text = cards[i].text.clone();
        assert(text@ == cards@[i as int].text@);
        out.push(card::Model {
            id,
            pack_id: pack,
            color,
            pick: cards[i].pick,
            text,
        });
        proof {
            let e = (pack, color, cards@[i as int].text@, cards@[i as int].pick);
            assert(card_entries(out@) =~= card_entries(prev).push(e));
            assert(entries_of(cards@.subrange(0, i + 1), pack, color) =~= entries_of(
                cards@.subrange(0, i as int),
                pack,
                color,
            ).push(e));
            assert(out@.subrange(0, start.len() as int) =~= start);
            assert(card_entries(out@) =~= card_entries(start) + entries_of(cards@.subrange(0, i + 1), pack, color));
        }
        i = i + 1;
    }
    assert(cards@.subrange(0, i as int) =~= cards@);
}

/// Builds the catalog from the packs `data`: each pack and card gets its
/// position as id.
pub fn init(data: &Vec<Pack>) -> (r: Catalog)
    ensures
        r.wf(),
        r.packs@.len() == data@.len(),
        forall|i: int| 0 <= i < data@.len() ==> (#[trigger] r.packs@[i]).name@ == data@[i].name@
            && r.packs@[i].official == data@[i].official,
        card_entries(r.cards@) == catalog_entries(data@),
{
    let mut packs: Vec<Model> = Vec::new();
    let mut cards: Vec<card::Model> = Vec::new();
    let mut i: usize = 0;
    while i < data.len()
        invariant
            i <= data@.len(),
            packs@.len() == i,
            forall|k: int| 0 <= k < i ==> (#[trigger] packs@[k]).id == k && packs@[k].name@ == data@[k].name@
                && packs@[k].official == data@[k].official,
            forall|k: int| 0 <= k < cards@.len() ==> (#[trigger] cards@[k]).id == k && cards@[k].pack_id < i,
            card_entries(cards@) == catalog_entries(data@.subrange(0, i as int)),
        decreases data@.len() - i,
    {
        let pack = &data[i];
        packs.push(Model { id: i, name: pack.name.clone(), official: pack.official });
        let ghost before = cards@;
        push_cards(&mut cards, &pack.black, i, card::Color::Black);
        let ghost mid = cards@;
        push_cards(&mut cards, &pack.white, i, card::Color::White);
        proof {
            assert(data@.subrange(0, i + 1).drop_last() =~= data@.subrange(0, i as int));
            assert forall|k: int| 0 <= k < cards@.len() implies (#[trigger] cards@[k]).pack_id < i + 1 by {
                if k < mid.len() {
                    assert(cards@[k] == cards@.subrange(0, mid.len() as int)[k]);
                    if k < before.len() {
                        assert(mid[k] == mid.subrange(0, before.len() as int)[k]);
                    }
                }
            }
        }
        i = i + 1;
    }
    assert(data@.subrange(0, i as int) =~= data@);
    Catalog { packs, cards }
}

} // verus!
