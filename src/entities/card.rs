//! Cards of the catalog: prompt ("black") and response ("white") cards.
use vstd::prelude::*;
use crate::text::{decimal, push_decimal, push_str};
use crate::utils::{escape_markdown, escaped};

verus! {

/// The two kinds of card: a prompt is answered with responses.
#[derive(Clone, Copy, Debug, PartialEq, Eq, Structural)]
pub enum Color {
    Black,
    White,
}

/// A card of the catalog. Its `id` is its position in the catalog.
pub struct Model {
    pub id: usize,
    pub pack_id: usize,
    pub color: Color,
    pub pick: Option<u64>,
    pub text: String,
}

/// Number of responses a prompt asks for: one unless stated otherwise.
pub open spec fn pick_count(pick: Option<u64>) -> u64 {
    match pick {
        Some(p) => p,
        None => 1,
    }
}

/// How a prompt card is shown: its escaped text in bold, and the number of
/// responses when it asks for more than one.
pub open spec fn descr_of(text: Seq<char>, pick: Option<u64>) -> Seq<char> {
    "*"@ + escaped(text) + "*"@ + match pick {
        Some(p) => if p > 1 {
            "\nPick "@ + decimal(p as nat)
        } else {
            seq![]
        },
        None => seq![],
    }
}

impl Model {
    /// The card's text, escaped for markup.
    pub fn text(&self) -> (r: String)
        ensures
            r@ == escaped(self.text@),
    {
        escape_markdown(self.text.as_str())
    }

    /// How the card is shown as a prompt.
    pub fn descr(&self) -> (r: String)
        ensures
            r@ == descr_of(self.text@, self.pick),
    {
        let mut descr = String::new();
        push_str(&mut descr, "*");
        let t = self.text();
        push_str(&mut descr, t.as_str());
        push_str(&mut descr, "*");
        if let Some(pick) = self.pick {
            if pick > 1 {
                push_str(&mut descr, "\nPick ");
                push_decimal(&mut descr, pick);
            }
        }
        proof {
            reveal_strlit("*");
        }
        assert(descr@ =~= descr_of(self.text@, self.pick));
        descr
    }

    /// Number of responses this card asks for.
    pub fn pick(&self) -> (r: u64)
        ensures
            r == pick_count(self.pick),
    {
        match self.pick {
            Some(p) => p,
            None => 1,
        }
    }
}

} // verus!
