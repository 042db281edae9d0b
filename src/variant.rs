use vstd::prelude::*;

verus! {

/// The poker variants a table can be configured for.
#[derive(Debug, Clone, Copy, PartialEq, Eq, Structural)]
pub enum PokerVariant {
    Kuhn,
    ThreeCard,
    FiveCard,
    TexasHoldem,
    OmahaHoldem,
}

impl PokerVariant {
    /// How many hole cards each seat is dealt in this variant.
    pub open spec fn spec_hole_cards(self) -> nat {
        match self {
            PokerVariant::Kuhn => 1,
            PokerVariant::ThreeCard => 3,
            PokerVariant::FiveCard => 5,
            PokerVariant::TexasHoldem => 2,
            PokerVariant::OmahaHoldem => 4,
        }
    }

    /// How many community cards this variant deals (none for draw games).
    pub open spec fn spec_community_cards(self) -> nat {
        match self {
            PokerVariant::TexasHoldem | PokerVariant::OmahaHoldem => 5,
            _ => 0,
        }
    }

    /// The number of hole cards of the variant.
    pub fn hole_cards(&self) -> (r: usize)
        ensures
            r == self.spec_hole_cards(),
    {
        match self {
            PokerVariant::Kuhn => 1,
            PokerVariant::ThreeCard => 3,
            PokerVariant::FiveCard => 5,
            PokerVariant::TexasHoldem => 2,
            PokerVariant::OmahaHoldem => 4,
        }
    }

    /// The number of community cards of the variant.
    pub fn community_cards(&self) -> (r: usize)
        ensures
            r == self.spec_community_cards(),
    {
        match self {
            PokerVariant::TexasHoldem | PokerVariant::OmahaHoldem => 5,
            _ => 0,
        }
    }

    /// The name of the variant as shown to players.
    pub fn display_name(&self) -> (r: &'static str)
        ensures
            *self == PokerVariant::Kuhn ==> r@ == "Kuhn"@,
            *self == PokerVariant::ThreeCard ==> r@ == "Three Card"@,
            *self == PokerVariant::FiveCard ==> r@ == "Five Card"@,
            *self == PokerVariant::TexasHoldem ==> r@ == "Texas Holdem"@,
            *self == PokerVariant::OmahaHoldem ==> r@ == "Omaha Holdem"@,
    {
        let r = match self {
            PokerVariant::Kuhn => "Kuhn",
            PokerVariant::ThreeCard => "Three Card",
            PokerVariant::FiveCard => "Five Card",
            PokerVariant::TexasHoldem => "Texas Holdem",
            PokerVariant::OmahaHoldem => "Omaha Holdem",
        };
        proof {
            reveal_strlit("Kuhn");
            reveal_strlit("Three Card");
            reveal_strlit("Five Card");
            reveal_strlit("Texas Holdem");
            reveal_strlit("Omaha Holdem");
        }
        r
    }
}

} // verus!
