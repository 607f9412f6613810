//! The strength of a hand: a number that orders hands as poker does.

use std::cmp::Ordering;
use vstd::prelude::*;

verus! {

/// How strong a hand is. The higher 4 of its 32 bits hold the tag of the
/// hand's category, the lower 28 what breaks ties within the category, so of
/// two hands the stronger has the greater strength, and hands that tie have
/// the same.
#[derive(Copy, Clone, Debug, PartialEq, Eq, Ord, Structural)]
pub struct HandStrength {
    score: u32,
}

impl View for HandStrength {
    type V = u32;

    closed spec fn view(&self) -> u32 {
        self.score
    }
}

impl HandStrength {
    /// The strength that holds `score`.
    pub(crate) fn new(score: u32) -> (strength: HandStrength)
        ensures
            strength@ == score,
    {
        HandStrength { score }
    }

    /// The tag in the higher four bits.
    pub open spec fn category_tag(self) -> u32 {
        self@ / 0x1000_0000
    }

    /// The tie-break in the lower 28 bits.
    pub open spec fn tie_break(self) -> u32 {
        self@ % 0x1000_0000
    }

    /// Of two strengths the one with the higher tag is the greater, and of
    /// two with the same tag the one with the higher tie-break.
    pub proof fn lemma_order_by_parts(self, other: HandStrength)
        ensures
            self@ < other@ <==> self.category_tag() < other.category_tag() || (self.category_tag()
                == other.category_tag() && self.tie_break() < other.tie_break()),
            self@ == other@ <==> self.category_tag() == other.category_tag() && self.tie_break()
                == other.tie_break(),
    {
    }

    /// Two strengths that hold the same number are the same strength.
    pub proof fn lemma_view_injective(self, other: HandStrength)
        requires
            self@ == other@,
        ensures
            self == other,
    {
    }
}

impl PartialOrd for HandStrength {
    /// Strengths compare as the numbers they hold.
    fn partial_cmp(&self, other: &Self) -> (r: Option<Ordering>) {
        if self.score < other.score {
            Some(Ordering::Less)
        } else if self.score > other.score {
            Some(Ordering::Greater)
        } else {
            Some(Ordering::Equal)
        }
    }
}

impl vstd::std_specs::cmp::PartialOrdSpecImpl for HandStrength {
    open spec fn obeys_partial_cmp_spec() -> bool {
        true
    }

    open spec fn partial_cmp_spec(&self, other: &Self) -> Option<Ordering> {
        if self@ < other@ {
            Some(Ordering::Less)
        } else if self@ > other@ {
            Some(Ordering::Greater)
        } else {
            Some(Ordering::Equal)
        }
    }
}

} // verus!
