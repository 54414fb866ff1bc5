//! A deduplicated collection of cards in canonical order.

use vstd::prelude::*;
use crate::card::{Card, CardModel};

verus! {

/// The models of a sequence of cards, in the same order.
pub open spec fn card_views(s: Seq<Card>) -> Seq<CardModel> {
    s.map_values(|c: Card| c@)
}

/// The ids are strictly ascending: the canonical order of a card set.
pub open spec fn ids_ascending(s: Seq<CardModel>) -> bool {
    forall|i: int, j: int| 0 <= i < j < s.len() ==> s[i].id < s[j].id
}

/// How many cards of `s` have an id below `id`; in a set in canonical order
/// this is where a card with that id belongs.
pub open spec fn rank_of_id(s: Seq<CardModel>, id: int) -> int
    decreases s.len(),
{
    if s.len() == 0 {
        0
    } else {
        rank_of_id(s.drop_last(), id) + if s.last().id < id {
            1int
        } else {
            0int
        }
    }
}

/// A set of cards held in canonical order (strictly ascending ids), so that
/// every enumeration over it is deterministic. At most one card per id: a
/// fully equal duplicate collapses into the entry already present.
pub struct CardSet {
    pub(crate) cards: Vec<Card>,
}

impl View for CardSet {
    type V = Seq<CardModel>;

    closed spec fn view(&self) -> Seq<CardModel> {
        card_views(self.cards@)
    }
}

impl CardSet {
    /// The canonical-order invariant.
    pub open spec fn wf(&self) -> bool {
        ids_ascending(self@)
    }

    /// The empty card set.
    pub fn new() -> (s: CardSet)
        ensures
            s.wf(),
            s@ == Seq::<CardModel>::empty(),
    {
        let s = CardSet { cards: Vec::new() };
        proof {
            assert(s@ =~= Seq::<CardModel>::empty());
        }
        s
    }

    /// How many cards the set holds.
    pub fn len(&self) -> (n: usize)
        ensures
            n == self@.len(),
    {
        self.cards.len()
    }

    /// Whether the set holds no card.
    pub fn is_empty(&self) -> (r: bool)
        ensures
            r == (self@.len() == 0),
    {
        self.cards.is_empty()
    }

    /// Surrenders the cards, still in canonical order, to the analysis.
    pub(crate) fn into_cards(self) -> (v: Vec<Card>)
        ensures
            card_views(v@) == self@,
    {
        self.cards
    }

    /// Adds `card` at its place in the canonical order. A card whose id is
    /// already present leaves the set unchanged and yields `false`.
    pub fn insert(&mut self, card: Card) -> (added: bool)
        requires
            old(self).wf(),
        ensures
            final(self).wf(),
            (exists|i: int| 0 <= i < old(self)@.len() && (#[trigger] old(self)@[i]).id
                == card@.id) ==> (final(self)@ == old(self)@ && !added),
            !(exists|i: int| 0 <= i < old(self)@.len() && (#[trigger] old(self)@[i]).id
                == card@.id) ==> (added && final(self)@ == old(self)@.insert(
                rank_of_id(old(self)@, card@.id),
                card@,
            )),
    {
        let n = self.cards.len();
        let mut i: usize = 0;
        while i < n && self.cards[i].id < card.id
            invariant
                i <= n,
                n == self@.len(),
                self == old(self),
                forall|k: int| 0 <= k < i ==> (#[trigger] self@[k]).id < card@.id,
            decreases n - i,
        {
            i = i + 1;
        }
        if i < n && self.cards[i].id == card.id {
            proof {
                assert(0 <= i < old(self)@.len() && (old(self)@[i as int]).id == card@.id);
            }
            return false;
        }
        proof {
            let s = self@;
            let id = card@.id;
            assert forall|k: int| 0 <= k < s.len() implies ((#[trigger] s[k]).id < id <==> k < i)
            by {
                if k >= i as int {
                    if i < n {
                        assert(s[i as int].id > id);
                        if k > i as int {
                            assert(s[i as int].id < s[k].id);
                        }
                    }
                }
            }
            lemma_rank_of_id_split(s, id, i as int);
        }
        let ghost pre = self@;
        self.cards.insert(i, card);
        proof {
            assert(self@ =~= pre.insert(i as int, card@));
        }
        true
    }
}

/// When the first `i` cards of `s` are exactly those whose id lies below `id`,
/// a card of that id belongs at position `i`.
proof fn lemma_rank_of_id_split(s: Seq<CardModel>, id: int, i: int)
    requires
        0 <= i <= s.len(),
        forall|k: int| 0 <= k < s.len() ==> ((#[trigger] s[k]).id < id <==> k < i),
    ensures
        rank_of_id(s, id) == i,
    decreases s.len(),
{
    if s.len() > 0 {
        if i == s.len() {
            lemma_rank_of_id_split(s.drop_last(), id, i - 1);
        } else {
            lemma_rank_of_id_split(s.drop_last(), id, i);
        }
    }
}

} // verus!
