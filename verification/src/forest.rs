//! Building the three-level forest of connections.

use vstd::prelude::*;
use crate::card::{Card, CardModel, connected};
use crate::card_set::{CardSet, card_views, ids_ascending};

verus! {

/// The indices, in ascending order, of the cards among the first `n` of `s`
/// that are connected to `a`, leaving out the index `excl` (used to suppress
/// the one-hop return path to a root).
pub open spec fn connected_indices(
    s: Seq<CardModel>,
    a: CardModel,
    excl: Option<usize>,
    n: int,
) -> Seq<usize>
    decreases n,
{
    if n <= 0 {
        Seq::empty()
    } else {
        connected_indices(s, a, excl, n - 1) + if connected(a, s[n - 1]) && excl != Some(
            (n - 1) as usize,
        ) {
            seq![(n - 1) as usize]
        } else {
            Seq::empty()
        }
    }
}

/// Every index that `connected_indices` yields lies below `n`.
pub proof fn lemma_connected_indices_bounds(
    s: Seq<CardModel>,
    a: CardModel,
    excl: Option<usize>,
    n: int,
)
    requires
        n <= usize::MAX,
    ensures
        forall|k: int|
            0 <= k < connected_indices(s, a, excl, n).len() ==> (#[trigger] connected_indices(
                s,
                a,
                excl,
                n,
            )[k]) < n,
    decreases n,
{
    if n > 0 {
        lemma_connected_indices_bounds(s, a, excl, n - 1);
        let prev = connected_indices(s, a, excl, n - 1);
        let cur = connected_indices(s, a, excl, n);
        assert forall|k: int| 0 <= k < cur.len() implies cur[k] < n by {
            if k < prev.len() {
                assert(cur[k] == prev[k]);
            } else {
                assert(cur[k] == (n - 1) as usize);
            }
        }
    }
}

/// One direct connection of a root, with the connections discovered beneath
/// it. Cards are referred to by their index in the canonical order.
pub struct ChildNode {
    pub card: usize,
    pub grandchildren: Vec<usize>,
}

/// The connections of one card taken as root.
pub struct TreeNode {
    pub children: Vec<ChildNode>,
}

/// A child entry is correct when its grandchildren are exactly the cards
/// connected to it, the root itself excepted.
pub open spec fn child_ok(s: Seq<CardModel>, r: int, c: ChildNode) -> bool {
    &&& c.card < s.len()
    &&& c.grandchildren@ == connected_indices(s, s[c.card as int], Some(r as usize), s.len() as int)
}

/// A tree is correct when its children are exactly the cards connected to the
/// root, each with a correct grandchild list.
pub open spec fn tree_ok(s: Seq<CardModel>, r: int, t: TreeNode) -> bool {
    let ch = connected_indices(s, s[r], None, s.len() as int);
    &&& t.children@.len() == ch.len()
    &&& forall|j: int|
        0 <= j < ch.len() ==> (#[trigger] t.children@[j]).card == ch[j] && child_ok(
            s,
            r,
            t.children@[j],
        )
}

/// The connection forest of a card set: the cards in canonical order, and one
/// depth-three tree per card taken as root.
pub struct Forest {
    pub cards: Vec<Card>,
    pub trees: Vec<TreeNode>,
}

impl Forest {
    /// The models of the cards, in canonical order.
    pub open spec fn models(&self) -> Seq<CardModel> {
        card_views(self.cards@)
    }

    /// The forest is correct: one tree per card, each tree correct for its root.
    pub open spec fn wf(&self) -> bool {
        &&& ids_ascending(self.models())
        &&& self.trees@.len() == self.models().len()
        &&& forall|r: int|
            0 <= r < self.trees@.len() ==> tree_ok(self.models(), r, #[trigger] self.trees@[r])
    }
}

/// The indices of the cards connected to `a`, `excl` excepted, in ascending
/// order.
fn connected_to(cards: &Vec<Card>, a: &Card, excl: Option<usize>) -> (out: Vec<usize>)
    ensures
        out@ == connected_indices(card_views(cards@), a@, excl, cards@.len() as int),
{
    let ghost s = card_views(cards@);
    let n = cards.len();
    let mut out: Vec<usize> = Vec::new();
    proof {
        assert(out@ =~= connected_indices(s, a@, excl, 0));
    }
    let mut i: usize = 0;
    while i < n
        invariant
            n == cards@.len(),
            s == card_views(cards@),
            i <= n,
            out@ == connected_indices(s, a@, excl, i as int),
        decreases n - i,
    {
        let excluded = match excl {
            Some(e) => e == i,
            None => false,
        };
        if !excluded && a.is_connected(&cards[i]) {
            out.push(i);
            proof {
                assert(out@ =~= connected_indices(s, a@, excl, i as int) + seq![i]);
            }
        }
        i = i + 1;
    }
    out
}

/// Computes, for every card of the set taken as root, its connected children
/// and each child's connected grandchildren (the root itself excepted).
pub fn build(cards: CardSet) -> (f: Forest)
    requires
        cards.wf(),
    ensures
        f.wf(),
        f.models() == cards@,
{
    let ghost m = cards@;
    let card_vec = cards.into_cards();
    let n = card_vec.len();
    let mut trees: Vec<TreeNode> = Vec::new();
    let mut r: usize = 0;
    while r < n
        invariant
            n == card_vec@.len(),
            m == card_views(card_vec@),
            r <= n,
            trees@.len() == r,
            forall|k: int| 0 <= k < r ==> tree_ok(m, k, #[trigger] trees@[k]),
        decreases n - r,
    {
        let child_ix = connected_to(&card_vec, &card_vec[r], None);
        let ghost ch = connected_indices(m, m[r as int], None, n as int);
        proof {
            lemma_connected_indices_bounds(m, m[r as int], None, n as int);
        }
        let mut children: Vec<ChildNode> = Vec::new();
        let mut j: usize = 0;
        while j < child_ix.len()
            invariant
                n == card_vec@.len(),
                m == card_views(card_vec@),
                r < n,
                child_ix@ == ch,
                ch == connected_indices(m, m[r as int], None, n as int),
                forall|k: int| 0 <= k < ch.len() ==> (#[trigger] ch[k]) < n,
                j <= ch.len(),
                children@.len() == j,
                forall|q: int|
                    0 <= q < j ==> (#[trigger] children@[q]).card == ch[q] && child_ok(
                        m,
                        r as int,
                        children@[q],
                    ),
            decreases ch.len() - j,
        {
            let c = child_ix[j];
            let gcs = connected_to(&card_vec, &card_vec[c], Some(r));
            children.push(ChildNode { card: c, grandchildren: gcs });
            j = j + 1;
        }
        trees.push(TreeNode { children });
        r = r + 1;
    }
    let f = Forest { cards: card_vec, trees };
    proof {
        assert(f.models() == m);
    }
    f
}

} // verus!
