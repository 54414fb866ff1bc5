//! Rendering the forest as canonical indented text.

use vstd::prelude::*;
use vstd::string::StringExecFns;
use crate::card::{CardModel, connected, label, lemma_connected_irreflexive};
use crate::card_set::CardSet;
use crate::forest::{
    Forest, build, child_ok, connected_indices, lemma_connected_indices_bounds, tree_ok,
};

verus! {

/// The connector glyph before an entry: a branch while later siblings follow,
/// a terminal for the last one.
pub open spec fn connector(is_last: bool) -> Seq<char> {
    if is_last {
        "└──"@
    } else {
        "├──"@
    }
}

/// The continuation column under a child: a vertical bar while later children
/// follow, a blank under the last one.
pub open spec fn continuation(is_last: bool) -> Seq<char> {
    if is_last {
        " "@
    } else {
        "│"@
    }
}

/// The root's own line: its label, unindented.
pub open spec fn root_line(s: Seq<CardModel>, r: int) -> Seq<char> {
    label(s[r]) + "\n"@
}

/// A child's line: one level of indentation, its connector, its label.
pub open spec fn child_line(s: Seq<CardModel>, c: int, is_last: bool) -> Seq<char> {
    "    "@ + connector(is_last) + label(s[c]) + "\n"@
}

/// A grandchild's line: two levels of indentation, the first carrying the
/// parent child's continuation column, then its own connector and label.
pub open spec fn grandchild_line(
    s: Seq<CardModel>,
    g: int,
    parent_last: bool,
    is_last: bool,
) -> Seq<char> {
    "    "@ + continuation(parent_last) + "    "@ + connector(is_last) + label(s[g]) + "\n"@
}

/// The lines of the first `k` grandchildren of `gcs`, in order.
pub open spec fn grandchild_lines(
    s: Seq<CardModel>,
    gcs: Seq<usize>,
    parent_last: bool,
    k: int,
) -> Seq<char>
    decreases k,
{
    if k <= 0 {
        Seq::empty()
    } else {
        grandchild_lines(s, gcs, parent_last, k - 1) + grandchild_line(
            s,
            gcs[k - 1] as int,
            parent_last,
            k == gcs.len(),
        )
    }
}

/// Everything a child contributes: its own line, then its grandchildren's lines.
pub open spec fn child_block(s: Seq<CardModel>, r: int, c: int, is_last: bool) -> Seq<char> {
    let gcs = connected_indices(s, s[c], Some(r as usize), s.len() as int);
    child_line(s, c, is_last) + grandchild_lines(s, gcs, is_last, gcs.len() as int)
}

/// The blocks of the first `k` children of `cs`, in order.
pub open spec fn child_blocks(s: Seq<CardModel>, r: int, cs: Seq<usize>, k: int) -> Seq<char>
    decreases k,
{
    if k <= 0 {
        Seq::empty()
    } else {
        child_blocks(s, r, cs, k - 1) + child_block(s, r, cs[k - 1] as int, k == cs.len())
    }
}

/// Everything the tree rooted at card `r` contributes to the report.
pub open spec fn tree_block(s: Seq<CardModel>, r: int) -> Seq<char> {
    let cs = connected_indices(s, s[r], None, s.len() as int);
    root_line(s, r) + child_blocks(s, r, cs, cs.len() as int)
}

/// The blocks of the first `k` trees, in order.
pub open spec fn forest_text(s: Seq<CardModel>, k: int) -> Seq<char>
    decreases k,
{
    if k <= 0 {
        Seq::empty()
    } else {
        forest_text(s, k - 1) + tree_block(s, k - 1)
    }
}

/// The whole report for the cards `s` in canonical order: one tree block per
/// card, each root followed by its connections and theirs in turn.
pub open spec fn report(s: Seq<CardModel>) -> Seq<char> {
    forest_text(s, s.len() as int)
}

/// Renders the forest into the canonical indented report.
pub fn render(f: &Forest) -> (out: String)
    requires
        f.wf(),
    ensures
        out@ == report(f.models()),
{
    let ghost s = f.models();
    let n = f.trees.len();
    let mut out = String::new();
    proof {
        assert(out@ =~= forest_text(s, 0));
    }
    let mut r: usize = 0;
    while r < n
        invariant
            f.wf(),
            s == f.models(),
            n == f.trees@.len(),
            r <= n,
            out@ == forest_text(s, r as int),
        decreases n - r,
    {
        proof {
            assert(tree_ok(s, r as int, f.trees@[r as int]));
            lemma_connected_indices_bounds(s, s[r as int], None, s.len() as int);
        }
        let ghost cs = connected_indices(s, s[r as int], None, s.len() as int);
        let root_label = f.cards[r].display_label();
        out.append(root_label.as_str());
        out.append("\n");
        let ghost pre = out@;
        proof {
            assert(pre =~= forest_text(s, r as int) + root_line(s, r as int));
            assert(out@ =~= pre + child_blocks(s, r as int, cs, 0));
        }
        let tree = &f.trees[r];
        let n_children = tree.children.len();
        let mut j: usize = 0;
        while j < n_children
            invariant
                f.wf(),
                s == f.models(),
                n == f.trees@.len(),
                r < n,
                tree == &f.trees@[r as int],
                cs == connected_indices(s, s[r as int], None, s.len() as int),
                forall|k: int| 0 <= k < cs.len() ==> (#[trigger] cs[k]) < s.len(),
                n_children == cs.len(),
                j <= n_children,
                pre == forest_text(s, r as int) + root_line(s, r as int),
                out@ == pre + child_blocks(s, r as int, cs, j as int),
            decreases n_children - j,
        {
            proof {
                assert(tree_ok(s, r as int, f.trees@[r as int]));
                assert(child_ok(s, r as int, tree.children@[j as int]));
            }
            let child = &tree.children[j];
            let is_last = j == n_children - 1;
            let ghost gcs = connected_indices(
                s,
                s[child.card as int],
                Some(r),
                s.len() as int,
            );
            proof {
                lemma_connected_indices_bounds(s, s[child.card as int], Some(r), s.len() as int);
            }
            out.append("    ");
            out.append(if is_last {
                "└──"
            } else {
                "├──"
            });
            let child_label = f.cards[child.card].display_label();
            out.append(child_label.as_str());
            out.append("\n");
            let ghost mid = out@;
            proof {
                assert(mid =~= pre + child_blocks(s, r as int, cs, j as int) + child_line(
                    s,
                    child.card as int,
                    is_last,
                ));
                assert(out@ =~= mid + grandchild_lines(s, gcs, is_last, 0));
            }
            let n_gcs = child.grandchildren.len();
            let mut q: usize = 0;
            while q < n_gcs
                invariant
                    f.wf(),
                    s == f.models(),
                    r < n,
                    n == f.trees@.len(),
                    tree == &f.trees@[r as int],
                    child == &tree.children@[j as int],
                    j < cs.len(),
                    child_ok(s, r as int, *child),
                    gcs == connected_indices(
                        s,
                        s[child.card as int],
                        Some(r),
                        s.len() as int,
                    ),
                    forall|k: int| 0 <= k < gcs.len() ==> (#[trigger] gcs[k]) < s.len(),
                    n_gcs == gcs.len(),
                    q <= n_gcs,
                    mid == pre + child_blocks(s, r as int, cs, j as int) + child_line(
                        s,
                        child.card as int,
                        is_last,
                    ),
                    out@ == mid + grandchild_lines(s, gcs, is_last, q as int),
                decreases n_gcs - q,
            {
                let g = child.grandchildren[q];
                let g_last = q == n_gcs - 1;
                out.append("    ");
                out.append(if is_last {
                    " "
                } else {
                    "│"
                });
                out.append("    ");
                out.append(if g_last {
                    "└──"
                } else {
                    "├──"
                });
                let g_label = f.cards[g].display_label();
                out.append(g_label.as_str());
                out.append("\n");
                proof {
                    assert(out@ =~= mid + grandchild_lines(s, gcs, is_last, q as int + 1));
                }
                q = q + 1;
            }
            proof {
                assert(out@ =~= pre + child_blocks(s, r as int, cs, j as int + 1));
            }
            j = j + 1;
        }
        proof {
            assert(out@ =~= forest_text(s, r as int + 1));
        }
        r = r + 1;
    }
    out
}

/// Builds and renders in one step: the full connection report of a card set.
pub fn check_connect(card_set: CardSet) -> (out: String)
    requires
        card_set.wf(),
    ensures
        out@ == report(card_set@),
{
    let ghost m = card_set@;
    let f = build(card_set);
    render(&f)
}

/// Rendering is deterministic: the report is a function of the card set
/// alone, so any two reports of the same set are byte-identical.
pub proof fn lemma_report_deterministic(s: Seq<CardModel>, out1: Seq<char>, out2: Seq<char>)
    requires
        out1 == report(s),
        out2 == report(s),
    ensures
        out1 == out2,
{
}

/// An empty card set renders as the empty report.
pub proof fn lemma_report_empty(s: Seq<CardModel>)
    requires
        s.len() == 0,
    ensures
        report(s) == Seq::<char>::empty(),
{
    assert(report(s) =~= Seq::<char>::empty());
}

/// When no connection holds between `a` and the first `n` cards, no index is
/// collected.
proof fn lemma_connected_indices_none(
    s: Seq<CardModel>,
    a: CardModel,
    excl: Option<usize>,
    n: int,
)
    requires
        forall|j: int| 0 <= j < n ==> !connected(a, #[trigger] s[j]),
    ensures
        connected_indices(s, a, excl, n) == Seq::<usize>::empty(),
    decreases n,
{
    if n > 0 {
        lemma_connected_indices_none(s, a, excl, n - 1);
        assert(connected_indices(s, a, excl, n) =~= Seq::<usize>::empty());
    } else {
        assert(connected_indices(s, a, excl, n) =~= Seq::<usize>::empty());
    }
}

/// A card connected to no other card in the set contributes exactly one line:
/// its own root line, with no children beneath it.
pub proof fn lemma_unconnected_root_sole_line(s: Seq<CardModel>, r: int)
    requires
        0 <= r < s.len(),
        forall|j: int| 0 <= j < s.len() && j != r ==> !connected(s[r], #[trigger] s[j]),
    ensures
        tree_block(s, r) == label(s[r]) + "\n"@,
{
    lemma_connected_irreflexive(s[r]);
    assert(forall|j: int| 0 <= j < s.len() ==> !connected(s[r], #[trigger] s[j]));
    lemma_connected_indices_none(s, s[r], None, s.len() as int);
    assert(tree_block(s, r) =~= label(s[r]) + "\n"@);
}

} // verus!
