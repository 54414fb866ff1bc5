//! The card entity and the connectivity relation.

use vstd::prelude::*;
use vstd::string::StringExecFns;

verus! {

/// Mathematical model of a card: its id, display name and attribute values.
pub ghost struct CardModel {
    pub id: int,
    pub name: Seq<char>,
    pub stats: Seq<int>,
}

/// One card: a numeric id, a display name (possibly empty) and exactly five
/// ordered integer attributes. Two cards are the same entity only when all
/// three fields agree.
pub struct Card {
    pub id: i32,
    pub name: String,
    pub five_stats: [i32; 5],
}

impl View for Card {
    type V = CardModel;

    open spec fn view(&self) -> CardModel {
        CardModel {
            id: self.id as int,
            name: self.name@,
            stats: self.five_stats@.map_values(|x: i32| x as int),
        }
    }
}

impl Clone for Card {
    fn clone(&self) -> (res: Self)
        ensures
            res@ == self@,
    {
        Card { id: self.id, name: self.name.clone(), five_stats: self.five_stats }
    }
}

/// How many of the first `n` attribute positions hold equal values in `a` and `b`.
pub open spec fn matching_positions(a: CardModel, b: CardModel, n: int) -> int
    decreases n,
{
    if n <= 0 {
        0
    } else {
        matching_positions(a, b, n - 1) + if a.stats[n - 1] == b.stats[n - 1] {
            1int
        } else {
            0int
        }
    }
}

/// Two cards are connected when exactly one of the five attribute positions matches.
pub open spec fn connected(a: CardModel, b: CardModel) -> bool {
    matching_positions(a, b, 5) == 1
}

impl Card {
    /// Decides the connectivity relation on two cards.
    pub fn is_connected(&self, other: &Self) -> (r: bool)
        ensures
            r == connected(self@, other@),
    {
        let mut same_field: u32 = 0;
        let mut i: usize = 0;
        while i < 5
            invariant
                0 <= i <= 5,
                same_field <= i,
                same_field == matching_positions(self@, other@, i as int),
            decreases 5 - i,
        {
            if self.five_stats[i] == other.five_stats[i] {
                same_field = same_field + 1;
            }
            i = i + 1;
        }
        same_field == 1
    }
}

/// The single decimal digit `d` as text.
pub open spec fn decimal_digit(d: int) -> Seq<char> {
    if d == 0 {
        "0"@
    } else if d == 1 {
        "1"@
    } else if d == 2 {
        "2"@
    } else if d == 3 {
        "3"@
    } else if d == 4 {
        "4"@
    } else if d == 5 {
        "5"@
    } else if d == 6 {
        "6"@
    } else if d == 7 {
        "7"@
    } else if d == 8 {
        "8"@
    } else {
        "9"@
    }
}

/// The decimal digits of a non-negative `n`, most significant first.
pub open spec fn decimal_nat(n: int) -> Seq<char>
    decreases n,
{
    if n < 10 {
        decimal_digit(n)
    } else {
        decimal_nat(n / 10) + decimal_digit(n % 10)
    }
}

/// The decimal text of `n`, with a leading minus sign when negative.
pub open spec fn decimal_int(n: int) -> Seq<char> {
    if n < 0 {
        "-"@ + decimal_nat(-n)
    } else {
        decimal_nat(n)
    }
}

/// How a card shows up in a report: its display name when it has one, its id
/// in decimal otherwise.
pub open spec fn label(c: CardModel) -> Seq<char> {
    if c.name.len() > 0 {
        c.name
    } else {
        decimal_int(c.id)
    }
}

/// The single decimal digit `d` as text.
fn digit_str(d: u32) -> (s: &'static str)
    requires
        d < 10,
    ensures
        s@ == decimal_digit(d as int),
{
    if d == 0 {
        "0"
    } else if d == 1 {
        "1"
    } else if d == 2 {
        "2"
    } else if d == 3 {
        "3"
    } else if d == 4 {
        "4"
    } else if d == 5 {
        "5"
    } else if d == 6 {
        "6"
    } else if d == 7 {
        "7"
    } else if d == 8 {
        "8"
    } else {
        "9"
    }
}

/// Writes a non-negative number in decimal.
fn decimal_of_u32(n: u32) -> (out: String)
    ensures
        out@ == decimal_nat(n as int),
    decreases n,
{
    if n < 10 {
        String::from_str(digit_str(n))
    } else {
        let mut out = decimal_of_u32(n / 10);
        out.append(digit_str(n % 10));
        out
    }
}

/// Writes a number in decimal, with a leading minus sign when negative.
fn decimal_of_i32(n: i32) -> (out: String)
    ensures
        out@ == decimal_int(n as int),
{
    if n >= 0 {
        decimal_of_u32(n as u32)
    } else {
        let mag64: i64 = -(n as i64);
        let mag: u32 = mag64 as u32;
        proof {
            assert(mag == -(n as int));
        }
        let mut out = String::from_str("-");
        let digits = decimal_of_u32(mag);
        out.append(digits.as_str());
        out
    }
}

impl Card {
    /// The card's report label: its display name when it has one, its id in
    /// decimal otherwise.
    pub fn display_label(&self) -> (out: String)
        ensures
            out@ == label(self@),
    {
        if self.name.as_str().is_empty() {
            decimal_of_i32(self.id)
        } else {
            self.name.clone()
        }
    }
}

/// Connectivity is symmetric: the relation never depends on argument order.
pub proof fn lemma_connected_symmetric(a: CardModel, b: CardModel)
    ensures
        connected(a, b) == connected(b, a),
{
    lemma_matching_positions_symmetric(a, b, 5);
}

proof fn lemma_matching_positions_symmetric(a: CardModel, b: CardModel, n: int)
    ensures
        matching_positions(a, b, n) == matching_positions(b, a, n),
    decreases n,
{
    if n > 0 {
        lemma_matching_positions_symmetric(a, b, n - 1);
    }
}

/// Connectivity is irreflexive: a card is never connected to itself, since all
/// five positions match. This holds for any card value, even one that shares
/// every field with another.
pub proof fn lemma_connected_irreflexive(a: CardModel)
    ensures
        !connected(a, a),
{
    lemma_matching_positions_refl(a, 5);
}

proof fn lemma_matching_positions_refl(a: CardModel, n: int)
    requires
        n >= 0,
    ensures
        matching_positions(a, a, n) == n,
    decreases n,
{
    if n > 0 {
        lemma_matching_positions_refl(a, n - 1);
    }
}

} // verus!
