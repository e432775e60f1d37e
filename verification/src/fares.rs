//! ZVV single-ticket price table.
//!
//! Prices are transcribed by hand from zvv.ch. ZVV revises them at the December
//! timetable change, so `valid_from` travels with the table. Never adjust these
//! numbers to make a `validate` fixture pass: a mismatch is a bug in the graph or
//! the zone assignment, not in the price table.
//!
//! The table only carries prices and never computes with them, so it leaves open
//! what they are counted in.

use vstd::prelude::*;

verus! {

/// The all-zones ticket, and the largest Tarifstufe there is.
pub const MAX_STUFE: u32 = 8;

/// Prices for one Tarifstufe.
#[derive(Debug, Clone, Copy)]
pub struct Prices<P> {
    pub second: P,
    pub first: P,
    pub reduced_second: P,
    pub reduced_first: P,
}

#[derive(Debug, Clone)]
pub struct Tarifstufe<P> {
    /// 1..=8, where 8 is the all-zones ticket.
    pub stufe: u32,
    /// Human label, e.g. "Lokalnetz", "1-2 Zonen", "Alle Zonen".
    pub label: String,
    /// Validity window in minutes.
    pub validity_minutes: u32,
    pub prices: Prices<P>,
}

#[derive(Debug, Clone)]
pub struct FareTable<P> {
    /// ISO date the table takes effect.
    pub valid_from: String,
    pub source: String,
    pub stufen: Vec<Tarifstufe<P>>,
}

#[derive(Debug, Clone, Copy, PartialEq, Eq, Structural)]
pub enum Class {
    First,
    Second,
}

#[derive(Debug, Clone, Copy, PartialEq, Eq, Structural)]
pub enum Reduction {
    Full,
    Reduced,
}

/// The fare table has no row for this Tarifstufe.
#[derive(Debug, Clone, Copy, PartialEq, Eq, Structural)]
pub struct MissingStufe {
    pub stufe: u32,
}

/// Whether the table has a row for a Tarifstufe.
pub open spec fn has_stufe<P>(stufen: Seq<Tarifstufe<P>>, stufe: u32) -> bool {
    exists|i: int| 0 <= i < stufen.len() && #[trigger] stufen[i].stufe == stufe
}

/// Whether row `i` is the first one for a Tarifstufe.
pub open spec fn is_first_row<P>(stufen: Seq<Tarifstufe<P>>, stufe: u32, i: int) -> bool {
    &&& 0 <= i < stufen.len()
    &&& stufen[i].stufe == stufe
    &&& forall|j: int| 0 <= j < i ==> #[trigger] stufen[j].stufe != stufe
}

/// The column of a class and reduction.
pub open spec fn price_column<P>(prices: Prices<P>, class: Class, reduction: Reduction) -> P {
    match (class, reduction) {
        (Class::Second, Reduction::Full) => prices.second,
        (Class::First, Reduction::Full) => prices.first,
        (Class::Second, Reduction::Reduced) => prices.reduced_second,
        (Class::First, Reduction::Reduced) => prices.reduced_first,
    }
}

/// The Tarifstufe of a zone weight: the weight itself, no less than the smallest
/// and no more than the largest one.
pub open spec fn stufe_of(weight: u32) -> u32 {
    if weight < 1 {
        1
    } else if weight > MAX_STUFE {
        MAX_STUFE
    } else {
        weight
    }
}

impl<P: Copy> FareTable<P> {
    fn find_row(&self, stufe: u32) -> (r: Option<usize>)
        ensures
            match r {
                Some(i) => is_first_row(self.stufen@, stufe, i as int),
                None => !has_stufe(self.stufen@, stufe),
            },
    {
        let mut i: usize = 0;
        while i < self.stufen.len()
            invariant
                i <= self.stufen@.len(),
                forall|j: int| 0 <= j < i ==> #[trigger] self.stufen@[j].stufe != stufe,
            decreases self.stufen@.len() - i,
        {
            if self.stufen[i].stufe == stufe {
                return Some(i);
            }
            i = i + 1;
        }
        None
    }

    /// Whether every Tarifstufe has a row; names the first one that has not.
    pub fn check(&self) -> (r: Result<(), MissingStufe>)
        ensures
            r is Ok <==> forall|s: u32| 1 <= s <= MAX_STUFE ==> has_stufe(self.stufen@, s),
            r is Err ==> {
                let missing = r->Err_0.stufe;
                &&& 1 <= missing <= MAX_STUFE
                &&& !has_stufe(self.stufen@, missing)
                &&& forall|s: u32| 1 <= s < missing ==> has_stufe(self.stufen@, s)
            },
    {
        let mut expected: u32 = 1;
        while expected <= MAX_STUFE
            invariant
                1 <= expected <= MAX_STUFE + 1,
                forall|s: u32| 1 <= s < expected ==> has_stufe(self.stufen@, s),
            decreases MAX_STUFE + 1 - expected,
        {
            match self.find_row(expected) {
                Some(i) => {
                    assert(self.stufen@[i as int].stufe == expected);
                },
                None => {
                    return Err(MissingStufe { stufe: expected });
                },
            }
            expected = expected + 1;
        }
        Ok(())
    }

    /// Map a zone weight to its Tarifstufe.
    ///
    /// Weight 1 and 2 collapse onto Stufe 1 and 2 respectively; a weight of 8 or
    /// more is capped at the all-zones ticket.
    pub fn stufe_for_weight(weight: u32) -> (r: u32)
        ensures
            r == stufe_of(weight),
            weight == 0 ==> r == 1,
            1 <= weight <= 8 ==> r == weight,
            weight > 8 ==> r == 8,
    {
        if weight < 1 {
            1
        } else if weight > MAX_STUFE {
            MAX_STUFE
        } else {
            weight
        }
    }

    /// The price of a zone weight: that of the first row for its Tarifstufe.
    pub fn price(&self, weight: u32, class: Class, reduction: Reduction) -> (r: Option<P>)
        ensures
            r is Some <==> has_stufe(self.stufen@, stufe_of(weight)),
            forall|i: int| #[trigger]
                is_first_row(self.stufen@, stufe_of(weight), i) ==> r == Some(
                    price_column(self.stufen@[i].prices, class, reduction),
                ),
            forall|i: int|
                {
                    &&& 0 <= i < self.stufen@.len()
                    &&& (#[trigger] self.stufen@[i]).stufe == if weight == 0 {
                        1
                    } else if weight > 8 {
                        8
                    } else {
                        weight
                    }
                    &&& forall|j: int|
                        0 <= j < i ==> (#[trigger] self.stufen@[j]).stufe != self.stufen@[i].stufe
                } ==> r == Some(
                    match (class, reduction) {
                        (Class::Second, Reduction::Full) => self.stufen@[i].prices.second,
                        (Class::First, Reduction::Full) => self.stufen@[i].prices.first,
                        (Class::Second, Reduction::Reduced) => self.stufen@[i].prices.reduced_second,
                        (Class::First, Reduction::Reduced) => self.stufen@[i].prices.reduced_first,
                    },
                ),
            r is None <==> forall|i: int|
                0 <= i < self.stufen@.len() ==> (#[trigger] self.stufen@[i]).stufe != if weight
                    == 0 {
                    1
                } else if weight > 8 {
                    8
                } else {
                    weight
                },
    {
        let stufe: u32 = Self::stufe_for_weight(weight);
        match self.find_row(stufe) {
            None => {
                assert forall|i: int| #[trigger] is_first_row(self.stufen@, stufe, i) implies false by {
                    assert(self.stufen@[i].stufe == stufe);
                }
                None
            },
            Some(i) => {
                proof {
                    assert(self.stufen@[i as int].stufe == stufe);
                    assert forall|j: int| #[trigger] is_first_row(self.stufen@, stufe, j) implies j
                        == i by {
                        if j < i {
                            assert(self.stufen@[j].stufe != stufe);
                        } else if i < j {
                            assert(self.stufen@[i as int].stufe != stufe);
                        }
                    }
                }
                let prices = &self.stufen[i].prices;
                Some(
                    match (class, reduction) {
                        (Class::Second, Reduction::Full) => prices.second,
                        (Class::First, Reduction::Full) => prices.first,
                        (Class::Second, Reduction::Reduced) => prices.reduced_second,
                        (Class::First, Reduction::Reduced) => prices.reduced_first,
                    },
                )
            },
        }
    }
}

/// A complete table prices every weight: [`FareTable::check`] leaves no weight
/// without a row.
pub proof fn law_complete_table_prices_every_weight<P>(stufen: Seq<Tarifstufe<P>>, weight: u32)
    requires
        forall|s: u32| 1 <= s <= MAX_STUFE ==> has_stufe(stufen, s),
    ensures
        has_stufe(stufen, stufe_of(weight)),
{
}

/// A larger weight never falls into a lower Tarifstufe, and beyond the all-zones
/// ticket it stays there.
pub proof fn law_stufe_grows_with_weight(a: u32, b: u32)
    requires
        a <= b,
    ensures
        stufe_of(a) <= stufe_of(b),
        a >= MAX_STUFE ==> stufe_of(a) == MAX_STUFE,
{
}

/// What a table lacks or has: a Tarifstufe has a price when some row is for it, and
/// there are eight of them.
pub proof fn law_a_stufe_is_priced_by_a_row<P>(stufen: Seq<Tarifstufe<P>>, s: u32)
    ensures
        has_stufe(stufen, s) <==> exists|i: int|
            0 <= i < stufen.len() && (#[trigger] stufen[i]).stufe == s,
        MAX_STUFE == 8,
{
    if exists|i: int| 0 <= i < stufen.len() && (#[trigger] stufen[i]).stufe == s {
        let i = choose|i: int| 0 <= i < stufen.len() && (#[trigger] stufen[i]).stufe == s;
        assert(stufen[i].stufe == s);
    }
    if has_stufe(stufen, s) {
        let i = choose|i: int| 0 <= i < stufen.len() && #[trigger] stufen[i].stufe == s;
        assert(stufen[i].stufe == s);
    }
}

/// A weight from 1 to 8 is its own Tarifstufe, each a different one; no weight at all
/// still takes the first, and more takes the eighth.
pub proof fn law_small_weights_are_their_own_stufe(a: u32, b: u32)
    ensures
        1 <= stufe_of(a) <= 8,
        1 <= a <= 8 ==> stufe_of(a) == a,
        a == 0 ==> stufe_of(a) == stufe_of(1),
        a >= 8 && b >= 8 ==> stufe_of(a) == stufe_of(b),
        1 <= a < b && a < 8 ==> stufe_of(a) < stufe_of(b),
{
}

/// Each class and reduction has a column of its own: a price list that keeps that column
/// keeps that price, whatever else changes in it.
pub proof fn law_a_price_hangs_on_its_column_alone<P>(p: Prices<P>, q: Prices<P>)
    ensures
        p.second == q.second ==> price_column(p, Class::Second, Reduction::Full) == price_column(
            q,
            Class::Second,
            Reduction::Full,
        ),
        p.first == q.first ==> price_column(p, Class::First, Reduction::Full) == price_column(
            q,
            Class::First,
            Reduction::Full,
        ),
        p.reduced_second == q.reduced_second ==> price_column(
            p,
            Class::Second,
            Reduction::Reduced,
        ) == price_column(q, Class::Second, Reduction::Reduced),
        p.reduced_first == q.reduced_first ==> price_column(p, Class::First, Reduction::Reduced)
            == price_column(q, Class::First, Reduction::Reduced),
        p.second == p.reduced_second ==> price_column(p, Class::Second, Reduction::Full)
            == price_column(p, Class::Second, Reduction::Reduced),
        p.second == p.first ==> price_column(p, Class::Second, Reduction::Full) == price_column(
            p,
            Class::First,
            Reduction::Full,
        ),
{
}

} // verus!
