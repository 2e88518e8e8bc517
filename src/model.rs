use vstd::prelude::*;

verus! {

/// A participant who may pay for or share in expenses.
pub struct Person {
    pub name: String,
}

/// One line of a receipt. `cost` is in the smallest unit of the currency;
/// an empty `shared_by` means the cost is shared by everyone declared.
pub struct Item {
    pub name: String,
    pub cost: u64,
    pub shared_by: Vec<String>,
}

/// One payment: a payer and the items paid for.
pub struct Receipt {
    pub name: String,
    pub paid_by: String,
    pub items: Vec<Item>,
}

/// The decoded document: the declared people and the receipts, in order.
pub struct Receipts {
    pub persons: Vec<Person>,
    pub receipts: Vec<Receipt>,
}

/// The declared names, in declaration order.
pub open spec fn person_names(persons: Seq<Person>) -> Seq<Seq<char>> {
    persons.map_values(|p: Person| p.name@)
}

pub open spec fn string_views(s: Seq<String>) -> Seq<Seq<char>> {
    s.map_values(|x: String| x@)
}

/// How many times `x` occurs in `s`.
pub open spec fn occurrences(s: Seq<Seq<char>>, x: Seq<char>) -> nat
    decreases s.len(),
{
    if s.len() == 0 {
        0
    } else {
        occurrences(s.drop_last(), x) + if s.last() == x {
            1nat
        } else {
            0nat
        }
    }
}

impl Item {
    /// The effective sharer list: the listed names, or every declared name
    /// when none is listed. A name listed twice takes two shares.
    pub open spec fn sharers(self, names: Seq<Seq<char>>) -> Seq<Seq<char>> {
        if self.shared_by@.len() == 0 {
            names
        } else {
            string_views(self.shared_by@)
        }
    }

    /// What one share of the item amounts to, counted in `1 / denominator`
    /// of the cost unit.
    pub open spec fn share(self, names: Seq<Seq<char>>, denominator: int) -> int {
        self.cost * (denominator / (self.sharers(names).len() as int))
    }
}

impl Receipt {
    /// The payer and every listed sharer are declared.
    pub open spec fn references_known(self, names: Seq<Seq<char>>) -> bool {
        &&& names.contains(self.paid_by@)
        &&& forall|j: int, k: int|
            0 <= j < self.items@.len() && 0 <= k < self.items@[j].shared_by@.len()
                ==> names.contains(#[trigger] self.items@[j].shared_by@[k]@)
    }
}

/// Grows a common denominator so that `n` divides it.
pub open spec fn denominator_step(d: int, n: int) -> int {
    if n == 0 || d % n == 0 {
        d
    } else {
        d * n
    }
}

pub open spec fn items_denominator(d: int, items: Seq<Item>, names: Seq<Seq<char>>) -> int
    decreases items.len(),
{
    if items.len() == 0 {
        d
    } else {
        denominator_step(
            items_denominator(d, items.drop_last(), names),
            items.last().sharers(names).len() as int,
        )
    }
}

pub open spec fn receipts_denominator(receipts: Seq<Receipt>, names: Seq<Seq<char>>) -> int
    decreases receipts.len(),
{
    if receipts.len() == 0 {
        1
    } else {
        items_denominator(
            receipts_denominator(receipts.drop_last(), names),
            receipts.last().items@,
            names,
        )
    }
}

pub open spec fn items_cost(items: Seq<Item>) -> int
    decreases items.len(),
{
    if items.len() == 0 {
        0
    } else {
        items_cost(items.drop_last()) + items.last().cost
    }
}

pub open spec fn receipts_cost(receipts: Seq<Receipt>) -> int
    decreases receipts.len(),
{
    if receipts.len() == 0 {
        0
    } else {
        receipts_cost(receipts.drop_last()) + items_cost(receipts.last().items@)
    }
}

/// What one item, split among `sharers` and paid by `payer`, adds to the
/// debts of all the people named in `names` together: each debtor other
/// than the payer owes one `share` per time they are listed.
pub open spec fn item_debts(
    names: Seq<Seq<char>>,
    sharers: Seq<Seq<char>>,
    payer: Seq<char>,
    share: int,
) -> int
    decreases names.len(),
{
    if names.len() == 0 {
        0
    } else {
        item_debts(names.drop_last(), sharers, payer, share) + if names.last() != payer {
            occurrences(sharers, names.last()) * share
        } else {
            0
        }
    }
}

/// A debt entry after `times` more shares of `share` are added to it; an
/// entry comes into being with its first share.
pub open spec fn credit(e: Option<int>, times: nat, share: int) -> Option<int> {
    if times == 0 {
        e
    } else {
        Some(e.unwrap_or(0) + times * share)
    }
}

/// What the items of one receipt paid by `payer` add to the debt of
/// `debtor` towards `creditor`, starting from `e`.
pub open spec fn items_entry(
    e: Option<int>,
    items: Seq<Item>,
    payer: Seq<char>,
    names: Seq<Seq<char>>,
    denominator: int,
    debtor: Seq<char>,
    creditor: Seq<char>,
) -> Option<int>
    decreases items.len(),
{
    if items.len() == 0 {
        e
    } else {
        let prev = items_entry(e, items.drop_last(), payer, names, denominator, debtor, creditor);
        if creditor == payer && debtor != payer {
            credit(
                prev,
                occurrences(items.last().sharers(names), debtor),
                items.last().share(names, denominator),
            )
        } else {
            prev
        }
    }
}

/// The debt of `debtor` towards `creditor` over all receipts, counted in
/// `1 / denominator` of the cost unit; `None` when no share was ever owed.
pub open spec fn receipts_entry(
    receipts: Seq<Receipt>,
    names: Seq<Seq<char>>,
    denominator: int,
    debtor: Seq<char>,
    creditor: Seq<char>,
) -> Option<int>
    decreases receipts.len(),
{
    if receipts.len() == 0 {
        None
    } else {
        items_entry(
            receipts_entry(receipts.drop_last(), names, denominator, debtor, creditor),
            receipts.last().items@,
            receipts.last().paid_by@,
            names,
            denominator,
            debtor,
            creditor,
        )
    }
}

impl Receipts {
    pub open spec fn names(self) -> Seq<Seq<char>> {
        person_names(self.persons@)
    }

    /// No name is declared twice.
    pub open spec fn names_distinct(self) -> bool {
        self.names().no_duplicates()
    }

    /// Every payer and every listed sharer is declared.
    pub open spec fn references_known(self) -> bool {
        forall|i: int|
            0 <= i < self.receipts@.len() ==> (#[trigger] self.receipts@[i]).references_known(
                self.names(),
            )
    }

    /// The smallest unit in which every share is exact, as a fraction of the cost unit.
    pub open spec fn denominator(self) -> int {
        receipts_denominator(self.receipts@, self.names())
    }

    pub open spec fn total_cost(self) -> int {
        receipts_cost(self.receipts@)
    }

    /// Every amount of the resolution, counted in `1 / denominator` of the
    /// cost unit, fits in a `u64`.
    pub open spec fn fits(self) -> bool {
        &&& self.denominator() <= u64::MAX
        &&& self.denominator() * self.total_cost() <= u64::MAX
    }

    /// What `debtor` owes `creditor`, counted in `1 / denominator` of the cost unit.
    pub open spec fn owed(self, debtor: Seq<char>, creditor: Seq<char>) -> Option<int> {
        receipts_entry(self.receipts@, self.names(), self.denominator(), debtor, creditor)
    }
}

} // verus!
