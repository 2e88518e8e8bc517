use vstd::prelude::*;

use crate::model::{
    credit, items_cost, items_denominator, items_entry, occurrences, person_names,
    receipts_cost, receipts_denominator, receipts_entry, string_views, denominator_step, Item,
    Person, Receipt, Receipts,
};

verus! {

/// Why a set of receipts cannot be resolved.
#[derive(Debug, PartialEq, Eq, Structural)]
pub enum ResolveError {
    /// A name is declared more than once.
    DuplicatePerson,
    /// A payer or a sharer is not among the declared people.
    UnknownPerson,
    /// An amount does not fit in a `u64` once counted in the common denominator.
    Overflow,
}

/// The balance table: for each debtor (a row, in declaration order) and each
/// creditor (a column, likewise), what is owed, counted in `1 / denominator`
/// of the cost unit. `None` marks a pair that no share ever reached.
pub struct BalanceTable {
    pub names: Vec<String>,
    pub denominator: u64,
    pub rows: Vec<Vec<Option<u64>>>,
}

pub open spec fn opt_int(o: Option<u64>) -> Option<int> {
    match o {
        Some(v) => Some(v as int),
        None => None,
    }
}

/// The entry of `rows` for debtor `d` and creditor `c`.
pub open spec fn cell(rows: Seq<Vec<Option<u64>>>, d: int, c: int) -> Option<int> {
    opt_int(rows[d]@[c])
}

/// `rows` has `n` rows of `n` entries each.
pub open spec fn is_square(rows: Seq<Vec<Option<u64>>>, n: int) -> bool {
    &&& rows.len() == n
    &&& forall|d: int| 0 <= d < n ==> (#[trigger] rows[d])@.len() == n
}

impl BalanceTable {
    /// The entries, row by row.
    pub open spec fn entries(self) -> Seq<Seq<Option<u64>>> {
        self.rows@.map_values(|row: Vec<Option<u64>>| row@)
    }

    /// The two tables name the same people and hold the same entries.
    pub open spec fn same_as(self, other: BalanceTable) -> bool {
        &&& string_views(self.names@) == string_views(other.names@)
        &&& self.denominator == other.denominator
        &&& self.entries() == other.entries()
    }

    pub open spec fn amount(self, debtor: int, creditor: int) -> Option<int> {
        cell(self.rows@, debtor, creditor)
    }

    /// The table is the balance of `database`: one row and one column per
    /// declared person, and each entry is what that debtor owes that creditor.
    pub open spec fn is_resolution_of(self, database: Receipts) -> bool {
        let names = database.names();
        &&& string_views(self.names@) == names
        &&& self.denominator == database.denominator()
        &&& is_square(self.rows@, names.len() as int)
        &&& forall|d: int, c: int|
            0 <= d < names.len() && 0 <= c < names.len() ==> #[trigger] self.amount(d, c)
                == database.owed(names[d], names[c])
    }
}

/// What resolving `database` gives: the first failed condition, in the order
/// distinct names, known references, amounts that fit; else the balance table.
pub open spec fn resolves_to(database: Receipts, r: Result<BalanceTable, ResolveError>) -> bool {
    if !database.names_distinct() {
        r == Err::<BalanceTable, ResolveError>(ResolveError::DuplicatePerson)
    } else if !database.references_known() {
        r == Err::<BalanceTable, ResolveError>(ResolveError::UnknownPerson)
    } else if !database.fits() {
        r == Err::<BalanceTable, ResolveError>(ResolveError::Overflow)
    } else {
        r is Ok && r->Ok_0.is_resolution_of(database)
    }
}

proof fn lemma_credit_once(e: Option<int>, t: nat, s: int)
    ensures
        credit(e, t + 1, s) == Some(credit(e, t, s).unwrap_or(0) + s),
{
    assert((t + 1) * s == t * s + s) by (nonlinear_arith);
    assert(1 * s == s);
    if t == 0 {
        assert(credit(e, t + 1, s) == Some(e.unwrap_or(0) + 1 * s));
    } else {
        assert(credit(e, t, s) == Some(e.unwrap_or(0) + t * s));
    }
}

/// Adds `share` to the debt of `d` towards `c`.
fn credit_cell(rows: &mut Vec<Vec<Option<u64>>>, d: usize, c: usize, share: u64, Ghost(n): Ghost<int>)
    requires
        is_square(old(rows)@, n),
        d < n,
        c < n,
        cell(old(rows)@, d as int, c as int).unwrap_or(0) + share <= u64::MAX,
    ensures
        is_square(final(rows)@, n),
        cell(final(rows)@, d as int, c as int) == Some(
            cell(old(rows)@, d as int, c as int).unwrap_or(0) + share,
        ),
        forall|a: int, b: int|
            0 <= a < n && 0 <= b < n && (a != d || b != c) ==> #[trigger] cell(final(rows)@, a, b)
                == cell(old(rows)@, a, b),
{
    let current: u64 = match rows[d][c] {
        Some(v) => v,
        None => 0,
    };
    let mut row: Vec<Option<u64>> = Vec::new();
    rows.set_and_swap(d, &mut row);
    row.set(c, Some(current + share));
    rows.set_and_swap(d, &mut row);
    proof {
        assert forall|a: int| 0 <= a < n implies (#[trigger] final(rows)@[a])@.len() == n by {
            if a != d {
                assert(final(rows)@[a] == old(rows)@[a]);
            }
        }
        assert forall|a: int, b: int|
            0 <= a < n && 0 <= b < n && (a != d || b != c) implies #[trigger] cell(final(rows)@, a, b)
                == cell(old(rows)@, a, b) by {
            if a != d {
                assert(final(rows)@[a] == old(rows)@[a]);
            }
        }
    }
}

/// Adds the shares of `item` to the debts towards the person at `payer`.
/// Every entry starts at most `bound` and ends at most `bound` plus one share per sharer.
fn apply_item(
    rows: &mut Vec<Vec<Option<u64>>>,
    persons: &Vec<Person>,
    payer: usize,
    item: &Item,
    share: u64,
    Ghost(bound): Ghost<int>,
)
    requires
        is_square(old(rows)@, persons@.len() as int),
        payer < persons@.len(),
        person_names(persons@).no_duplicates(),
        forall|k: int|
            0 <= k < item.shared_by@.len() ==> person_names(persons@).contains(
                #[trigger] item.shared_by@[k]@,
            ),
        forall|a: int, b: int|
            0 <= a < persons@.len() && 0 <= b < persons@.len() ==> (#[trigger] cell(
                old(rows)@,
                a,
                b,
            )).unwrap_or(0) <= bound,
        bound + item.sharers(person_names(persons@)).len() * share <= u64::MAX,
    ensures
        is_square(final(rows)@, persons@.len() as int),
        forall|a: int, b: int|
            0 <= a < persons@.len() && 0 <= b < persons@.len() ==> #[trigger] cell(final(rows)@, a, b)
                == if b == payer && a != payer {
                credit(
                    cell(old(rows)@, a, b),
                    occurrences(item.sharers(person_names(persons@)), person_names(persons@)[a]),
                    share as int,
                )
            } else {
                cell(old(rows)@, a, b)
            },
        forall|a: int, b: int|
            0 <= a < persons@.len() && 0 <= b < persons@.len() ==> (#[trigger] cell(
                final(rows)@,
                a,
                b,
            )).unwrap_or(0) <= bound + item.sharers(person_names(persons@)).len() * share,
{
    let ghost n = persons@.len() as int;
    let ghost names = person_names(persons@);
    let ghost sharers = item.sharers(names);
    let ghost before = rows@;
    let count = sharer_count(item, persons);
    let mut k: usize = 0;
    while k < count
        invariant
            n == persons@.len(),
            names == person_names(persons@),
            sharers == item.sharers(names),
            count == sharers.len(),
            k <= count,
            payer < n,
            names.no_duplicates(),
            forall|x: int| 0 <= x < item.shared_by@.len() ==> names.contains(#[trigger] item.shared_by@[x]@),
            bound + count * share <= u64::MAX,
            is_square(rows@, n),
            forall|a: int, b: int|
                0 <= a < n && 0 <= b < n ==> #[trigger] cell(rows@, a, b) == if b == payer && a
                    != payer {
                    credit(cell(before, a, b), occurrences(sharers.take(k as int), names[a]), share as int)
                } else {
                    cell(before, a, b)
                },
            forall|a: int, b: int|
                0 <= a < n && 0 <= b < n ==> (#[trigger] cell(rows@, a, b)).unwrap_or(0) <= bound + k
                    * share,
        decreases count - k,
    {
        let found: Option<usize> = if item.shared_by.len() == 0 {
            Some(k)
        } else {
            find_person(persons, &item.shared_by[k])
        };
        proof {
            assert(sharers.take(k + 1).drop_last() =~= sharers.take(k as int));
            assert(sharers.take(k + 1).last() == sharers[k as int]);
            if item.shared_by@.len() != 0 {
                assert(sharers[k as int] == item.shared_by@[k as int]@);
                assert(names.contains(item.shared_by@[k as int]@));
            }
            assert((k + 1) * share == k * share + share) by (nonlinear_arith);
            assert((k + 1) * share <= count * share) by (nonlinear_arith)
                requires
                    k + 1 <= count,
            ;
            assert(k * share <= (k + 1) * share) by (nonlinear_arith);
        }
        if let Some(d) = found {
            proof {
                assert(names[d as int] == sharers[k as int]);
                assert forall|a: int| 0 <= a < n && a != d implies names[a] != sharers[k as int] by {
                    assert(names[a] != names[d as int]);
                }
            }
            if d != payer {
                proof {
                    lemma_credit_once(
                        cell(before, d as int, payer as int),
                        occurrences(sharers.take(k as int), names[d as int]),
                        share as int,
                    );
                }
                credit_cell(rows, d, payer, share, Ghost(n));
            }
        }
        k += 1;
    }
    assert(sharers.take(k as int) =~= sharers);
}

proof fn lemma_share_bounds(cost: int, n: int, d: int, before: int, total: int)
    requires
        cost >= 0,
        n >= 1,
        d >= 1,
        before >= 0,
        before + cost <= total,
    ensures
        cost * (d / n) <= cost * d,
        n * (cost * (d / n)) <= cost * d,
        d * before + n * (cost * (d / n)) <= d * (before + cost),
        d * (before + cost) <= d * total,
        cost * d <= d * total,
{
    let q = d / n;
    vstd::arithmetic::div_mod::lemma_fundamental_div_mod(d, n);
    assert(0 <= d % n);
    assert(n * q <= d);
    assert(0 <= q <= d) by (nonlinear_arith)
        requires
            n * q <= d,
            n >= 1,
            d >= 1,
            q == d / n,
    {
        vstd::arithmetic::div_mod::lemma_div_pos_is_pos(d, n);
    };
    assert(cost * q <= cost * d) by (nonlinear_arith)
        requires
            cost >= 0,
            q <= d,
    ;
    assert(n * (cost * q) <= cost * d) by (nonlinear_arith)
        requires
            cost >= 0,
            n * q <= d,
    ;
    assert(d * (before + cost) == d * before + cost * d) by (nonlinear_arith);
    assert(d * (before + cost) <= d * total) by (nonlinear_arith)
        requires
            d >= 1,
            before + cost <= total,
    ;
    assert(cost * d <= d * (before + cost)) by (nonlinear_arith)
        requires
            d >= 1,
            before >= 0,
    ;
}

/// A table with `n` rows of `n` empty entries.
fn empty_rows(n: usize) -> (rows: Vec<Vec<Option<u64>>>)
    ensures
        is_square(rows@, n as int),
        forall|a: int, b: int| 0 <= a < n && 0 <= b < n ==> #[trigger] cell(rows@, a, b) == None::<int>,
{
    let mut rows: Vec<Vec<Option<u64>>> = Vec::new();
    let mut i: usize = 0;
    while i < n
        invariant
            i <= n,
            rows@.len() == i,
            forall|a: int| 0 <= a < i ==> (#[trigger] rows@[a])@.len() == n,
            forall|a: int, b: int| 0 <= a < i && 0 <= b < n ==> #[trigger] cell(rows@, a, b) == None::<int>,
        decreases n - i,
    {
        let mut row: Vec<Option<u64>> = Vec::new();
        let mut j: usize = 0;
        while j < n
            invariant
                j <= n,
                row@.len() == j,
                forall|b: int| 0 <= b < j ==> row@[b] == None::<u64>,
            decreases n - j,
        {
            row.push(None);
            j += 1;
        }
        let ghost previous = rows@;
        rows.push(row);
        proof {
            assert forall|a: int, b: int| 0 <= a <= i && 0 <= b < n implies #[trigger] cell(rows@, a, b)
                == None::<int> by {
                if a < i {
                    assert(rows@[a] == previous[a]);
                    assert(cell(previous, a, b) == None::<int>);
                } else {
                    assert(rows@[a]@ == row@);
                    assert(row@[b] == None::<u64>);
                }
            }
        }
        i += 1;
    }
    rows
}

/// Runs through every item of every receipt and adds its shares to the debts.
fn accumulate(database: &Receipts, denominator: u64) -> (rows: Vec<Vec<Option<u64>>>)
    requires
        database.names_distinct(),
        database.references_known(),
        denominator == database.denominator(),
        database.denominator() * database.total_cost() <= u64::MAX,
    ensures
        is_square(rows@, database.persons@.len() as int),
        forall|a: int, b: int|
            0 <= a < database.persons@.len() && 0 <= b < database.persons@.len() ==> #[trigger] cell(
                rows@,
                a,
                b,
            ) == database.owed(database.names()[a], database.names()[b]),
{
    let ghost names = database.names();
    let ghost receipts = database.receipts@;
    let ghost den = denominator as int;
    let ghost total = database.total_cost();
    let ghost n = database.persons@.len() as int;
    proof {
        lemma_receipts_denominator_grows(receipts, names, 0);
        lemma_receipts_cost_grows(receipts, 0);
    }
    let mut rows = empty_rows(database.persons.len());
    let mut i: usize = 0;
    assert(receipts.take(0) =~= Seq::<Receipt>::empty());
    assert(den * 0 == 0);
    while i < database.receipts.len()
        invariant
            i <= receipts.len(),
            receipts == database.receipts@,
            names == database.names(),
            n == names.len(),
            den == denominator,
            den == database.denominator(),
            den >= 1,
            total == database.total_cost(),
            den * total <= u64::MAX,
            names.no_duplicates(),
            database.references_known(),
            is_square(rows@, n),
            forall|a: int, b: int|
                0 <= a < n && 0 <= b < n ==> #[trigger] cell(rows@, a, b) == receipts_entry(
                    receipts.take(i as int),
                    names,
                    den,
                    names[a],
                    names[b],
                ),
            forall|a: int, b: int|
                0 <= a < n && 0 <= b < n ==> (#[trigger] cell(rows@, a, b)).unwrap_or(0) <= den
                    * receipts_cost(receipts.take(i as int)),
        decreases receipts.len() - i,
    {
        let receipt = &database.receipts[i];
        let ghost items = receipt.items@;
        let ghost paid_by = receipt.paid_by@;
        let ghost start = receipts.take(i as int);
        let ghost spent = receipts_cost(start);
        assert(receipts[i as int].references_known(names));
        proof {
            lemma_receipts_cost_grows(receipts, i + 1);
            lemma_receipts_cost_grows(receipts, i as int);
            lemma_items_cost_grows(items, 0);
            assert(receipts.take(i + 1).drop_last() =~= start);
            assert(receipts.take(i + 1).last() == receipts[i as int]);
        }
        if let Some(payer) = find_person(&database.persons, &receipt.paid_by) {
            let mut j: usize = 0;
            assert(items.take(0) =~= Seq::<Item>::empty());
            while j < receipt.items.len()
                invariant
                    i < receipts.len(),
                    *receipt == receipts[i as int],
                    items == receipt.items@,
                    paid_by == receipt.paid_by@,
                    receipt.references_known(names),
                    j <= items.len(),
                    payer < n,
                    names[payer as int] == paid_by,
                    receipts == database.receipts@,
                    names == database.names(),
                    n == names.len(),
                    n == database.persons@.len(),
                    den == denominator,
                    den >= 1,
                    den * total <= u64::MAX,
                    spent + items_cost(items) <= total,
                    spent >= 0,
                    names.no_duplicates(),
                    start == receipts.take(i as int),
                    spent == receipts_cost(start),
                    is_square(rows@, n),
                    forall|a: int, b: int|
                        0 <= a < n && 0 <= b < n ==> #[trigger] cell(rows@, a, b) == items_entry(
                            receipts_entry(start, names, den, names[a], names[b]),
                            items.take(j as int),
                            paid_by,
                            names,
                            den,
                            names[a],
                            names[b],
                        ),
                    forall|a: int, b: int|
                        0 <= a < n && 0 <= b < n ==> (#[trigger] cell(rows@, a, b)).unwrap_or(0)
                            <= den * (spent + items_cost(items.take(j as int))),
                decreases items.len() - j,
            {
                let item = &receipt.items[j];
                let count = sharer_count(item, &database.persons);
                let ghost before_cost = spent + items_cost(items.take(j as int));
                let ghost before_rows = rows@;
                proof {
                    lemma_items_cost_grows(items, j + 1);
                    lemma_items_cost_grows(items, j as int);
                    assert(items.take(j + 1).drop_last() =~= items.take(j as int));
                    assert(items.take(j + 1).last() == items[j as int]);
                    lemma_share_bounds(item.cost as int, count as int, den, before_cost, total);
                }
                let share = item.cost * (denominator / (count as u64));
                assert forall|k: int| 0 <= k < item.shared_by@.len() implies names.contains(
                    #[trigger] item.shared_by@[k]@,
                ) by {
                    assert(receipt.items@[j as int].shared_by@[k]@ == item.shared_by@[k]@);
                }
                apply_item(&mut rows, &database.persons, payer, item, share, Ghost(den * before_cost));
                proof {
                    assert forall|a: int, b: int| 0 <= a < n && 0 <= b < n implies #[trigger] cell(
                        rows@,
                        a,
                        b,
                    ) == items_entry(
                        receipts_entry(start, names, den, names[a], names[b]),
                        items.take(j + 1),
                        paid_by,
                        names,
                        den,
                        names[a],
                        names[b],
                    ) by {
                        assert((names[b] == paid_by) == (b == payer));
                        assert((names[a] != paid_by) == (a != payer));
                        assert(cell(before_rows, a, b) == items_entry(
                            receipts_entry(start, names, den, names[a], names[b]),
                            items.take(j as int),
                            paid_by,
                            names,
                            den,
                            names[a],
                            names[b],
                        ));
                    }
                    assert(den * before_cost + count * share <= den * (spent + items_cost(
                        items.take(j + 1),
                    )));
                }
                j += 1;
            }
            assert(items.take(j as int) =~= items);
        }
        i += 1;
    }
    assert(receipts.take(i as int) =~= receipts);
    rows
}

proof fn lemma_items_entry_not_to_self(
    e: Option<int>,
    items: Seq<Item>,
    payer: Seq<char>,
    names: Seq<Seq<char>>,
    denominator: int,
    person: Seq<char>,
)
    ensures
        items_entry(e, items, payer, names, denominator, person, person) == e,
    decreases items.len(),
{
    if items.len() > 0 {
        lemma_items_entry_not_to_self(e, items.drop_last(), payer, names, denominator, person);
    }
}

proof fn lemma_never_owes_self(
    receipts: Seq<Receipt>,
    names: Seq<Seq<char>>,
    denominator: int,
    person: Seq<char>,
)
    ensures
        receipts_entry(receipts, names, denominator, person, person) == None::<int>,
    decreases receipts.len(),
{
    if receipts.len() > 0 {
        lemma_never_owes_self(receipts.drop_last(), names, denominator, person);
        lemma_items_entry_not_to_self(
            None,
            receipts.last().items@,
            receipts.last().paid_by@,
            names,
            denominator,
            person,
        );
    }
}

/// The declared names, in declaration order.
fn declared_names(persons: &Vec<Person>) -> (names: Vec<String>)
    ensures
        string_views(names@) == person_names(persons@),
{
    let mut names: Vec<String> = Vec::new();
    let mut i: usize = 0;
    while i < persons.len()
        invariant
            i <= persons@.len(),
            names@.len() == i,
            forall|k: int| 0 <= k < i ==> (#[trigger] names@[k])@ == persons@[k].name@,
        decreases persons@.len() - i,
    {
        names.push(persons[i].name.clone());
        i += 1;
    }
    assert(string_views(names@) =~= person_names(persons@));
    names
}

/// Works out who owes whom: for every declared debtor and creditor, the sum
/// of the shares of the items paid by the creditor that list the debtor
/// (or list nobody, and so are shared by everyone), counted once for each
/// time the debtor is listed. A payer's own share is no debt.
pub fn resolve(database: &Receipts) -> (r: Result<BalanceTable, ResolveError>)
    ensures
        resolves_to(*database, r),
        r is Ok ==> forall|p: int|
            0 <= p < database.persons@.len() ==> (#[trigger] r->Ok_0.rows@[p])@[p] is None,
{
    if !names_distinct(&database.persons) {
        return Err(ResolveError::DuplicatePerson);
    }
    if !references_known(database) {
        return Err(ResolveError::UnknownPerson);
    }
    let denominator = match common_denominator(database) {
        Some(d) => d,
        None => {
            return Err(ResolveError::Overflow);
        },
    };
    proof {
        lemma_receipts_denominator_grows(database.receipts@, database.names(), 0);
        lemma_receipts_cost_grows(database.receipts@, 0);
    }
    let total = match total_cost(database) {
        Some(t) => t,
        None => {
            assert(database.denominator() * database.total_cost() > u64::MAX) by (nonlinear_arith)
                requires
                    database.denominator() >= 1,
                    database.total_cost() > u64::MAX,
            ;
            return Err(ResolveError::Overflow);
        },
    };
    if denominator.checked_mul(total).is_none() {
        return Err(ResolveError::Overflow);
    }
    let rows = accumulate(database, denominator);
    let names = declared_names(&database.persons);
    let table = BalanceTable { names, denominator, rows };
    proof {
        assert forall|p: int| 0 <= p < database.persons@.len() implies (#[trigger] table.rows@[p])@[p] is None by {
            lemma_never_owes_self(database.receipts@, database.names(), denominator as int, database.names()[p]);
            assert(cell(table.rows@, p, p) == None::<int>);
        }
    }
    Ok(table)
}

/// The position of `name` among the declared people.
pub fn find_person(persons: &Vec<Person>, name: &String) -> (r: Option<usize>)
    ensures
        match r {
            Some(i) => i < persons@.len() && persons@[i as int].name@ == name@,
            None => !person_names(persons@).contains(name@),
        },
{
    let mut i: usize = 0;
    while i < persons.len()
        invariant
            i <= persons@.len(),
            forall|k: int| 0 <= k < i ==> persons@[k].name@ != name@,
        decreases persons@.len() - i,
    {
        if persons[i].name == *name {
            return Some(i);
        }
        i += 1;
    }
    proof {
        if person_names(persons@).contains(name@) {
            let k = choose|k: int| 0 <= k < persons@.len() && person_names(persons@)[k] == name@;
            assert(persons@[k].name@ == name@);
        }
    }
    None
}

/// Whether every declared name differs from every other.
pub fn names_distinct(persons: &Vec<Person>) -> (r: bool)
    ensures
        r == person_names(persons@).no_duplicates(),
{
    let ghost names = person_names(persons@);
    let mut i: usize = 0;
    while i < persons.len()
        invariant
            i <= persons@.len(),
            names == person_names(persons@),
            forall|a: int, b: int| 0 <= a < i && 0 <= b < i && a != b ==> names[a] != names[b],
        decreases persons@.len() - i,
    {
        let mut j: usize = 0;
        while j < i
            invariant
                i < persons@.len(),
                j <= i,
                names == person_names(persons@),
                forall|a: int, b: int| 0 <= a < i && 0 <= b < i && a != b ==> names[a] != names[b],
                forall|b: int| 0 <= b < j ==> names[b] != names[i as int],
            decreases i - j,
        {
            if persons[i].name == persons[j].name {
                assert(!names.no_duplicates()) by {
                    assert(names[i as int] == names[j as int]);
                }
                return false;
            }
            j += 1;
        }
        i += 1;
    }
    true
}

/// Whether every payer and every listed sharer is declared.
pub fn references_known(database: &Receipts) -> (r: bool)
    ensures
        r == database.references_known(),
{
    let ghost names = database.names();
    let mut i: usize = 0;
    while i < database.receipts.len()
        invariant
            i <= database.receipts@.len(),
            names == database.names(),
            forall|a: int| 0 <= a < i ==> (#[trigger] database.receipts@[a]).references_known(names),
        decreases database.receipts@.len() - i,
    {
        let receipt = &database.receipts[i];
        match find_person(&database.persons, &receipt.paid_by) {
            None => {
                return false;
            },
            Some(p) => {
                assert(names[p as int] == receipt.paid_by@);
            },
        }
        let mut j: usize = 0;
        while j < receipt.items.len()
            invariant
                i < database.receipts@.len(),
                *receipt == database.receipts@[i as int],
                names.contains(receipt.paid_by@),
                forall|a: int| 0 <= a < i ==> (#[trigger] database.receipts@[a]).references_known(names),
                j <= receipt.items@.len(),
                names == database.names(),
                forall|a: int, k: int|
                    0 <= a < j && 0 <= k < receipt.items@[a].shared_by@.len() ==> names.contains(
                        #[trigger] receipt.items@[a].shared_by@[k]@,
                    ),
            decreases receipt.items@.len() - j,
        {
            let item = &receipt.items[j];
            let mut k: usize = 0;
            while k < item.shared_by.len()
                invariant
                    i < database.receipts@.len(),
                    j < receipt.items@.len(),
                    *receipt == database.receipts@[i as int],
                    *item == receipt.items@[j as int],
                    names.contains(receipt.paid_by@),
                    forall|a: int| 0 <= a < i ==> (#[trigger] database.receipts@[a]).references_known(names),
                    k <= item.shared_by@.len(),
                    names == database.names(),
                    forall|a: int, b: int|
                        0 <= a < j && 0 <= b < receipt.items@[a].shared_by@.len()
                            ==> names.contains(#[trigger] receipt.items@[a].shared_by@[b]@),
                    forall|b: int| 0 <= b < k ==> names.contains(#[trigger] item.shared_by@[b]@),
                decreases item.shared_by@.len() - k,
            {
                match find_person(&database.persons, &item.shared_by[k]) {
                    None => {
                        assert(!database.receipts@[i as int].references_known(names)) by {
                            assert(!names.contains(receipt.items@[j as int].shared_by@[k as int]@));
                        }
                        return false;
                    },
                    Some(p) => {
                        assert(names[p as int] == item.shared_by@[k as int]@);
                    },
                }
                k += 1;
            }
            assert(forall|b: int| 0 <= b < item.shared_by@.len() ==> names.contains(#[trigger] receipt.items@[j as int].shared_by@[b]@));
            j += 1;
        }
        i += 1;
    }
    true
}

proof fn lemma_items_denominator_grows(d: int, items: Seq<Item>, names: Seq<Seq<char>>, m: int)
    requires
        d >= 1,
        0 <= m <= items.len(),
    ensures
        items_denominator(d, items, names) >= items_denominator(d, items.take(m), names) >= d,
    decreases items.len(),
{
    if items.len() > 0 {
        let prev = items.drop_last();
        if m == items.len() {
            assert(items.take(m) =~= items);
            lemma_items_denominator_grows(d, prev, names, m - 1);
            assert(items.take(m - 1) =~= prev.take(m - 1));
        } else {
            lemma_items_denominator_grows(d, prev, names, m);
            assert(items.take(m) =~= prev.take(m));
        }
        let p = items_denominator(d, prev, names);
        let n = items.last().sharers(names).len() as int;
        assert(denominator_step(p, n) >= p) by (nonlinear_arith)
            requires
                p >= 1,
                n >= 0,
        {};
    } else {
        assert(items.take(m) =~= items);
    }
}

proof fn lemma_receipts_denominator_grows(receipts: Seq<Receipt>, names: Seq<Seq<char>>, m: int)
    requires
        0 <= m <= receipts.len(),
    ensures
        receipts_denominator(receipts, names) >= receipts_denominator(receipts.take(m), names) >= 1,
    decreases receipts.len(),
{
    if receipts.len() > 0 {
        let prev = receipts.drop_last();
        if m == receipts.len() {
            assert(receipts.take(m) =~= receipts);
            lemma_receipts_denominator_grows(prev, names, m - 1);
            assert(receipts.take(m - 1) =~= prev.take(m - 1));
        } else {
            lemma_receipts_denominator_grows(prev, names, m);
            assert(receipts.take(m) =~= prev.take(m));
        }
        let items = receipts.last().items@;
        lemma_items_denominator_grows(receipts_denominator(prev, names), items, names, 0);
    } else {
        assert(receipts.take(m) =~= receipts);
    }
}

proof fn lemma_items_cost_grows(items: Seq<Item>, m: int)
    requires
        0 <= m <= items.len(),
    ensures
        items_cost(items) >= items_cost(items.take(m)) >= 0,
    decreases items.len(),
{
    if items.len() > 0 {
        let prev = items.drop_last();
        if m == items.len() {
            assert(items.take(m) =~= items);
            lemma_items_cost_grows(prev, m - 1);
            assert(items.take(m - 1) =~= prev.take(m - 1));
        } else {
            lemma_items_cost_grows(prev, m);
            assert(items.take(m) =~= prev.take(m));
        }
    } else {
        assert(items.take(m) =~= items);
    }
}

proof fn lemma_receipts_cost_grows(receipts: Seq<Receipt>, m: int)
    requires
        0 <= m <= receipts.len(),
    ensures
        receipts_cost(receipts) >= receipts_cost(receipts.take(m)) >= 0,
    decreases receipts.len(),
{
    if receipts.len() > 0 {
        let prev = receipts.drop_last();
        if m == receipts.len() {
            assert(receipts.take(m) =~= receipts);
            lemma_receipts_cost_grows(prev, m - 1);
            assert(receipts.take(m - 1) =~= prev.take(m - 1));
        } else {
            lemma_receipts_cost_grows(prev, m);
            assert(receipts.take(m) =~= prev.take(m));
        }
        lemma_items_cost_grows(receipts.last().items@, 0);
    } else {
        assert(receipts.take(m) =~= receipts);
    }
}

/// The number of sharers of `item`: those listed, or everyone declared.
fn sharer_count(item: &Item, persons: &Vec<Person>) -> (r: usize)
    ensures
        r == item.sharers(person_names(persons@)).len(),
{
    if item.shared_by.len() == 0 {
        persons.len()
    } else {
        item.shared_by.len()
    }
}

/// The common denominator of all shares, or `None` when it exceeds `u64`.
fn common_denominator(database: &Receipts) -> (r: Option<u64>)
    ensures
        match r {
            Some(d) => d == database.denominator(),
            None => database.denominator() > u64::MAX,
        },
{
    let ghost names = database.names();
    let ghost receipts = database.receipts@;
    let mut d: u64 = 1;
    let mut i: usize = 0;
    while i < database.receipts.len()
        invariant
            i <= receipts.len(),
            names == database.names(),
            receipts == database.receipts@,
            d == receipts_denominator(receipts.take(i as int), names),
        decreases receipts.len() - i,
    {
        let receipt = &database.receipts[i];
        let ghost items = receipt.items@;
        let ghost start = d as int;
        assert(receipts.take(i + 1).drop_last() =~= receipts.take(i as int));
        let mut j: usize = 0;
        while j < receipt.items.len()
            invariant
                i < receipts.len(),
                *receipt == receipts[i as int],
                items == receipt.items@,
                j <= items.len(),
                names == database.names(),
                receipts == database.receipts@,
                start == receipts_denominator(receipts.take(i as int), names),
                d == items_denominator(start, items.take(j as int), names),
            decreases items.len() - j,
        {
            let n = sharer_count(&receipt.items[j], &database.persons);
            assert(items.take(j + 1).drop_last() =~= items.take(j as int));
            if n != 0 && d % (n as u64) != 0 {
                match d.checked_mul(n as u64) {
                    Some(next) => {
                        d = next;
                    },
                    None => {
                        proof {
                            lemma_receipts_denominator_grows(receipts.take(i as int), names, 0);
                            lemma_items_denominator_grows(start, items, names, j + 1);
                            lemma_receipts_denominator_grows(receipts, names, i + 1);
                            assert(receipts.take(i + 1).last() == receipts[i as int]);
                            assert(receipts.take(i + 1).drop_last() =~= receipts.take(i as int));
                            assert(items.take(j + 1).last() == items[j as int]);
                            assert(items_denominator(start, items.take(j + 1), names) > u64::MAX);
                            assert(receipts_denominator(receipts.take(i + 1), names)
                                == items_denominator(start, items, names));
                        }
                        return None;
                    },
                }
            }
            j += 1;
        }
        assert(items.take(j as int) =~= items);
        i += 1;
    }
    assert(receipts.take(i as int) =~= receipts);
    Some(d)
}

/// The total cost of all items, or `None` when it exceeds `u64`.
fn total_cost(database: &Receipts) -> (r: Option<u64>)
    ensures
        match r {
            Some(t) => t == database.total_cost(),
            None => database.total_cost() > u64::MAX,
        },
{
    let ghost receipts = database.receipts@;
    let mut total: u64 = 0;
    let mut i: usize = 0;
    while i < database.receipts.len()
        invariant
            i <= receipts.len(),
            receipts == database.receipts@,
            total == receipts_cost(receipts.take(i as int)),
        decreases receipts.len() - i,
    {
        let receipt = &database.receipts[i];
        let ghost items = receipt.items@;
        let ghost start = total as int;
        assert(receipts.take(i + 1).drop_last() =~= receipts.take(i as int));
        let mut j: usize = 0;
        while j < receipt.items.len()
            invariant
                i < receipts.len(),
                *receipt == receipts[i as int],
                items == receipt.items@,
                j <= items.len(),
                receipts == database.receipts@,
                start == receipts_cost(receipts.take(i as int)),
                total == start + items_cost(items.take(j as int)),
            decreases items.len() - j,
        {
            assert(items.take(j + 1).drop_last() =~= items.take(j as int));
            match total.checked_add(receipt.items[j].cost) {
                Some(next) => {
                    total = next;
                },
                None => {
                    proof {
                        lemma_items_cost_grows(items, j + 1);
                        lemma_receipts_cost_grows(receipts, i + 1);
                        assert(receipts.take(i + 1).last() == receipts[i as int]);
                        assert(receipts.take(i + 1).drop_last() =~= receipts.take(i as int));
                        assert(items.take(j + 1).last() == items[j as int]);
                        assert(receipts_cost(receipts.take(i + 1)) == start + items_cost(items));
                    }
                    return None;
                },
            }
            j += 1;
        }
        assert(items.take(j as int) =~= items);
        i += 1;
    }
    assert(receipts.take(i as int) =~= receipts);
    Some(total)
}

} // verus!
