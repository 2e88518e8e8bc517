use vstd::prelude::*;

use crate::model::{
    credit, denominator_step, item_debts, items_denominator, items_entry, occurrences,
    receipts_denominator, receipts_entry,
    Item, Receipt, Receipts,
};
use crate::resolve::{resolves_to, BalanceTable, ResolveError};

verus! {

proof fn lemma_divides_transitive(a: int, b: int, c: int)
    requires
        a > 0,
        b > 0,
        b % a == 0,
        c % b == 0,
    ensures
        c % a == 0,
{
    vstd::arithmetic::div_mod::lemma_fundamental_div_mod(b, a);
    vstd::arithmetic::div_mod::lemma_fundamental_div_mod(c, b);
    let k = (b / a) * (c / b);
    assert(c == k * a) by (nonlinear_arith)
        requires
            b == a * (b / a),
            c == b * (c / b),
            k == (b / a) * (c / b),
    ;
    vstd::arithmetic::div_mod::lemma_mod_multiples_basic(k, a);
}

proof fn lemma_step_divides(d: int, n: int)
    requires
        d >= 1,
        n >= 0,
    ensures
        denominator_step(d, n) >= 1,
        denominator_step(d, n) % d == 0,
        n > 0 ==> denominator_step(d, n) % n == 0,
{
    vstd::arithmetic::div_mod::lemma_mod_multiples_basic(1, d);
    assert(1 * d == d);
    if n > 0 && d % n != 0 {
        assert(d * n >= 1) by (nonlinear_arith)
            requires
                d >= 1,
                n >= 1,
        ;
        vstd::arithmetic::div_mod::lemma_mod_multiples_basic(d, n);
        vstd::arithmetic::div_mod::lemma_mod_multiples_basic(n, d);
        assert(n * d == d * n) by (nonlinear_arith);
    }
}

proof fn lemma_items_denominator_divides(d: int, items: Seq<Item>, names: Seq<Seq<char>>)
    requires
        d >= 1,
    ensures
        items_denominator(d, items, names) >= 1,
        items_denominator(d, items, names) % d == 0,
        forall|j: int|
            0 <= j < items.len() && (#[trigger] items[j]).sharers(names).len() > 0
                ==> items_denominator(d, items, names) % (items[j].sharers(names).len() as int) == 0,
    decreases items.len(),
{
    if items.len() > 0 {
        let prev = items.drop_last();
        let p = items_denominator(d, prev, names);
        let n = items.last().sharers(names).len() as int;
        let e = items_denominator(d, items, names);
        lemma_items_denominator_divides(d, prev, names);
        lemma_step_divides(p, n);
        lemma_divides_transitive(d, p, e);
        assert forall|j: int|
            0 <= j < items.len() && (#[trigger] items[j]).sharers(names).len() > 0 implies e % (
            items[j].sharers(names).len() as int) == 0 by {
            if j < items.len() - 1 {
                assert(items[j] == prev[j]);
                lemma_divides_transitive(items[j].sharers(names).len() as int, p, e);
            }
        }
    } else {
        vstd::arithmetic::div_mod::lemma_mod_multiples_basic(1, d);
        assert(1 * d == d);
    }
}

proof fn lemma_receipts_denominator_divides(receipts: Seq<Receipt>, names: Seq<Seq<char>>)
    ensures
        receipts_denominator(receipts, names) >= 1,
        forall|i: int, j: int|
            0 <= i < receipts.len() && 0 <= j < receipts[i].items@.len()
                && (#[trigger] receipts[i].items@[j]).sharers(names).len() > 0
                ==> receipts_denominator(receipts, names) % (
            receipts[i].items@[j].sharers(names).len() as int) == 0,
    decreases receipts.len(),
{
    if receipts.len() > 0 {
        let prev = receipts.drop_last();
        let p = receipts_denominator(prev, names);
        let e = receipts_denominator(receipts, names);
        lemma_receipts_denominator_divides(prev, names);
        lemma_items_denominator_divides(p, receipts.last().items@, names);
        assert forall|i: int, j: int|
            0 <= i < receipts.len() && 0 <= j < receipts[i].items@.len()
                && (#[trigger] receipts[i].items@[j]).sharers(names).len() > 0 implies e % (
            receipts[i].items@[j].sharers(names).len() as int) == 0 by {
            if i < receipts.len() - 1 {
                assert(receipts[i] == prev[i]);
                lemma_divides_transitive(receipts[i].items@[j].sharers(names).len() as int, p, e);
            } else {
                assert(receipts[i].items@[j] == receipts.last().items@[j]);
            }
        }
    }
}

proof fn lemma_absent_not_counted(names: Seq<Seq<char>>, x: Seq<char>)
    requires
        !names.contains(x),
    ensures
        occurrences(names, x) == 0,
    decreases names.len(),
{
    if names.len() > 0 {
        assert(!names.drop_last().contains(x)) by {
            if names.drop_last().contains(x) {
                let k = choose|k: int| 0 <= k < names.drop_last().len() && names.drop_last()[k] == x;
                assert(names[k] == x);
            }
        }
        lemma_absent_not_counted(names.drop_last(), x);
        assert(names[names.len() - 1] != x);
    }
}

proof fn lemma_declared_once(names: Seq<Seq<char>>, x: Seq<char>)
    requires
        names.no_duplicates(),
        names.contains(x),
    ensures
        occurrences(names, x) == 1,
    decreases names.len(),
{
    let prev = names.drop_last();
    if names.last() == x {
        assert(!prev.contains(x)) by {
            if prev.contains(x) {
                let k = choose|k: int| 0 <= k < prev.len() && prev[k] == x;
                assert(names[k] == names[names.len() - 1]);
            }
        }
        lemma_absent_not_counted(prev, x);
    } else {
        let k = choose|k: int| 0 <= k < names.len() && names[k] == x;
        assert(k != names.len() - 1);
        assert(prev[k] == x);
        assert(prev.no_duplicates()) by {
            assert forall|a: int, b: int| 0 <= a < prev.len() && 0 <= b < prev.len() && a != b implies prev[a] != prev[b] by {
                assert(names[a] != names[b]);
            }
        }
        lemma_declared_once(prev, x);
    }
}

/// How many times in all the people of `names` are listed in `sharers`.
spec fn listed_total(names: Seq<Seq<char>>, sharers: Seq<Seq<char>>) -> int
    decreases names.len(),
{
    if names.len() == 0 {
        0
    } else {
        listed_total(names.drop_last(), sharers) + occurrences(sharers, names.last())
    }
}

proof fn lemma_listed_total_step(names: Seq<Seq<char>>, sharers: Seq<Seq<char>>)
    requires
        sharers.len() > 0,
    ensures
        listed_total(names, sharers) == listed_total(names, sharers.drop_last()) + occurrences(
            names,
            sharers.last(),
        ),
    decreases names.len(),
{
    if names.len() > 0 {
        lemma_listed_total_step(names.drop_last(), sharers);
    }
}

proof fn lemma_listed_total(names: Seq<Seq<char>>, sharers: Seq<Seq<char>>)
    requires
        names.no_duplicates(),
        forall|k: int| 0 <= k < sharers.len() ==> names.contains(#[trigger] sharers[k]),
    ensures
        listed_total(names, sharers) == sharers.len(),
    decreases sharers.len(),
{
    if sharers.len() == 0 {
        assert forall|names: Seq<Seq<char>>| listed_total(names, sharers) == 0 by {
            lemma_listed_total_empty(names, sharers);
        }
    } else {
        let prev = sharers.drop_last();
        assert forall|k: int| 0 <= k < prev.len() implies names.contains(#[trigger] prev[k]) by {
            assert(prev[k] == sharers[k]);
        }
        lemma_listed_total(names, prev);
        lemma_listed_total_step(names, sharers);
        assert(names.contains(sharers[sharers.len() - 1]));
        lemma_declared_once(names, sharers.last());
    }
}

proof fn lemma_listed_total_empty(names: Seq<Seq<char>>, sharers: Seq<Seq<char>>)
    requires
        sharers.len() == 0,
    ensures
        listed_total(names, sharers) == 0,
    decreases names.len(),
{
    if names.len() > 0 {
        lemma_listed_total_empty(names.drop_last(), sharers);
    }
}

proof fn lemma_item_debts_split(
    names: Seq<Seq<char>>,
    sharers: Seq<Seq<char>>,
    payer: Seq<char>,
    share: int,
)
    ensures
        item_debts(names, sharers, payer, share) + occurrences(names, payer) * (occurrences(
            sharers,
            payer,
        ) * share) == listed_total(names, sharers) * share,
    decreases names.len(),
{
    if names.len() > 0 {
        let prev = names.drop_last();
        lemma_item_debts_split(prev, sharers, payer, share);
        let o = occurrences(prev, payer) as int;
        let t = listed_total(prev, sharers);
        let own = occurrences(sharers, payer) as int;
        let last = occurrences(sharers, names.last()) as int;
        assert((o + 1) * (own * share) == o * (own * share) + own * share) by (nonlinear_arith);
        assert((t + last) * share == t * share + last * share) by (nonlinear_arith);
        assert(listed_total(names, sharers) == t + last);
        if names.last() == payer {
            assert(occurrences(names, payer) == o + 1);
            assert(item_debts(names, sharers, payer, share) == item_debts(prev, sharers, payer, share));
        } else {
            assert(occurrences(names, payer) == o);
            assert(item_debts(names, sharers, payer, share) == item_debts(prev, sharers, payer, share)
                + last * share);
        }
    } else {
        assert(0 * (occurrences(sharers, payer) * share) == 0);
        assert(0 * share == 0);
    }
}

/// No part of an item's cost leaks or is counted twice: what the item makes
/// the other sharers owe its payer, together with the payer's own shares,
/// is the whole cost, counted in the common denominator.
pub proof fn item_shares_make_up_cost(database: Receipts, i: int, j: int)
    requires
        database.names_distinct(),
        database.references_known(),
        0 <= i < database.receipts@.len(),
        0 <= j < database.receipts@[i].items@.len(),
    ensures
        ({
            let names = database.names();
            let receipt = database.receipts@[i];
            let item = receipt.items@[j];
            let share = item.share(names, database.denominator());
            item_debts(names, item.sharers(names), receipt.paid_by@, share) + occurrences(
                item.sharers(names),
                receipt.paid_by@,
            ) * share == item.cost * database.denominator()
        }),
{
    let names = database.names();
    let receipt = database.receipts@[i];
    let item = receipt.items@[j];
    let sharers = item.sharers(names);
    let payer = receipt.paid_by@;
    let den = database.denominator();
    let n = sharers.len() as int;
    let share = item.share(names, den);
    assert(receipt.references_known(names));
    assert forall|k: int| 0 <= k < sharers.len() implies names.contains(#[trigger] sharers[k]) by {
        if item.shared_by@.len() != 0 {
            assert(sharers[k] == item.shared_by@[k]@);
            assert(names.contains(receipt.items@[j].shared_by@[k]@));
        }
    }
    assert(n > 0) by {
        if item.shared_by@.len() == 0 {
            let k = choose|k: int| 0 <= k < names.len() && names[k] == payer;
        }
    }
    lemma_listed_total(names, sharers);
    lemma_declared_once(names, payer);
    lemma_item_debts_split(names, sharers, payer, share);
    lemma_receipts_denominator_divides(database.receipts@, names);
    assert(database.receipts@[i].items@[j].sharers(names).len() > 0);
    vstd::arithmetic::div_mod::lemma_fundamental_div_mod(den, n);
    let own = occurrences(sharers, payer) as int;
    assert(1 * (own * share) == own * share);
    assert(n * (item.cost * (den / n)) == item.cost * den) by (nonlinear_arith)
        requires
            den == n * (den / n),
    ;
}

/// Each time a person is listed among an item's sharers they take one more
/// share: on receipts of one single item split `n` ways, a debtor listed `k`
/// times owes the payer `k` times the cost, counted in units of `1 / n`.
pub proof fn each_listing_adds_a_share(database: Receipts, table: BalanceTable, d: int, c: int)
    requires
        database.receipts@.len() == 1,
        database.receipts@[0].items@.len() == 1,
        database.references_known(),
        table.is_resolution_of(database),
        0 <= d < database.persons@.len(),
        0 <= c < database.persons@.len(),
        database.names()[c] == database.receipts@[0].paid_by@,
        database.names()[d] != database.receipts@[0].paid_by@,
    ensures
        ({
            let item = database.receipts@[0].items@[0];
            let sharers = item.sharers(database.names());
            &&& table.denominator == sharers.len()
            &&& table.amount(d, c) == credit(
                None,
                occurrences(sharers, database.names()[d]),
                item.cost as int,
            )
        }),
{
    let names = database.names();
    let receipts = database.receipts@;
    let receipt = receipts[0];
    let items = receipt.items@;
    let item = items[0];
    let n = item.sharers(names).len() as int;
    assert(receipts[0].references_known(names));
    assert(n > 0) by {
        if item.shared_by@.len() == 0 {
            let k = choose|k: int| 0 <= k < names.len() && names[k] == receipt.paid_by@;
        }
    }
    assert(receipts.drop_last() =~= Seq::<Receipt>::empty());
    assert(items.drop_last() =~= Seq::<Item>::empty());
    assert(receipts_denominator(receipts.drop_last(), names) == 1);
    assert(items_denominator(1, items.drop_last(), names) == 1);
    if n > 1 {
        assert(1int % n == 1) by (nonlinear_arith)
            requires
                n > 1,
        ;
        assert(1 * n == n);
    }
    assert(database.denominator() == n);
    vstd::arithmetic::div_mod::lemma_div_multiples_vanish(1, n);
    assert(n * 1 == n);
    assert(item.cost * (n / n) == item.cost * 1);
    let den = database.denominator();
    assert(receipts.last() == receipt);
    assert(items.last() == item);
    assert(receipts_entry(receipts.drop_last(), names, den, names[d], names[c]) == None::<int>);
    assert(items_entry(None, items.drop_last(), receipt.paid_by@, names, den, names[d], names[c])
        == None::<int>);
    assert(item.share(names, den) == item.cost);
    assert(database.owed(names[d], names[c]) == items_entry(
        None,
        items,
        receipt.paid_by@,
        names,
        den,
        names[d],
        names[c],
    ));
    assert(table.amount(d, c) == database.owed(names[d], names[c]));
}

/// Resolving is a function of the receipts alone: two runs on the same
/// receipts fail alike or give the same table.
pub proof fn resolve_is_deterministic(
    database: Receipts,
    first: Result<BalanceTable, ResolveError>,
    second: Result<BalanceTable, ResolveError>,
)
    requires
        resolves_to(database, first),
        resolves_to(database, second),
    ensures
        first is Ok <==> second is Ok,
        first is Err ==> first == second,
        first is Ok ==> first->Ok_0.same_as(second->Ok_0),
{
    if first is Ok {
        let a = first->Ok_0;
        let b = second->Ok_0;
        let n = database.persons@.len() as int;
        assert(a.entries().len() == b.entries().len());
        assert forall|d: int| 0 <= d < n implies a.entries()[d] == b.entries()[d] by {
            assert forall|c: int| 0 <= c < n implies a.entries()[d][c] == b.entries()[d][c] by {
                assert(a.amount(d, c) == b.amount(d, c));
            }
            assert(a.entries()[d] =~= b.entries()[d]);
        }
        assert(a.entries() =~= b.entries());
    }
}

} // verus!
