use vstd::prelude::*;

pub mod laws;
pub mod model;
pub mod resolve;

pub use model::{Item, Person, Receipt, Receipts};
pub use resolve::{find_person, resolve, BalanceTable, ResolveError};

verus! {

} // verus!
