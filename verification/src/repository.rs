//! The repository handle. Its database queries are issued by the application
//! around this library over the pool it carries; the computations they feed
//! and return (the conversions of entries, pay periods, summaries, the
//! import/export mapping) are the repository's associated functions, defined
//! across this crate on `Repository<'static, ()>` so that a call such as
//! `Repository::compute_pay_periods(..)` names no pool type.

use vstd::prelude::*;

verus! {

/// Access to the timecard database through a connection pool of type `P`.
pub struct Repository<'a, P> {
    pool: &'a P,
}

impl<'a, P> Repository<'a, P> {
    /// The pool this repository queries.
    pub closed spec fn pool_spec(&self) -> &'a P {
        self.pool
    }

    /// Creates a repository over `pool`.
    pub fn new(pool: &'a P) -> (r: Self)
        ensures
            r.pool_spec() == pool,
    {
        Repository { pool }
    }

    /// The pool this repository queries.
    pub fn pool(&self) -> (r: &'a P)
        ensures
            r == self.pool_spec(),
    {
        self.pool
    }
}

} // verus!
