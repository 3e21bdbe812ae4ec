//! A framework for defining and running end-to-end tests: the configuration of
//! a run, the name filters that select which groups and tests run, the
//! hierarchy of test names, the order in which a group runs its parts, the
//! statistics of a run and the names that the group and test macros generate.

use vstd::prelude::*;
use std::any::Any;
use std::sync::Arc;
use std::time::Duration;

pub mod filter;
pub mod fixture;
pub mod group;
pub mod naming;
pub mod run;
pub mod statistics;
pub mod text;

verus! {

/// A fixture that a run shares with every test: a value of any type behind an
/// `Arc`, which the tests look up by its type.
#[verifier::external_body]
pub struct SharedFixture {
    pub value: Arc<dyn Any + Send + Sync>,
}

/// Puts `fixture` behind an `Arc` with `Arc::new`. Nothing is stated of the
/// result: it holds a value of any type, which no specification can name.
#[verifier::external_body]
fn share<F: Send + Sync + 'static>(fixture: F) -> (r: SharedFixture) {
    SharedFixture { value: Arc::new(fixture) }
}

/// `Duration::from_secs(secs)`.
pub uninterp spec fn duration_of_secs(secs: u64) -> Duration;

/// Calls `std::time::Duration::from_secs`, whose result depends on `secs` alone.
#[verifier::external_body]
fn from_secs(secs: u64) -> (r: Duration)
    ensures
        r == duration_of_secs(secs),
{
    Duration::from_secs(secs)
}

/// The timeout of a step that gives none of its own.
pub open spec fn default_timeout_spec() -> Duration {
    duration_of_secs(60)
}

/// What a configuration holds.
pub struct ConfigModel {
    pub fixtures: Seq<SharedFixture>,
    pub filters: Seq<Seq<char>>,
    pub default_timeout: Duration,
}

/// Configuration for running tests.
pub struct Config {
    permanent_fixtures: Vec<SharedFixture>,
    filters: Vec<String>,
    default_timeout: Duration,
}

impl View for Config {
    type V = ConfigModel;

    closed spec fn view(&self) -> ConfigModel {
        ConfigModel {
            fixtures: self.permanent_fixtures@,
            filters: text::views(self.filters@),
            default_timeout: self.default_timeout,
        }
    }
}

impl Default for Config {
    /// No permanent fixture, no filter and a default timeout of 60 seconds.
    fn default() -> (r: Self)
        ensures
            r@ == (ConfigModel {
                fixtures: Seq::empty(),
                filters: Seq::empty(),
                default_timeout: default_timeout_spec(),
            }),
    {
        let r = Config {
            permanent_fixtures: Vec::new(),
            filters: Vec::new(),
            default_timeout: from_secs(60),
        };
        assert(r@.filters =~= Seq::<Seq<char>>::empty());
        assert(r@.fixtures =~= Seq::<SharedFixture>::empty());
        r
    }
}

impl Config {
    /// Adds a permanent fixture that will be available for all tests: one more
    /// fixture after those already added, which keep their order.
    pub fn with_permanent_fixture<F: Send + Sync + 'static>(self, fixture: F) -> (r: Self)
        ensures
            r@ == (ConfigModel { fixtures: self@.fixtures.push(r@.fixtures.last()), ..self@ }),
    {
        let mut r = self;
        r.permanent_fixtures.push(share(fixture));
        r
    }

    /// Adds a filter to select which tests to run.
    pub fn with_filter(self, filter: &str) -> (r: Self)
        ensures
            r@ == (ConfigModel { filters: self@.filters.push(filter@), ..self@ }),
    {
        let mut r = self;
        let ghost before = text::views(r.filters@);
        r.filters.push(text::to_string(filter));
        assert(text::views(r.filters@) =~= before.push(filter@));
        r
    }

    /// Sets the default timeout for the steps that don't specify one.
    pub fn with_default_timeout(self, timeout: Duration) -> (r: Self)
        ensures
            r@ == (ConfigModel { default_timeout: timeout, ..self@ }),
    {
        let mut r = self;
        r.default_timeout = timeout;
        r
    }

    /// The filters, in the order they were added.
    pub fn filters(&self) -> (r: Vec<String>)
        ensures
            text::views(r@) == self@.filters,
    {
        text::clone_strings(&self.filters)
    }

    /// The default timeout.
    pub fn default_timeout(&self) -> (r: Duration)
        ensures
            r == self@.default_timeout,
    {
        self.default_timeout
    }

    /// The permanent fixtures, taken out of the configuration.
    pub fn into_permanent_fixtures(self) -> (r: Vec<SharedFixture>)
        ensures
            r@ == self@.fixtures,
    {
        self.permanent_fixtures
    }
}

} // verus!
