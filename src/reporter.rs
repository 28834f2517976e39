use crate::error::Error;
use crate::test_runner::{Test, TestResult};
use vstd::prelude::*;

verus! {

/// The spinner's position.
#[derive(Debug, Clone, Copy, PartialEq, Eq, Structural)]
pub enum Step {
    North,
    NorthEast,
    East,
    SouthEast,
}

impl Default for Step {
    fn default() -> (r: Self)
        ensures
            r == Step::North,
    {
        Step::North
    }
}

impl Step {
    pub open spec fn spec_next(self) -> Step {
        match self {
            Step::North => Step::NorthEast,
            Step::NorthEast => Step::East,
            Step::East => Step::SouthEast,
            Step::SouthEast => Step::North,
        }
    }

    /// Turn to the next step.
    pub fn next(&mut self)
        ensures
            *final(self) == old(self).spec_next(),
    {
        let next = match *self {
            Step::North => Step::NorthEast,
            Step::NorthEast => Step::East,
            Step::East => Step::SouthEast,
            Step::SouthEast => Step::North,
        };
        *self = next;
    }

    /// Render the current step.
    pub fn render(&self) -> (r: &'static str)
        ensures
            r@ == match *self {
                Step::North => "|"@,
                Step::NorthEast => "/"@,
                Step::East => "-"@,
                Step::SouthEast => "\\"@,
            },
    {
        match *self {
            Step::North => "|",
            Step::NorthEast => "/",
            Step::East => "-",
            Step::SouthEast => "\\",
        }
    }
}

/// Receives the outcome of each test: either `report` or `report_skipped`, once per test.
pub trait Reporter<E> {
    /// Can the reporter animate its progress?
    fn supports_animation(&self) -> Result<bool, Error>;

    /// Move any animation one step on.
    fn animate(&mut self) -> Result<(), Error> {
        Ok(())
    }

    /// End any animation in progress.
    fn end(&mut self) -> Result<(), Error> {
        Ok(())
    }

    /// Report that a test started running.
    fn report_started(&mut self, index: usize, name: &str) -> Result<(), Error>;

    /// Does the reporter keep the results it is given?
    open spec fn keeps(&self) -> bool {
        false
    }

    /// The results kept so far, for reporters that keep them.
    open spec fn kept(&self) -> Seq<TestResult> {
        Seq::empty()
    }

    /// Report a single result; a reporter that keeps results keeps this one last.
    fn report(&mut self, index: usize, result: TestResult) -> (r: Result<(), Error>)
        ensures
            old(self).keeps() ==> final(self).keeps() && r is Ok && final(self).kept() == old(
                self,
            ).kept().push(result);

    /// Report that a test has been skipped.
    fn report_skipped(&mut self, test: Test<E>) -> Result<(), Error>;

    /// Close the reporter.
    fn close(&mut self) -> Result<(), Error>;
}

/// A reporter that keeps the results and prints nothing.
pub struct CollectingReporter {
    results: Vec<TestResult>,
    skipped: Vec<String>,
}

impl CollectingReporter {
    pub closed spec fn results(&self) -> Seq<TestResult> {
        self.results@
    }

    /// Names of the skipped tests, in order.
    pub closed spec fn skipped(&self) -> Seq<Seq<char>> {
        self.skipped@.map_values(|s: String| s@)
    }

    pub fn new() -> (r: Self)
        ensures
            r.results().len() == 0,
            r.skipped().len() == 0,
    {
        let r = Self { results: Vec::new(), skipped: Vec::new() };
        assert(r.skipped() =~= Seq::<Seq<char>>::empty());
        r
    }

    /// Keep a result.
    pub fn push_result(&mut self, result: TestResult)
        ensures
            final(self).results() == old(self).results().push(result),
            final(self).skipped() == old(self).skipped(),
    {
        self.results.push(result);
    }

    /// Keep the name of a skipped test.
    pub fn push_skipped(&mut self, name: String)
        ensures
            final(self).results() == old(self).results(),
            final(self).skipped() == old(self).skipped().push(name@),
    {
        let ghost before = self.skipped();
        self.skipped.push(name);
        assert(self.skipped() =~= before.push(name@));
    }

    /// Take all collected results.
    pub fn take_results(self) -> (r: Result<Vec<TestResult>, Error>)
        ensures
            r matches Ok(v) && v@ == self.results(),
    {
        Ok(self.results)
    }

    /// Take the names of the skipped tests.
    pub fn take_skipped(self) -> (r: Vec<String>)
        ensures
            r@.map_values(|s: String| s@) == self.skipped(),
    {
        self.skipped
    }
}

impl<E> Reporter<E> for CollectingReporter {
    fn supports_animation(&self) -> Result<bool, Error> {
        Ok(false)
    }

    fn report_started(&mut self, _index: usize, _name: &str) -> Result<(), Error> {
        Ok(())
    }

    open spec fn keeps(&self) -> bool {
        true
    }

    open spec fn kept(&self) -> Seq<TestResult> {
        self.results()
    }

    fn report(&mut self, _index: usize, result: TestResult) -> (r: Result<(), Error>) {
        self.push_result(result);
        Ok(())
    }

    fn report_skipped(&mut self, test: Test<E>) -> Result<(), Error> {
        let (_, name, _) = test.into_parts();
        self.push_skipped(name);
        Ok(())
    }

    fn close(&mut self) -> Result<(), Error> {
        Ok(())
    }
}

} // verus!
