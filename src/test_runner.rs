use crate::error::Error;
use crate::hex::chars_of;
use crate::linker::chars_eq;
use vstd::prelude::*;

verus! {

/// `text` holds `part` somewhere.
pub open spec fn contains(text: Seq<char>, part: Seq<char>) -> bool {
    exists|i: int| 0 <= i && i + part.len() <= text.len() && #[trigger] text.subrange(i, i + part.len()) == part
}

/// Does `text` hold `part` somewhere?
pub fn str_contains(text: &str, part: &str) -> (r: bool)
    ensures
        r == contains(text@, part@),
{
    let t = chars_of(text);
    let p = chars_of(part);
    if p.len() > t.len() {
        return false;
    }
    let last = t.len() - p.len();
    let mut i: usize = 0;
    loop
        invariant
            p@.len() <= t@.len(),
            last == t@.len() - p@.len(),
            t@ == text@,
            p@ == part@,
            i <= last,
            forall|j: int| 0 <= j < i ==> #[trigger] t@.subrange(j, j + p@.len()) != p@,
        decreases last - i,
    {
        if crate::hex::chars_match(&t, i, p.as_slice()) {
            return true;
        }
        if i == last {
            assert forall|j: int| 0 <= j && j + p@.len() <= t@.len() implies #[trigger] t@.subrange(
                j,
                j + p@.len(),
            ) != p@ by {}
            return false;
        }
        i += 1;
    }
}

/// Conversion of what a test returns into a result.
pub trait IntoResult<T> {
    fn into_result(self) -> Result<T, Error>;
}

impl IntoResult<()> for Result<(), Error> {
    fn into_result(self) -> Result<(), Error> {
        self
    }
}

impl IntoResult<()> for () {
    fn into_result(self) -> Result<(), Error> {
        Ok(())
    }
}

/// The entry point of a test.
pub trait TestEntry {
    fn run(&self) -> Result<(), Error>;
}

/// An empty test.
impl TestEntry for () {
    fn run(&self) -> Result<(), Error> {
        Ok(())
    }
}

/// A single test: its module, its name, and its entry point.
#[derive(Debug)]
pub struct Test<E> {
    pub(crate) module: Option<String>,
    pub(crate) name: String,
    pub(crate) entry: E,
}

pub open spec fn opt_view(s: &Option<String>) -> Option<Seq<char>> {
    match s {
        Some(t) => Some(t@),
        None => None,
    }
}

impl<E> Test<E> {
    pub closed spec fn spec_name(&self) -> Seq<char> {
        self.name@
    }

    pub closed spec fn spec_module(&self) -> Option<Seq<char>> {
        opt_view(&self.module)
    }

    pub closed spec fn spec_entry(&self) -> E {
        self.entry
    }

    /// Access the name of the test.
    pub fn name(&self) -> (r: &str)
        ensures
            r@ == self.spec_name(),
    {
        self.name.as_str()
    }

    /// Access the module of the test.
    pub fn module(&self) -> (r: Option<&String>)
        ensures
            match r {
                Some(m) => self.spec_module() == Some(m@),
                None => self.spec_module() is None,
            },
    {
        self.module.as_ref()
    }

    /// Take the entry point out of the test.
    pub fn into_parts(self) -> (r: (Option<String>, String, E))
        ensures
            opt_view(&r.0) == self.spec_module(),
            r.1@ == self.spec_name(),
            r.2 == self.spec_entry(),
    {
        (self.module, self.name, self.entry)
    }
}

/// A test runs under a filter when its name holds the filter or its module is the filter.
pub open spec fn filter_admits(name: Seq<char>, module: Option<Seq<char>>, filter: Seq<char>) -> bool {
    contains(name, filter) || module == Some(filter)
}

/// A test runs when every filter admits it.
pub open spec fn selected(name: Seq<char>, module: Option<Seq<char>>, filters: Seq<String>) -> bool {
    forall|k: int| 0 <= k < filters.len() ==> filter_admits(name, module, #[trigger] filters[k]@)
}

/// Does every filter admit the test?
pub fn is_selected<E>(test: &Test<E>, filters: &Vec<String>) -> (r: bool)
    ensures
        r == selected(test.spec_name(), test.spec_module(), filters@),
{
    let mut k: usize = 0;
    while k < filters.len()
        invariant
            k <= filters@.len(),
            forall|j: int|
                0 <= j < k ==> filter_admits(
                    test.spec_name(),
                    test.spec_module(),
                    #[trigger] filters@[j]@,
                ),
        decreases filters@.len() - k,
    {
        let f = filters[k].as_str();
        let by_module = match &test.module {
            Some(m) => {
                let a = chars_of(m.as_str());
                let b = chars_of(f);
                chars_eq(&a, &b)
            },
            None => false,
        };
        if !(str_contains(test.name.as_str(), f) || by_module) {
            return false;
        }
        k += 1;
    }
    true
}

/// Information about a panic.
#[derive(Debug, Clone, Default, PartialEq, Eq, Hash)]
pub struct PanicInfo {
    pub location: Option<Location>,
    pub message: Option<String>,
}

/// Location of a panic.
#[derive(Debug, Clone, PartialEq, Eq, Hash)]
pub struct Location {
    pub file: String,
    pub line: u32,
    pub column: u32,
}

impl Location {
    pub fn new(file: String, line: u32, column: u32) -> (r: Location)
        ensures
            r.file@ == file@,
            r.line == line,
            r.column == column,
    {
        Location { file, line, column }
    }

    pub fn file(&self) -> (r: &str)
        ensures
            r@ == self.file@,
    {
        self.file.as_str()
    }

    pub fn line(&self) -> (r: u32)
        ensures
            r == self.line,
    {
        self.line
    }

    pub fn column(&self) -> (r: u32)
        ensures
            r == self.column,
    {
        self.column
    }
}

impl PanicInfo {
    pub fn new(location: Option<Location>, message: Option<String>) -> (r: PanicInfo)
        ensures
            r.location == location,
            r.message == message,
    {
        PanicInfo { location, message }
    }

    pub fn location(&self) -> (r: Option<&Location>)
        ensures
            r == match self.location {
                Some(ref l) => Some(l),
                None => None::<&Location>,
            },
    {
        self.location.as_ref()
    }

    pub fn message(&self) -> (r: Option<&String>)
        ensures
            r == match self.message {
                Some(ref m) => Some(m),
                None => None::<&String>,
            },
    {
        self.message.as_ref()
    }
}

/// The outcome of a single test.
#[derive(Debug, PartialEq)]
pub enum Outcome {
    /// The test panicked.
    Failed(PanicInfo),
    /// The test returned an error.
    Errored(Error),
    /// The test passed.
    Passed,
}

/// The outcome of a test run that returned `run`, or panicked with the information in
/// `Err`.
pub fn classify(run: Result<Result<(), Error>, PanicInfo>) -> (r: Outcome)
    ensures
        match run {
            Ok(Ok(())) => r is Passed,
            Ok(Err(e)) => r == Outcome::Errored(e),
            Err(p) => r == Outcome::Failed(p),
        },
{
    match run {
        Ok(Ok(())) => Outcome::Passed,
        Ok(Err(e)) => Outcome::Errored(e),
        Err(p) => Outcome::Failed(p),
    }
}

/// The result from a single test.
#[derive(Debug)]
pub struct TestResult {
    pub module: Option<String>,
    pub name: String,
    pub outcome: Outcome,
    pub duration: std::time::Duration,
}

impl TestResult {
    pub fn new(module: Option<String>, name: String, outcome: Outcome, duration: std::time::Duration) -> (r: TestResult)
        ensures
            r.module == module,
            r.name == name,
            r.outcome == outcome,
            r.duration == duration,
    {
        TestResult { module, name, outcome, duration }
    }

    /// Access the name of the test.
    pub fn name(&self) -> (r: &str)
        ensures
            r@ == self.name@,
    {
        self.name.as_str()
    }

    /// Access the module of the test.
    pub fn module(&self) -> (r: Option<&String>)
        ensures
            r == match self.module {
                Some(ref m) => Some(m),
                None => None::<&String>,
            },
    {
        self.module.as_ref()
    }

    /// Access the outcome of the test.
    pub fn outcome(&self) -> (r: &Outcome)
        ensures
            *r == self.outcome,
    {
        &self.outcome
    }

    /// Access the duration of the test.
    pub fn duration(&self) -> (r: &std::time::Duration)
        ensures
            *r == self.duration,
    {
        &self.duration
    }
}

/// Registers tests.
pub trait Suite<E> {
    /// The tests registered so far, in order.
    spec fn registered(&self) -> Seq<Test<E>>;

    /// The module that the tests registered here belong to.
    spec fn label(&self) -> Option<Seq<char>>;

    /// Register a single test, with a human-readable `name`.
    fn test(&mut self, name: String, entry: E)
        ensures
            final(self).label() == old(self).label(),
            final(self).registered().len() == old(self).registered().len() + 1,
            final(self).registered().take(old(self).registered().len() as int) == old(self).registered(),
            final(self).registered().last().spec_name() == name@,
            final(self).registered().last().spec_module() == old(self).label(),
            final(self).registered().last().spec_entry() == entry;
}

/// A scaffolding that holds the tests to run.
#[derive(Debug)]
pub struct TestRunner<E> {
    tests: Vec<Test<E>>,
}

impl<E> TestRunner<E> {
    /// The registered tests, in order.
    pub closed spec fn tests(&self) -> Seq<Test<E>> {
        self.tests@
    }

    /// Build a new test runner.
    pub fn new() -> (r: Self)
        ensures
            r.tests().len() == 0,
    {
        Self { tests: Vec::new() }
    }

    /// Create a module runner: the tests it registers carry the module's name.
    pub fn module(&mut self, name: String) -> (r: ModuleRunner<'_, E>)
        ensures
            *r.runner() == *old(self),
            r.spec_name() == name@,
    {
        ModuleRunner { test_runner: self, name }
    }

    /// Register a test.
    pub fn internal_test(&mut self, module: Option<String>, name: String, entry: E)
        ensures
            final(self).tests().len() == old(self).tests().len() + 1,
            final(self).tests().take(old(self).tests().len() as int) == old(self).tests(),
            final(self).tests().last().spec_name() == name@,
            final(self).tests().last().spec_module() == opt_view(&module),
            final(self).tests().last().spec_entry() == entry,
    {
        let ghost before = self.tests@;
        let ghost m = opt_view(&module);
        let ghost n = name@;
        self.tests.push(Test { module, name, entry });
        assert(self.tests@.take(before.len() as int) =~= before);
    }

    /// Split the tests into those that every filter admits, and those skipped; both keep
    /// the order of registration.
    pub fn select(self, filters: &Vec<String>) -> (r: (Vec<Test<E>>, Vec<Test<E>>))
        ensures
            r.0@ == self.tests().filter(
                |t: Test<E>| selected(t.spec_name(), t.spec_module(), filters@),
            ),
            r.1@ == self.tests().filter(
                |t: Test<E>| !selected(t.spec_name(), t.spec_module(), filters@),
            ),
    {
        let ghost all = self.tests@;
        let ghost keep = |t: Test<E>| selected(t.spec_name(), t.spec_module(), filters@);
        let ghost drop = |t: Test<E>| !selected(t.spec_name(), t.spec_module(), filters@);
        let mut tests = self.tests;
        let mut run: Vec<Test<E>> = Vec::new();
        let mut skipped: Vec<Test<E>> = Vec::new();
        let ghost mut k: int = 0;
        assert(all.take(0) =~= Seq::<Test<E>>::empty());
        proof {
            reveal(Seq::filter);
        }
        while tests.len() > 0
            invariant
                0 <= k <= all.len(),
                tests@ == all.skip(k),
                run@ == all.take(k).filter(keep),
                skipped@ == all.take(k).filter(drop),
                keep == (|t: Test<E>| selected(t.spec_name(), t.spec_module(), filters@)),
                drop == (|t: Test<E>| !selected(t.spec_name(), t.spec_module(), filters@)),
            decreases tests@.len(),
        {
            let t = tests.remove(0);
            proof {
                assert(t == all[k]);
                assert(all.skip(k).remove(0) =~= all.skip(k + 1));
                assert(all.take(k + 1).drop_last() =~= all.take(k));
                reveal(Seq::filter);
            }
            if is_selected(&t, filters) {
                run.push(t);
            } else {
                skipped.push(t);
            }
            proof {
                k = k + 1;
            }
        }
        assert(all.take(k) =~= all);
        (run, skipped)
    }
}

impl<E> Suite<E> for TestRunner<E> {
    open spec fn registered(&self) -> Seq<Test<E>> {
        self.tests()
    }

    open spec fn label(&self) -> Option<Seq<char>> {
        None
    }

    fn test(&mut self, name: String, entry: E) {
        self.internal_test(None, name, entry)
    }
}

/// Registers tests under a module name.
pub struct ModuleRunner<'m, E> {
    test_runner: &'m mut TestRunner<E>,
    name: String,
}

impl<'m, E> ModuleRunner<'m, E> {
    pub closed spec fn runner(&self) -> &TestRunner<E> {
        &*self.test_runner
    }

    pub closed spec fn spec_name(&self) -> Seq<char> {
        self.name@
    }
}

impl<'m, E> Suite<E> for ModuleRunner<'m, E> {
    open spec fn registered(&self) -> Seq<Test<E>> {
        self.runner().tests()
    }

    open spec fn label(&self) -> Option<Seq<char>> {
        Some(self.spec_name())
    }

    fn test(&mut self, name: String, entry: E) {
        let module = self.name.clone();
        self.test_runner.internal_test(Some(module), name, entry)
    }
}

} // verus!
