use parables_testing::error::Error;
use parables_testing::reporter::{CollectingReporter, Reporter, Step};
use parables_testing::test_runner::{classify, Location, Outcome, PanicInfo, Suite, TestResult, TestRunner};
use std::time::Duration;

#[test]
pub fn test_module() {
    let mut runner = TestRunner::<()>::new();

    {
        let _m = runner.module("deposit".to_string());
    }
}

#[test]
fn filters_select_by_name_or_module() {
    let mut runner = TestRunner::new();
    {
        let mut m = runner.module("deposit".to_string());
        m.test("basic".to_string(), 1);
        m.test("overdraw".to_string(), 2);
    }
    runner.test("withdraw.partial".to_string(), 3);
    let (run, skipped) = runner.select(&vec!["deposit".to_string()]);
    assert_eq!(vec!["basic", "overdraw"], run.iter().map(|t| t.name()).collect::<Vec<_>>());
    assert_eq!(vec!["withdraw.partial"], skipped.iter().map(|t| t.name()).collect::<Vec<_>>());
}

#[test]
fn filters_are_conjunctive() {
    let mut runner = TestRunner::new();
    runner.test("deposit.basic".to_string(), ());
    runner.test("deposit.overdraw".to_string(), ());
    runner.test("withdraw.partial".to_string(), ());
    let (run, skipped) = runner.select(&vec!["deposit".to_string(), "draw".to_string()]);
    assert_eq!(vec!["deposit.overdraw"], run.iter().map(|t| t.name()).collect::<Vec<_>>());
    assert_eq!(2, skipped.len());
    let mut all = TestRunner::new();
    all.test("a".to_string(), ());
    let (run, skipped) = all.select(&vec![]);
    assert_eq!(1, run.len());
    assert_eq!(0, skipped.len());
}

#[test]
fn panics_become_failures() {
    let info = PanicInfo::new(Some(Location::new("t.rs".to_string(), 3, 5)), Some("boom".to_string()));
    match classify(Err(info.clone())) {
        Outcome::Failed(p) => {
            assert_eq!(Some(&"boom".to_string()), p.message());
            assert_eq!(3, p.location().unwrap().line());
            assert_eq!("t.rs", p.location().unwrap().file());
        }
        _ => panic!("expected failure"),
    }
    assert!(matches!(classify(Ok(Ok(()))), Outcome::Passed));
    let e = Error::Other { message: "bad".to_string() };
    assert!(matches!(classify(Ok(Err(e))), Outcome::Errored(Error::Other { .. })));
}

#[test]
fn collecting_reporter_keeps_results() {
    let mut reporter = CollectingReporter::new();
    let r = TestResult::new(None, "tA".to_string(), Outcome::Passed, Duration::from_millis(5));
    Reporter::<()>::report(&mut reporter, 0, r).unwrap();
    let mut runner = TestRunner::new();
    runner.test("tB".to_string(), ());
    let (_, skipped) = runner.select(&vec!["zzz".to_string()]);
    for t in skipped {
        Reporter::<()>::report_skipped(&mut reporter, t).unwrap();
    }
    let results = reporter.take_results().unwrap();
    assert_eq!(1, results.len());
    assert_eq!("tA", results[0].name());
    assert!(matches!(results[0].outcome(), Outcome::Passed));
    assert_eq!(&Duration::from_millis(5), results[0].duration());
}

#[test]
fn spinner_turns_round() {
    let mut s = Step::default();
    let mut seen = Vec::new();
    for _ in 0..5 {
        seen.push(s.render());
        s.next();
    }
    assert_eq!(vec!["|", "/", "-", "\\", "|"], seen);
}
