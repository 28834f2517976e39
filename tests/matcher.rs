use parables_testing::linker::Object;
use parables_testing::matcher::{LocationMatcher, Matcher, StatementMatcher};

#[test]
fn test_with_str() {
    assert!("Test.sol:Test:foo".matches_location(
        Some(&Object {
            path: "Test.sol".to_string(),
            item: "Test".to_string(),
        }),
        Some("foo"),
    ));

    assert!("Test:foo".matches_location(
        Some(&Object {
            path: "Anything.sol".to_string(),
            item: "Test".to_string(),
        }),
        Some("foo"),
    ));

    assert!("foo".matches_location(
        Some(&Object {
            path: "Anything.sol".to_string(),
            item: "Anything".to_string(),
        }),
        Some("foo"),
    ));

    assert!("foo".matches_location(None, Some("foo"),));
    assert!(!"foo".matches_location(None, None));
}

#[test]
fn matcher_checks_what_it_expects() {
    let object = Object { path: "A.sol".to_string(), item: "A".to_string() };
    let m = Matcher::new().path("A.sol").function("run");
    assert!(m.matches_location(Some(&object), Some("run")));
    assert!(!m.matches_location(Some(&object), Some("walk")));
    assert!(!m.matches_location(None, Some("run")));
    assert!(Matcher::new().matches_location(None, None));
    assert!(!Matcher::new().item("B").matches_location(Some(&object), None));
}

#[test]
fn statement_matches_trimmed_line() {
    let lines = vec!["    require(msg.sender == owner);  ".to_string(), "x = 1;".to_string()];
    assert!("require(msg.sender == owner);".matches_lines(&lines));
    assert!(!"x = 2;".matches_lines(&lines));
}
