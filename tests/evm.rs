use parables_testing::evm::{classify, Call, H256, LogEntry, LogStore, Outcome, Topic, TopicFilter};
use parables_testing::linker::Address;
use parables_testing::linker::Object;
use parables_testing::trace::{ErrorInfo, ErrorKind, LineInfo, VmError};
use parables_testing::wei::U256;

fn failure(kind: ErrorKind) -> ErrorInfo {
    ErrorInfo { kind, line_info: None, subs: vec![], variables: vec![] }
}

#[test]
fn outcomes_are_classified() {
    assert!(matches!(classify::<u8>(vec![failure(ErrorKind::Error(VmError::Reverted))], Some(0)), Some(Outcome::Reverted { .. })));
    assert!(matches!(classify::<u8>(vec![failure(ErrorKind::Error(VmError::Other("gas".to_string())))], None), Some(Outcome::Errored { .. })));
    assert!(matches!(classify::<u8>(vec![], Some(0)), Some(Outcome::Status { status: 0 })));
    assert!(classify::<u8>(vec![], Some(1)).is_none());
    assert!(classify::<u8>(vec![], None).is_none());
}

fn call(outcome: Outcome<u8>) -> Call<u8> {
    Call {
        outcome,
        gas_used: U256::from_u64(21_000),
        gas_price: U256::from_u64(2),
        value: U256::from_u64(100),
        sender: Address { bytes: [1u8; 20] },
    }
}

#[test]
fn call_costs() {
    let ok = call(Outcome::Success(7));
    assert_eq!(Some(U256::from_u64(42_000)), ok.gas());
    assert_eq!(Some(U256::from_u64(42_100)), ok.total());
    assert!(ok.is_ok());
    assert_eq!(7, ok.ok().unwrap());
    let failed = call(Outcome::Status { status: 0 });
    assert_eq!(Some(U256::from_u64(42_000)), failed.total());
    assert!(failed.is_err());
    assert!(failed.ok().is_err());
}

#[test]
fn reverted_with_location_and_statement() {
    let line = LineInfo {
        path: "C.sol".to_string(),
        object: Some(Object { path: "C.sol".to_string(), item: "C".to_string() }),
        function: Some("setValue".to_string()),
        line: 4,
        lines: vec!["        require(msg.sender == owner);".to_string()],
    };
    let inner = ErrorInfo { kind: ErrorKind::Error(VmError::Reverted), line_info: Some(line), subs: vec![], variables: vec![] };
    let c = call(Outcome::Reverted { error_info: ErrorInfo::new_root(vec![inner]) });
    assert!(c.is_reverted());
    assert!(c.is_reverted_with("C.sol:C:setValue", "require(msg.sender == owner);"));
    assert!(!c.is_reverted_with("C.sol:C:other", "require(msg.sender == owner);"));
}

fn topic(v: u8) -> H256 {
    let mut b = [0u8; 32];
    b[31] = v;
    H256(b)
}

fn log(value: u8) -> LogEntry {
    LogEntry { address: Address { bytes: [2u8; 20] }, topics: vec![topic(1), topic(value)], data: vec![] }
}

fn filter(value: Topic) -> TopicFilter {
    TopicFilter { topic0: Topic::This(topic(1)), topic1: value, topic2: Topic::Any, topic3: Topic::Any }
}

#[test]
fn drain_takes_matching_logs_only() {
    let mut store = LogStore::new();
    for v in [100u8, 5, 100, 7] {
        store.add_log(log(v)).unwrap();
    }
    let out = store.drain(&filter(Topic::This(topic(100)))).unwrap();
    assert_eq!(2, out.len());
    assert!(out.iter().all(|l| l.topics[1] == topic(100)));
    assert!(store.has_logs());
    let rest = store.drain(&filter(Topic::OneOf(vec![topic(5), topic(7)]))).unwrap();
    assert_eq!(2, rest.len());
    assert!(!store.has_logs());
    assert_eq!(0, store.drain(&filter(Topic::Any)).unwrap().len());
}

#[test]
fn drain_needs_an_exact_event_topic() {
    let mut store = LogStore::new();
    store.add_log(log(1)).unwrap();
    let f = TopicFilter { topic0: Topic::Any, topic1: Topic::Any, topic2: Topic::Any, topic3: Topic::Any };
    assert!(store.drain(&f).is_err());
    assert!(store.add_log(LogEntry { address: Address { bytes: [0u8; 20] }, topics: vec![], data: vec![] }).is_err());
    assert!(store.has_logs());
}

#[test]
fn add_logs_stops_at_a_log_without_topics() {
    let mut store = LogStore::new();
    assert!(store.add_logs(vec![log(1), log(2)]).is_ok());
    let bad = LogEntry { address: Address { bytes: [0u8; 20] }, topics: vec![], data: vec![] };
    assert!(store.add_logs(vec![log(3), bad]).is_err());
    assert_eq!(3, store.drain(&filter(Topic::Any)).unwrap().len());
}
