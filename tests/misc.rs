use parables_testing::call::Call;
use parables_testing::duration::{format_duration, DurationFormat};
use parables_testing::linker::{Address, Linker, Object};
use parables_testing::ast::Registry;
use parables_testing::wei::U256;
use std::time::Duration;

#[test]
fn call_builder_sets_fields() {
    let a = Address { bytes: [1u8; 20] };
    let b = Address { bytes: [2u8; 20] };
    let call = Call::new(a).gas(U256::from_u64(3)).gas_price(U256::from_u64(4)).value(U256::from_u64(5)).sender(b);
    assert_eq!(b, call.sender);
    assert_eq!(U256::from_u64(3), call.gas);
    assert_eq!(U256::from_u64(4), call.gas_price);
    assert_eq!(U256::from_u64(5), call.value);
    assert_eq!(U256::from_u64(0), Call::new(a).value);
}

#[test]
fn durations_read_in_seconds() {
    assert_eq!("1.500s", DurationFormat(&Duration::from_millis(1500)).render());
    assert_eq!("2s", DurationFormat(&Duration::from_secs(2)).render());
    assert_eq!("0s", format_duration(0, 1_000_000));
    assert_eq!("12.7s", format_duration(12, 7_000_001));
}

#[test]
fn linker_finds_sources_and_trees_by_address() {
    let mut linker = Linker::new();
    let at = Address { bytes: [9u8; 20] };
    linker.register_object(Object { path: "C.sol".to_string(), item: "C".to_string() }, at);
    let source = linker.source("C.sol", "C", "00", "1:2").unwrap();
    linker.register_runtime_source(source);
    linker.register_ast("C.sol", Registry::default());
    assert_eq!("C", linker.find_runtime_source(&at).unwrap().object.item);
    assert!(linker.find_ast(&at).is_some());
    assert!(linker.find_runtime_source(&Address { bytes: [0u8; 20] }).is_none());
    linker.register_source_list(vec!["C.sol".to_string()]);
    assert_eq!(Some(&"C.sol".to_string()), linker.find_file(0));
    assert_eq!(None, linker.find_file(1));
}
