use parables_testing::ast::{
    Ast, AssignmentAttributes, Expr, FunctionDefinitionAttributes, IdentifierAttributes, Node,
    Registry, Src, Value,
};
use parables_testing::linker::Linker;
use parables_testing::trace::{mapping, ErrorKind, FrameInfo, Shared, VmError};
use parables_testing::utils::find_line;
use parables_testing::wei::U256;

fn src(start: u32, length: u32) -> Src {
    Src { start, length, file_index: 0 }
}

fn tree() -> Ast {
    let x = Ast {
        node: Node::Identifier {
            id: 1,
            attributes: IdentifierAttributes { ty: "uint256".to_string(), value: "x".to_string(), referenced_declaration: 0 },
        },
        src: src(20, 1),
        children: vec![],
    };
    let assign = Ast {
        node: Node::Assignment { attributes: AssignmentAttributes { ty: "uint256".to_string() } },
        src: src(20, 5),
        children: vec![x],
    };
    let other = Ast { node: Node::Block, src: src(30, 8), children: vec![] };
    let function = Ast {
        node: Node::FunctionDefinition { id: 2, attributes: FunctionDefinitionAttributes { name: "run".to_string() } },
        src: src(10, 40),
        children: vec![assign, other],
    };
    Ast { node: Node::SourceUnit, src: src(0, 100), children: vec![function] }
}

#[test]
fn shadow_stack_follows_instructions() {
    let mut shared = Shared::new();
    shared.executed(0, 0, &vec![U256::from_u64(1), U256::from_u64(2)]);
    shared.executed(4, 2, &vec![U256::from_u64(3)]);
    assert_eq!(vec![U256::from_u64(3)], shared.stack);
    assert_eq!(FrameInfo::At(4), shared.frame_info);
    shared.executed(5, 5, &vec![]);
    assert!(shared.stack.is_empty());
}

#[test]
fn frames_are_pushed_and_popped() {
    let mut shared = Shared::new();
    shared.enter(vec![1, 2]);
    assert_eq!(2, shared.call_stack.len());
    let info = shared.fail(VmError::Reverted, None, vec![]);
    assert_eq!(ErrorKind::Error(VmError::Reverted), info.kind);
    assert!(info.is_reverted());
    assert_eq!(1, shared.call_stack.len());
    assert!(shared.leave().is_some());
    assert!(shared.leave().is_none());
}

#[test]
fn decode_step_binds_values_and_records_statements() {
    let registry = Registry::new(tree());
    let linker = Linker::new();
    let source = linker.source("A.sol", "A", "600160020100", "20:5:0;30:8:0;20:5:0;0:100:0").unwrap();
    assert_eq!(30, mapping(Some(&source), 2).unwrap().start);
    assert!(mapping(Some(&source), 1).is_none());
    let mut shared = Shared::new();
    shared.stack = vec![U256::from_u64(7)];
    let memory = vec![];
    shared.decode_instruction(&registry, &source, 0, &memory, false).unwrap();
    assert!(shared.visited.is_empty());
    shared.decode_instruction(&registry, &source, 2, &memory, false).unwrap();
    assert_eq!(vec![src(20, 5)], shared.visited);
    let frame = &shared.call_stack[0];
    assert_eq!("run", frame.function.as_ref().unwrap().name);
    assert_eq!(1, frame.seen_variables.len());
    assert_eq!(Expr::Identifier { identifier: "x".to_string() }, frame.seen_variables[0].0);
    assert!(matches!(frame.seen_variables[0].1, Value::Uint256(v) if v == U256::from_u64(7)));
    shared.decode_instruction(&registry, &source, 2, &memory, false).unwrap();
    assert_eq!(1, shared.visited.len());
}

#[test]
fn find_line_takes_the_touched_lines() {
    let text = b"a\nbb\nccc\n".to_vec();
    let (lines, line) = find_line(&text, (2, 4)).unwrap();
    assert_eq!(vec!["bb".to_string()], lines);
    assert_eq!(1, line);
    let (lines, line) = find_line(&text, (0, 100)).unwrap();
    assert_eq!(vec!["a".to_string(), "bb".to_string(), "ccc".to_string(), "".to_string()], lines);
    assert_eq!(0, line);
    assert!(find_line(&vec![0xff, b'\n'], (0, 1)).is_err());
}

#[test]
fn line_info_reads_the_statement() {
    let linker = Linker::new();
    let source = linker.source("A.sol", "A", "600100", "2:2:0;0:1:0").unwrap();
    let text = b"a\nbb\nccc\n".to_vec();
    let info = parables_testing::trace::line_info(&source, 0, "A.sol".to_string(), &text, None).unwrap();
    assert_eq!(vec!["bb".to_string()], info.lines);
    assert_eq!(1, info.line);
    assert_eq!("A", info.object.unwrap().item);
    assert!(parables_testing::trace::line_info(&source, 1, "A.sol".to_string(), &text, None).is_none());
}

#[test]
fn find_line_in_an_unterminated_last_line() {
    let text = b"ab\ncd".to_vec();
    let (lines, line) = find_line(&text, (3, 5)).unwrap();
    assert_eq!(vec!["cd".to_string()], lines);
    assert_eq!(1, line);
}
