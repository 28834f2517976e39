use parables_testing::ast::{
    Ast, AssignmentAttributes, DecodeError, Context, Enum, Expr, FunctionCallAttributes,
    FunctionDefinitionAttributes, IdentifierAttributes, Kind, Node, Registry, Src, Storage, Type,
    Value, Variant, decode_type_with,
};
use parables_testing::source_map::{Mapping, Operation};
use parables_testing::wei::U256;

#[test]
fn test_decode() {
    let registry = Registry::default();

    assert_eq!(Type::Uint256, registry.decode_type("uint256"));
    assert_eq!(Type::Address, registry.decode_type("address"));
    assert_eq!(
        Type::Bytes(Storage::CallData),
        registry.decode_type("bytes calldata")
    );

    assert_eq!(
        Type::Mapping(Box::new(Type::Address), Box::new(Type::Uint256)),
        registry.decode_type("mapping(address => uint256)")
    );

    assert_eq!(
        Type::Struct("Foo".to_string(), Storage::Storage, Kind::Pointer),
        registry.decode_type("struct Foo storage pointer")
    );

    assert_eq!(
        Type::Function("(uint256)".to_string()),
        registry.decode_type("function (uint256)")
    );
}

#[test]
fn unknown_types_are_kept() {
    let registry = Registry::default();
    assert_eq!(Type::Unknown("int8".to_string()), registry.decode_type("int8"));
    assert_eq!(Type::Unknown("mapping".to_string()), registry.decode_type("mapping"));
    assert_eq!(Type::Unknown("struct Foo heap pointer".to_string()), registry.decode_type("struct Foo heap pointer"));
    let enums = vec![(
        "C.State".to_string(),
        Enum { name: "State".to_string(), variants: vec![Variant { name: "Open".to_string() }] },
    )];
    assert_eq!(
        Type::Enum("C.State".to_string(), Some(enums[0].1.clone())),
        decode_type_with(&enums, "enum C.State")
    );
    assert_eq!(Type::Enum("X".to_string(), None), decode_type_with(&enums, "enum X"));
}

fn src(start: u32, length: u32) -> Src {
    Src { start, length, file_index: 0 }
}

fn ident(name: &str, ty: &str, start: u32) -> Ast {
    Ast {
        node: Node::Identifier {
            id: 1,
            attributes: IdentifierAttributes { ty: ty.to_string(), value: name.to_string(), referenced_declaration: 0 },
        },
        src: src(start, 1),
        children: vec![],
    }
}

fn tree() -> Ast {
    let assign = Ast {
        node: Node::Assignment { attributes: AssignmentAttributes { ty: "uint256".to_string() } },
        src: src(20, 5),
        children: vec![ident("x", "uint256", 20), ident("y", "uint256", 24)],
    };
    let call = Ast {
        node: Node::FunctionCall { attributes: FunctionCallAttributes { ty: "bool".to_string() } },
        src: src(30, 8),
        children: vec![ident("f", "function", 30), ident("a", "uint256", 32), ident("b", "uint256", 34)],
    };
    let function = Ast {
        node: Node::FunctionDefinition { id: 2, attributes: FunctionDefinitionAttributes { name: "run".to_string() } },
        src: src(10, 40),
        children: vec![assign, call],
    };
    Ast { node: Node::SourceUnit, src: src(0, 100), children: vec![function] }
}

fn mapping(start: u32, length: u32) -> Mapping {
    Mapping { start, length, file_index: Some(0), operation: Operation::Regular }
}

#[test]
fn registry_finds_functions_and_nodes() {
    let registry = Registry::new(tree());
    let f = registry.find_function(&mapping(20, 5)).expect("enclosing function");
    assert_eq!("run", f.name);
    assert!(registry.find_function(&mapping(45, 10)).is_none());
    assert!(registry.find_function(&mapping(5, 1)).is_none());
    let n = registry.find(&mapping(20, 5)).expect("assignment");
    assert!(matches!(n.node, Node::Assignment { .. }));
    assert!(registry.find(&mapping(21, 5)).is_none());
    assert_eq!(9, registry.statements().len());
}

#[test]
fn decode_ast_builds_expressions() {
    let registry = Registry::new(tree());
    let assign = registry.find(&mapping(20, 5)).unwrap();
    let (expr, ty) = registry.decode_ast(assign).unwrap();
    assert_eq!(Expr::Identifier { identifier: "x".to_string() }, expr);
    assert_eq!("uint256", ty);
    let call = registry.find(&mapping(30, 8)).unwrap();
    let (expr, ty) = registry.decode_ast(call).unwrap();
    assert_eq!(
        Expr::FunctionCall {
            name: Box::new(Expr::Identifier { identifier: "f".to_string() }),
            args: vec![
                Expr::Identifier { identifier: "a".to_string() },
                Expr::Identifier { identifier: "b".to_string() },
            ],
        },
        expr
    );
    assert_eq!("bool", ty);
    let root = registry.find(&mapping(0, 100)).unwrap();
    assert!(registry.decode_ast(root).is_none());
}

fn word(v: u64) -> U256 {
    U256::from_u64(v)
}

#[test]
fn values_come_off_the_stack() {
    let mut ctx = Context::new(vec![word(0), word(7)], vec![], vec![]);
    assert!(matches!(Type::Uint256.value(&mut ctx), Ok(Value::Uint256(v)) if v == word(7)));
    assert!(matches!(Type::Bool.value(&mut ctx), Ok(Value::Bool(false))));
    assert!(matches!(Type::Bool.value(&mut ctx), Err(DecodeError::StackUnderflow)));
    let mut ctx = Context::new(vec![U256([0x1122334455667788, 0x99aabbcc, 0, 0])], vec![], vec![]);
    match Type::Address.value(&mut ctx) {
        Ok(Value::Address(a)) => {
            let mut want = [0u8; 20];
            want[8..12].copy_from_slice(&[0x99, 0xaa, 0xbb, 0xcc]);
            want[12..20].copy_from_slice(&[0x11, 0x22, 0x33, 0x44, 0x55, 0x66, 0x77, 0x88]);
            assert_eq!(want, a.bytes);
        }
        other => panic!("expected an address, got {:?}", other),
    }
}

#[test]
fn bytes_come_from_memory_and_call_data() {
    let mut memory = vec![0u8; 32];
    memory[31] = 3;
    memory.extend_from_slice(&[9, 8, 7, 6]);
    let mut ctx = Context::new(vec![word(0)], memory, vec![]);
    assert!(matches!(Type::Bytes(Storage::Memory).value(&mut ctx), Ok(Value::Bytes(ref b)) if b == &vec![9u8, 8, 7]));
    let mut ctx = Context::new(vec![word(1), word(2)], vec![], vec![5, 6, 7, 8]);
    assert!(matches!(Type::Bytes(Storage::CallData).value(&mut ctx), Ok(Value::Bytes(ref b)) if b == &vec![6u8, 7]));
    let mut ctx = Context::new(vec![word(3), word(2)], vec![], vec![5, 6, 7, 8]);
    assert!(matches!(Type::Bytes(Storage::CallData).value(&mut ctx), Err(DecodeError::OutOfBounds)));
}

#[test]
fn enum_values_name_their_variant() {
    let e = Enum { name: "State".to_string(), variants: vec![Variant { name: "Open".to_string() }, Variant { name: "Closed".to_string() }] };
    let mut ctx = Context::new(vec![word(1)], vec![], vec![]);
    match Type::Enum("State".to_string(), Some(e)).value(&mut ctx) {
        Ok(Value::Enum { variant, .. }) => assert_eq!(Some("Closed".to_string()), variant),
        other => panic!("expected an enum, got {:?}", other),
    }
}
