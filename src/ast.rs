use crate::hex::chars_of;
use crate::linker::{chars_eq, string_from_chars};
use crate::source_map::Mapping;
use crate::linker::Address;
use crate::wei::U256;
use vstd::prelude::*;

verus! {

/// A span of source text: its start, length and file.
#[derive(Debug, Clone, Copy, Hash, PartialEq, Eq, PartialOrd, Ord, Structural)]
pub struct Src {
    pub start: u32,
    pub length: u32,
    pub file_index: u32,
}

#[derive(Debug, Clone)]
pub struct FunctionCallAttributes {
    pub ty: String,
}

#[derive(Debug, Clone)]
pub struct FunctionDefinitionAttributes {
    pub name: String,
}

#[derive(Debug, Clone)]
pub struct IdentifierAttributes {
    pub ty: String,
    pub value: String,
    pub referenced_declaration: u32,
}

#[derive(Debug, Clone)]
pub struct IndexAccessAttributes {
    pub ty: String,
}

#[derive(Debug, Clone)]
pub struct MemberAccessAttributes {
    pub ty: String,
    pub member_name: String,
    pub is_pure: bool,
}

#[derive(Debug, Clone)]
pub struct VariableDeclarationAttributes {
    pub ty: String,
    pub name: String,
}

#[derive(Debug, Clone)]
pub struct AssignmentAttributes {
    pub ty: String,
}

#[derive(Debug, Clone)]
pub struct ElementaryTypeNameAttributes {
    pub ty: String,
    pub name: String,
}

#[derive(Debug, Clone)]
pub struct ElementaryTypeNameExpressionAttributes {
    pub ty: String,
    pub value: String,
}

#[derive(Debug, Clone)]
pub struct EnumDefinitionAttributes {
    pub canonical_name: String,
    pub name: String,
}

#[derive(Debug, Clone)]
pub struct EnumValueAttributes {
    pub name: String,
}

/// What kind of node an AST node is, with the attributes that kind carries.
#[derive(Debug)]
pub enum Node {
    ArrayTypeName,
    Assignment { attributes: AssignmentAttributes },
    BinaryOperation,
    Block,
    Break,
    Conditional,
    Continue,
    ContractDefinition,
    ElementaryTypeName { attributes: ElementaryTypeNameAttributes },
    ElementaryTypeNameExpression { attributes: ElementaryTypeNameExpressionAttributes },
    EmitStatement,
    EnumDefinition { id: u32, attributes: EnumDefinitionAttributes },
    EnumValue { id: u32, attributes: EnumValueAttributes },
    EventDefinition,
    ExpressionStatement,
    ForStatement,
    FunctionCall { attributes: FunctionCallAttributes },
    FunctionDefinition { id: u32, attributes: FunctionDefinitionAttributes },
    Identifier { id: u32, attributes: IdentifierAttributes },
    IfStatement,
    ImportDirective,
    IndexAccess { id: u32, attributes: IndexAccessAttributes },
    InheritanceSpecifier,
    InlineAssembly,
    Literal,
    Mapping,
    MemberAccess { id: u32, attributes: MemberAccessAttributes },
    ModifierDefinition,
    ModifierInvocation,
    NewExpression,
    ParameterList,
    PlaceholderStatement,
    PragmaDirective,
    Return,
    SourceUnit,
    StructDefinition,
    TupleExpression,
    UnaryOperation,
    UserDefinedTypeName,
    UsingForDirective,
    VariableDeclaration { id: u32, attributes: VariableDeclarationAttributes },
    VariableDeclarationStatement,
}

/// A node of the compiler's syntax tree.
#[derive(Debug)]
pub struct Ast {
    pub node: Node,
    pub src: Src,
    pub children: Vec<Ast>,
}

impl Ast {
    /// Access the source of this AST element.
    pub fn source(&self) -> (r: &Src)
        ensures
            *r == self.src,
    {
        &self.src
    }
}

/// An expression, as the key of a variable binding.
#[derive(Debug, Hash, PartialEq, Eq, PartialOrd, Ord)]
pub enum Expr {
    /// identifier expressions
    Identifier { identifier: String },
    /// key[value] expressions
    IndexAccess { key: Box<Expr>, value: Box<Expr> },
    /// key.value expressions
    MemberAccess { key: Box<Expr>, value: String },
    /// name(args) function calls.
    FunctionCall { name: Box<Expr>, args: Vec<Expr> },
}

/// An expression as plain values.
pub enum ExprView {
    Identifier(Seq<char>),
    IndexAccess(Box<ExprView>, Box<ExprView>),
    MemberAccess(Box<ExprView>, Seq<char>),
    FunctionCall(Box<ExprView>, Seq<ExprView>),
}

impl Expr {
    pub open spec fn view(&self) -> ExprView
        decreases self,
    {
        match self {
            Expr::Identifier { identifier } => ExprView::Identifier(identifier@),
            Expr::IndexAccess { key, value } => ExprView::IndexAccess(
                Box::new((**key).view()),
                Box::new((**value).view()),
            ),
            Expr::MemberAccess { key, value } => ExprView::MemberAccess(
                Box::new((**key).view()),
                value@,
            ),
            Expr::FunctionCall { name, args } => ExprView::FunctionCall(
                Box::new((**name).view()),
                views(args@),
            ),
        }
    }
}

impl Expr {
    /// Do the two expressions read the same?
    pub fn same(&self, other: &Expr) -> (r: bool)
        ensures
            r == (self.view() == other.view()),
        decreases self,
    {
        match (self, other) {
            (Expr::Identifier { identifier: a }, Expr::Identifier { identifier: b }) => {
                crate::matcher::str_eq(a.as_str(), b.as_str())
            },
            (Expr::IndexAccess { key: k1, value: v1 }, Expr::IndexAccess { key: k2, value: v2 }) => {
                (**k1).same(&**k2) && (**v1).same(&**v2)
            },
            (Expr::MemberAccess { key: k1, value: v1 }, Expr::MemberAccess { key: k2, value: v2 }) => {
                (**k1).same(&**k2) && crate::matcher::str_eq(v1.as_str(), v2.as_str())
            },
            (Expr::FunctionCall { name: n1, args: a1 }, Expr::FunctionCall { name: n2, args: a2 }) => {
                if !(**n1).same(&**n2) {
                    return false;
                }
                if a1.len() != a2.len() {
                    proof {
                        lemma_views_len(a1@);
                        lemma_views_len(a2@);
                    }
                    return false;
                }
                let mut i: usize = 0;
                while i < a1.len()
                    invariant
                        i <= a1@.len(),
                        a1@.len() == a2@.len(),
                        (*self matches Expr::FunctionCall { args: x, name: y } && x == *a1 && y == *n1),
                        (*other matches Expr::FunctionCall { args: x, name: y } && x == *a2 && y == *n2),
                        n1.view() == n2.view(),
                        views(a1@.take(i as int)) == views(a2@.take(i as int)),
                    decreases a1@.len() - i,
                {
                    assert(a1@.take(i + 1).drop_last() =~= a1@.take(i as int));
                    assert(a2@.take(i + 1).drop_last() =~= a2@.take(i as int));
                    if !a1[i].same(&a2[i]) {
                        proof {
                            lemma_views_index(a1@, i as int);
                            lemma_views_index(a2@, i as int);
                        }
                        return false;
                    }
                    i += 1;
                }
                assert(a1@.take(i as int) =~= a1@);
                assert(a2@.take(i as int) =~= a2@);
                true
            },
            _ => false,
        }
    }
}

proof fn lemma_views_len(s: Seq<Expr>)
    ensures
        views(s).len() == s.len(),
    decreases s.len(),
{
    if s.len() > 0 {
        lemma_views_len(s.drop_last());
    }
}

proof fn lemma_views_index(s: Seq<Expr>, i: int)
    requires
        0 <= i < s.len(),
    ensures
        views(s)[i] == s[i].view(),
    decreases s.len(),
{
    lemma_views_len(s);
    if i < s.len() - 1 {
        lemma_views_index(s.drop_last(), i);
        lemma_views_len(s.drop_last());
    }
}

/// The views of a sequence of expressions.
pub open spec fn views(s: Seq<Expr>) -> Seq<ExprView>
    decreases s,
{
    if s.len() == 0 {
        Seq::empty()
    } else {
        views(s.drop_last()).push(s.last().view())
    }
}

pub open spec fn prepend(p: Seq<ExprView>, o: Option<Seq<ExprView>>) -> Option<Seq<ExprView>> {
    match o {
        Some(s) => Some(p + s),
        None => None,
    }
}

/// The expression that a node stands for and the text of its type; `None` for nodes
/// that carry no value (control flow, declarations).
pub open spec fn decode_ast_spec(c: &Ast) -> Option<(ExprView, Seq<char>)>
    decreases c,
{
    match &c.node {
        Node::Identifier { attributes, .. } => Some(
            (ExprView::Identifier(attributes.value@), attributes.ty@),
        ),
        Node::ElementaryTypeNameExpression { attributes } => Some(
            (ExprView::Identifier(attributes.value@), attributes.ty@),
        ),
        Node::Assignment { .. } => if c.children@.len() > 0 {
            match &c.children@[0].node {
                Node::Identifier { attributes, .. } => Some(
                    (ExprView::Identifier(attributes.value@), attributes.ty@),
                ),
                _ => None,
            }
        } else {
            None
        },
        Node::IndexAccess { attributes, .. } => if c.children@.len() >= 2 {
            match (decode_ast_spec(&c.children@[0]), decode_ast_spec(&c.children@[1])) {
                (Some((k, _)), Some((v, _))) => Some(
                    (ExprView::IndexAccess(Box::new(k), Box::new(v)), attributes.ty@),
                ),
                _ => None,
            }
        } else {
            None
        },
        Node::MemberAccess { attributes, .. } => if attributes.is_pure || c.children@.len() == 0 {
            None
        } else {
            match decode_ast_spec(&c.children@[0]) {
                Some((k, _)) => Some(
                    (ExprView::MemberAccess(Box::new(k), attributes.member_name@), attributes.ty@),
                ),
                None => None,
            }
        },
        Node::FunctionCall { attributes } => if c.children@.len() == 0 {
            None
        } else {
            match decode_ast_spec(&c.children@[0]) {
                Some((name, _)) => match decode_args_spec(c, 1) {
                    Some(args) => Some(
                        (ExprView::FunctionCall(Box::new(name), args), attributes.ty@),
                    ),
                    None => None,
                },
                None => None,
            }
        },
        _ => None,
    }
}

/// The expressions of the children of `c` from `from` on, if each of them decodes.
pub open spec fn decode_args_spec(c: &Ast, from: int) -> Option<Seq<ExprView>>
    decreases c, c.children@.len() - from,
{
    if from < 0 || from >= c.children@.len() {
        Some(Seq::empty())
    } else {
        match (decode_ast_spec(&c.children@[from]), decode_args_spec(c, from + 1)) {
            (Some((e, _)), Some(rest)) => Some(seq![e] + rest),
            _ => None,
        }
    }
}

fn identifier_of(attributes: &IdentifierAttributes) -> (r: (Expr, String))
    ensures
        r.0.view() == ExprView::Identifier(attributes.value@),
        r.1@ == attributes.ty@,
{
    (Expr::Identifier { identifier: attributes.value.clone() }, attributes.ty.clone())
}

/// Decode a node into the expression it stands for and the text of its type.
pub fn decode_ast(c: &Ast) -> (r: Option<(Expr, String)>)
    ensures
        match (r, decode_ast_spec(c)) {
            (Some((e, t)), Some((ev, tv))) => e.view() == ev && t@ == tv,
            (None, None) => true,
            _ => false,
        },
    decreases c,
{
    match &c.node {
        Node::Identifier { attributes, .. } => Some(identifier_of(attributes)),
        Node::ElementaryTypeNameExpression { attributes } => Some(
            (Expr::Identifier { identifier: attributes.value.clone() }, attributes.ty.clone()),
        ),
        Node::Assignment { .. } => {
            if c.children.len() == 0 {
                return None;
            }
            match &c.children[0].node {
                Node::Identifier { attributes, .. } => Some(identifier_of(attributes)),
                _ => None,
            }
        },
        Node::IndexAccess { attributes, .. } => {
            if c.children.len() < 2 {
                return None;
            }
            let key = match decode_ast(&c.children[0]) {
                Some((k, _)) => k,
                None => {
                    return None;
                },
            };
            let value = match decode_ast(&c.children[1]) {
                Some((v, _)) => v,
                None => {
                    return None;
                },
            };
            Some((Expr::IndexAccess { key: Box::new(key), value: Box::new(value) }, attributes.ty.clone()))
        },
        Node::MemberAccess { attributes, .. } => {
            if attributes.is_pure || c.children.len() == 0 {
                return None;
            }
            let key = match decode_ast(&c.children[0]) {
                Some((k, _)) => k,
                None => {
                    return None;
                },
            };
            Some(
                (
                    Expr::MemberAccess { key: Box::new(key), value: attributes.member_name.clone() },
                    attributes.ty.clone(),
                ),
            )
        },
        Node::FunctionCall { attributes } => {
            if c.children.len() == 0 {
                return None;
            }
            let name = match decode_ast(&c.children[0]) {
                Some((n, _)) => n,
                None => {
                    return None;
                },
            };
            let args = match decode_args(c) {
                Some(a) => a,
                None => {
                    return None;
                },
            };
            let r = Expr::FunctionCall { name: Box::new(name), args };
            Some((r, attributes.ty.clone()))
        },
        _ => None,
    }
}

/// The expressions of the arguments of a call: every child but the first.
fn decode_args(c: &Ast) -> (r: Option<Vec<Expr>>)
    requires
        c.children@.len() > 0,
    ensures
        match (r, decode_args_spec(c, 1)) {
            (Some(v), Some(s)) => views(v@) == s,
            (None, None) => true,
            _ => false,
        },
    decreases c, 0int,
{
    let n = c.children.len();
    let mut out: Vec<Expr> = Vec::new();
    let mut k: usize = 1;
    proof {
        if let Some(all) = decode_args_spec(c, 1) {
            assert(views(out@) + all =~= all);
        }
    }
    while k < n
        invariant
            1 <= k <= n,
            n == c.children@.len(),
            decode_args_spec(c, 1) == prepend(views(out@), decode_args_spec(c, k as int)),
        decreases n - k,
    {
        let e = match decode_ast(&c.children[k]) {
            Some((e, _)) => e,
            None => {
                return None;
            },
        };
        let ghost before = out@;
        out.push(e);
        assert(out@.drop_last() =~= before);
        proof {
            if let Some(rest) = decode_args_spec(c, k + 1) {
                assert(views(before) + (seq![e.view()] + rest) =~= views(out@) + rest);
            }
        }
        k += 1;
    }
    assert(views(out@) + Seq::<ExprView>::empty() =~= views(out@));
    Some(out)
}

/// A function definition and the span it covers.
#[derive(Debug, Clone)]
pub struct Function {
    pub src: Src,
    pub name: String,
}

impl Function {
    /// A copy of the function.
    pub fn duplicate(&self) -> (r: Function)
        ensures
            r.src == self.src,
            r.name@ == self.name@,
    {
        Function { src: self.src, name: self.name.clone() }
    }
}

#[derive(Debug, Clone, Hash, PartialEq, Eq, PartialOrd, Ord)]
pub struct Variant {
    pub name: String,
}

#[derive(Debug, Clone, Hash, PartialEq, Eq, PartialOrd, Ord)]
pub struct Enum {
    pub name: String,
    pub variants: Vec<Variant>,
}

/// An enum as plain values: its name and the names of its variants.
pub type EnumView = (Seq<char>, Seq<Seq<char>>);

impl Enum {
    pub open spec fn view(&self) -> EnumView {
        (self.name@, self.variants@.map_values(|v: Variant| v.name@))
    }

    /// A copy of the enum.
    pub fn duplicate(&self) -> (r: Enum)
        ensures
            r.view() == self.view(),
    {
        let mut variants: Vec<Variant> = Vec::new();
        let mut i: usize = 0;
        while i < self.variants.len()
            invariant
                i <= self.variants@.len(),
                variants@.map_values(|v: Variant| v.name@) == self.variants@.take(i as int).map_values(
                    |v: Variant| v.name@,
                ),
            decreases self.variants@.len() - i,
        {
            let name = self.variants[i].name.clone();
            assert(name@ == self.variants@[i as int].name@);
            let ghost before = variants@;
            variants.push(Variant { name });
            assert(variants@.map_values(|v: Variant| v.name@) =~= before.map_values(
                |v: Variant| v.name@,
            ).push(name@));
            assert(self.variants@.take(i + 1).map_values(|v: Variant| v.name@) =~= self.variants@.take(
                i as int,
            ).map_values(|v: Variant| v.name@).push(name@));
            i += 1;
            assert(variants@.map_values(|v: Variant| v.name@) =~= self.variants@.take(
                i as int,
            ).map_values(|v: Variant| v.name@));
        }
        assert(self.variants@.take(i as int) =~= self.variants@);
        Enum { name: self.name.clone(), variants }
    }
}

/// Where a value is kept.
#[derive(Debug, Clone, Copy, PartialEq, Eq, Structural)]
pub enum Storage {
    Storage,
    Memory,
    CallData,
}

/// How a value is referred to.
#[derive(Debug, Clone, Copy, PartialEq, Eq, Structural)]
pub enum Kind {
    Pointer,
    Ref,
}

/// The type of an expression, as far as values of it can be decoded.
#[derive(Debug, PartialEq, Eq)]
pub enum Type {
    Bytes(Storage),
    Bytes32,
    Uint256,
    Bool,
    Address,
    Enum(String, Option<Enum>),
    Struct(String, Storage, Kind),
    Function(String),
    Mapping(Box<Type>, Box<Type>),
    Unknown(String),
}

/// A type as plain values.
pub enum TypeView {
    Bytes(Storage),
    Bytes32,
    Uint256,
    Bool,
    Address,
    Enum(Seq<char>, Option<EnumView>),
    Struct(Seq<char>, Storage, Kind),
    Function(Seq<char>),
    Mapping(Box<TypeView>, Box<TypeView>),
    Unknown(Seq<char>),
}

impl Type {
    pub open spec fn view(&self) -> TypeView
        decreases self,
    {
        match self {
            Type::Bytes(s) => TypeView::Bytes(*s),
            Type::Bytes32 => TypeView::Bytes32,
            Type::Uint256 => TypeView::Uint256,
            Type::Bool => TypeView::Bool,
            Type::Address => TypeView::Address,
            Type::Enum(n, e) => TypeView::Enum(
                n@,
                match e {
                    Some(x) => Some(x.view()),
                    None => None,
                },
            ),
            Type::Struct(n, s, k) => TypeView::Struct(n@, *s, *k),
            Type::Function(p) => TypeView::Function(p@),
            Type::Mapping(k, v) => TypeView::Mapping(Box::new((**k).view()), Box::new((**v).view())),
            Type::Unknown(t) => TypeView::Unknown(t@),
        }
    }
}

/// Index of the first `=>` in `s`.
pub open spec fn arrow(s: Seq<char>) -> Option<nat>
    decreases s.len(),
{
    if s.len() < 2 {
        None
    } else if s[0] == '=' && s[1] == '>' {
        Some(0)
    } else {
        match arrow(s.skip(1)) {
            Some(i) => Some(i + 1),
            None => None,
        }
    }
}

/// The enum registered last under `name`.
pub open spec fn lookup_enum(enums: Seq<(Seq<char>, EnumView)>, name: Seq<char>) -> Option<EnumView>
    decreases enums.len(),
{
    if enums.len() == 0 {
        None
    } else if enums.last().0 == name {
        Some(enums.last().1)
    } else {
        lookup_enum(enums.drop_last(), name)
    }
}

pub open spec fn word_at(words: Seq<Seq<char>>, k: int) -> Option<Seq<char>> {
    if k < words.len() {
        Some(words[k])
    } else {
        None
    }
}

/// The type that the text `ty` names; text that names no known type is `Unknown`.
pub open spec fn decode_type_spec(enums: Seq<(Seq<char>, EnumView)>, ty: Seq<char>) -> TypeView
    decreases ty.len(),
{
    if ty.len() >= 7 && ty.take(7) == "mapping"@ {
        let m = ty.skip(7);
        if m.len() < 2 || m[0] != '(' || m.last() != ')' {
            TypeView::Unknown(ty)
        } else {
            let inner = m.subrange(1, m.len() - 1);
            match arrow(inner) {
                None => TypeView::Unknown(ty),
                Some(i) => {
                    let rest = inner.skip((i + 2) as int);
                    let from = crate::matcher::trim_white(inner.take(i as int));
                    let to = crate::matcher::trim_white(
                        match arrow(rest) {
                            Some(j) => rest.take(j as int),
                            None => rest,
                        },
                    );
                    if from.len() < ty.len() && to.len() < ty.len() {
                        TypeView::Mapping(
                            Box::new(decode_type_spec(enums, from)),
                            Box::new(decode_type_spec(enums, to)),
                        )
                    } else {
                        TypeView::Unknown(ty)
                    }
                },
            }
        }
    } else {
        let words = crate::source_map::split(ty, ' ');
        let w0 = words[0];
        if w0 == "enum"@ {
            match word_at(words, 1) {
                Some(name) => TypeView::Enum(name, lookup_enum(enums, name)),
                None => TypeView::Unknown(ty),
            }
        } else if w0 == "struct"@ {
            match (word_at(words, 1), word_at(words, 2), word_at(words, 3)) {
                (Some(name), Some(st), Some(kd)) => {
                    let storage = if st == "storage"@ {
                        Some(Storage::Storage)
                    } else if st == "memory"@ {
                        Some(Storage::Memory)
                    } else if st == "calldata"@ {
                        Some(Storage::CallData)
                    } else {
                        None
                    };
                    let kind = if kd == "pointer"@ {
                        Some(Kind::Pointer)
                    } else if kd == "ref"@ {
                        Some(Kind::Ref)
                    } else {
                        None
                    };
                    match (storage, kind) {
                        (Some(s), Some(k)) => TypeView::Struct(name, s, k),
                        _ => TypeView::Unknown(ty),
                    }
                },
                _ => TypeView::Unknown(ty),
            }
        } else if w0 == "function"@ {
            if words.len() >= 2 {
                TypeView::Function(ty.skip(9))
            } else {
                TypeView::Unknown(ty)
            }
        } else if w0 == "bytes"@ {
            match word_at(words, 1) {
                Some(w) => if w == "calldata"@ {
                    TypeView::Bytes(Storage::CallData)
                } else if w == "memory"@ {
                    TypeView::Bytes(Storage::Memory)
                } else {
                    TypeView::Unknown(ty)
                },
                None => TypeView::Unknown(ty),
            }
        } else if w0 == "bytes32"@ {
            TypeView::Bytes32
        } else if w0 == "uint256"@ {
            TypeView::Uint256
        } else if w0 == "bool"@ {
            TypeView::Bool
        } else if w0 == "address"@ {
            TypeView::Address
        } else {
            TypeView::Unknown(ty)
        }
    }
}

/// Does `v[a..b]` read exactly `lit`?
fn range_is(v: &Vec<char>, a: usize, b: usize, lit: &[char]) -> (r: bool)
    requires
        a <= b <= v@.len(),
    ensures
        r == (v@.subrange(a as int, b as int) == lit@),
{
    if b - a != lit.len() {
        return false;
    }
    crate::hex::chars_match(v, a, lit)
}

/// Bounds of `v[a..b]` without the white space around it.
fn trim_range(v: &Vec<char>, a: usize, b: usize) -> (r: (usize, usize))
    requires
        a <= b <= v@.len(),
    ensures
        a <= r.0 <= r.1 <= b,
        v@.subrange(r.0 as int, r.1 as int) == crate::matcher::trim_white(v@.subrange(a as int, b as int)),
{
    let mut i: usize = a;
    assert(v@.subrange(a as int, b as int) =~= v@.subrange(a as int, b as int).skip(0));
    while i < b && crate::matcher::is_white_exec(v[i])
        invariant
            a <= i <= b <= v@.len(),
            crate::matcher::trim_white_start(v@.subrange(a as int, b as int))
                == crate::matcher::trim_white_start(v@.subrange(i as int, b as int)),
        decreases b - i,
    {
        assert(v@.subrange(i as int, b as int).skip(1) =~= v@.subrange(i + 1, b as int));
        i += 1;
    }
    let mut j: usize = b;
    while j > i && crate::matcher::is_white_exec(v[j - 1])
        invariant
            a <= i <= j <= b <= v@.len(),
            crate::matcher::trim_white(v@.subrange(a as int, b as int))
                == crate::matcher::trim_white_end(v@.subrange(i as int, j as int)),
        decreases j,
    {
        assert(v@.subrange(i as int, j as int).drop_last() =~= v@.subrange(i as int, j - 1));
        j -= 1;
    }
    (i, j)
}

/// Offset of the first `=>` in `v[a..b]`.
fn find_arrow(v: &Vec<char>, a: usize, b: usize) -> (r: Option<usize>)
    requires
        a <= b <= v@.len(),
    ensures
        match r {
            Some(i) => arrow(v@.subrange(a as int, b as int)) == Some(i as nat) && a + i + 2 <= b,
            None => arrow(v@.subrange(a as int, b as int)) is None,
        },
{
    let mut k: usize = a;
    assert(v@.subrange(a as int, b as int) =~= v@.subrange(a as int, b as int).skip(0));
    while b - k >= 2
        invariant
            a <= k <= b <= v@.len(),
            arrow(v@.subrange(a as int, b as int)) == crate::linker::shift(
                arrow(v@.subrange(k as int, b as int)),
                (k - a) as nat,
            ),
        decreases b - k,
    {
        if v[k] == '=' && v[k + 1] == '>' {
            return Some(k - a);
        }
        assert(v@.subrange(k as int, b as int).skip(1) =~= v@.subrange(k + 1, b as int));
        k += 1;
    }
    None
}

fn text_of(v: &Vec<char>, a: usize, b: usize) -> (r: String)
    requires
        a <= b <= v@.len(),
    ensures
        r@ == v@.subrange(a as int, b as int),
{
    let c = crate::linker::copy_range(v, a, b);
    string_from_chars(c.as_slice())
}

pub open spec fn enums_view(enums: Seq<(String, Enum)>) -> Seq<(Seq<char>, EnumView)> {
    enums.map_values(|p: (String, Enum)| (p.0@, p.1.view()))
}

fn find_enum(enums: &Vec<(String, Enum)>, v: &Vec<char>, a: usize, b: usize) -> (r: Option<Enum>)
    requires
        a <= b <= v@.len(),
    ensures
        match (r, lookup_enum(enums_view(enums@), v@.subrange(a as int, b as int))) {
            (Some(e), Some(ev)) => e.view() == ev,
            (None, None) => true,
            _ => false,
        },
{
    let name = crate::linker::copy_range(v, a, b);
    let ghost ev = enums_view(enums@);
    let mut j: usize = enums.len();
    assert(ev.take(j as int) =~= ev);
    while j > 0
        invariant
            j <= enums@.len(),
            a <= b <= v@.len(),
            name@ == v@.subrange(a as int, b as int),
            ev == enums_view(enums@),
            lookup_enum(ev, name@) == lookup_enum(ev.take(j as int), name@),
        decreases j,
    {
        assert(ev.take(j as int).drop_last() =~= ev.take(j - 1));
        let key = chars_of(enums[j - 1].0.as_str());
        assert(ev.take(j as int).last() == (enums@[j - 1].0@, enums@[j - 1].1.view()));
        if chars_eq(&key, &name) {
            assert(lookup_enum(ev.take(j as int), name@) == Some(enums@[j - 1].1.view()));
            return Some(enums[j - 1].1.duplicate());
        }
        j -= 1;
    }
    None
}

/// Decode `mapping(K => V)`, where `v[a..b]` opens with `mapping`.
fn decode_mapping(enums: &Vec<(String, Enum)>, v: &Vec<char>, a: usize, b: usize) -> (r: Type)
    requires
        a + 7 <= b <= v@.len(),
        v@.subrange(a as int, b as int).take(7) == "mapping"@,
    ensures
        r.view() == decode_type_spec(enums_view(enums@), v@.subrange(a as int, b as int)),
    decreases b - a, 1int,
{
    let ghost ty = v@.subrange(a as int, b as int);
    let m0 = a + 7;
    assert(ty.skip(7) =~= v@.subrange(m0 as int, b as int));
    if b - m0 < 2 || v[m0] != '(' || v[b - 1] != ')' {
        return Type::Unknown(text_of(v, a, b));
    }
    let ia = m0 + 1;
    let ib = b - 1;
    assert(ty.skip(7).subrange(1, ty.skip(7).len() - 1) =~= v@.subrange(ia as int, ib as int));
    let i = match find_arrow(v, ia, ib) {
        None => {
            return Type::Unknown(text_of(v, a, b));
        },
        Some(i) => i,
    };
    let ghost inner = v@.subrange(ia as int, ib as int);
    assert(inner.take(i as int) =~= v@.subrange(ia as int, (ia + i) as int));
    let ra = ia + i + 2;
    assert(inner.skip((i + 2) as int) =~= v@.subrange(ra as int, ib as int));
    let (fa, fb) = trim_range(v, ia, ia + i);
    let te = match find_arrow(v, ra, ib) {
        Some(j) => {
            assert(v@.subrange(ra as int, ib as int).take(j as int) =~= v@.subrange(
                ra as int,
                (ra + j) as int,
            ));
            ra + j
        },
        None => ib,
    };
    let (ta, tb) = trim_range(v, ra, te);
    let from = decode_type_range(enums, v, fa, fb);
    let to = decode_type_range(enums, v, ta, tb);
    Type::Mapping(Box::new(from), Box::new(to))
}

/// Decode the type that `v[a..b]` names.
#[verifier::rlimit(50)]
fn decode_type_range(enums: &Vec<(String, Enum)>, v: &Vec<char>, a: usize, b: usize) -> (r: Type)
    requires
        a <= b <= v@.len(),
    ensures
        r.view() == decode_type_spec(enums_view(enums@), v@.subrange(a as int, b as int)),
    decreases b - a, 2int,
{
    let ghost ty = v@.subrange(a as int, b as int);
    proof {
        reveal_strlit("mapping");
        reveal_strlit("enum");
        reveal_strlit("struct");
        reveal_strlit("storage");
        reveal_strlit("memory");
        reveal_strlit("calldata");
        reveal_strlit("pointer");
        reveal_strlit("ref");
        reveal_strlit("function");
        reveal_strlit("bytes");
        reveal_strlit("bytes32");
        reveal_strlit("uint256");
        reveal_strlit("bool");
        reveal_strlit("address");
    }
    let mapping = ['m', 'a', 'p', 'p', 'i', 'n', 'g'];
    assert(mapping@ =~= "mapping"@);
    proof {
        if b - a >= 7 {
            assert(ty.take(7) =~= v@.subrange(a as int, a + 7));
        }
    }
    if b - a >= 7 && range_is(v, a, a + 7, mapping.as_slice()) {
        return decode_mapping(enums, v, a, b);
    }
    let words = crate::source_map::split_ranges(v, a, b, ' ');
    proof {
        crate::source_map::lemma_split_nonempty(ty, ' ');
    }
    let (w0a, w0b) = words[0];
    let enum_ = ['e', 'n', 'u', 'm'];
    let struct_ = ['s', 't', 'r', 'u', 'c', 't'];
    let function = ['f', 'u', 'n', 'c', 't', 'i', 'o', 'n'];
    let bytes = ['b', 'y', 't', 'e', 's'];
    let bytes32 = ['b', 'y', 't', 'e', 's', '3', '2'];
    let uint256 = ['u', 'i', 'n', 't', '2', '5', '6'];
    let bool_ = ['b', 'o', 'o', 'l'];
    let address = ['a', 'd', 'd', 'r', 'e', 's', 's'];
    assert(enum_@ =~= "enum"@);
    assert(struct_@ =~= "struct"@);
    assert(function@ =~= "function"@);
    assert(bytes@ =~= "bytes"@);
    assert(bytes32@ =~= "bytes32"@);
    assert(uint256@ =~= "uint256"@);
    assert(bool_@ =~= "bool"@);
    assert(address@ =~= "address"@);
    if range_is(v, w0a, w0b, enum_.as_slice()) {
        if words.len() < 2 {
            return Type::Unknown(text_of(v, a, b));
        }
        let (na, nb) = words[1];
        let found = find_enum(enums, v, na, nb);
        return Type::Enum(text_of(v, na, nb), found);
    }
    if range_is(v, w0a, w0b, struct_.as_slice()) {
        if words.len() < 4 {
            return Type::Unknown(text_of(v, a, b));
        }
        let (na, nb) = words[1];
        let (sa, sb) = words[2];
        let (ka, kb) = words[3];
        let st = ['s', 't', 'o', 'r', 'a', 'g', 'e'];
        let me = ['m', 'e', 'm', 'o', 'r', 'y'];
        let cd = ['c', 'a', 'l', 'l', 'd', 'a', 't', 'a'];
        let po = ['p', 'o', 'i', 'n', 't', 'e', 'r'];
        let re = ['r', 'e', 'f'];
        assert(st@ =~= "storage"@);
        assert(me@ =~= "memory"@);
        assert(cd@ =~= "calldata"@);
        assert(po@ =~= "pointer"@);
        assert(re@ =~= "ref"@);
        let storage = if range_is(v, sa, sb, st.as_slice()) {
            Storage::Storage
        } else if range_is(v, sa, sb, me.as_slice()) {
            Storage::Memory
        } else if range_is(v, sa, sb, cd.as_slice()) {
            Storage::CallData
        } else {
            return Type::Unknown(text_of(v, a, b));
        };
        let kind = if range_is(v, ka, kb, po.as_slice()) {
            Kind::Pointer
        } else if range_is(v, ka, kb, re.as_slice()) {
            Kind::Ref
        } else {
            return Type::Unknown(text_of(v, a, b));
        };
        return Type::Struct(text_of(v, na, nb), storage, kind);
    }
    if range_is(v, w0a, w0b, function.as_slice()) {
        if words.len() < 2 {
            return Type::Unknown(text_of(v, a, b));
        }
        assert(v@.subrange(w0a as int, w0b as int) == "function"@);
        assert(w0a == a);
        assert(ty.skip(9) =~= v@.subrange(a + 9, b as int));
        return Type::Function(text_of(v, a + 9, b));
    }
    if range_is(v, w0a, w0b, bytes.as_slice()) {
        if words.len() < 2 {
            return Type::Unknown(text_of(v, a, b));
        }
        let (xa, xb) = words[1];
        let cd = ['c', 'a', 'l', 'l', 'd', 'a', 't', 'a'];
        let me = ['m', 'e', 'm', 'o', 'r', 'y'];
        assert(me@ =~= "memory"@);
        assert(cd@ =~= "calldata"@);
        if range_is(v, xa, xb, cd.as_slice()) {
            return Type::Bytes(Storage::CallData);
        } else if range_is(v, xa, xb, me.as_slice()) {
            return Type::Bytes(Storage::Memory);
        } else {
            return Type::Unknown(text_of(v, a, b));
        }
    }
    if range_is(v, w0a, w0b, bytes32.as_slice()) {
        Type::Bytes32
    } else if range_is(v, w0a, w0b, uint256.as_slice()) {
        Type::Uint256
    } else if range_is(v, w0a, w0b, bool_.as_slice()) {
        Type::Bool
    } else if range_is(v, w0a, w0b, address.as_slice()) {
        Type::Address
    } else {
        Type::Unknown(text_of(v, a, b))
    }
}

/// Decode the type that the text `ty` names, against the given enums (latest first).
pub fn decode_type_with(enums: &Vec<(String, Enum)>, ty: &str) -> (r: Type)
    ensures
        r.view() == decode_type_spec(enums_view(enums@), ty@),
{
    let v = chars_of(ty);
    assert(v@.subrange(0, v@.len() as int) =~= ty@);
    decode_type_range(enums, &v, 0, v.len())
}

/// The nodes of a tree in pre-order: each node before its children.
pub open spec fn nodes(a: Ast) -> Seq<Ast>
    decreases a,
{
    seq![a] + nodes_seq(a.children@)
}

/// The nodes of a sequence of trees, one tree after the other.
pub open spec fn nodes_seq(s: Seq<Ast>) -> Seq<Ast>
    decreases s,
{
    if s.len() == 0 {
        Seq::empty()
    } else {
        nodes_seq(s.drop_last()) + nodes(s.last())
    }
}

/// The function that a node defines.
pub open spec fn function_of(a: Ast) -> Seq<(Src, Seq<char>)> {
    match a.node {
        Node::FunctionDefinition { attributes, .. } => seq![(a.src, attributes.name@)],
        _ => Seq::empty(),
    }
}

/// The names of the enum values among `s`.
pub open spec fn enum_values(s: Seq<Ast>) -> Seq<Seq<char>>
    decreases s.len(),
{
    if s.len() == 0 {
        Seq::empty()
    } else {
        enum_values(s.drop_last()) + match s.last().node {
            Node::EnumValue { attributes, .. } => seq![attributes.name@],
            _ => Seq::empty(),
        }
    }
}

/// The enum that a node defines, under its canonical name.
pub open spec fn enum_of(a: Ast) -> Seq<(Seq<char>, EnumView)> {
    match a.node {
        Node::EnumDefinition { attributes, .. } => seq![
            (attributes.canonical_name@, (attributes.name@, enum_values(a.children@))),
        ],
        _ => Seq::empty(),
    }
}

/// The functions defined in `s`, in order.
pub open spec fn functions_in(s: Seq<Ast>) -> Seq<(Src, Seq<char>)>
    decreases s.len(),
{
    if s.len() == 0 {
        Seq::empty()
    } else {
        functions_in(s.drop_last()) + function_of(s.last())
    }
}

/// The enums defined in `s`, in order.
pub open spec fn enums_in(s: Seq<Ast>) -> Seq<(Seq<char>, EnumView)>
    decreases s.len(),
{
    if s.len() == 0 {
        Seq::empty()
    } else {
        enums_in(s.drop_last()) + enum_of(s.last())
    }
}

proof fn lemma_in_add(x: Seq<Ast>, y: Seq<Ast>)
    ensures
        functions_in(x + y) == functions_in(x) + functions_in(y),
        enums_in(x + y) == enums_in(x) + enums_in(y),
        (x + y).map_values(|a: Ast| a.src) == x.map_values(|a: Ast| a.src) + y.map_values(
            |a: Ast| a.src,
        ),
    decreases y.len(),
{
    if y.len() == 0 {
        assert(x + y =~= x);
        assert(functions_in(x) + functions_in(y) =~= functions_in(x));
        assert(enums_in(x) + enums_in(y) =~= enums_in(x));
    } else {
        lemma_in_add(x, y.drop_last());
        assert((x + y).drop_last() =~= x + y.drop_last());
        assert(functions_in(x) + functions_in(y.drop_last()) + function_of(y.last()) =~= functions_in(x) + (
        functions_in(y.drop_last()) + function_of(y.last())));
        assert(enums_in(x) + enums_in(y.drop_last()) + enum_of(y.last()) =~= enums_in(x) + (
        enums_in(y.drop_last()) + enum_of(y.last())));
    }
    assert((x + y).map_values(|a: Ast| a.src) =~= x.map_values(|a: Ast| a.src) + y.map_values(
        |a: Ast| a.src,
    ));
}

pub open spec fn function_views(f: Seq<Function>) -> Seq<(Src, Seq<char>)> {
    f.map_values(|x: Function| (x.src, x.name@))
}

/// What a walk over the tree collects.
struct Collected {
    functions: Vec<Function>,
    enums: Vec<(String, Enum)>,
    srcs: Vec<Src>,
}

impl Collected {
    spec fn view(&self) -> (Seq<(Src, Seq<char>)>, Seq<(Seq<char>, EnumView)>, Seq<Src>) {
        (function_views(self.functions@), enums_view(self.enums@), self.srcs@)
    }
}

fn enum_variants(children: &Vec<Ast>) -> (r: Vec<Variant>)
    ensures
        r@.map_values(|v: Variant| v.name@) == enum_values(children@),
{
    let mut out: Vec<Variant> = Vec::new();
    let mut i: usize = 0;
    while i < children.len()
        invariant
            i <= children@.len(),
            out@.map_values(|v: Variant| v.name@) == enum_values(children@.take(i as int)),
        decreases children@.len() - i,
    {
        assert(children@.take(i + 1).drop_last() =~= children@.take(i as int));
        let ghost before = out@;
        if let Node::EnumValue { attributes, .. } = &children[i].node {
            out.push(Variant { name: attributes.name.clone() });
            assert(out@.map_values(|v: Variant| v.name@) =~= before.map_values(|v: Variant| v.name@)
                + seq![attributes.name@]);
        } else {
            assert(enum_values(children@.take(i + 1)) =~= enum_values(children@.take(i as int)));
        }
        i += 1;
    }
    assert(children@.take(i as int) =~= children@);
    out
}

/// Collect the functions, enums and spans of `a`, in pre-order.
fn walk(a: &Ast, c: &mut Collected)
    ensures
        final(c).view().0 == old(c).view().0 + functions_in(nodes(*a)),
        final(c).view().1 == old(c).view().1 + enums_in(nodes(*a)),
        final(c).view().2 == old(c).view().2 + nodes(*a).map_values(|n: Ast| n.src),
    decreases a,
{
    let ghost start = c.view();
    match &a.node {
        Node::FunctionDefinition { attributes, .. } => {
            c.functions.push(Function { src: a.src, name: attributes.name.clone() });
        },
        Node::EnumDefinition { attributes, .. } => {
            let e = Enum { name: attributes.name.clone(), variants: enum_variants(&a.children) };
            c.enums.push((attributes.canonical_name.clone(), e));
        },
        _ => {},
    }
    c.srcs.push(a.src);
    proof {
        assert(seq![*a].drop_last() =~= Seq::<Ast>::empty());
        assert(seq![*a].last() == *a);
        assert(functions_in(Seq::<Ast>::empty()) == Seq::<(Src, Seq<char>)>::empty());
        assert(enums_in(Seq::<Ast>::empty()) == Seq::<(Seq<char>, EnumView)>::empty());
        assert(functions_in(seq![*a]) =~= function_of(*a)) by {
            assert(Seq::<(Src, Seq<char>)>::empty() + function_of(*a) =~= function_of(*a));
        }
        assert(enums_in(seq![*a]) =~= enum_of(*a)) by {
            assert(Seq::<(Seq<char>, EnumView)>::empty() + enum_of(*a) =~= enum_of(*a));
        }
        assert(c.view().0 =~= start.0 + functions_in(seq![*a]));
        assert(c.view().1 =~= start.1 + enums_in(seq![*a]));
        assert(c.view().2 =~= start.2 + seq![*a].map_values(|n: Ast| n.src));
    }
    let mut i: usize = 0;
    while i < a.children.len()
        invariant
            i <= a.children@.len(),
            c.view().0 == start.0 + functions_in(seq![*a] + nodes_seq(a.children@.take(i as int))),
            c.view().1 == start.1 + enums_in(seq![*a] + nodes_seq(a.children@.take(i as int))),
            c.view().2 == start.2 + (seq![*a] + nodes_seq(a.children@.take(i as int))).map_values(
                |n: Ast| n.src,
            ),
        decreases a.children@.len() - i,
    {
        let ghost before = seq![*a] + nodes_seq(a.children@.take(i as int));
        walk(&a.children[i], c);
        proof {
            assert(a.children@.take(i + 1).drop_last() =~= a.children@.take(i as int));
            assert(nodes_seq(a.children@.take(i + 1)) == nodes_seq(a.children@.take(i as int)) + nodes(
                a.children@[i as int],
            ));
            lemma_in_add(before, nodes(a.children@[i as int]));
            assert(seq![*a] + nodes_seq(a.children@.take(i + 1)) =~= before + nodes(
                a.children@[i as int],
            ));
        }
        i += 1;
    }
    assert(a.children@.take(i as int) =~= a.children@);
}

/// Indices over a syntax tree: its functions, its enums and its spans.
#[derive(Debug)]
pub struct Registry {
    root: Ast,
    functions: Vec<Function>,
    enums: Vec<(String, Enum)>,
    spans: Vec<Src>,
}

impl Default for Registry {
    fn default() -> (r: Registry)
        ensures
            r.wf(),
    {
        Registry::empty()
    }
}

impl Registry {
    pub closed spec fn root(&self) -> Ast {
        self.root
    }

    /// The functions, in pre-order.
    pub closed spec fn functions(&self) -> Seq<(Src, Seq<char>)> {
        function_views(self.functions@)
    }

    /// The enums by canonical name, in pre-order.
    pub closed spec fn enums(&self) -> Seq<(Seq<char>, EnumView)> {
        enums_view(self.enums@)
    }

    pub closed spec fn wf(&self) -> bool {
        &&& self.functions() == functions_in(nodes(self.root))
        &&& self.enums() == enums_in(nodes(self.root))
        &&& self.spans@ == nodes(self.root).map_values(|n: Ast| n.src)
    }

    /// Index a syntax tree.
    pub fn new(root: Ast) -> (r: Registry)
        ensures
            r.wf(),
            r.root() == root,
    {
        let mut c = Collected { functions: Vec::new(), enums: Vec::new(), srcs: Vec::new() };
        assert(c.view().0 =~= Seq::<(Src, Seq<char>)>::empty());
        assert(c.view().1 =~= Seq::<(Seq<char>, EnumView)>::empty());
        walk(&root, &mut c);
        assert(c.view().0 =~= functions_in(nodes(root)));
        assert(c.view().1 =~= enums_in(nodes(root)));
        assert(c.srcs@ =~= nodes(root).map_values(|n: Ast| n.src));
        Registry { root, functions: c.functions, enums: c.enums, spans: c.srcs }
    }

    /// A registry of a tree that holds nothing but an empty source unit.
    pub fn empty() -> (r: Registry)
        ensures
            r.wf(),
            r.functions().len() == 0,
            r.enums().len() == 0,
    {
        let root = Ast { node: Node::SourceUnit, src: Src { start: 0, length: 0, file_index: 0 }, children: Vec::new() };
        proof {
            assert(nodes_seq(root.children@) == Seq::<Ast>::empty());
            assert(nodes(root) =~= seq![root]);
            assert(seq![root].drop_last() =~= Seq::<Ast>::empty());
            assert(functions_in(Seq::<Ast>::empty()) == Seq::<(Src, Seq<char>)>::empty());
            assert(enums_in(Seq::<Ast>::empty()) == Seq::<(Seq<char>, EnumView)>::empty());
            assert(functions_in(seq![root]) =~= Seq::<(Src, Seq<char>)>::empty());
            assert(enums_in(seq![root]) =~= Seq::<(Seq<char>, EnumView)>::empty());
        }
        Registry::new(root)
    }

    /// Decode the type that the text `ty` names.
    pub fn decode_type(&self, ty: &str) -> (r: Type)
        ensures
            r.view() == decode_type_spec(self.enums(), ty@),
    {
        decode_type_with(&self.enums, ty)
    }

    /// Decode a node into the expression it stands for and the text of its type.
    pub fn decode_ast(&self, c: &Ast) -> (r: Option<(Expr, String)>)
        ensures
            match (r, decode_ast_spec(c)) {
                (Some((e, t)), Some((ev, tv))) => e.view() == ev && t@ == tv,
                (None, None) => true,
                _ => false,
            },
    {
        decode_ast(c)
    }

    /// The function that encloses `mapping`: among the functions of its file that start
    /// at or before it, the one that starts last, provided that it ends at or after it.
    pub fn find_function(&self, mapping: &Mapping) -> (r: Option<&Function>)
        ensures
            match r {
                Some(f) => exists|i: int|
                    0 <= i < self.functions().len() && #[trigger] self.functions()[i] == (
                        f.src,
                        f.name@,
                    ) && best_function(self.functions(), *mapping, i) && ends_within(
                        f.src,
                        *mapping,
                    ),
                None => forall|i: int|
                    0 <= i < self.functions().len() ==> !(#[trigger] best_function(
                        self.functions(),
                        *mapping,
                        i,
                    ) && ends_within(self.functions()[i].0, *mapping)),
            },
    {
        let file_index = match mapping.file_index {
            Some(f) => f,
            None => {
                return None;
            },
        };
        let mut best: Option<usize> = None;
        let mut i: usize = 0;
        while i < self.functions.len()
            invariant
                i <= self.functions@.len(),
                mapping.file_index == Some(file_index),
                match best {
                    Some(b) => b < i && best_function(self.functions().take(i as int), *mapping, b as int),
                    None => forall|j: int|
                        0 <= j < i ==> !candidate(#[trigger] self.functions()[j].0, *mapping),
                },
            decreases self.functions@.len() - i,
        {
            let f = &self.functions[i];
            assert(self.functions()[i as int].0 == f.src);
            if f.src.file_index == file_index && f.src.start <= mapping.start {
                let better = match best {
                    None => true,
                    Some(b) => f.src.start >= self.functions[b].src.start,
                };
                if better {
                    best = Some(i);
                }
            }
            proof {
                let fs = self.functions().take(i + 1);
                assert forall|j: int| 0 <= j < i implies fs[j] == self.functions().take(i as int)[j] by {}
            }
            i += 1;
        }
        assert(self.functions().take(i as int) =~= self.functions());
        match best {
            None => None,
            Some(b) => {
                let f = &self.functions[b];
                assert(self.functions()[b as int] == (f.src, f.name@));
                let end = f.src.start as u64 + f.src.length as u64;
                let lookup_end = mapping.start as u64 + mapping.length as u64;
                if lookup_end <= end {
                    Some(f)
                } else {
                    proof {
                        assert forall|j: int|
                            0 <= j < self.functions().len() implies !(#[trigger] best_function(
                            self.functions(),
                            *mapping,
                            j,
                        ) && ends_within(self.functions()[j].0, *mapping)) by {
                            if best_function(self.functions(), *mapping, j) {
                                assert(j == b);
                            }
                        }
                    }
                    None
                }
            },
        }
    }

    /// The first node, in pre-order, whose span starts and ends where `mapping` does.
    pub fn find(&self, mapping: &Mapping) -> (r: Option<&Ast>)
        ensures
            match r {
                Some(n) => first_with_span(nodes(self.root()), mapping.start, mapping.length) == Some(*n),
                None => first_with_span(nodes(self.root()), mapping.start, mapping.length) is None,
            },
    {
        find_in(&self.root, mapping.start, mapping.length)
    }

    /// Every span in the tree, once each.
    pub fn statements(&self) -> (r: Vec<Src>)
        requires
            self.wf(),
        ensures
            forall|i: int, j: int| 0 <= i < j < r@.len() ==> r@[i] != r@[j],
            r@.to_set() == nodes(self.root()).map_values(|n: Ast| n.src).to_set(),
    {
        broadcast use vstd::seq_lib::group_seq_properties;

        let mut out: Vec<Src> = Vec::new();
        let mut i: usize = 0;
        while i < self.spans.len()
            invariant
                i <= self.spans@.len(),
                forall|a: int, b: int| 0 <= a < b < out@.len() ==> out@[a] != out@[b],
                out@.to_set() == self.spans@.take(i as int).to_set(),
            decreases self.spans@.len() - i,
        {
            let s = self.spans[i];
            let mut seen = false;
            let mut k: usize = 0;
            while k < out.len()
                invariant
                    k <= out@.len(),
                    seen == exists|j: int| 0 <= j < k && out@[j] == s,
                decreases out@.len() - k,
            {
                if out[k] == s {
                    seen = true;
                }
                k += 1;
            }
            proof {
                assert(self.spans@.take(i + 1) =~= self.spans@.take(i as int).push(s));
                self.spans@.take(i as int).lemma_push_to_set_commute(s);
            }
            if !seen {
                let ghost before = out@;
                out.push(s);
                proof {
                    before.lemma_push_to_set_commute(s);
                }
            } else {
                assert(self.spans@.take(i as int).to_set().contains(s)) by {
                    let j = choose|j: int| 0 <= j < out@.len() && out@[j] == s;
                    assert(out@.to_set().contains(out@[j]));
                }
                assert(out@.to_set() =~= out@.to_set().insert(s));
            }
            i += 1;
        }
        assert(self.spans@.take(i as int) =~= self.spans@);
        out
    }
}

/// A function of the mapping's file that starts at or before the mapping.
pub open spec fn candidate(f: Src, m: Mapping) -> bool {
    m.file_index == Some(f.file_index) && f.start <= m.start
}

/// The function with index `i` is the candidate that starts last, the later one on ties.
pub open spec fn best_function(fs: Seq<(Src, Seq<char>)>, m: Mapping, i: int) -> bool {
    &&& 0 <= i < fs.len()
    &&& candidate(fs[i].0, m)
    &&& forall|j: int|
        0 <= j < fs.len() && candidate(#[trigger] fs[j].0, m) ==> fs[j].0.start < fs[i].0.start || (
        fs[j].0.start == fs[i].0.start && j <= i)
}

/// The function that encloses the mapping, if any: the best candidate, when the mapping
/// ends within it.
pub open spec fn enclosing(fs: Seq<(Src, Seq<char>)>, m: Mapping) -> Option<(Src, Seq<char>)> {
    if exists|i: int| best_function(fs, m, i) && ends_within(fs[i].0, m) {
        Some(fs[choose|i: int| best_function(fs, m, i) && ends_within(fs[i].0, m)])
    } else {
        None
    }
}

pub proof fn lemma_enclosing(fs: Seq<(Src, Seq<char>)>, m: Mapping, i: int)
    requires
        best_function(fs, m, i),
        ends_within(fs[i].0, m),
    ensures
        enclosing(fs, m) == Some(fs[i]),
{
    let j = choose|j: int| best_function(fs, m, j) && ends_within(fs[j].0, m);
    assert(best_function(fs, m, j));
    if j != i {
        assert(fs[j].0.start < fs[i].0.start || (fs[j].0.start == fs[i].0.start && j <= i));
        assert(fs[i].0.start < fs[j].0.start || (fs[i].0.start == fs[j].0.start && i <= j));
    }
}

/// The mapping ends at or before the function does.
pub open spec fn ends_within(f: Src, m: Mapping) -> bool {
    m.start + m.length <= f.start + f.length
}

/// The first node of `s` whose span starts at `start` and is `length` long.
pub open spec fn first_with_span(s: Seq<Ast>, start: u32, length: u32) -> Option<Ast>
    decreases s.len(),
{
    if s.len() == 0 {
        None
    } else if s[0].src.start == start && s[0].src.length == length {
        Some(s[0])
    } else {
        first_with_span(s.skip(1), start, length)
    }
}

proof fn lemma_first_add(x: Seq<Ast>, y: Seq<Ast>, start: u32, length: u32)
    ensures
        first_with_span(x + y, start, length) == match first_with_span(x, start, length) {
            Some(n) => Some(n),
            None => first_with_span(y, start, length),
        },
    decreases x.len(),
{
    if x.len() == 0 {
        assert(x + y =~= y);
    } else {
        assert((x + y).skip(1) =~= x.skip(1) + y);
        lemma_first_add(x.skip(1), y, start, length);
    }
}

fn find_in(a: &Ast, start: u32, length: u32) -> (r: Option<&Ast>)
    ensures
        match r {
            Some(n) => first_with_span(nodes(*a), start, length) == Some(*n),
            None => first_with_span(nodes(*a), start, length) is None,
        },
    decreases a,
{
    assert((seq![*a] + nodes_seq(a.children@))[0] == *a);
    assert((seq![*a] + nodes_seq(a.children@)).skip(1) =~= nodes_seq(a.children@));
    if a.src.start == start && a.src.length == length {
        return Some(a);
    }
    let mut i: usize = 0;
    assert(a.children@.take(0) =~= Seq::<Ast>::empty());
    while i < a.children.len()
        invariant
            i <= a.children@.len(),
            !(a.src.start == start && a.src.length == length),
            first_with_span(nodes_seq(a.children@.take(i as int)), start, length) is None,
        decreases a.children@.len() - i,
    {
        let found = find_in(&a.children[i], start, length);
        proof {
            assert(a.children@.take(i + 1).drop_last() =~= a.children@.take(i as int));
            lemma_first_add(
                nodes_seq(a.children@.take(i as int)),
                nodes(a.children@[i as int]),
                start,
                length,
            );
        }
        if found.is_some() {
            proof {
                lemma_first_add(
                    nodes_seq(a.children@.take(i + 1)),
                    nodes_seq(a.children@.skip(i + 1)),
                    start,
                    length,
                );
                lemma_nodes_seq_split(a.children@, i + 1);
                let all = seq![*a] + nodes_seq(a.children@);
                assert(nodes(*a) == all);
                assert(all[0] == *a);
                assert(all.skip(1) =~= nodes_seq(a.children@));
                assert(first_with_span(all, start, length) == first_with_span(
                    all.skip(1),
                    start,
                    length,
                ));
            }
            return found;
        }
        i += 1;
    }
    assert(a.children@.take(i as int) =~= a.children@);
    None
}

proof fn lemma_nodes_seq_split(s: Seq<Ast>, k: int)
    requires
        0 <= k <= s.len(),
    ensures
        nodes_seq(s) == nodes_seq(s.take(k)) + nodes_seq(s.skip(k)),
    decreases s.len() - k,
{
    if k == s.len() {
        assert(s.take(k) =~= s);
        assert(s.skip(k) =~= Seq::<Ast>::empty());
        assert(nodes_seq(s) + Seq::<Ast>::empty() =~= nodes_seq(s));
    } else {
        lemma_nodes_seq_split(s, k + 1);
        assert(s.take(k + 1).drop_last() =~= s.take(k));
        assert(s.take(k + 1).last() == s[k]);
        lemma_nodes_seq_prepend(s[k], s.skip(k + 1));
        assert(seq![s[k]] + s.skip(k + 1) =~= s.skip(k));
    }
}

proof fn lemma_nodes_seq_prepend(a: Ast, s: Seq<Ast>)
    ensures
        nodes_seq(seq![a] + s) == nodes(a) + nodes_seq(s),
    decreases s.len(),
{
    if s.len() == 0 {
        assert(seq![a] + s =~= seq![a]);
        assert(seq![a].drop_last() =~= Seq::<Ast>::empty());
        assert(seq![a].last() == a);
        assert(nodes_seq(Seq::<Ast>::empty()) == Seq::<Ast>::empty());
        assert(Seq::<Ast>::empty() + nodes(a) =~= nodes(a) + Seq::<Ast>::empty());
    } else {
        lemma_nodes_seq_prepend(a, s.drop_last());
        assert((seq![a] + s).drop_last() =~= seq![a] + s.drop_last());
        assert((seq![a] + s).last() == s.last());
        assert(nodes(a) + nodes_seq(s.drop_last()) + nodes(s.last()) =~= nodes(a) + (nodes_seq(
            s.drop_last(),
        ) + nodes(s.last())));
    }
}

/// Why a value could not be decoded.
#[derive(Debug, Clone, Copy, PartialEq, Eq, Structural)]
pub enum DecodeError {
    /// The shadow stack was empty.
    StackUnderflow,
    /// An offset or length points outside memory or call data.
    OutOfBounds,
    /// An offset or length does not fit in 32 bits.
    TooLarge,
}

/// A decoded runtime value.
#[derive(Debug)]
pub enum Value {
    /// A byte-array.
    Bytes(Vec<u8>),
    /// A bytes32 value.
    Bytes32([u8; 32]),
    /// A uint256
    Uint256(U256),
    /// A bool.
    Bool(bool),
    /// An address.
    Address(Address),
    /// Only the types of a mapping, since its values cannot be discovered.
    Mapping(Type, Type),
    /// An enum value.
    Enum { name: String, value: U256, variant: Option<String> },
    /// A struct and its name.
    Struct(String, Storage, Kind),
    /// A function.
    Function(String),
    Unknown(String),
}

/// Byte `j` of a word, counting from the least significant.
pub open spec fn le_byte(w: U256, j: int) -> u8 {
    ((w.0[j / 8] >> (8 * (j % 8)) as u64) & 0xff) as u8
}

/// The number that big-endian bytes write.
pub open spec fn be_value(s: Seq<u8>) -> nat
    decreases s.len(),
{
    if s.len() == 0 {
        0
    } else {
        be_value(s.drop_last()) * 256 + s.last() as nat
    }
}

fn byte_of_word(w: &U256, j: usize) -> (r: u8)
    requires
        j < 32,
    ensures
        r == le_byte(*w, j as int),
{
    ((w.0[j / 8] >> (8 * (j % 8)) as u64) & 0xff) as u8
}

/// The snapshot of the machine that values are decoded from.
#[derive(Debug)]
pub struct Context {
    pub stack: Vec<U256>,
    pub memory: Vec<u8>,
    pub call_data: Vec<u8>,
}

impl Context {
    /// Create a new decoding context.
    pub fn new(stack: Vec<U256>, memory: Vec<u8>, call_data: Vec<u8>) -> (r: Context)
        ensures
            r.stack == stack,
            r.memory == memory,
            r.call_data == call_data,
    {
        Context { stack, memory, call_data }
    }

    /// Pop a value from the stack.
    pub fn pop(&mut self) -> (r: Result<U256, DecodeError>)
        ensures
            old(self).stack@.len() == 0 ==> r == Err::<U256, DecodeError>(DecodeError::StackUnderflow)
                && final(self).stack@ == old(self).stack@ && final(self).memory == old(self).memory
                && final(self).call_data == old(self).call_data,
            old(self).stack@.len() > 0 ==> r == Ok::<U256, DecodeError>(old(self).stack@.last())
                && final(self).stack@ == old(self).stack@.drop_last() && final(self).memory
                == old(self).memory && final(self).call_data == old(self).call_data,
    {
        match self.stack.pop() {
            Some(v) => Ok(v),
            None => Err(DecodeError::StackUnderflow),
        }
    }
}

/// A word as a 32-bit offset or length, if it fits.
fn word_u32(w: &U256) -> (r: Option<u32>)
    ensures
        w.value() <= u32::MAX ==> r == Some(w.value() as u32),
        w.value() > u32::MAX ==> r is None,
{
    let high = w.0[0] >> 32u64;
    proof {
        w.lemma_bounded();
        let l = crate::wei::limb();
        let x: u64 = w.0[0];
        assert(x >> 32u64 == x / 0x1_0000_0000) by (bit_vector);
        assert(w.value() == w.0[0] as nat + (w.0[1] as nat + w.0[2] as nat * l + w.0[3] as nat * l
            * l) * l) by (nonlinear_arith)
            requires
                w.value() == w.0[0] as nat + w.0[1] as nat * l + w.0[2] as nat * l * l + w.0[3] as nat
                    * l * l * l,
        ;
        let rest = w.0[1] as nat + w.0[2] as nat * l + w.0[3] as nat * l * l;
        if rest > 0 {
            assert(rest * l >= l) by (nonlinear_arith)
                requires
                    rest > 0,
            ;
        }
        assert((rest == 0) == (w.0[1] == 0 && w.0[2] == 0 && w.0[3] == 0)) by (nonlinear_arith)
            requires
                rest == w.0[1] as nat + w.0[2] as nat * l + w.0[3] as nat * l * l,
                l > 0,
        ;
    }
    if w.0[1] == 0 && w.0[2] == 0 && w.0[3] == 0 && high == 0 {
        Some(w.0[0] as u32)
    } else {
        None
    }
}

/// A word as an index, if it fits in 64 bits.
fn word_u64(w: &U256) -> (r: Option<u64>)
    ensures
        w.value() <= u64::MAX ==> r == Some(w.value() as u64),
        w.value() > u64::MAX ==> r is None,
{
    proof {
        let l = crate::wei::limb();
        let rest = w.0[1] as nat + w.0[2] as nat * l + w.0[3] as nat * l * l;
        assert(w.value() == w.0[0] as nat + rest * l) by (nonlinear_arith)
            requires
                w.value() == w.0[0] as nat + w.0[1] as nat * l + w.0[2] as nat * l * l + w.0[3] as nat
                    * l * l * l,
                rest == w.0[1] as nat + w.0[2] as nat * l + w.0[3] as nat * l * l,
        ;
        if rest > 0 {
            assert(rest * l >= l) by (nonlinear_arith)
                requires
                    rest > 0,
            ;
        }
        assert((rest == 0) == (w.0[1] == 0 && w.0[2] == 0 && w.0[3] == 0)) by (nonlinear_arith)
            requires
                rest == w.0[1] as nat + w.0[2] as nat * l + w.0[3] as nat * l * l,
                l > 0,
        ;
    }
    if w.0[1] == 0 && w.0[2] == 0 && w.0[3] == 0 {
        Some(w.0[0])
    } else {
        None
    }
}

/// The 32-byte length at `memory[offset..]`, if it fits in 32 bits.
fn memory_length(memory: &Vec<u8>, offset: usize) -> (r: Option<u32>)
    requires
        offset + 32 <= memory@.len(),
    ensures
        be_value(memory@.subrange(offset as int, offset + 32)) <= u32::MAX ==> r == Some(
            be_value(memory@.subrange(offset as int, offset + 32)) as u32,
        ),
        be_value(memory@.subrange(offset as int, offset + 32)) > u32::MAX ==> r is None,
{
    let cap: u64 = 0x1_0000_0000;
    let mut acc: u64 = 0;
    let mut i: usize = 0;
    let n = memory.len();
    while i < 32
        invariant
            i <= 32,
            n == memory@.len(),
            offset + 32 <= memory@.len(),
            cap == 0x1_0000_0000u64,
            acc == if be_value(memory@.subrange(offset as int, offset + i)) < cap {
                be_value(memory@.subrange(offset as int, offset + i))
            } else {
                cap as nat
            },
        decreases 32 - i,
    {
        let b = memory[offset + i] as u64;
        let ghost prefix = memory@.subrange(offset as int, offset + i);
        let ghost next = memory@.subrange(offset as int, offset + i + 1);
        assert(next.drop_last() =~= prefix);
        if acc >= cap {
            assert(be_value(next) >= be_value(prefix));
        } else {
            assert(acc * 256 + b < 0x100_0000_0000) by (nonlinear_arith)
                requires
                    acc < cap,
                    b < 256,
                    cap == 0x1_0000_0000u64,
            ;
            let t = acc * 256 + b;
            acc = if t >= cap {
                cap
            } else {
                t
            };
        }
        proof {
            if be_value(prefix) >= cap {
                assert(be_value(next) >= cap) by (nonlinear_arith)
                    requires
                        be_value(next) == be_value(prefix) * 256 + next.last() as nat,
                        be_value(prefix) >= cap,
                ;
            }
        }
        i += 1;
    }
    if acc >= cap {
        None
    } else {
        Some(acc as u32)
    }
}

pub(crate) fn copy_bytes(v: &Vec<u8>, from: usize, to: usize) -> (r: Vec<u8>)
    requires
        from <= to <= v@.len(),
    ensures
        r@ == v@.subrange(from as int, to as int),
{
    let mut out: Vec<u8> = Vec::new();
    let mut i: usize = from;
    while i < to
        invariant
            from <= i <= to <= v@.len(),
            out@ == v@.subrange(from as int, i as int),
        decreases to - i,
    {
        out.push(v[i]);
        i += 1;
        assert(out@ =~= v@.subrange(from as int, i as int));
    }
    out
}

/// What decoding a value of type `t` from the snapshot `c` gives, and leaves as `c2`.
pub open spec fn value_post(t: Type, c: Context, c2: Context, r: Result<Value, DecodeError>) -> bool {
    &&& match t {
        Type::Uint256 => match r {
            Ok(Value::Uint256(v)) => c.stack@.len() > 0 && v == c.stack@.last(),
            Err(e) => c.stack@.len() == 0 && e == DecodeError::StackUnderflow,
            _ => false,
        },
        Type::Bool => match r {
            Ok(Value::Bool(b)) => c.stack@.len() > 0 && b == (c.stack@.last().value() != 0),
            Err(e) => c.stack@.len() == 0 && e == DecodeError::StackUnderflow,
            _ => false,
        },
        Type::Address => match r {
            Ok(Value::Address(a)) => c.stack@.len() > 0 && forall|i: int|
                0 <= i < 20 ==> #[trigger] a.bytes@[i] == le_byte(c.stack@.last(), 19 - i),
            Err(e) => c.stack@.len() == 0 && e == DecodeError::StackUnderflow,
            _ => false,
        },
        Type::Bytes32 => match r {
            Ok(Value::Bytes32(b)) => c.stack@.len() > 0 && forall|i: int|
                0 <= i < 32 ==> #[trigger] b@[i] == le_byte(c.stack@.last(), 31 - i),
            Err(e) => c.stack@.len() == 0 && e == DecodeError::StackUnderflow,
            _ => false,
        },
        Type::Bytes(Storage::CallData) => {
            let s = c.stack@;
            if s.len() < 2 {
                r == Err::<Value, DecodeError>(DecodeError::StackUnderflow)
            } else {
                let length = s.last().value();
                let offset = s.drop_last().last().value();
                if length > u32::MAX || offset > u32::MAX {
                    r == Err::<Value, DecodeError>(DecodeError::TooLarge)
                } else if offset + length > c.call_data@.len() {
                    r == Err::<Value, DecodeError>(DecodeError::OutOfBounds)
                } else {
                    r matches Ok(Value::Bytes(d)) && d@ == c.call_data@.subrange(
                        offset as int,
                        (offset + length) as int,
                    )
                }
            }
        },
        Type::Bytes(Storage::Memory) => {
            let s = c.stack@;
            let m = c.memory@;
            if s.len() == 0 {
                r == Err::<Value, DecodeError>(DecodeError::StackUnderflow)
            } else {
                let offset = s.last().value();
                if offset > u32::MAX {
                    r == Err::<Value, DecodeError>(DecodeError::TooLarge)
                } else if offset + 32 > m.len() {
                    r == Err::<Value, DecodeError>(DecodeError::OutOfBounds)
                } else {
                    let length = be_value(m.subrange(offset as int, (offset + 32) as int));
                    if length > u32::MAX {
                        r == Err::<Value, DecodeError>(DecodeError::TooLarge)
                    } else if offset + 32 + length > m.len() {
                        r == Err::<Value, DecodeError>(DecodeError::OutOfBounds)
                    } else {
                        r matches Ok(Value::Bytes(d)) && d@ == m.subrange(
                            (offset + 32) as int,
                            (offset + 32 + length) as int,
                        )
                    }
                }
            }
        },
        Type::Enum(name, e) => match r {
            Ok(Value::Enum { name: n, value, variant }) => {
                &&& c.stack@.len() > 0
                &&& n == name
                &&& value == c.stack@.last()
                &&& match (e, variant) {
                    (Some(en), Some(vn)) => value.value() < en.variants@.len() && vn@
                        == en.variants@[value.value() as int].name@,
                    (Some(en), None) => value.value() >= en.variants@.len(),
                    (None, None) => true,
                    _ => false,
                }
            },
            Err(e) => c.stack@.len() == 0 && e == DecodeError::StackUnderflow,
            _ => false,
        },
        Type::Mapping(k, v) => r matches Ok(Value::Mapping(a, b)) && a == *k && b == *v && c2 == c,
        Type::Struct(n, s, k) => r == Ok::<Value, DecodeError>(Value::Struct(n, s, k)) && c2 == c,
        Type::Function(p) => r == Ok::<Value, DecodeError>(Value::Function(p)) && c2 == c,
        Type::Unknown(u) => r == Ok::<Value, DecodeError>(Value::Unknown(u)) && c2 == c,
        Type::Bytes(Storage::Storage) => r matches Ok(Value::Unknown(u)) && c2 == c,
    }
    &&& c2.memory == c.memory
    &&& c2.call_data == c.call_data
    &&& (r is Ok && (t is Uint256 || t is Bool || t is Address || t is Bytes32 || t is Enum || (
    t matches Type::Bytes(Storage::Memory)))) ==> c2.stack@ == c.stack@.drop_last()
    &&& (r is Ok && (t matches Type::Bytes(Storage::CallData))) ==> c2.stack@
        == c.stack@.drop_last().drop_last()
}

impl Type {
    /// Decode a value of this type from the machine snapshot, taking from its stack what
    /// the type needs.
    pub fn value(self, ctx: &mut Context) -> (r: Result<Value, DecodeError>)
        ensures
            value_post(self, *old(ctx), *final(ctx), r),
    {
        match self {
            Type::Bytes(Storage::CallData) => {
                let length = match ctx.pop() {
                    Ok(v) => v,
                    Err(e) => {
                        return Err(e);
                    },
                };
                let offset = match ctx.pop() {
                    Ok(v) => v,
                    Err(e) => {
                        return Err(e);
                    },
                };
                let (length, offset) = match (word_u32(&length), word_u32(&offset)) {
                    (Some(l), Some(o)) => (l as usize, o as usize),
                    _ => {
                        return Err(DecodeError::TooLarge);
                    },
                };
                if offset > ctx.call_data.len() || length > ctx.call_data.len() - offset {
                    return Err(DecodeError::OutOfBounds);
                }
                Ok(Value::Bytes(copy_bytes(&ctx.call_data, offset, offset + length)))
            },
            Type::Bytes(Storage::Memory) => {
                let offset = match ctx.pop() {
                    Ok(v) => v,
                    Err(e) => {
                        return Err(e);
                    },
                };
                let offset = match word_u32(&offset) {
                    Some(o) => o as usize,
                    None => {
                        return Err(DecodeError::TooLarge);
                    },
                };
                if offset > ctx.memory.len() || 32 > ctx.memory.len() - offset {
                    return Err(DecodeError::OutOfBounds);
                }
                let length = match memory_length(&ctx.memory, offset) {
                    Some(l) => l as usize,
                    None => {
                        return Err(DecodeError::TooLarge);
                    },
                };
                if length > ctx.memory.len() - offset - 32 {
                    return Err(DecodeError::OutOfBounds);
                }
                Ok(Value::Bytes(copy_bytes(&ctx.memory, offset + 32, offset + 32 + length)))
            },
            Type::Bytes32 => {
                let value = match ctx.pop() {
                    Ok(v) => v,
                    Err(e) => {
                        return Err(e);
                    },
                };
                let mut out = [0u8; 32];
                let mut i: usize = 0;
                while i < 32
                    invariant
                        i <= 32,
                        out@.len() == 32,
                        forall|k: int| 0 <= k < i ==> #[trigger] out@[k] == le_byte(value, 31 - k),
                    decreases 32 - i,
                {
                    out[i] = byte_of_word(&value, 31 - i);
                    i += 1;
                }
                Ok(Value::Bytes32(out))
            },
            Type::Uint256 => {
                let value = match ctx.pop() {
                    Ok(v) => v,
                    Err(e) => {
                        return Err(e);
                    },
                };
                Ok(Value::Uint256(value))
            },
            Type::Bool => {
                let value = match ctx.pop() {
                    Ok(v) => v,
                    Err(e) => {
                        return Err(e);
                    },
                };
                Ok(Value::Bool(!value.is_zero()))
            },
            Type::Address => {
                let value = match ctx.pop() {
                    Ok(v) => v,
                    Err(e) => {
                        return Err(e);
                    },
                };
                let mut out = [0u8; 20];
                let mut i: usize = 0;
                while i < 20
                    invariant
                        i <= 20,
                        out@.len() == 20,
                        forall|k: int| 0 <= k < i ==> #[trigger] out@[k] == le_byte(value, 19 - k),
                    decreases 20 - i,
                {
                    out[i] = byte_of_word(&value, 19 - i);
                    i += 1;
                }
                Ok(Value::Address(Address { bytes: out }))
            },
            Type::Mapping(key, value) => Ok(Value::Mapping(*key, *value)),
            Type::Enum(name, enum_) => {
                let value = match ctx.pop() {
                    Ok(v) => v,
                    Err(e) => {
                        return Err(e);
                    },
                };
                let variant = match &enum_ {
                    Some(e) => match word_u64(&value) {
                        Some(i) => if i < e.variants.len() as u64 {
                            Some(e.variants[i as usize].name.clone())
                        } else {
                            None
                        },
                        None => {
                            let n = e.variants.len();
                            assert(n as nat <= u64::MAX);
                            None
                        },
                    },
                    None => None,
                };
                Ok(Value::Enum { name, value, variant })
            },
            Type::Struct(name, storage, kind) => Ok(Value::Struct(name, storage, kind)),
            Type::Function(params) => Ok(Value::Function(params)),
            Type::Unknown(ty) => Ok(Value::Unknown(ty)),
            Type::Bytes(Storage::Storage) => Ok(Value::Unknown(String::new())),
        }
    }
}

} // verus!
