use crate::ast::{Context, DecodeError, Expr, ExprView, Function, Node, Registry, Src, Value};
use crate::linker::Source;
use crate::source_map::Mapping;
use crate::wei::U256;
use crate::linker::Object;
use crate::matcher::{expect_matches, lines_hold, matches_pattern, pattern_parts, trim_white};
use vstd::prelude::*;

verus! {

/// Last known program counter of the current frame.
#[derive(Debug, Clone, Copy, PartialEq, Eq, Structural)]
pub enum FrameInfo {
    At(usize),
    Unknown,
}

/// An error reported by the virtual machine.
#[derive(Debug, Clone, PartialEq, Eq)]
pub enum VmError {
    /// Execution was reverted.
    Reverted,
    /// Any other failure, with its description.
    Other(String),
}

#[derive(Debug, Clone, PartialEq, Eq)]
pub enum ErrorKind {
    Root,
    Error(VmError),
}

impl ErrorKind {
    /// Check if kind is reverted.
    pub fn is_reverted(&self) -> (r: bool)
        ensures
            r == (*self matches ErrorKind::Error(VmError::Reverted)),
    {
        match self {
            ErrorKind::Root => false,
            ErrorKind::Error(VmError::Reverted) => true,
            ErrorKind::Error(_) => false,
        }
    }
}

/// Where an error happened: file, object, function, line and the lines of the statement.
#[derive(Debug, PartialEq, Eq)]
pub struct LineInfo {
    pub path: String,
    pub object: Option<Object>,
    pub function: Option<String>,
    pub line: usize,
    pub lines: Vec<String>,
}

/// A tree of errors, mirroring the call frames that failed.
#[derive(Debug)]
pub struct ErrorInfo {
    pub kind: ErrorKind,
    pub line_info: Option<LineInfo>,
    pub subs: Vec<ErrorInfo>,
    /// Expressions and their values at the time of the error.
    pub variables: Vec<(Expr, Value)>,
}

/// The tree holds a reverted error.
pub open spec fn reverted(e: ErrorInfo) -> bool
    decreases e,
{
    e.kind matches ErrorKind::Error(VmError::Reverted) || any_reverted(e.subs@)
}

pub open spec fn any_reverted(s: Seq<ErrorInfo>) -> bool
    decreases s,
{
    if s.len() == 0 {
        false
    } else {
        any_reverted(s.drop_last()) || reverted(s.last())
    }
}

/// The line information matches the location pattern and holds the statement.
pub open spec fn line_matches(l: LineInfo, location: Seq<char>, stmt: Seq<char>) -> bool {
    &&& expect_matches(
        pattern_parts(location).0,
        match l.object {
            Some(o) => Some(o.path@),
            None => None,
        },
    )
    &&& expect_matches(
        pattern_parts(location).1,
        match l.object {
            Some(o) => Some(o.item@),
            None => None,
        },
    )
    &&& expect_matches(
        pattern_parts(location).2,
        match l.function {
            Some(f) => Some(f@),
            None => None,
        },
    )
    &&& exists|k: int| 0 <= k < l.lines@.len() && trim_white((#[trigger] l.lines@[k])@) == stmt
}

/// Some error in the tree happened at the location and statement.
pub open spec fn failed_with(e: ErrorInfo, location: Seq<char>, stmt: Seq<char>) -> bool
    decreases e,
{
    (e.line_info matches Some(l) && line_matches(l, location, stmt)) || any_failed_with(
        e.subs@,
        location,
        stmt,
    )
}

pub open spec fn any_failed_with(s: Seq<ErrorInfo>, location: Seq<char>, stmt: Seq<char>) -> bool
    decreases s,
{
    if s.len() == 0 {
        false
    } else {
        any_failed_with(s.drop_last(), location, stmt) || failed_with(s.last(), location, stmt)
    }
}

impl ErrorInfo {
    /// Create a new root error info.
    pub fn new_root(subs: Vec<ErrorInfo>) -> (r: Self)
        ensures
            r.kind == ErrorKind::Root,
            r.line_info is None,
            r.subs == subs,
            r.variables@.len() == 0,
    {
        Self { kind: ErrorKind::Root, line_info: None, subs, variables: Vec::new() }
    }

    /// Check if the tree holds a reverted error.
    pub fn is_reverted(&self) -> (r: bool)
        ensures
            r == reverted(*self),
        decreases self,
    {
        if self.kind.is_reverted() {
            return true;
        }
        let mut i: usize = 0;
        while i < self.subs.len()
            invariant
                i <= self.subs@.len(),
                !(self.kind matches ErrorKind::Error(VmError::Reverted)),
                !any_reverted(self.subs@.take(i as int)),
            decreases self.subs@.len() - i,
        {
            assert(self.subs@.take(i + 1).drop_last() =~= self.subs@.take(i as int));
            if self.subs[i].is_reverted() {
                proof {
                    lemma_any_reverted_take(self.subs@, i + 1);
                }
                return true;
            }
            i += 1;
        }
        assert(self.subs@.take(i as int) =~= self.subs@);
        false
    }

    /// Check if an error in the tree happened at the location `location` (a pattern
    /// `function`, `item:function` or `path:item:function`) on a line that reads `stmt`.
    pub fn is_failed_with(&self, location: &str, stmt: &str) -> (r: bool)
        ensures
            r == failed_with(*self, location@, stmt@),
        decreases self,
    {
        if let Some(l) = &self.line_info {
            let object = match &l.object {
                Some(o) => Some(o),
                None => None,
            };
            let function = match &l.function {
                Some(f) => Some(f.as_str()),
                None => None,
            };
            if matches_pattern(location, object, function) && lines_hold(stmt, &l.lines) {
                return true;
            }
        }
        let mut i: usize = 0;
        while i < self.subs.len()
            invariant
                i <= self.subs@.len(),
                !(self.line_info matches Some(l) && line_matches(l, location@, stmt@)),
                !any_failed_with(self.subs@.take(i as int), location@, stmt@),
            decreases self.subs@.len() - i,
        {
            assert(self.subs@.take(i + 1).drop_last() =~= self.subs@.take(i as int));
            if self.subs[i].is_failed_with(location, stmt) {
                proof {
                    lemma_any_failed_take(self.subs@, i + 1, location@, stmt@);
                }
                return true;
            }
            i += 1;
        }
        assert(self.subs@.take(i as int) =~= self.subs@);
        false
    }
}

proof fn lemma_any_reverted_take(s: Seq<ErrorInfo>, k: int)
    requires
        0 <= k <= s.len(),
        any_reverted(s.take(k)),
    ensures
        any_reverted(s),
    decreases s.len() - k,
{
    if k < s.len() {
        assert(s.take(k + 1).drop_last() =~= s.take(k));
        lemma_any_reverted_take(s, k + 1);
    } else {
        assert(s.take(k) =~= s);
    }
}

proof fn lemma_any_failed_take(s: Seq<ErrorInfo>, k: int, location: Seq<char>, stmt: Seq<char>)
    requires
        0 <= k <= s.len(),
        any_failed_with(s.take(k), location, stmt),
    ensures
        any_failed_with(s, location, stmt),
    decreases s.len() - k,
{
    if k < s.len() {
        assert(s.take(k + 1).drop_last() =~= s.take(k));
        lemma_any_failed_take(s, k + 1, location, stmt);
    } else {
        assert(s.take(k) =~= s);
    }
}

/// Where the instruction at `pc` of `source` stands: the lines of `text`, the file at
/// `path`, that its span touches, in the function `function`; `None` when the instruction
/// has no mapping or those lines are not UTF-8.
pub fn line_info(
    source: &Source,
    pc: usize,
    path: String,
    text: &Vec<u8>,
    function: Option<&Function>,
) -> (r: Option<LineInfo>)
    ensures
        mapping_spec(source, pc) is None ==> r is None,
        (mapping_spec(source, pc) matches Some(m) && m.start + m.length <= usize::MAX
            && crate::utils::all_utf8(
            crate::utils::touched(text@, m.start as nat, m.start as nat + m.length as nat).0,
        )) ==> r is Some,
        r matches Some(l) ==> {
            let m = mapping_spec(source, pc)->0;
            let t = crate::utils::touched(text@, m.start as nat, m.start as nat + m.length as nat);
            &&& l.path@ == path@
            &&& l.object matches Some(o) && o.path@ == source.object.path@ && o.item@ == source.object.item@
            &&& l.line == t.1
            &&& l.lines@.len() == t.0.len()
            &&& forall|i: int| 0 <= i < l.lines@.len() ==> (#[trigger] l.lines@[i])@ == vstd::utf8::decode_utf8(t.0[i])
            &&& match function {
                Some(f) => l.function matches Some(n) && n@ == f.name@,
                None => l.function is None,
            }
        },
{
    let m = match mapping(Some(source), pc) {
        Some(m) => *m,
        None => {
            return None;
        },
    };
    if m.start as u64 + m.length as u64 > usize::MAX as u64 {
        return None;
    }
    let end = m.start as usize + m.length as usize;
    let (lines, line) = match crate::utils::find_line(text, (m.start as usize, end)) {
        Ok(x) => x,
        Err(_) => {
            return None;
        },
    };
    let function = match function {
        Some(f) => Some(f.name.clone()),
        None => None,
    };
    Some(LineInfo { path, object: Some(source.object.duplicate()), function, line, lines })
}

/// The mapping of the instruction at `pc` of `source`, if it has one.
pub open spec fn mapping_spec(source: &Source, pc: usize) -> Option<Mapping> {
    match source.offsets@.get(pc) {
        Some(o) => if o < source.source_map.mappings().len() {
            Some(source.source_map.mappings()[o as int])
        } else {
            None
        },
        None => None,
    }
}

/// What the instruction tracer reports: the statements it visited.
#[derive(Debug)]
pub struct VmTracerOutput {
    pub visited_statements: Vec<crate::ast::Src>,
}

/// The mapping of the instruction at program counter `pc` of `source`.
pub fn mapping(source: Option<&crate::linker::Source>, pc: usize) -> (r: Option<&crate::source_map::Mapping>)
    ensures
        match source {
            None => r is None,
            Some(s) => match s.offsets@.get(pc) {
                None => r is None,
                Some(offset) => if offset < s.source_map.mappings().len() {
                    r == Some(&s.source_map.mappings()[offset as int])
                } else {
                    r is None
                },
            },
        },
{
    broadcast use vstd::std_specs::hash::group_hash_axioms;

    let s = match source {
        Some(s) => s,
        None => {
            return None;
        },
    };
    let offset = match s.offsets.get(&pc) {
        Some(offset) => *offset,
        None => {
            return None;
        },
    };
    s.source_map.find_mapping(offset)
}

/// The index of the binding of `e` in `vars`, if there is one.
pub open spec fn binding_of(vars: Seq<(Expr, Value)>, e: ExprView) -> Option<int> {
    if exists|i: int| 0 <= i < vars.len() && (#[trigger] vars[i]).0.view() == e {
        Some(choose|i: int| 0 <= i < vars.len() && (#[trigger] vars[i]).0.view() == e)
    } else {
        None
    }
}

/// No expression is bound twice.
pub open spec fn bindings_unique(vars: Seq<(Expr, Value)>) -> bool {
    forall|i: int, j: int|
        0 <= i < j < vars.len() ==> (#[trigger] vars[i]).0.view() != (#[trigger] vars[j]).0.view()
}

/// Bind `e` to `v`: the binding of `e` is replaced, or added at the end.
pub fn bind(vars: &mut Vec<(Expr, Value)>, e: Expr, v: Value)
    requires
        bindings_unique(old(vars)@),
    ensures
        bindings_unique(final(vars)@),
        binding_of(old(vars)@, e.view()) matches Some(i) ==> final(vars)@ == old(vars)@.update(i, (e, v)),
        binding_of(old(vars)@, e.view()) is None ==> final(vars)@ == old(vars)@.push((e, v)),
{
    let ghost ev = e.view();
    let mut i: usize = 0;
    while i < vars.len()
        invariant
            i <= vars@.len(),
            vars@ == old(vars)@,
            bindings_unique(old(vars)@),
            forall|j: int| 0 <= j < i ==> (#[trigger] vars@[j]).0.view() != ev,
            ev == e.view(),
        decreases vars@.len() - i,
    {
        if vars[i].0.same(&e) {
            proof {
                let k = binding_of(old(vars)@, ev)->0;
                if k != i {
                    if k < i {
                    } else {
                        assert(old(vars)@[i as int].0.view() != old(vars)@[k].0.view());
                    }
                }
            }
            let ghost before = vars@;
            vars.remove(i);
            vars.insert(i, (e, v));
            assert(vars@ =~= before.update(i as int, (e, v)));
            assert forall|x: int, y: int| 0 <= x < y < vars@.len() implies (#[trigger] vars@[x]).0.view()
                != (#[trigger] vars@[y]).0.view() by {
                if x != i && y != i {
                    assert(vars@[x] == before[x] && vars@[y] == before[y]);
                } else if x == i {
                    assert(vars@[y] == before[y]);
                    assert(before[x].0.view() != before[y].0.view());
                } else {
                    assert(vars@[x] == before[x]);
                    assert(before[x].0.view() != before[y].0.view());
                }
            }
            return;
        }
        i += 1;
    }
    let ghost before = vars@;
    vars.push((e, v));
    assert forall|x: int, y: int| 0 <= x < y < vars@.len() implies (#[trigger] vars@[x]).0.view()
        != (#[trigger] vars@[y]).0.view() by {
        if y == before.len() {
            assert(vars@[x] == before[x]);
        } else {
            assert(vars@[x] == before[x] && vars@[y] == before[y]);
        }
    }
}

/// Information about the current call.
#[derive(Debug)]
pub struct CallFrame {
    /// Input data of the call.
    pub call_data: Vec<u8>,
    /// Expressions and values as of the last completed statement.
    pub variables: Vec<(Expr, Value)>,
    /// Expressions and values seen since the last completed statement.
    pub seen_variables: Vec<(Expr, Value)>,
    /// The function that the frame is in, once known.
    pub function: Option<Function>,
}

impl CallFrame {
    pub fn new(call_data: Vec<u8>) -> (r: CallFrame)
        ensures
            r.call_data == call_data,
            r.variables@.len() == 0,
            r.seen_variables@.len() == 0,
            r.function is None,
    {
        CallFrame { call_data, variables: Vec::new(), seen_variables: Vec::new(), function: None }
    }
}

/// `vars` after binding `e` to `v`.
pub open spec fn bound(vars: Seq<(Expr, Value)>, e: Expr, v: Value) -> Seq<(Expr, Value)> {
    match binding_of(vars, e.view()) {
        Some(i) => vars.update(i, (e, v)),
        None => vars.push((e, v)),
    }
}

/// Registering `node` on the snapshot `c` left it as `c2`, turned the bindings `before`
/// into `after`, and returned `r`: a node without an expression changes nothing; else its
/// type is decoded, its value read, and on success the expression is bound to it.
pub open spec fn registered(
    registry: &Registry,
    node: &crate::ast::Ast,
    c: Context,
    c2: Context,
    before: Seq<(Expr, Value)>,
    after: Seq<(Expr, Value)>,
    r: Result<(), DecodeError>,
) -> bool {
    match crate::ast::decode_ast_spec(node) {
        None => r is Ok && after == before && c2 == c,
        Some((ev, tv)) => exists|e: Expr, t: crate::ast::Type, res: Result<Value, DecodeError>|
            #[trigger] crate::ast::value_post(t, c, c2, res) && #[trigger] e.view() == ev && t.view()
                == crate::ast::decode_type_spec(registry.enums(), tv) && match res {
                Ok(v) => r is Ok && after == bound(before, e, v),
                Err(x) => r == Err::<(), DecodeError>(x) && after == before,
            },
    }
}

/// Decode the expression of a node and its value on the shadow machine, and bind it.
pub fn register_expr(
    registry: &Registry,
    node: &crate::ast::Ast,
    ctx: &mut Context,
    vars: &mut Vec<(Expr, Value)>,
) -> (r: Result<(), DecodeError>)
    requires
        bindings_unique(old(vars)@),
    ensures
        bindings_unique(final(vars)@),
        registered(registry, node, *old(ctx), *final(ctx), old(vars)@, final(vars)@, r),
{
    let (expr, ty) = match registry.decode_ast(node) {
        Some(x) => x,
        None => {
            return Ok(());
        },
    };
    let t = registry.decode_type(ty.as_str());
    let ghost tg = t;
    let ghost c = *ctx;
    let res = t.value(ctx);
    let value = match res {
        Ok(v) => v,
        Err(e) => {
            assert(crate::ast::value_post(tg, c, *ctx, Err::<Value, DecodeError>(e)));
            return Err(e);
        },
    };
    let ghost eg = expr;
    let ghost vg = value;
    bind(vars, expr, value);
    assert(crate::ast::value_post(tg, c, *ctx, Ok::<Value, DecodeError>(vg)));
    assert(final(vars)@ == bound(old(vars)@, eg, vg));
    Ok(())
}

/// The state that the two tracers share during one transaction.
#[derive(Debug)]
pub struct Shared {
    pub frame_info: FrameInfo,
    pub call_stack: Vec<CallFrame>,
    /// The mapping of the last decoded instruction.
    pub last: Option<Mapping>,
    /// The span of the last function entered.
    pub last_function: Option<Src>,
    /// Statements which have been visited.
    pub visited: Vec<Src>,
    /// The shadow stack.
    pub stack: Vec<U256>,
}

impl Shared {
    pub open spec fn wf(&self) -> bool {
        forall|i: int|
            0 <= i < self.call_stack@.len() ==> bindings_unique(
                (#[trigger] self.call_stack@[i]).seen_variables@,
            )
    }

    /// Create the shared state, with one frame for the transaction.
    pub fn new() -> (r: Self)
        ensures
            r.wf(),
            r.call_stack@.len() == 1,
            r.frame_info == FrameInfo::Unknown,
            r.last is None,
            r.visited@.len() == 0,
            r.stack@.len() == 0,
    {
        let mut call_stack = Vec::new();
        call_stack.push(CallFrame::new(Vec::new()));
        Shared {
            frame_info: FrameInfo::Unknown,
            call_stack,
            last: None,
            last_function: None,
            visited: Vec::new(),
            stack: Vec::new(),
        }
    }

    /// A call or create starts: push its frame.
    pub fn enter(&mut self, call_data: Vec<u8>)
        requires
            old(self).wf(),
        ensures
            final(self).wf(),
            final(self).call_stack@.len() == old(self).call_stack@.len() + 1,
            final(self).call_stack@.drop_last() == old(self).call_stack@,
            final(self).call_stack@.last().call_data == call_data,
            final(self).call_stack@.last().seen_variables@.len() == 0,
    {
        self.call_stack.push(CallFrame::new(call_data));
        assert(self.call_stack@.drop_last() =~= old(self).call_stack@);
        assert forall|i: int| 0 <= i < self.call_stack@.len() implies bindings_unique(
            (#[trigger] self.call_stack@[i]).seen_variables@,
        ) by {
            if i < old(self).call_stack@.len() {
                assert(self.call_stack@[i] == old(self).call_stack@[i]);
            }
        }
    }

    /// A call or create is done: pop its frame.
    pub fn leave(&mut self) -> (r: Option<CallFrame>)
        requires
            old(self).wf(),
        ensures
            final(self).wf(),
            old(self).call_stack@.len() == 0 ==> r is None && final(self).call_stack@.len() == 0,
            old(self).call_stack@.len() > 0 ==> r == Some(old(self).call_stack@.last())
                && final(self).call_stack@ == old(self).call_stack@.drop_last(),
    {
        let r = self.call_stack.pop();
        assert forall|i: int| 0 <= i < self.call_stack@.len() implies bindings_unique(
            (#[trigger] self.call_stack@[i]).seen_variables@,
        ) by {
            assert(self.call_stack@[i] == old(self).call_stack@[i]);
        }
        r
    }

    /// A call failed: pop its frame, and report the error with the variables of its last
    /// completed statement, over the errors of the calls it made.
    pub fn fail(&mut self, error: VmError, line_info: Option<LineInfo>, subs: Vec<ErrorInfo>) -> (r: ErrorInfo)
        requires
            old(self).wf(),
        ensures
            final(self).wf(),
            r.kind == ErrorKind::Error(error),
            r.line_info == line_info,
            r.subs == subs,
            old(self).call_stack@.len() > 0 ==> r.variables == old(self).call_stack@.last().variables
                && final(self).call_stack@ == old(self).call_stack@.drop_last(),
            old(self).call_stack@.len() == 0 ==> r.variables@.len() == 0,
    {
        let variables = match self.leave() {
            Some(frame) => frame.variables,
            None => Vec::new(),
        };
        ErrorInfo { kind: ErrorKind::Error(error), line_info, subs, variables }
    }

    /// An instruction at `pc` executed: it took `args` words off the shadow stack and
    /// pushed `pushed`.
    pub fn executed(&mut self, pc: usize, args: usize, pushed: &Vec<U256>)
        ensures
            final(self).frame_info == FrameInfo::At(pc),
            final(self).stack@ == old(self).stack@.take(
                if old(self).stack@.len() >= args {
                    old(self).stack@.len() - args
                } else {
                    0
                },
            ) + pushed@,
            final(self).call_stack == old(self).call_stack,
            final(self).visited == old(self).visited,
            final(self).last == old(self).last,
    {
        self.frame_info = FrameInfo::At(pc);
        let keep = if self.stack.len() >= args {
            self.stack.len() - args
        } else {
            0
        };
        self.stack.truncate(keep);
        let ghost base = self.stack@;
        let mut i: usize = 0;
        while i < pushed.len()
            invariant
                i <= pushed@.len(),
                self.stack@ == base + pushed@.take(i as int),
                self.frame_info == FrameInfo::At(pc),
                self.call_stack == old(self).call_stack,
                self.visited == old(self).visited,
                self.last == old(self).last,
            decreases pushed@.len() - i,
        {
            self.stack.push(pushed[i]);
            i += 1;
            assert(self.stack@ =~= base + pushed@.take(i as int));
        }
        assert(pushed@.take(i as int) =~= pushed@);
    }

    /// Decode the instruction at `pc` of the current frame, whose code is `source` with the
    /// syntax tree in `registry`: follow the enclosing function, and when the statement
    /// changes, record the statement left behind and bind the value of its expression, or,
    /// after an expression statement, commit the values seen so far.
    pub fn decode_instruction(
        &mut self,
        registry: &Registry,
        source: &Source,
        pc: usize,
        memory: &Vec<u8>,
        force_replace: bool,
    ) -> (r: Result<(), DecodeError>)
        requires
            old(self).wf(),
            registry.wf(),
        ensures
            final(self).wf(),
            final(self).stack == old(self).stack,
            final(self).call_stack@.len() == old(self).call_stack@.len(),
            old(self).call_stack@.len() == 0 || mapping_spec(source, pc) is None ==> *final(self)
                == *old(self) && r is Ok,
            old(self).call_stack@.len() > 0 && mapping_spec(source, pc) is Some ==> {
                let current = mapping_spec(source, pc)->0;
                let f0 = old(self).call_stack@.last();
                let f1 = final(self).call_stack@.last();
                &&& final(self).call_stack@.drop_last() == old(self).call_stack@.drop_last()
                &&& follows_function(registry, current, old(self).last_function, f0.function, final(self).last_function, f1.function)
                &&& stepped(registry, current, force_replace || old(self).last != Some(current), old(self).last, old(self).visited@, f0, old(self).stack@, memory@, final(self).last, final(self).visited@, f1, r)
            },
    {
        let n = self.call_stack.len();
        if n == 0 {
            return Ok(());
        }
        let current = match mapping(Some(source), pc) {
            Some(m) => *m,
            None => {
                return Ok(());
            },
        };
        let replace = force_replace || match self.last {
            None => true,
            Some(last) => last != current,
        };
        let mut frame = self.call_stack.pop().unwrap();
        let ghost f0 = frame;
        proof {
            assert(bindings_unique(old(self).call_stack@[n - 1].seen_variables@));
        }
        match registry.find_function(&current) {
            Some(function) => {
                proof {
                    let i = choose|i: int|
                        0 <= i < registry.functions().len() && #[trigger] registry.functions()[i] == (
                            function.src,
                            function.name@,
                        ) && crate::ast::best_function(registry.functions(), current, i)
                            && crate::ast::ends_within(function.src, current);
                    crate::ast::lemma_enclosing(registry.functions(), current, i);
                }
                let changed = match self.last_function {
                    Some(src) => function.src != src,
                    None => true,
                };
                if changed {
                    self.last_function = Some(function.src);
                    frame.function = Some(function.duplicate());
                }
            },
            None => {},
        }
        let ghost mid = frame;
        let result = self.step(registry, current, replace, &mut frame, memory);
        self.call_stack.push(frame);
        assert(self.call_stack@.drop_last() =~= old(self).call_stack@.drop_last());
        assert forall|i: int| 0 <= i < self.call_stack@.len() implies bindings_unique(
            (#[trigger] self.call_stack@[i]).seen_variables@,
        ) by {
            if i < n - 1 {
                assert(self.call_stack@[i] == old(self).call_stack@[i]);
            }
        }
        result
    }

    fn step(&mut self, registry: &Registry, current: Mapping, replace: bool, frame: &mut CallFrame, memory: &Vec<u8>) -> (r: Result<(), DecodeError>)
        requires
            registry.wf(),
            bindings_unique(old(frame).seen_variables@),
        ensures
            bindings_unique(final(frame).seen_variables@),
            final(self).stack == old(self).stack,
            final(self).call_stack == old(self).call_stack,
            final(self).last_function == old(self).last_function,
            final(frame).function == old(frame).function,
            stepped(registry, current, replace, old(self).last, old(self).visited@, *old(frame), old(self).stack@, memory@, final(self).last, final(self).visited@, *final(frame), r),
    {
        if !replace {
            return Ok(());
        }
        let last = match self.last {
            Some(l) => l,
            None => {
                self.last = Some(current);
                return Ok(());
            },
        };
        self.last = Some(current);
        let from = match registry.find(&last) {
            Some(a) => a,
            None => {
                return Ok(());
            },
        };
        if registry.find(&current).is_none() {
            return Ok(());
        }
        self.visited.push(from.src);
        match from.node {
            Node::ExpressionStatement => {
                let mut seen: Vec<(Expr, Value)> = Vec::new();
                core::mem::swap(&mut seen, &mut frame.seen_variables);
                frame.variables = seen;
                Ok(())
            },
            _ => {
                let stack = copy_words(&self.stack);
                let mem = crate::ast::copy_bytes(memory, 0, memory.len());
                let data = crate::ast::copy_bytes(&frame.call_data, 0, frame.call_data.len());
                assert(memory@.subrange(0, memory@.len() as int) =~= memory@);
                assert(frame.call_data@.subrange(0, frame.call_data@.len() as int) =~= frame.call_data@);
                let mut ctx = Context::new(stack, mem, data);
                let ghost c = ctx;
                let r = register_expr(registry, from, &mut ctx, &mut frame.seen_variables);
                assert(registered(registry, from, c, ctx, old(frame).seen_variables@, frame.seen_variables@, r));
                r
            },
        }
    }
}

/// A copy of the words.
fn copy_words(v: &Vec<U256>) -> (r: Vec<U256>)
    ensures
        r@ == v@,
{
    let mut out: Vec<U256> = Vec::new();
    let mut i: usize = 0;
    while i < v.len()
        invariant
            i <= v@.len(),
            out@ == v@.take(i as int),
        decreases v@.len() - i,
    {
        out.push(v[i]);
        i += 1;
        assert(out@ =~= v@.take(i as int));
    }
    assert(v@.take(i as int) =~= v@);
    out
}

/// The frame's function follows the function that encloses `current`: where it differs from
/// the last one entered, it is entered.
pub open spec fn follows_function(
    registry: &Registry,
    current: Mapping,
    last0: Option<Src>,
    function0: Option<Function>,
    last1: Option<Src>,
    function1: Option<Function>,
) -> bool {
    match crate::ast::enclosing(registry.functions(), current) {
        Some((src, name)) => last1 == Some(src) && if last0 == Some(src) {
            function1 == function0
        } else {
            function1 matches Some(f) && f.src == src && f.name@ == name
        },
        None => last1 == last0 && function1 == function0,
    }
}

/// The two frames hold the same bindings.
pub open spec fn same_bindings(f0: CallFrame, f1: CallFrame) -> bool {
    f1.variables == f0.variables && f1.seen_variables == f0.seen_variables
}

/// One decode step from the statement `last0` to `current`, on the shadow stack `stack` and
/// memory `memory`: nothing happens unless `replace`; then `current` becomes the last
/// mapping, and when both statements are nodes of the tree, the one left behind is visited,
/// and either commits the values seen (an expression statement) or has its expression bound.
pub open spec fn stepped(
    registry: &Registry,
    current: Mapping,
    replace: bool,
    last0: Option<Mapping>,
    visited0: Seq<Src>,
    f0: CallFrame,
    stack: Seq<U256>,
    memory: Seq<u8>,
    last1: Option<Mapping>,
    visited1: Seq<Src>,
    f1: CallFrame,
    r: Result<(), DecodeError>,
) -> bool {
    let nodes = crate::ast::nodes(registry.root());
    &&& f1.call_data == f0.call_data
    &&& if !replace {
        last1 == last0 && visited1 == visited0 && same_bindings(f0, f1) && r is Ok
    } else {
        &&& last1 == Some(current)
        &&& match last0 {
            None => visited1 == visited0 && same_bindings(f0, f1) && r is Ok,
            Some(l) => match (
                crate::ast::first_with_span(nodes, l.start, l.length),
                crate::ast::first_with_span(nodes, current.start, current.length),
            ) {
                (Some(from), Some(_)) => {
                    &&& visited1 == visited0.push(from.src)
                    &&& if from.node is ExpressionStatement {
                        f1.variables == f0.seen_variables && f1.seen_variables@.len() == 0 && r is Ok
                    } else {
                        &&& f1.variables == f0.variables
                        &&& exists|c: Context, c2: Context|
                            c.stack@ == stack && c.memory@ == memory && c.call_data@ == f0.call_data@
                                && #[trigger] registered(registry, &from, c, c2, f0.seen_variables@, f1.seen_variables@, r)
                    }
                },
                _ => visited1 == visited0 && same_bindings(f0, f1) && r is Ok,
            },
        }
    }
}

} // verus!
