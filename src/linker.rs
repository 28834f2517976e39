use crate::hex::{
    all_hex, byte_of, chars_of, hex_bytes, hex_digit, is_hex, is_swarm, swarm_bytes,
    swarm_digits, swarm_prefix, swarm_suffix, HexDecode,
};
use std::collections::HashMap;
use vstd::prelude::*;

verus! {

/// A 20-byte account address.
#[derive(Debug, Clone, Copy, PartialEq, Eq, Hash)]
pub struct Address {
    pub bytes: [u8; 20],
}

/// Relies on `FromIterator<char>` for `String`: the characters are kept in order.
#[verifier::external_body]
pub(crate) fn string_from_chars(v: &[char]) -> (r: String)
    ensures
        r@ == v@,
{
    v.iter().collect()
}

/// Why bytecode could not be decoded or linked.
#[derive(Debug, PartialEq, Eq)]
pub enum LinkerError {
    /// A character that is no hexadecimal digit, in the section numbered `pos`.
    HexError { pos: usize },
    /// A push in the section numbered `pos` runs past the end of the code.
    TruncatedPush { pos: usize },
    /// A placeholder names an item that no registered object has.
    LinkerItemError { item: String },
    /// A placeholder gives only a path, and no registered object has it.
    LinkerPathError { path: String },
    /// A source map could not be parsed.
    SourceMapDecodeError,
}

/// What a `LinkerError` says, as plain values.
pub enum Fault {
    Hex(nat),
    Truncated(nat),
    Item(Seq<char>),
    Path(Seq<char>),
    SourceMap,
}

impl LinkerError {
    pub open spec fn fault(&self) -> Fault {
        match self {
            LinkerError::HexError { pos } => Fault::Hex(*pos as nat),
            LinkerError::TruncatedPush { pos } => Fault::Truncated(*pos as nat),
            LinkerError::LinkerItemError { item } => Fault::Item(item@),
            LinkerError::LinkerPathError { path } => Fault::Path(path@),
            LinkerError::SourceMapDecodeError => Fault::SourceMap,
        }
    }
}

/// Number of payload bytes that follow an opcode: 1 to 32 for the pushes, else 0.
pub open spec fn push_size(op: u8) -> nat {
    if 0x60 <= op && op <= 0x7f {
        (op - 0x5f) as nat
    } else {
        0
    }
}

/// The opcodes that the virtual machine defines.
pub open spec fn is_known_opcode(op: u8) -> bool {
    ||| op <= 0x0b
    ||| 0x10 <= op && op <= 0x1d
    ||| op == 0x20
    ||| 0x30 <= op && op <= 0x45
    ||| 0x50 <= op && op <= 0x5b
    ||| 0x60 <= op && op <= 0xa4
    ||| 0xf0 <= op && op <= 0xf5
    ||| op == 0xfa
    ||| op == 0xfd
    ||| op == 0xff
}

/// Nothing is left to decode: no text, or one lone digit.
pub open spec fn at_end(rest: Seq<char>) -> bool {
    rest.len() == 0 || (rest.len() == 1 && is_hex(rest[0]))
}

/// The text opens with a complete opcode.
pub open spec fn head_hex(rest: Seq<char>) -> bool {
    rest.len() >= 2 && is_hex(rest[0]) && is_hex(rest[1])
}

pub open spec fn head_op(rest: Seq<char>) -> u8 {
    byte_of(rest[0], rest[1])
}

/// Characters taken by the section that opens `rest`: the opcode and its payload.
pub open spec fn section_len(rest: Seq<char>) -> nat {
    2 + 2 * push_size(head_op(rest))
}

pub open spec fn payload(rest: Seq<char>) -> Seq<char> {
    rest.subrange(2, section_len(rest) as int)
}

/// A link placeholder: a 20-byte push whose text opens with two underscores.
pub open spec fn is_placeholder(p: Seq<char>) -> bool {
    p.len() == 40 && p[0] == '_' && p[1] == '_'
}

/// Drop the underscores at the start.
pub open spec fn trim_start(s: Seq<char>) -> Seq<char>
    decreases s.len(),
{
    if s.len() > 0 && s[0] == '_' {
        trim_start(s.skip(1))
    } else {
        s
    }
}

/// Drop the underscores at the end.
pub open spec fn trim_end(s: Seq<char>) -> Seq<char>
    decreases s.len(),
{
    if s.len() > 0 && s.last() == '_' {
        trim_end(s.drop_last())
    } else {
        s
    }
}

/// Index of the first `:` in `s`, if any.
pub open spec fn first_colon(s: Seq<char>) -> Option<nat>
    decreases s.len(),
{
    if s.len() == 0 {
        None
    } else if s[0] == ':' {
        Some(0)
    } else {
        match first_colon(s.skip(1)) {
            Some(i) => Some(i + 1),
            None => None,
        }
    }
}

/// The path and, if the placeholder holds one, the item that a placeholder names.
pub open spec fn placeholder_parts(p: Seq<char>) -> (Seq<char>, Option<Seq<char>>) {
    let t = trim_end(trim_start(p));
    match first_colon(t) {
        None => (t, None),
        Some(sep) => if sep + 1 == t.len() {
            (t.take(sep as int), None)
        } else {
            (t.take(sep as int), Some(t.skip((sep + 1) as int)))
        },
    }
}

/// A registration: path, item and address of a deployed object.
pub type Registration = (Seq<char>, Seq<char>, Seq<u8>);

/// The address of the latest registration of `item`.
pub open spec fn lookup_item(regs: Seq<Registration>, item: Seq<char>) -> Option<Seq<u8>>
    decreases regs.len(),
{
    if regs.len() == 0 {
        None
    } else if regs.last().1 == item {
        Some(regs.last().2)
    } else {
        lookup_item(regs.drop_last(), item)
    }
}

/// The address of the latest registration whose path opens with `path`.
pub open spec fn lookup_path(regs: Seq<Registration>, path: Seq<char>) -> Option<Seq<u8>>
    decreases regs.len(),
{
    if regs.len() == 0 {
        None
    } else if path.len() <= regs.last().0.len() && regs.last().0.take(path.len() as int) == path {
        Some(regs.last().2)
    } else {
        lookup_path(regs.drop_last(), path)
    }
}

/// The address that a placeholder resolves to.
pub open spec fn resolve(regs: Seq<Registration>, p: Seq<char>) -> Result<Seq<u8>, Fault> {
    match placeholder_parts(p) {
        (_, Some(item)) => match lookup_item(regs, item) {
            Some(a) => Ok(a),
            None => Err(Fault::Item(item)),
        },
        (path, None) => match lookup_path(regs, path) {
            Some(a) => Ok(a),
            None => Err(Fault::Path(path)),
        },
    }
}

/// Linking of `rest`, where `pos` sections came before and produced `acc`.
pub open spec fn link_from(regs: Seq<Registration>, rest: Seq<char>, pos: nat, acc: Seq<u8>) -> Result<
    Seq<u8>,
    Fault,
>
    decreases rest.len(),
{
    if is_swarm(rest) {
        if all_hex(swarm_digits(rest)) {
            Ok(acc + swarm_bytes(rest))
        } else {
            Err(Fault::Hex(pos))
        }
    } else if at_end(rest) {
        Ok(acc)
    } else if !head_hex(rest) {
        Err(Fault::Hex(pos + 1))
    } else if push_size(head_op(rest)) == 0 {
        link_from(regs, rest.skip(2), pos + 1, acc.push(head_op(rest)))
    } else if rest.len() < section_len(rest) {
        Err(Fault::Truncated(pos + 1))
    } else if is_placeholder(payload(rest)) {
        match resolve(regs, payload(rest)) {
            Ok(a) => link_from(
                regs,
                rest.skip(section_len(rest) as int),
                pos + 1,
                acc.push(head_op(rest)) + a,
            ),
            Err(e) => Err(e),
        }
    } else if !all_hex(payload(rest)) {
        Err(Fault::Hex(pos + 1))
    } else {
        link_from(
            regs,
            rest.skip(section_len(rest) as int),
            pos + 1,
            acc.push(head_op(rest)) + hex_bytes(payload(rest)),
        )
    }
}

/// The bytes that `code` links to, or why it does not link.
pub open spec fn link_spec(regs: Seq<Registration>, code: Seq<char>) -> Result<Seq<u8>, Fault> {
    link_from(regs, code, 0, Seq::empty())
}

/// Instruction offsets of `rest`, where the code before it took `n` bytes in `off`
/// instructions, and produced the table `acc`.
pub open spec fn offsets_from(rest: Seq<char>, pos: nat, n: nat, off: nat, acc: Map<usize, usize>) -> Result<
    Map<usize, usize>,
    Fault,
>
    decreases rest.len(),
{
    if is_swarm(rest) {
        if all_hex(swarm_digits(rest)) {
            Ok(acc)
        } else {
            Err(Fault::Hex(pos))
        }
    } else if at_end(rest) {
        Ok(acc)
    } else if !head_hex(rest) {
        Err(Fault::Hex(pos + 1))
    } else if push_size(head_op(rest)) == 0 {
        offsets_from(rest.skip(2), pos + 1, n + 1, off + 1, acc.insert((n + 1) as usize, (off + 1) as usize))
    } else if rest.len() < section_len(rest) {
        Err(Fault::Truncated(pos + 1))
    } else if is_placeholder(payload(rest)) {
        offsets_from(
            rest.skip(section_len(rest) as int),
            pos + 1,
            n + 21,
            off + 1,
            acc.insert((n + 21) as usize, (off + 1) as usize),
        )
    } else if !all_hex(payload(rest)) {
        Err(Fault::Hex(pos + 1))
    } else {
        let k = 1 + push_size(head_op(rest));
        offsets_from(
            rest.skip(section_len(rest) as int),
            pos + 1,
            n + k,
            off + 1,
            acc.insert((n + k) as usize, (off + 1) as usize),
        )
    }
}

/// The table from byte position to instruction index of `code`.
pub open spec fn offsets_spec(code: Seq<char>) -> Result<Map<usize, usize>, Fault> {
    offsets_from(code, 0, 0, 0, Map::empty().insert(0usize, 0usize))
}

/// The payload of a push.
#[derive(Debug)]
pub enum Push {
    Bytes(Vec<u8>),
    Unlinked(Vec<char>),
}

/// One decoded section of bytecode.
#[derive(Debug)]
pub enum Section {
    /// An opcode that the virtual machine does not define.
    BadInstruction(u8),
    /// An opcode without payload.
    Instruction(u8),
    /// A push opcode and its payload.
    Push(u8, Push),
    /// The swarm hash trailer, and the bytes of its hash.
    SwarmHash(Vec<u8>, Vec<u8>),
}

/// Decodes bytecode text into sections.
#[derive(Debug)]
pub struct Decoder {
    pos: usize,
    input: HexDecode,
}

impl Decoder {
    pub closed spec fn wf(&self) -> bool {
        self.input.wf() && self.pos <= self.input.consumed()
    }

    /// The text that is not decoded yet.
    pub closed spec fn rest(&self) -> Seq<char> {
        self.input.rest()
    }

    /// Number of sections decoded so far.
    pub closed spec fn pos(&self) -> nat {
        self.pos as nat
    }

    pub closed spec fn consumed(&self) -> nat {
        self.input.consumed()
    }

    pub closed spec fn total(&self) -> nat {
        self.input.total()
    }

    pub proof fn lemma_size(&self)
        requires
            self.wf(),
        ensures
            self.consumed() + self.rest().len() == self.total(),
            self.total() <= usize::MAX,
    {
        self.input.lemma_size();
    }

    pub fn new(input: &str) -> (r: Decoder)
        ensures
            r.wf(),
            r.rest() == input@,
            r.pos() == 0,
            r.consumed() == 0,
    {
        Decoder { pos: 0, input: HexDecode::new(input) }
    }

    /// Decode the next section; `None` once the text is used up.
    pub fn next(&mut self) -> (r: Option<Result<Section, LinkerError>>)
        requires
            old(self).wf(),
        ensures
            final(self).wf(),
            final(self).total() == old(self).total(),
            final(self).consumed() >= old(self).consumed(),
            ({
                let rest = old(self).rest();
                let pos = old(self).pos();
                if is_swarm(rest) {
                    if all_hex(swarm_digits(rest)) {
                        &&& (r matches Some(Ok(Section::SwarmHash(b, h))) && b@ == swarm_bytes(rest)
                            && h@ == hex_bytes(swarm_digits(rest)))
                        &&& final(self).rest().len() == 0
                        &&& final(self).pos() == pos
                    } else {
                        r matches Some(Err(e)) && e.fault() == Fault::Hex(pos)
                    }
                } else if at_end(rest) {
                    r is None
                } else if !head_hex(rest) {
                    r matches Some(Err(e)) && e.fault() == Fault::Hex(pos + 1)
                } else if push_size(head_op(rest)) == 0 {
                    &&& (if is_known_opcode(head_op(rest)) {
                        r matches Some(Ok(Section::Instruction(o))) && o == head_op(rest)
                    } else {
                        r matches Some(Ok(Section::BadInstruction(o))) && o == head_op(rest)
                    })
                    &&& final(self).rest() == rest.skip(2)
                    &&& final(self).pos() == pos + 1
                } else if rest.len() < section_len(rest) {
                    r matches Some(Err(e)) && e.fault() == Fault::Truncated(pos + 1)
                } else if is_placeholder(payload(rest)) {
                    &&& (r matches Some(Ok(Section::Push(o, Push::Unlinked(c)))) && o == head_op(
                        rest,
                    ) && c@ == payload(rest))
                    &&& final(self).rest() == rest.skip(section_len(rest) as int)
                    &&& final(self).pos() == pos + 1
                } else if !all_hex(payload(rest)) {
                    r matches Some(Err(e)) && e.fault() == Fault::Hex(pos + 1)
                } else {
                    &&& (r matches Some(Ok(Section::Push(o, Push::Bytes(b)))) && o == head_op(rest)
                        && b@ == hex_bytes(payload(rest)))
                    &&& final(self).rest() == rest.skip(section_len(rest) as int)
                    &&& final(self).pos() == pos + 1
                }
            }),
    {
        let ghost rest = self.rest();
        match self.input.take_swarm_hash() {
            Ok(Some((bytes, hash))) => {
                return Some(Ok(Section::SwarmHash(bytes, hash)));
            },
            Ok(None) => {},
            Err(_) => {
                return Some(Err(LinkerError::HexError { pos: self.pos }));
            },
        }
        let c = match self.input.next() {
            Some(c) => c,
            None => {
                return None;
            },
        };
        self.pos = self.pos + 1;
        let c = match c {
            Ok(c) => c,
            Err(_) => {
                return Some(Err(LinkerError::HexError { pos: self.pos }));
            },
        };
        assert(c == head_op(rest));
        if c < 0x60 || c > 0x7f {
            if is_known_opcode_exec(c) {
                return Some(Ok(Section::Instruction(c)));
            } else {
                return Some(Ok(Section::BadInstruction(c)));
            }
        }
        let size: usize = (c - 0x5f) as usize;
        let ghost after_op = self.rest();
        assert(after_op == rest.skip(2));
        let raw = match self.input.take_raw(size) {
            Some(raw) => raw,
            None => {
                return Some(Err(LinkerError::TruncatedPush { pos: self.pos }));
            },
        };
        assert(raw@ =~= payload(rest));
        assert(self.rest() =~= rest.skip(section_len(rest) as int));
        if raw.len() == 40 && raw[0] == '_' && raw[1] == '_' {
            return Some(Ok(Section::Push(c, Push::Unlinked(raw))));
        }
        let n = raw.len();
        assert(raw@.subrange(0, n as int) =~= raw@);
        match crate::hex::decode_pairs(&raw, 0, n) {
            Some(out) => Some(Ok(Section::Push(c, Push::Bytes(out)))),
            None => Some(Err(LinkerError::HexError { pos: self.pos })),
        }
    }
}

fn is_known_opcode_exec(op: u8) -> (r: bool)
    ensures
        r == is_known_opcode(op),
{
    op <= 0x0b || (0x10 <= op && op <= 0x1d) || op == 0x20 || (0x30 <= op && op <= 0x45) || (0x50
        <= op && op <= 0x5b) || (0x60 <= op && op <= 0xa4) || (0xf0 <= op && op <= 0xf5) || op
        == 0xfa || op == 0xfd || op == 0xff
}

/// Copy `v[from..to]`.
pub fn copy_range(v: &Vec<char>, from: usize, to: usize) -> (r: Vec<char>)
    requires
        from <= to <= v@.len(),
    ensures
        r@ == v@.subrange(from as int, to as int),
{
    let mut out: Vec<char> = Vec::new();
    let mut i: usize = from;
    while i < to
        invariant
            from <= i <= to <= v@.len(),
            out@ == v@.subrange(from as int, i as int),
        decreases to - i,
    {
        out.push(v[i]);
        i += 1;
        assert(out@ =~= v@.subrange(from as int, i as int));
    }
    out
}

/// Do `a` and `b` hold the same characters?
pub fn chars_eq(a: &Vec<char>, b: &Vec<char>) -> (r: bool)
    ensures
        r == (a@ == b@),
{
    if a.len() != b.len() {
        return false;
    }
    let mut i: usize = 0;
    while i < a.len()
        invariant
            a@.len() == b@.len(),
            i <= a@.len(),
            forall|j: int| 0 <= j < i ==> a@[j] == b@[j],
        decreases a@.len() - i,
    {
        if a[i] != b[i] {
            return false;
        }
        i += 1;
    }
    assert(a@ =~= b@);
    true
}

/// Does `whole` open with `prefix`?
pub fn has_prefix(whole: &Vec<char>, prefix: &Vec<char>) -> (r: bool)
    ensures
        r == (prefix@.len() <= whole@.len() && whole@.take(prefix@.len() as int) == prefix@),
{
    if prefix.len() > whole.len() {
        return false;
    }
    let mut i: usize = 0;
    while i < prefix.len()
        invariant
            prefix@.len() <= whole@.len(),
            i <= prefix@.len(),
            forall|j: int| 0 <= j < i ==> whole@[j] == prefix@[j],
        decreases prefix@.len() - i,
    {
        if whole[i] != prefix[i] {
            assert(whole@.take(prefix@.len() as int)[i as int] != prefix@[i as int]);
            return false;
        }
        i += 1;
    }
    assert(whole@.take(prefix@.len() as int) =~= prefix@);
    true
}

/// Append `b` to `out`.
pub fn append_bytes(out: &mut Vec<u8>, b: &[u8])
    ensures
        final(out)@ == old(out)@ + b@,
{
    let ghost start = out@;
    let mut i: usize = 0;
    while i < b.len()
        invariant
            i <= b@.len(),
            out@ == start + b@.take(i as int),
        decreases b@.len() - i,
    {
        out.push(b[i]);
        i += 1;
        assert(out@ =~= start + b@.take(i as int));
    }
    assert(b@.take(b@.len() as int) =~= b@);
}

/// Index of the first underscore-free character of `v`, or its length.
fn trim_start_index(v: &Vec<char>) -> (r: usize)
    ensures
        r <= v@.len(),
        trim_start(v@) == v@.skip(r as int),
{
    let mut i: usize = 0;
    assert(v@.skip(0) =~= v@);
    while i < v.len() && v[i] == '_'
        invariant
            i <= v@.len(),
            trim_start(v@) == trim_start(v@.skip(i as int)),
        decreases v@.len() - i,
    {
        assert(v@.skip(i as int).skip(1) =~= v@.skip(i + 1));
        i += 1;
    }
    i
}

/// Length of `v[..to]` once its trailing underscores are dropped.
fn trim_end_index(v: &Vec<char>, to: usize) -> (r: usize)
    requires
        to <= v@.len(),
    ensures
        r <= to,
        trim_end(v@.take(to as int)) == v@.take(r as int),
{
    let mut j: usize = to;
    while j > 0 && v[j - 1] == '_'
        invariant
            j <= to <= v@.len(),
            trim_end(v@.take(to as int)) == trim_end(v@.take(j as int)),
        decreases j,
    {
        assert(v@.take(j as int).drop_last() =~= v@.take(j - 1));
        j -= 1;
    }
    j
}

pub open spec fn shift(o: Option<nat>, k: nat) -> Option<nat> {
    match o {
        Some(i) => Some(i + k),
        None => None,
    }
}

/// Index of the first `:` in `v`.
fn find_colon(v: &Vec<char>) -> (r: Option<usize>)
    ensures
        match r {
            Some(i) => first_colon(v@) == Some(i as nat) && i < v@.len(),
            None => first_colon(v@) is None,
        },
{
    let mut k: usize = 0;
    assert(v@.skip(0) =~= v@);
    while k < v.len()
        invariant
            k <= v@.len(),
            first_colon(v@) == shift(first_colon(v@.skip(k as int)), k as nat),
        decreases v@.len() - k,
    {
        if v[k] == ':' {
            return Some(k);
        }
        assert(v@.skip(k as int).skip(1) =~= v@.skip(k + 1));
        k += 1;
    }
    None
}

/// The part of a placeholder that names a path, and the item if there is one.
pub fn decode_linked(chunk: &Vec<char>) -> (r: (Vec<char>, Option<Vec<char>>))
    ensures
        r.0@ == placeholder_parts(chunk@).0,
        match (r.1, placeholder_parts(chunk@).1) {
            (Some(i), Some(j)) => i@ == j,
            (None, None) => true,
            _ => false,
        },
{
    let s = trim_start_index(chunk);
    let rest = copy_range(chunk, s, chunk.len());
    assert(rest@ =~= chunk@.skip(s as int));
    let e = trim_end_index(&rest, rest.len());
    assert(rest@.take(rest@.len() as int) =~= rest@);
    let t = copy_range(&rest, 0, e);
    assert(t@ =~= rest@.take(e as int));
    match find_colon(&t) {
        None => (t, None),
        Some(sep) => {
            let path = copy_range(&t, 0, sep);
            assert(path@ =~= t@.take(sep as int));
            if sep + 1 == t.len() {
                (path, None)
            } else {
                let item = copy_range(&t, sep + 1, t.len());
                assert(item@ =~= t@.skip(sep + 1));
                (path, Some(item))
            }
        },
    }
}

/// The path and item of a contract compilation unit.
#[derive(Debug, Clone, PartialEq, Eq, Hash)]
pub struct Object {
    /// The path that the object belongs to.
    pub path: String,
    /// The item (library or contract) the object belongs to.
    pub item: String,
}

/// All necessary source information to perform tracing.
#[derive(Debug)]
pub struct Source {
    pub object: Object,
    /// The source map for the given source.
    pub source_map: crate::source_map::SourceMap,
    /// The decoded offsets for the given source, from program counter to instruction offset.
    pub offsets: HashMap<usize, usize>,
}

/// Information about an address: its source and its syntax tree, where known.
#[derive(Debug)]
pub struct AddressInfo {
    pub source: Option<Source>,
    pub ast: Option<crate::ast::Registry>,
}

impl Object {
    /// A copy of the object.
    pub fn duplicate(&self) -> (r: Object)
        ensures
            r.path@ == self.path@,
            r.item@ == self.item@,
    {
        Object { path: self.path.clone(), item: self.item.clone() }
    }
}

/// One registered object, with the characters of its path and item.
#[derive(Debug)]
struct Entry {
    object: Object,
    address: Address,
    path: Vec<char>,
    item: Vec<char>,
}

/// A bytecode linker: the registry of deployed objects and of the known source files.
#[derive(Debug)]
pub struct Linker {
    entries: Vec<Entry>,
    source_list: Option<Vec<String>>,
    /// Sources of deployed code, by object.
    runtime_sources: Vec<Source>,
    /// Syntax trees, by file path.
    asts: Vec<(String, crate::ast::Registry)>,
}

impl Linker {
    pub closed spec fn wf(&self) -> bool {
        forall|i: int|
            0 <= i < self.entries@.len() ==> {
                &&& (#[trigger] self.entries@[i]).path@ == self.entries@[i].object.path@
                &&& self.entries@[i].item@ == self.entries@[i].object.item@
            }
    }

    /// The registrations, oldest first.
    pub closed spec fn regs(&self) -> Seq<Registration> {
        self.entries@.map_values(|e: Entry| (e.path@, e.item@, e.address.bytes@))
    }

    /// The known source files, by file index.
    pub closed spec fn files(&self) -> Option<Seq<Seq<char>>> {
        match self.source_list {
            Some(l) => Some(l@.map_values(|p: String| p@)),
            None => None,
        }
    }

    /// Construct a new linker.
    pub fn new() -> (r: Linker)
        ensures
            r.wf(),
            r.regs() == Seq::<Registration>::empty(),
            r.files() is None,
    {
        let r = Linker { entries: Vec::new(), source_list: None, runtime_sources: Vec::new(), asts: Vec::new() };
        assert(r.regs() =~= Seq::<Registration>::empty());
        r
    }

    /// Register the address for an object.
    pub fn register_object(&mut self, object: Object, address: Address)
        requires
            old(self).wf(),
        ensures
            final(self).wf(),
            final(self).regs() == old(self).regs().push((object.path@, object.item@, address.bytes@)),
            final(self).files() == old(self).files(),
    {
        let path = chars_of(object.path.as_str());
        let item = chars_of(object.item.as_str());
        let ghost before = self.regs();
        self.entries.push(Entry { object, address, path, item });
        assert(self.regs() =~= before.push((path@, item@, address.bytes@)));
    }

    /// Register the source files, by file index.
    pub fn register_source_list(&mut self, source_list: Vec<String>)
        ensures
            final(self).regs() == old(self).regs(),
            final(self).files() == Some(source_list@.map_values(|p: String| p@)),
            old(self).wf() ==> final(self).wf(),
    {
        self.source_list = Some(source_list);
    }

    /// The registered runtime sources, oldest first.
    pub closed spec fn runtime_sources(&self) -> Seq<Source> {
        self.runtime_sources@
    }

    /// The registered syntax trees with their paths, oldest first.
    pub closed spec fn asts(&self) -> Seq<(Seq<char>, crate::ast::Registry)> {
        self.asts@.map_values(|p: (String, crate::ast::Registry)| (p.0@, p.1))
    }

    /// Register the source of deployed code.
    pub fn register_runtime_source(&mut self, source: Source)
        ensures
            final(self).runtime_sources() == old(self).runtime_sources().push(source),
            final(self).regs() == old(self).regs(),
            final(self).asts() == old(self).asts(),
            old(self).wf() ==> final(self).wf(),
    {
        self.runtime_sources.push(source);
    }

    /// Register the syntax tree of a source file.
    pub fn register_ast(&mut self, path: &str, registry: crate::ast::Registry)
        ensures
            final(self).asts() == old(self).asts().push((path@, registry)),
            final(self).regs() == old(self).regs(),
            final(self).runtime_sources() == old(self).runtime_sources(),
            old(self).wf() ==> final(self).wf(),
    {
        let ghost before = self.asts();
        self.asts.push((path.to_string(), registry));
        assert(self.asts() =~= before.push((path@, registry)));
    }

    /// The object registered last at `address`.
    fn object_at(&self, address: &Address) -> (r: Option<usize>)
        ensures
            match r {
                Some(i) => i < self.entries@.len() && self.entries@[i as int].address.bytes@ == address.bytes@
                    && forall|j: int| i < j < self.entries@.len() ==> self.entries@[j].address.bytes@ != address.bytes@,
                None => forall|j: int| 0 <= j < self.entries@.len() ==> self.entries@[j].address.bytes@ != address.bytes@,
            },
    {
        let mut j: usize = self.entries.len();
        while j > 0
            invariant
                j <= self.entries@.len(),
                forall|k: int| j <= k < self.entries@.len() ==> self.entries@[k].address.bytes@ != address.bytes@,
            decreases j,
        {
            if crate::ledger::address_eq(&self.entries[j - 1].address, address) {
                return Some(j - 1);
            }
            j -= 1;
        }
        None
    }

    /// The runtime source of the object deployed last at `address`: the latest one
    /// registered for that object's path and item.
    pub fn find_runtime_source(&self, address: &Address) -> (r: Option<&Source>)
        requires
            self.wf(),
        ensures
            r matches Some(s) ==> exists|i: int|
                0 <= i < self.regs().len() && self.regs()[i].2 == address.bytes@ && s.object.path@
                    == self.regs()[i].0 && s.object.item@ == self.regs()[i].1,
    {
        let i = match self.object_at(address) {
            Some(i) => i,
            None => {
                return None;
            },
        };
        let path = &self.entries[i].path;
        let item = &self.entries[i].item;
        let mut j: usize = self.runtime_sources.len();
        while j > 0
            invariant
                j <= self.runtime_sources@.len(),
                i < self.entries@.len(),
                self.entries@[i as int].address.bytes@ == address.bytes@,
                *path == self.entries@[i as int].path,
                *item == self.entries@[i as int].item,
            decreases j,
        {
            let s = &self.runtime_sources[j - 1];
            let p = chars_of(s.object.path.as_str());
            let t = chars_of(s.object.item.as_str());
            if chars_eq(&p, path) && chars_eq(&t, item) {
                assert(self.regs()[i as int] == (self.entries@[i as int].path@, self.entries@[i as int].item@, self.entries@[i as int].address.bytes@));
                return Some(s);
            }
            j -= 1;
        }
        None
    }

    /// The syntax tree of the file of the object deployed last at `address`.
    pub fn find_ast(&self, address: &Address) -> (r: Option<&crate::ast::Registry>)
        requires
            self.wf(),
        ensures
            r matches Some(g) ==> exists|i: int, k: int|
                0 <= i < self.regs().len() && 0 <= k < self.asts().len() && self.regs()[i].2
                    == address.bytes@ && self.asts()[k] == (self.regs()[i].0, *g),
    {
        let i = match self.object_at(address) {
            Some(i) => i,
            None => {
                return None;
            },
        };
        let path = &self.entries[i].path;
        let mut j: usize = self.asts.len();
        while j > 0
            invariant
                j <= self.asts@.len(),
                i < self.entries@.len(),
                self.entries@[i as int].address.bytes@ == address.bytes@,
                *path == self.entries@[i as int].path,
            decreases j,
        {
            let p = chars_of(self.asts[j - 1].0.as_str());
            if chars_eq(&p, path) {
                assert(self.regs()[i as int] == (self.entries@[i as int].path@, self.entries@[i as int].item@, self.entries@[i as int].address.bytes@));
                assert(self.asts()[j - 1] == (self.asts@[j - 1].0@, self.asts@[j - 1].1));
                return Some(&self.asts[j - 1].1);
            }
            j -= 1;
        }
        None
    }

    /// The source file with the given index.
    pub fn find_file(&self, index: u32) -> (r: Option<&String>)
        ensures
            match self.files() {
                Some(l) => if (index as int) < l.len() {
                    r matches Some(p) && p@ == l[index as int]
                } else {
                    r is None
                },
                None => r is None,
            },
    {
        match &self.source_list {
            Some(l) => if (index as usize) < l.len() {
                Some(&l[index as usize])
            } else {
                None
            },
            None => None,
        }
    }

    /// The address of the latest object registered under `item`.
    fn find_item(&self, item: &Vec<char>) -> (r: Option<Address>)
        requires
            self.wf(),
        ensures
            match lookup_item(self.regs(), item@) {
                Some(a) => r matches Some(x) && x.bytes@ == a,
                None => r is None,
            },
    {
        let mut j: usize = self.entries.len();
        assert(self.regs().take(j as int) =~= self.regs());
        while j > 0
            invariant
                j <= self.entries@.len(),
                lookup_item(self.regs(), item@) == lookup_item(self.regs().take(j as int), item@),
            decreases j,
        {
            let e = &self.entries[j - 1];
            assert(self.regs().take(j as int).last() == self.regs()[j - 1]);
            assert(self.regs().take(j as int).drop_last() =~= self.regs().take(j - 1));
            if chars_eq(&e.item, item) {
                return Some(e.address);
            }
            j -= 1;
        }
        None
    }

    /// The address of the latest object registered with a path that opens with `path`.
    fn find_path(&self, path: &Vec<char>) -> (r: Option<Address>)
        requires
            self.wf(),
        ensures
            match lookup_path(self.regs(), path@) {
                Some(a) => r matches Some(x) && x.bytes@ == a,
                None => r is None,
            },
    {
        let mut j: usize = self.entries.len();
        assert(self.regs().take(j as int) =~= self.regs());
        while j > 0
            invariant
                j <= self.entries@.len(),
                lookup_path(self.regs(), path@) == lookup_path(self.regs().take(j as int), path@),
            decreases j,
        {
            let e = &self.entries[j - 1];
            assert(self.regs().take(j as int).last() == self.regs()[j - 1]);
            assert(self.regs().take(j as int).drop_last() =~= self.regs().take(j - 1));
            if has_prefix(&e.path, path) {
                return Some(e.address);
            }
            j -= 1;
        }
        None
    }

    /// The address that a placeholder resolves to.
    fn resolve(&self, chunk: &Vec<char>) -> (r: Result<Address, LinkerError>)
        requires
            self.wf(),
        ensures
            match r {
                Ok(a) => resolve(self.regs(), chunk@) == Ok::<Seq<u8>, Fault>(a.bytes@),
                Err(e) => resolve(self.regs(), chunk@) == Err::<Seq<u8>, Fault>(e.fault()),
            },
    {
        let (path, item) = decode_linked(chunk);
        match item {
            Some(item) => match self.find_item(&item) {
                Some(a) => Ok(a),
                None => Err(LinkerError::LinkerItemError { item: string_from_chars(item.as_slice()) }),
            },
            None => match self.find_path(&path) {
                Some(a) => Ok(a),
                None => Err(LinkerError::LinkerPathError { path: string_from_chars(path.as_slice()) }),
            },
        }
    }

    /// Decode and link the given bytecode: each placeholder is replaced by the address of
    /// the object that it names, everything else is kept as it is.
    pub fn link(&self, code: &str) -> (r: Result<Vec<u8>, LinkerError>)
        requires
            self.wf(),
        ensures
            match r {
                Ok(v) => link_spec(self.regs(), code@) == Ok::<Seq<u8>, Fault>(v@),
                Err(e) => link_spec(self.regs(), code@) == Err::<Seq<u8>, Fault>(e.fault()),
            },
    {
        let ghost regs = self.regs();
        let mut it = Decoder::new(code);
        let mut output: Vec<u8> = Vec::new();
        loop
            invariant
                it.wf(),
                self.wf(),
                regs == self.regs(),
                link_spec(regs, code@) == link_from(regs, it.rest(), it.pos(), output@),
            decreases it.rest().len(),
        {
            let ghost rest = it.rest();
            let ghost pos = it.pos();
            let ghost acc = output@;
            let section = match it.next() {
                None => {
                    return Ok(output);
                },
                Some(Err(e)) => {
                    return Err(e);
                },
                Some(Ok(section)) => section,
            };
            match section {
                Section::Instruction(b) => {
                    output.push(b);
                },
                Section::BadInstruction(b) => {
                    output.push(b);
                },
                Section::SwarmHash(bytes, _) => {
                    append_bytes(&mut output, bytes.as_slice());
                    assert(link_from(regs, it.rest(), it.pos(), output@) == Ok::<Seq<u8>, Fault>(output@));
                },
                Section::Push(b, Push::Bytes(bytes)) => {
                    output.push(b);
                    append_bytes(&mut output, bytes.as_slice());
                    assert(output@ =~= acc.push(head_op(rest)) + hex_bytes(payload(rest)));
                },
                Section::Push(b, Push::Unlinked(chunk)) => {
                    output.push(b);
                    let address = match self.resolve(&chunk) {
                        Ok(a) => a,
                        Err(e) => {
                            return Err(e);
                        },
                    };
                    append_bytes(&mut output, address.bytes.as_slice());
                },
            }
        }
    }

    /// Construct source information for the given code and source map.
    pub fn source(&self, path: &str, item: &str, bin: &str, source_map: &str) -> (r: Result<
        Source,
        LinkerError,
    >)
        ensures
            crate::source_map::parse_spec(source_map@) is Err ==> r == Err::<Source, LinkerError>(
                LinkerError::SourceMapDecodeError,
            ),
            crate::source_map::parse_spec(source_map@) is Ok ==> match r {
                Ok(s) => {
                    &&& s.object.path@ == path@
                    &&& s.object.item@ == item@
                    &&& crate::source_map::parse_spec(source_map@) == Ok::<
                        Seq<crate::source_map::Mapping>,
                        crate::source_map::SourceMapError,
                    >(s.source_map.mappings())
                    &&& offsets_spec(bin@) == Ok::<Map<usize, usize>, Fault>(s.offsets@)
                },
                Err(e) => offsets_spec(bin@) == Err::<Map<usize, usize>, Fault>(e.fault()),
            },
    {
        let source_map = match crate::source_map::SourceMap::parse(source_map) {
            Ok(m) => m,
            Err(_) => {
                return Err(LinkerError::SourceMapDecodeError);
            },
        };
        let offsets = match decode_offsets(bin) {
            Ok(o) => o,
            Err(e) => {
                return Err(e);
            },
        };
        Ok(
            Source {
                object: Object { path: path.to_string(), item: item.to_string() },
                source_map,
                offsets,
            },
        )
    }

    /// Decode the given code into a table from byte position to instruction index.
    pub fn decode_offsets(&self, code: &str) -> (r: Result<HashMap<usize, usize>, LinkerError>)
        ensures
            match r {
                Ok(m) => offsets_spec(code@) == Ok::<Map<usize, usize>, Fault>(m@),
                Err(e) => offsets_spec(code@) == Err::<Map<usize, usize>, Fault>(e.fault()),
            },
    {
        decode_offsets(code)
    }
}

/// Decode the given code into a table from byte position to instruction index.
///
/// Each instruction takes one index; a push also takes the bytes of its payload, and a
/// placeholder twenty bytes. The swarm hash trailer ends the table.
pub fn decode_offsets(code: &str) -> (r: Result<HashMap<usize, usize>, LinkerError>)
    ensures
        match r {
            Ok(m) => offsets_spec(code@) == Ok::<Map<usize, usize>, Fault>(m@),
            Err(e) => offsets_spec(code@) == Err::<Map<usize, usize>, Fault>(e.fault()),
        },
{
    broadcast use vstd::std_specs::hash::group_hash_axioms;

    let mut out: HashMap<usize, usize> = HashMap::new();
    let mut n: usize = 0;
    let mut offset: usize = 0;
    out.insert(n, offset);
    let mut it = Decoder::new(code);
    loop
        invariant
            it.wf(),
            2 * n <= it.consumed(),
            offset <= n,
            offsets_spec(code@) == offsets_from(it.rest(), it.pos(), n as nat, offset as nat, out@),
        decreases it.rest().len(),
    {
        let ghost rest = it.rest();
        proof {
            it.lemma_size();
        }
        let section = match it.next() {
            None => {
                return Ok(out);
            },
            Some(Err(e)) => {
                return Err(e);
            },
            Some(Ok(section)) => section,
        };
        proof {
            it.lemma_size();
        }
        match section {
            Section::Instruction(_) => {
                n += 1;
                offset += 1;
            },
            Section::BadInstruction(_) => {
                n += 1;
                offset += 1;
            },
            Section::Push(_, Push::Unlinked(_)) => {
                n += 21;
                offset += 1;
            },
            Section::Push(_, Push::Bytes(bytes)) => {
                n += 1 + bytes.len();
                offset += 1;
            },
            Section::SwarmHash(..) => {
                assert(offsets_from(it.rest(), it.pos(), n as nat, offset as nat, out@)
                    == Ok::<Map<usize, usize>, Fault>(out@));
                continue;
            },
        }
        out.insert(n, offset);
    }
}

/// The code in `rest` holds a link placeholder before its decoding stops.
pub open spec fn has_placeholder(rest: Seq<char>) -> bool
    decreases rest.len(),
{
    if is_swarm(rest) || at_end(rest) || !head_hex(rest) {
        false
    } else if push_size(head_op(rest)) == 0 {
        has_placeholder(rest.skip(2))
    } else if rest.len() < section_len(rest) {
        false
    } else if is_placeholder(payload(rest)) {
        true
    } else {
        has_placeholder(rest.skip(section_len(rest) as int))
    }
}

proof fn lemma_hex_bytes_split(s: Seq<char>, k: int)
    requires
        0 <= k <= s.len(),
        k % 2 == 0,
    ensures
        hex_bytes(s) == hex_bytes(s.take(k)) + hex_bytes(s.skip(k)),
{
    let a = hex_bytes(s.take(k));
    let b = hex_bytes(s.skip(k));
    assert(s.len() / 2 == k / 2 + (s.len() - k) / 2);
    assert forall|i: int| 0 <= i < s.len() / 2 implies hex_bytes(s)[i] == (a + b)[i] by {
        if i < k / 2 {
            assert(s.take(k)[2 * i] == s[2 * i]);
            assert(s.take(k)[2 * i + 1] == s[2 * i + 1]);
        } else {
            let j = i - k / 2;
            assert(s.skip(k)[2 * j] == s[2 * i]);
            assert(s.skip(k)[2 * j + 1] == s[2 * i + 1]);
        }
    }
    assert(hex_bytes(s) =~= a + b);
}

proof fn lemma_swarm_is_hex(rest: Seq<char>)
    requires
        is_swarm(rest),
        all_hex(swarm_digits(rest)),
    ensures
        swarm_bytes(rest) == hex_bytes(rest),
{
    let d = swarm_digits(rest);
    assert(rest.take(18) == swarm_prefix());
    assert(rest.skip(82) == swarm_suffix());
    assert forall|i: int| 0 <= i < 18 implies rest[i] == #[trigger] swarm_prefix()[i] by {
        assert(rest.take(18)[i] == rest[i]);
    }
    assert forall|i: int| 82 <= i < 86 implies rest[i] == #[trigger] swarm_suffix()[i - 82] by {
        assert(rest.skip(82)[i - 82] == rest[i]);
    }
    let h = hex_bytes(rest);
    let w = swarm_bytes(rest);
    assert(h.len() == 43);
    assert(w.len() == 43);
    assert forall|i: int| 9 <= i < 41 implies h[i] == w[i] by {
        assert(d[2 * (i - 9)] == rest[2 * i]);
        assert(d[2 * (i - 9) + 1] == rest[2 * i + 1]);
    }
    assert(byte_of('a', '1') == 0xa1u8);
    assert(byte_of('6', '5') == 0x65u8);
    assert(byte_of('6', '2') == 0x62u8);
    assert(byte_of('7', 'a') == 0x7au8);
    assert(byte_of('7', '2') == 0x72u8);
    assert(byte_of('3', '0') == 0x30u8);
    assert(byte_of('5', '8') == 0x58u8);
    assert(byte_of('2', '0') == 0x20u8);
    assert(byte_of('0', '0') == 0x00u8);
    assert(byte_of('2', '9') == 0x29u8);
    assert(h =~= w);
}

proof fn lemma_link_plain(regs: Seq<Registration>, rest: Seq<char>, pos: nat, acc: Seq<u8>)
    requires
        !has_placeholder(rest),
        link_from(regs, rest, pos, acc) is Ok,
    ensures
        link_from(regs, rest, pos, acc) == Ok::<Seq<u8>, Fault>(acc + hex_bytes(rest)),
    decreases rest.len(),
{
    if is_swarm(rest) {
        lemma_swarm_is_hex(rest);
    } else if at_end(rest) {
        assert(hex_bytes(rest) =~= Seq::<u8>::empty());
        assert(acc + hex_bytes(rest) =~= acc);
    } else if push_size(head_op(rest)) == 0 {
        lemma_link_plain(regs, rest.skip(2), pos + 1, acc.push(head_op(rest)));
        lemma_hex_bytes_split(rest, 2);
        assert(hex_bytes(rest.take(2)) =~= seq![head_op(rest)]);
        assert(acc.push(head_op(rest)) + hex_bytes(rest.skip(2)) =~= acc + hex_bytes(rest));
    } else {
        let k = section_len(rest) as int;
        let p = payload(rest);
        lemma_link_plain(regs, rest.skip(k), pos + 1, acc.push(head_op(rest)) + hex_bytes(p));
        lemma_hex_bytes_split(rest, k);
        let front = rest.take(k);
        lemma_hex_bytes_split(front, 2);
        assert(front.take(2) =~= rest.take(2));
        assert(front.skip(2) =~= p);
        assert(hex_bytes(rest.take(2)) =~= seq![head_op(rest)]);
        assert(acc.push(head_op(rest)) + hex_bytes(p) + hex_bytes(rest.skip(k)) =~= acc
            + hex_bytes(rest));
    }
}

/// Linking code that holds no placeholder gives, when it succeeds, the bytes that its
/// digit pairs write: the linker adds nothing and drops nothing else.
pub proof fn lemma_link_round_trip(regs: Seq<Registration>, code: Seq<char>)
    requires
        !has_placeholder(code),
    ensures
        link_spec(regs, code) is Ok ==> link_spec(regs, code) == Ok::<Seq<u8>, Fault>(
            hex_bytes(code),
        ),
{
    if link_spec(regs, code) is Ok {
        lemma_link_plain(regs, code, 0, Seq::empty());
        assert(Seq::<u8>::empty() + hex_bytes(code) =~= hex_bytes(code));
    }
}

/// Strictly increasing: a later byte position has a later instruction index.
pub open spec fn strictly_increasing(m: Map<usize, usize>) -> bool {
    forall|a: usize, b: usize|
        m.dom().contains(a) && m.dom().contains(b) && a < b ==> #[trigger] m[a] < #[trigger] m[b]
}

proof fn lemma_offsets_increasing(
    rest: Seq<char>,
    pos: nat,
    n: nat,
    off: nat,
    acc: Map<usize, usize>,
)
    requires
        strictly_increasing(acc),
        forall|k: usize| #[trigger] acc.dom().contains(k) ==> k <= n && acc[k] <= off,
        2 * n + rest.len() <= usize::MAX,
        off <= n,
    ensures
        offsets_from(rest, pos, n, off, acc) matches Ok(m) ==> strictly_increasing(m),
    decreases rest.len(),
{
    if is_swarm(rest) || at_end(rest) || !head_hex(rest) {
    } else {
        let k: nat = if push_size(head_op(rest)) == 0 {
            1
        } else if is_placeholder(payload(rest)) {
            21
        } else {
            1 + push_size(head_op(rest))
        };
        let next = acc.insert((n + k) as usize, (off + 1) as usize);
        if push_size(head_op(rest)) == 0 {
            assert(k == 1);
        } else if rest.len() < section_len(rest) {
            return;
        } else if is_placeholder(payload(rest)) {
            assert(push_size(head_op(rest)) == 20);
        } else if !all_hex(payload(rest)) {
            return;
        }
        let rest2 = if push_size(head_op(rest)) == 0 {
            rest.skip(2)
        } else {
            rest.skip(section_len(rest) as int)
        };
        assert(2 * (n + k) + rest2.len() <= usize::MAX);
        assert forall|a: usize, b: usize|
            next.dom().contains(a) && next.dom().contains(b) && a < b implies #[trigger] next[a]
            < #[trigger] next[b] by {
            if b == (n + k) as usize {
                if a != b {
                    assert(acc.dom().contains(a));
                }
            } else {
                assert(acc.dom().contains(b));
                assert(a != (n + k) as usize);
                assert(acc.dom().contains(a));
            }
        }
        assert forall|x: usize| #[trigger] next.dom().contains(x) implies x <= n + k && next[x]
            <= off + 1 by {
            if x != (n + k) as usize {
                assert(acc.dom().contains(x));
            }
        }
        lemma_offsets_increasing(rest2, pos + 1, n + k, off + 1, next);
    }
}

/// The offset table of any code is strictly monotone: of two byte positions in it, the
/// later one has the later instruction index, and the other way round.
pub proof fn lemma_offsets_monotone(code: Seq<char>)
    requires
        code.len() <= usize::MAX,
    ensures
        offsets_spec(code) matches Ok(m) ==> forall|a: usize, b: usize|
            m.dom().contains(a) && m.dom().contains(b) ==> (a < b <==> #[trigger] m[a]
                < #[trigger] m[b]),
{
    let acc = Map::<usize, usize>::empty().insert(0usize, 0usize);
    assert forall|a: usize, b: usize|
        acc.dom().contains(a) && acc.dom().contains(b) && a < b implies #[trigger] acc[a]
        < #[trigger] acc[b] by {
    }
    lemma_offsets_increasing(code, 0, 0, 0, acc);
    if let Ok(m) = offsets_spec(code) {
        assert forall|a: usize, b: usize|
            m.dom().contains(a) && m.dom().contains(b) implies (a < b <==> #[trigger] m[a]
                < #[trigger] m[b]) by {
            if b < a {
                assert(m[b] < m[a]);
            }
        }
    }
}

/// Empty code links to no bytes, and its offset table holds only its start.
pub proof fn lemma_empty_code(regs: Seq<Registration>)
    ensures
        link_spec(regs, Seq::empty()) == Ok::<Seq<u8>, Fault>(Seq::empty()),
        offsets_spec(Seq::empty()) == Ok::<Map<usize, usize>, Fault>(
            Map::empty().insert(0usize, 0usize),
        ),
{
}

/// A push whose payload runs past the end of the code fails as truncated, in the
/// section where it stands.
pub proof fn lemma_truncated_push(regs: Seq<Registration>, rest: Seq<char>, pos: nat, acc: Seq<u8>)
    requires
        head_hex(rest),
        push_size(head_op(rest)) > 0,
        rest.len() < section_len(rest),
    ensures
        link_from(regs, rest, pos, acc) == Err::<Seq<u8>, Fault>(Fault::Truncated(pos + 1)),
        forall|n: nat, off: nat, m: Map<usize, usize>|
            #[trigger] offsets_from(rest, pos, n, off, m) == Err::<Map<usize, usize>, Fault>(
                Fault::Truncated(pos + 1),
            ),
{
    assert(!is_swarm(rest));
}

proof fn lemma_trim_start_no_colon(s: Seq<char>)
    requires
        forall|i: int| 0 <= i < s.len() ==> s[i] != ':',
    ensures
        forall|i: int| 0 <= i < trim_start(s).len() ==> trim_start(s)[i] != ':',
    decreases s.len(),
{
    if s.len() > 0 && s[0] == '_' {
        assert forall|i: int| 0 <= i < s.skip(1).len() implies s.skip(1)[i] != ':' by {
            assert(s.skip(1)[i] == s[i + 1]);
        }
        lemma_trim_start_no_colon(s.skip(1));
        assert(trim_start(s) == trim_start(s.skip(1)));
    } else {
        assert(trim_start(s) == s);
    }
}

proof fn lemma_trim_end_no_colon(s: Seq<char>)
    requires
        forall|i: int| 0 <= i < s.len() ==> s[i] != ':',
    ensures
        forall|i: int| 0 <= i < trim_end(s).len() ==> trim_end(s)[i] != ':',
    decreases s.len(),
{
    if s.len() > 0 && s.last() == '_' {
        assert forall|i: int| 0 <= i < s.drop_last().len() implies s.drop_last()[i] != ':' by {
            assert(s.drop_last()[i] == s[i]);
        }
        lemma_trim_end_no_colon(s.drop_last());
        assert(trim_end(s) == trim_end(s.drop_last()));
    } else {
        assert(trim_end(s) == s);
    }
}

proof fn lemma_no_colon(s: Seq<char>)
    requires
        forall|i: int| 0 <= i < s.len() ==> s[i] != ':',
    ensures
        first_colon(s) is None,
    decreases s.len(),
{
    if s.len() > 0 {
        assert forall|i: int| 0 <= i < s.skip(1).len() implies s.skip(1)[i] != ':' by {
            assert(s.skip(1)[i] == s[i + 1]);
        }
        lemma_no_colon(s.skip(1));
    }
}

/// A placeholder without a colon names a path only, and is resolved by that path: to the
/// latest object whose path opens with it.
pub proof fn lemma_path_only_placeholder(regs: Seq<Registration>, p: Seq<char>)
    requires
        is_placeholder(p),
        forall|i: int| 0 <= i < p.len() ==> p[i] != ':',
    ensures
        placeholder_parts(p) == (trim_end(trim_start(p)), None::<Seq<char>>),
        resolve(regs, p) == match lookup_path(regs, trim_end(trim_start(p))) {
            Some(a) => Ok::<Seq<u8>, Fault>(a),
            None => Err(Fault::Path(trim_end(trim_start(p)))),
        },
{
    lemma_trim_start_no_colon(p);
    lemma_trim_end_no_colon(trim_start(p));
    lemma_no_colon(trim_end(trim_start(p)));
}

} // verus!
