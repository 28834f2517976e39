use crate::hex::chars_of;
use vstd::prelude::*;

verus! {

/// Index of the first `c` in `s`, if any.
pub open spec fn index_of(s: Seq<char>, c: char) -> Option<nat>
    decreases s.len(),
{
    if s.len() == 0 {
        None
    } else if s[0] == c {
        Some(0)
    } else {
        match index_of(s.skip(1), c) {
            Some(i) => Some(i + 1),
            None => None,
        }
    }
}

/// The pieces of `s` between the separators `sep`; there is always at least one.
pub open spec fn split(s: Seq<char>, sep: char) -> Seq<Seq<char>>
    decreases s.len(),
{
    match index_of(s, sep) {
        None => seq![s],
        Some(i) => if i < s.len() {
            seq![s.take(i as int)] + split(s.skip((i + 1) as int), sep)
        } else {
            seq![s]
        },
    }
}

proof fn lemma_index_of(s: Seq<char>, c: char)
    ensures
        index_of(s, c) matches Some(i) ==> i < s.len() && s[i as int] == c && forall|j: int|
            0 <= j < i ==> s[j] != c,
        index_of(s, c) is None ==> forall|j: int| 0 <= j < s.len() ==> s[j] != c,
    decreases s.len(),
{
    if s.len() > 0 && s[0] != c {
        lemma_index_of(s.skip(1), c);
        if let Some(i) = index_of(s.skip(1), c) {
            assert forall|j: int| 0 <= j < i + 1 implies s[j] != c by {
                if j > 0 {
                    assert(s.skip(1)[j - 1] == s[j]);
                }
            }
        } else {
            assert forall|j: int| 0 <= j < s.len() implies s[j] != c by {
                if j > 0 {
                    assert(s.skip(1)[j - 1] == s[j]);
                }
            }
        }
    }
}

/// Split `v[from..to]` at each `sep`, giving the bounds of the pieces.
pub fn split_ranges(v: &Vec<char>, from: usize, to: usize, sep: char) -> (r: Vec<(usize, usize)>)
    requires
        from <= to <= v@.len(),
    ensures
        r@.len() == split(v@.subrange(from as int, to as int), sep).len(),
        r@.len() > 0,
        r@[0].0 == from,
        forall|k: int| 0 <= k < r@.len() - 1 ==> (#[trigger] r@[k]).1 + 1 == r@[k + 1].0,
        forall|k: int|
            0 <= k < r@.len() ==> {
                &&& from <= (#[trigger] r@[k]).0 <= r@[k].1 <= to
                &&& v@.subrange(r@[k].0 as int, r@[k].1 as int) == split(
                    v@.subrange(from as int, to as int),
                    sep,
                )[k]
            },
{
    let ghost whole = split(v@.subrange(from as int, to as int), sep);
    let mut out: Vec<(usize, usize)> = Vec::new();
    let mut a: usize = from;
    let mut i: usize = from;
    while i < to
        invariant
            from <= a <= i <= to <= v@.len(),
            forall|j: int| a <= j < i ==> v@[j] != sep,
            whole == out@.map_values(|p: (usize, usize)| v@.subrange(p.0 as int, p.1 as int))
                + split(v@.subrange(a as int, to as int), sep),
            forall|k: int|
                0 <= k < out@.len() ==> from <= (#[trigger] out@[k]).0 <= out@[k].1 <= a,
            out@.len() > 0 ==> out@[0].0 == from,
            out@.len() == 0 ==> a == from,
            out@.len() > 0 ==> out@.last().1 + 1 == a,
            forall|k: int| 0 <= k < out@.len() - 1 ==> (#[trigger] out@[k]).1 + 1 == out@[k + 1].0,
        decreases to - i,
    {
        if v[i] == sep {
            let ghost s = v@.subrange(a as int, to as int);
            proof {
                lemma_index_of(s, sep);
                let k = (i - a) as nat;
                assert(s[k as int] == sep);
                assert forall|j: int| 0 <= j < k implies s[j] != sep by {
                    assert(s[j] == v@[a + j]);
                }
                if let Some(q) = index_of(s, sep) {
                    if q < k {
                        assert(s[q as int] == v@[a + q]);
                    }
                    if q > k {
                        assert(s[k as int] == sep);
                    }
                    assert(q == k);
                } else {
                    assert(s[k as int] == sep);
                }
                assert(s.take(k as int) =~= v@.subrange(a as int, i as int));
                assert(s.skip((k + 1) as int) =~= v@.subrange(i + 1, to as int));
            }
            let ghost before = out@;
            let ghost piece = v@.subrange(a as int, i as int);
            out.push((a, i));
            a = i + 1;
            i = i + 1;
            assert(out@.map_values(|p: (usize, usize)| v@.subrange(p.0 as int, p.1 as int))
                =~= before.map_values(|p: (usize, usize)| v@.subrange(p.0 as int, p.1 as int))
                + seq![piece]);
        } else {
            i = i + 1;
        }
    }
    let ghost s = v@.subrange(a as int, to as int);
    proof {
        lemma_index_of(s, sep);
        if let Some(q) = index_of(s, sep) {
            assert(s[q as int] == v@[a + q]);
        }
    }
    let ghost before = out@;
    out.push((a, to));
    assert(out@.map_values(|p: (usize, usize)| v@.subrange(p.0 as int, p.1 as int)) =~= before.map_values(
        |p: (usize, usize)| v@.subrange(p.0 as int, p.1 as int),
    ) + split(s, sep));
    proof {
        assert forall|k: int| 0 <= k < out@.len() implies v@.subrange(
            (#[trigger] out@[k]).0 as int,
            out@[k].1 as int,
        ) == whole[k] by {
            assert(whole[k] == out@.map_values(
                |p: (usize, usize)| v@.subrange(p.0 as int, p.1 as int),
            )[k]);
        }
    }
    out
}

pub open spec fn is_digit(c: char) -> bool {
    '0' <= c && c <= '9'
}

/// The number that the decimal digits `s` write.
pub open spec fn digits_value(s: Seq<char>) -> nat
    decreases s.len(),
{
    if s.len() == 0 {
        0
    } else {
        digits_value(s.drop_last()) * 10 + (s.last() as nat - '0' as nat) as nat
    }
}

pub open spec fn all_digits(d: Seq<char>) -> bool {
    forall|i: int| 0 <= i < d.len() ==> is_digit(#[trigger] d[i])
}

/// `s` without the `+` that may open it.
pub open spec fn unsigned_part(s: Seq<char>) -> Seq<char> {
    if s.len() > 0 && s[0] == '+' {
        s.skip(1)
    } else {
        s
    }
}

/// The `u32` that `s` writes in decimal, with an optional `+` in front.
pub open spec fn u32_text(s: Seq<char>) -> Option<u32> {
    let d = unsigned_part(s);
    if d.len() > 0 && all_digits(d) && digits_value(d) <= u32::MAX {
        Some(digits_value(d) as u32)
    } else {
        None
    }
}

/// Read the `u32` that `v[from..to]` writes in decimal.
pub fn parse_u32(v: &Vec<char>, from: usize, to: usize) -> (r: Option<u32>)
    requires
        from <= to <= v@.len(),
    ensures
        r == u32_text(v@.subrange(from as int, to as int)),
{
    let ghost s = v@.subrange(from as int, to as int);
    let start: usize = if from < to && v[from] == '+' {
        from + 1
    } else {
        from
    };
    let ghost d = v@.subrange(start as int, to as int);
    assert(d =~= unsigned_part(s));
    if start == to {
        return None;
    }
    let cap: u64 = 0x1_0000_0000;
    let mut acc: u64 = 0;
    let mut i: usize = start;
    while i < to
        invariant
            start <= i <= to <= v@.len(),
            d == v@.subrange(start as int, to as int),
            s == v@.subrange(from as int, to as int),
            cap == 0x1_0000_0000u64,
            d == unsigned_part(s),
            forall|j: int| start <= j < i ==> is_digit(v@[j]),
            acc == if digits_value(v@.subrange(start as int, i as int)) < cap {
                digits_value(v@.subrange(start as int, i as int))
            } else {
                cap as nat
            },
        decreases to - i,
    {
        let c = v[i];
        if !('0' <= c && c <= '9') {
            assert(d[i - start] == c);
            let ghost bad: int = i - start;
            assert(!is_digit(d[bad]));
            assert(!all_digits(d));
            return None;
        }
        let ghost prefix = v@.subrange(start as int, i as int);
        let ghost next = v@.subrange(start as int, i + 1);
        assert(next.drop_last() =~= prefix);
        assert(next.last() == c);
        let digit: u64 = (c as u32 - '0' as u32) as u64;
        if acc >= cap {
            acc = cap;
        } else {
            assert(acc * 10 + digit < 0x10_0000_0000) by (nonlinear_arith)
                requires
                    acc < cap,
                    digit < 10,
                    cap == 0x1_0000_0000u64,
            ;
            let t: u64 = acc * 10 + digit;
            acc = if t >= cap {
                cap
            } else {
                t
            };
        }
        i += 1;
    }
    assert(v@.subrange(start as int, to as int) == d);
    assert forall|j: int| 0 <= j < d.len() implies is_digit(#[trigger] d[j]) by {
        assert(d[j] == v@[start + j]);
    }
    if acc >= cap {
        None
    } else {
        Some(acc as u32)
    }
}

/// What a source map entry does with the jump it describes.
#[derive(Debug, Clone, Copy, PartialEq, Eq, Structural)]
pub enum Operation {
    /// `-`: a regular jump.
    Regular,
    /// `i`
    Input,
    /// `o`
    Output,
}

/// The source span of one instruction.
#[derive(Debug, Clone, Copy, PartialEq, Eq, Structural)]
pub struct Mapping {
    pub start: u32,
    pub length: u32,
    pub file_index: Option<u32>,
    pub operation: Operation,
}

/// Why a source map could not be parsed; `record` is the index of the record.
#[derive(Debug, Clone, Copy, PartialEq, Eq, Structural)]
pub enum SourceMapError {
    /// A field that is neither empty, `-1`, nor a `u32`.
    BadNumber { record: usize },
    /// No start, here or inherited.
    MissingStart { record: usize },
    /// No length, here or inherited.
    MissingLength { record: usize },
    /// An operation other than `i`, `o` or `-`.
    BadOperation { record: usize },
}

/// The values that a record inherits: start, length, file index, operation.
pub type Inherited = (Option<u32>, Option<u32>, Option<u32>, Option<Operation>);

/// A numeric field: empty or absent inherits, `-1` clears.
pub open spec fn num_field(parts: Seq<Seq<char>>, k: int, prev: Option<u32>) -> Result<Option<u32>, ()> {
    if k >= parts.len() || parts[k].len() == 0 {
        Ok(prev)
    } else if parts[k] == seq!['-', '1'] {
        Ok(None)
    } else {
        match u32_text(parts[k]) {
            Some(v) => Ok(Some(v)),
            None => Err(()),
        }
    }
}

/// The operation field: empty or absent inherits.
pub open spec fn op_field(parts: Seq<Seq<char>>, prev: Option<Operation>) -> Result<Option<Operation>, ()> {
    if 3 >= parts.len() || parts[3].len() == 0 {
        Ok(prev)
    } else if parts[3] == seq!['i'] {
        Ok(Some(Operation::Input))
    } else if parts[3] == seq!['o'] {
        Ok(Some(Operation::Output))
    } else if parts[3] == seq!['-'] {
        Ok(Some(Operation::Regular))
    } else {
        Err(())
    }
}

/// One record, given what it inherits: its mapping and what the next one inherits.
pub open spec fn parse_record(seg: Seq<char>, prev: Inherited, record: usize) -> Result<
    (Mapping, Inherited),
    SourceMapError,
> {
    let parts = split(seg, ':');
    match num_field(parts, 0, prev.0) {
        Err(_) => Err(SourceMapError::BadNumber { record }),
        Ok(None) => Err(SourceMapError::MissingStart { record }),
        Ok(Some(start)) => match num_field(parts, 1, prev.1) {
            Err(_) => Err(SourceMapError::BadNumber { record }),
            Ok(None) => Err(SourceMapError::MissingLength { record }),
            Ok(Some(length)) => match num_field(parts, 2, prev.2) {
                Err(_) => Err(SourceMapError::BadNumber { record }),
                Ok(file) => match op_field(parts, prev.3) {
                    Err(_) => Err(SourceMapError::BadOperation { record }),
                    Ok(op) => Ok(
                        (
                            Mapping {
                                start,
                                length,
                                file_index: file,
                                operation: match op {
                                    Some(o) => o,
                                    None => Operation::Regular,
                                },
                            },
                            (Some(start), Some(length), file, op),
                        ),
                    ),
                },
            },
        },
    }
}

/// The records from `k` on, after `acc` was produced and with `prev` inherited.
pub open spec fn parse_from(segs: Seq<Seq<char>>, k: nat, prev: Inherited, acc: Seq<Mapping>) -> Result<
    Seq<Mapping>,
    SourceMapError,
>
    decreases segs.len() - k,
{
    if k >= segs.len() {
        Ok(acc)
    } else {
        match parse_record(segs[k as int], prev, k as usize) {
            Err(e) => Err(e),
            Ok((m, next)) => parse_from(segs, k + 1, next, acc.push(m)),
        }
    }
}

/// The mappings of a source map, one per instruction.
pub open spec fn parse_spec(s: Seq<char>) -> Result<Seq<Mapping>, SourceMapError> {
    parse_from(split(s, ';'), 0, (None, None, None, None), Seq::empty())
}

fn num_field_exec(
    v: &Vec<char>,
    parts: &Vec<(usize, usize)>,
    k: usize,
    prev: Option<u32>,
    Ghost(spec_parts): Ghost<Seq<Seq<char>>>,
) -> (r: Result<Option<u32>, ()>)
    requires
        parts@.len() == spec_parts.len(),
        forall|j: int|
            0 <= j < parts@.len() ==> {
                &&& (#[trigger] parts@[j]).0 <= parts@[j].1 <= v@.len()
                &&& v@.subrange(parts@[j].0 as int, parts@[j].1 as int) == spec_parts[j]
            },
    ensures
        r == num_field(spec_parts, k as int, prev),
{
    if k >= parts.len() {
        return Ok(prev);
    }
    let (a, b) = parts[k];
    if a == b {
        return Ok(prev);
    }
    if b - a == 2 && v[a] == '-' && v[a + 1] == '1' {
        assert(v@.subrange(a as int, b as int) =~= seq!['-', '1']);
        return Ok(None);
    }
    proof {
        if b - a == 2 && spec_parts[k as int] == seq!['-', '1'] {
            assert(spec_parts[k as int][0] == v@[a as int]);
            assert(spec_parts[k as int][1] == v@[a + 1]);
        }
    }
    match parse_u32(v, a, b) {
        Some(x) => Ok(Some(x)),
        None => Err(()),
    }
}

fn op_field_exec(
    v: &Vec<char>,
    parts: &Vec<(usize, usize)>,
    prev: Option<Operation>,
    Ghost(spec_parts): Ghost<Seq<Seq<char>>>,
) -> (r: Result<Option<Operation>, ()>)
    requires
        parts@.len() == spec_parts.len(),
        forall|j: int|
            0 <= j < parts@.len() ==> {
                &&& (#[trigger] parts@[j]).0 <= parts@[j].1 <= v@.len()
                &&& v@.subrange(parts@[j].0 as int, parts@[j].1 as int) == spec_parts[j]
            },
    ensures
        r == op_field(spec_parts, prev),
{
    if 3 >= parts.len() {
        return Ok(prev);
    }
    let (a, b) = parts[3];
    if a == b {
        return Ok(prev);
    }
    let ghost f = spec_parts[3];
    if b - a == 1 {
        let c = v[a];
        assert(f =~= seq![c]);
        assert(seq!['i'][0] == 'i' && seq!['o'][0] == 'o' && seq!['-'][0] == '-');
        if c == 'i' {
            Ok(Some(Operation::Input))
        } else if c == 'o' {
            Ok(Some(Operation::Output))
        } else if c == '-' {
            Ok(Some(Operation::Regular))
        } else {
            Err(())
        }
    } else {
        assert(f.len() != 1);
        assert(seq!['i'].len() == 1 && seq!['o'].len() == 1 && seq!['-'].len() == 1);
        Err(())
    }
}

/// A parsed source map.
#[derive(Debug, Clone, PartialEq, Eq)]
pub struct SourceMap {
    mappings: Vec<Mapping>,
}

impl SourceMap {
    /// The mappings, by instruction index.
    pub closed spec fn mappings(&self) -> Seq<Mapping> {
        self.mappings@
    }

    /// Parse the given source map: records are separated by `;`, fields by `:`.
    pub fn parse(input: &str) -> (r: Result<SourceMap, SourceMapError>)
        ensures
            match r {
                Ok(m) => parse_spec(input@) == Ok::<Seq<Mapping>, SourceMapError>(m.mappings()),
                Err(e) => parse_spec(input@) == Err::<Seq<Mapping>, SourceMapError>(e),
            },
    {
        let v = chars_of(input);
        let segs = split_ranges(&v, 0, v.len(), ';');
        let ghost spec_segs = split(v@.subrange(0, v@.len() as int), ';');
        assert(v@.subrange(0, v@.len() as int) =~= input@);
        let mut mappings: Vec<Mapping> = Vec::new();
        let mut prev: Inherited = (None, None, None, None);
        let mut k: usize = 0;
        while k < segs.len()
            invariant
                k <= segs@.len(),
                segs@.len() == spec_segs.len(),
                spec_segs == split(input@, ';'),
                forall|j: int|
                    0 <= j < segs@.len() ==> {
                        &&& (#[trigger] segs@[j]).0 <= segs@[j].1 <= v@.len()
                        &&& v@.subrange(segs@[j].0 as int, segs@[j].1 as int) == spec_segs[j]
                    },
                parse_spec(input@) == parse_from(spec_segs, k as nat, prev, mappings@),
            decreases segs@.len() - k,
        {
            let (a, b) = segs[k];
            let parts = split_ranges(&v, a, b, ':');
            let ghost sp = split(v@.subrange(a as int, b as int), ':');
            assert(v@.subrange(a as int, b as int) == spec_segs[k as int]);
            let start = match num_field_exec(&v, &parts, 0, prev.0, Ghost(sp)) {
                Err(_) => {
                    return Err(SourceMapError::BadNumber { record: k });
                },
                Ok(None) => {
                    return Err(SourceMapError::MissingStart { record: k });
                },
                Ok(Some(x)) => x,
            };
            let length = match num_field_exec(&v, &parts, 1, prev.1, Ghost(sp)) {
                Err(_) => {
                    return Err(SourceMapError::BadNumber { record: k });
                },
                Ok(None) => {
                    return Err(SourceMapError::MissingLength { record: k });
                },
                Ok(Some(x)) => x,
            };
            let file_index = match num_field_exec(&v, &parts, 2, prev.2, Ghost(sp)) {
                Err(_) => {
                    return Err(SourceMapError::BadNumber { record: k });
                },
                Ok(x) => x,
            };
            let op = match op_field_exec(&v, &parts, prev.3, Ghost(sp)) {
                Err(_) => {
                    return Err(SourceMapError::BadOperation { record: k });
                },
                Ok(x) => x,
            };
            let operation = match op {
                Some(o) => o,
                None => Operation::Regular,
            };
            mappings.push(Mapping { start, length, file_index, operation });
            prev = (Some(start), Some(length), file_index, op);
            k += 1;
        }
        Ok(SourceMap { mappings })
    }

    /// The mapping of the instruction with the given index.
    pub fn find_mapping(&self, index: usize) -> (r: Option<&Mapping>)
        ensures
            index < self.mappings().len() ==> r == Some(&self.mappings()[index as int]),
            index >= self.mappings().len() ==> r is None,
    {
        if index < self.mappings.len() {
            Some(&self.mappings[index])
        } else {
            None
        }
    }
}

/// `prev` is what the record after `last` inherits.
pub open spec fn inherited_from(prev: Inherited, last: Mapping) -> bool {
    &&& prev.0 == Some(last.start)
    &&& prev.1 == Some(last.length)
    &&& prev.2 == last.file_index
    &&& last.operation == match prev.3 {
        Some(o) => o,
        None => Operation::Regular,
    }
}

proof fn lemma_split_empty(sep: char)
    ensures
        split(Seq::<char>::empty(), sep) == seq![Seq::<char>::empty()],
{
}

proof fn lemma_parse_from(segs: Seq<Seq<char>>, k: nat, prev: Inherited, acc: Seq<Mapping>)
    requires
        acc.len() == k,
        k <= segs.len(),
        k > 0 ==> inherited_from(prev, acc.last()),
    ensures
        parse_from(segs, k, prev, acc) matches Ok(ms) ==> {
            &&& ms.len() == segs.len()
            &&& ms.take(k as int) == acc
            &&& forall|j: int|
                k <= j < segs.len() && j > 0 && (#[trigger] segs[j]).len() == 0 ==> ms[j] == ms[j
                    - 1]
        },
    decreases segs.len() - k,
{
    if k < segs.len() {
        if let Ok((m, next)) = parse_record(segs[k as int], prev, k as usize) {
            lemma_split_empty(':');
            lemma_parse_from(segs, k + 1, next, acc.push(m));
            if let Ok(ms) = parse_from(segs, k + 1, next, acc.push(m)) {
                assert(ms.take(k as int) =~= acc.push(m).take(k as int));
                assert(acc.push(m).take(k as int) =~= acc);
                assert(ms[k as int] == acc.push(m)[k as int]);
                if k > 0 && segs[k as int].len() == 0 {
                    assert(segs[k as int] =~= Seq::<char>::empty());
                    assert(ms[k - 1] == acc.push(m)[k - 1]);
                    assert(m == acc.last());
                }
            }
        }
    } else {
        assert(acc.take(k as int) =~= acc);
    }
}

/// A record that gives no field repeats the record before it; the first record has no
/// record before it, so without a start of its own the source map is refused.
pub proof fn lemma_empty_record_inherits(s: Seq<char>)
    ensures
        parse_spec(s) matches Ok(ms) ==> forall|j: int|
            0 < j < split(s, ';').len() && (#[trigger] split(s, ';')[j]).len() == 0 ==> ms[j]
                == ms[j - 1],
        num_field(split(split(s, ';')[0], ':'), 0, None) == Ok::<Option<u32>, ()>(None)
            ==> parse_spec(s) == Err::<Seq<Mapping>, SourceMapError>(
            SourceMapError::MissingStart { record: 0 },
        ),
{
    lemma_parse_from(split(s, ';'), 0, (None, None, None, None), Seq::empty());
    assert(split(s, ';').len() > 0) by {
        lemma_split_nonempty(s, ';');
    }
}

pub(crate) proof fn lemma_split_nonempty(s: Seq<char>, sep: char)
    ensures
        split(s, sep).len() > 0,
    decreases s.len(),
{
    if let Some(i) = index_of(s, sep) {
        if i < s.len() {
            lemma_split_nonempty(s.skip((i + 1) as int), sep);
        }
    }
}

} // verus!
