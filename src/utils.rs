use crate::error::Error;
use vstd::prelude::*;
use vstd::utf8::{decode_utf8, valid_utf8};

verus! {

/// Index of the first `c` in `s`, if any.
pub open spec fn byte_index(s: Seq<u8>, c: u8) -> Option<nat>
    decreases s.len(),
{
    if s.len() == 0 {
        None
    } else if s[0] == c {
        Some(0)
    } else {
        match byte_index(s.skip(1), c) {
            Some(i) => Some(i + 1),
            None => None,
        }
    }
}

/// The pieces of `s` between newlines; the last piece follows the last newline.
pub open spec fn lines_of(s: Seq<u8>) -> Seq<Seq<u8>>
    decreases s.len(),
{
    match byte_index(s, 10) {
        Some(i) => if i < s.len() {
            seq![s.take(i as int)] + lines_of(s.skip((i + 1) as int))
        } else {
            seq![s]
        },
        None => seq![s],
    }
}

/// Going through the lines from `k` on, where the lines before end at `current` (their
/// newlines included): the lines that the span from `start` to `end` touches, and the index
/// of the first of them. The walk stops at the first line that reaches `end`; when none
/// does, the text after the last newline is taken too, and is the first line taken when no
/// line before it was.
pub open spec fn pick(
    lines: Seq<Seq<u8>>,
    k: nat,
    current: nat,
    start: nat,
    end: nat,
    acc: Seq<Seq<u8>>,
    first: Option<nat>,
) -> (Seq<Seq<u8>>, nat)
    decreases lines.len() - k,
{
    if k + 1 >= lines.len() {
        (
            acc.push(lines.last()),
            match first {
                Some(f) => f,
                None => k,
            },
        )
    } else {
        let c = current + lines[k as int].len() + 1;
        let acc2 = if c > start {
            acc.push(lines[k as int])
        } else {
            acc
        };
        let first2 = if c > start && first is None {
            Some(k)
        } else {
            first
        };
        if c >= end {
            (
                acc2,
                match first2 {
                    Some(f) => f,
                    None => 0,
                },
            )
        } else {
            pick(lines, k + 1, c, start, end, acc2, first2)
        }
    }
}

proof fn lemma_byte_index(s: Seq<u8>, c: u8)
    ensures
        byte_index(s, c) matches Some(i) ==> i < s.len() && s[i as int] == c && forall|j: int|
            0 <= j < i ==> s[j] != c,
        byte_index(s, c) is None ==> forall|j: int| 0 <= j < s.len() ==> s[j] != c,
    decreases s.len(),
{
    if s.len() > 0 && s[0] != c {
        lemma_byte_index(s.skip(1), c);
        if let Some(i) = byte_index(s.skip(1), c) {
            assert forall|j: int| 0 <= j < i + 1 implies s[j] != c by {
                if j > 0 {
                    assert(s.skip(1)[j - 1] == s[j]);
                }
            }
        } else {
            assert forall|j: int| 0 <= j < s.len() implies s[j] != c by {
                if j > 0 {
                    assert(s.skip(1)[j - 1] == s[j]);
                }
            }
        }
    }
}

/// Split `v` at each newline, giving the bounds of the pieces.
fn line_ranges(v: &Vec<u8>) -> (r: Vec<(usize, usize)>)
    ensures
        r@.len() == lines_of(v@).len(),
        r@.len() > 0,
        forall|k: int|
            0 <= k < r@.len() ==> {
                &&& (#[trigger] r@[k]).0 <= r@[k].1 <= v@.len()
                &&& v@.subrange(r@[k].0 as int, r@[k].1 as int) == lines_of(v@)[k]
            },
        r@[0].0 == 0,
        forall|k: int| 0 <= k < r@.len() - 1 ==> (#[trigger] r@[k]).1 + 1 == r@[k + 1].0,
{
    let to = v.len();
    let ghost whole = lines_of(v@);
    assert(v@.subrange(0, to as int) =~= v@);
    let mut out: Vec<(usize, usize)> = Vec::new();
    let mut a: usize = 0;
    let mut i: usize = 0;
    while i < to
        invariant
            a <= i <= to == v@.len(),
            forall|j: int| a <= j < i ==> v@[j] != 10,
            whole == out@.map_values(|p: (usize, usize)| v@.subrange(p.0 as int, p.1 as int))
                + lines_of(v@.subrange(a as int, to as int)),
            forall|k: int| 0 <= k < out@.len() ==> (#[trigger] out@[k]).0 <= out@[k].1 <= a,
            out@.len() > 0 ==> out@[0].0 == 0,
            out@.len() == 0 ==> a == 0,
            out@.len() > 0 ==> out@.last().1 + 1 == a,
            forall|k: int| 0 <= k < out@.len() - 1 ==> (#[trigger] out@[k]).1 + 1 == out@[k + 1].0,
        decreases to - i,
    {
        if v[i] == 10 {
            let ghost s = v@.subrange(a as int, to as int);
            proof {
                lemma_byte_index(s, 10);
                let k = (i - a) as nat;
                assert(s[k as int] == 10);
                assert forall|j: int| 0 <= j < k implies s[j] != 10 by {
                    assert(s[j] == v@[a + j]);
                }
                if let Some(q) = byte_index(s, 10) {
                    if q < k {
                        assert(s[q as int] == v@[a + q]);
                    }
                    assert(q == k);
                }
                assert(s.take(k as int) =~= v@.subrange(a as int, i as int));
                assert(s.skip((k + 1) as int) =~= v@.subrange(i + 1, to as int));
            }
            let ghost before = out@;
            let ghost piece = v@.subrange(a as int, i as int);
            out.push((a, i));
            a = i + 1;
            i = i + 1;
            assert(out@.map_values(|p: (usize, usize)| v@.subrange(p.0 as int, p.1 as int))
                =~= before.map_values(|p: (usize, usize)| v@.subrange(p.0 as int, p.1 as int))
                + seq![piece]);
        } else {
            i = i + 1;
        }
    }
    let ghost s = v@.subrange(a as int, to as int);
    proof {
        lemma_byte_index(s, 10);
        if let Some(q) = byte_index(s, 10) {
            assert(s[q as int] == v@[a + q]);
        }
    }
    let ghost before = out@;
    out.push((a, to));
    assert(out@.map_values(|p: (usize, usize)| v@.subrange(p.0 as int, p.1 as int)) =~= before.map_values(
        |p: (usize, usize)| v@.subrange(p.0 as int, p.1 as int),
    ) + lines_of(s));
    proof {
        assert forall|k: int| 0 <= k < out@.len() implies v@.subrange(
            (#[trigger] out@[k]).0 as int,
            out@[k].1 as int,
        ) == whole[k] by {
            assert(whole[k] == out@.map_values(
                |p: (usize, usize)| v@.subrange(p.0 as int, p.1 as int),
            )[k]);
        }
    }
    out
}

/// Relies on `String::from_utf8`: the text that the bytes encode, or `None` when they are
/// not UTF-8.
#[verifier::external_body]
fn utf8_string(bytes: Vec<u8>) -> (r: Option<String>)
    ensures
        r is Some <==> valid_utf8(bytes@),
        r matches Some(s) ==> s@ == decode_utf8(bytes@),
{
    String::from_utf8(bytes).ok()
}

fn copy_range(v: &Vec<u8>, from: usize, to: usize) -> (r: Vec<u8>)
    requires
        from <= to <= v@.len(),
    ensures
        r@ == v@.subrange(from as int, to as int),
{
    let mut out: Vec<u8> = Vec::new();
    let mut i: usize = from;
    while i < to
        invariant
            from <= i <= to <= v@.len(),
            out@ == v@.subrange(from as int, i as int),
        decreases to - i,
    {
        out.push(v[i]);
        i += 1;
        assert(out@ =~= v@.subrange(from as int, i as int));
    }
    out
}

/// The lines of `text` that the span from `start` to `end` touches, and the index of the
/// first of them.
pub open spec fn touched(text: Seq<u8>, start: nat, end: nat) -> (Seq<Seq<u8>>, nat) {
    pick(lines_of(text), 0, 0, start, end, Seq::empty(), None)
}

/// Each piece is valid UTF-8.
pub open spec fn all_utf8(s: Seq<Seq<u8>>) -> bool {
    forall|i: int| 0 <= i < s.len() ==> valid_utf8(#[trigger] s[i])
}

/// The lines of `text` that the span `(start, end)` touches, and the index of the first one.
pub fn find_line(text: &Vec<u8>, span: (usize, usize)) -> (r: Result<(Vec<String>, usize), Error>)
    ensures
        r is Ok <==> all_utf8(touched(text@, span.0 as nat, span.1 as nat).0),
        r matches Ok((ls, l)) ==> {
            &&& l == touched(text@, span.0 as nat, span.1 as nat).1
            &&& ls@.len() == touched(text@, span.0 as nat, span.1 as nat).0.len()
            &&& forall|i: int|
                0 <= i < ls@.len() ==> (#[trigger] ls@[i])@ == decode_utf8(
                    touched(text@, span.0 as nat, span.1 as nat).0[i],
                )
        },
{
    let ghost lines = lines_of(text@);
    let ghost goal = pick(lines, 0, 0, span.0 as nat, span.1 as nat, Seq::empty(), None);
    let ranges = line_ranges(text);
    let (start, end) = span;
    let mut chosen: Vec<(usize, usize)> = Vec::new();
    let mut first: Option<usize> = None;
    let mut current: usize = 0;
    let mut k: usize = 0;
    let line: usize;
    assert(chosen@.map_values(|p: (usize, usize)| text@.subrange(p.0 as int, p.1 as int)) =~= Seq::<Seq<u8>>::empty());
    loop
        invariant_except_break
            first matches Some(f) ==> f < k,
            goal == pick(
                lines,
                k as nat,
                current as nat,
                start as nat,
                end as nat,
                chosen@.map_values(|p: (usize, usize)| text@.subrange(p.0 as int, p.1 as int)),
                match first {
                    Some(f) => Some(f as nat),
                    None => None,
                },
            ),
        invariant
            k < ranges@.len(),
            ranges@.len() <= usize::MAX,
            ranges@.len() == lines.len(),
            lines == lines_of(text@),
            forall|j: int|
                0 <= j < ranges@.len() ==> {
                    &&& (#[trigger] ranges@[j]).0 <= ranges@[j].1 <= text@.len()
                    &&& text@.subrange(ranges@[j].0 as int, ranges@[j].1 as int) == lines[j]
                },
            forall|j: int| 0 <= j < ranges@.len() - 1 ==> (#[trigger] ranges@[j]).1 + 1 == ranges@[j + 1].0,
            current == ranges@[k as int].0,
            forall|j: int|
                0 <= j < chosen@.len() ==> {
                    &&& (#[trigger] chosen@[j]).0 <= chosen@[j].1 <= text@.len()
                },
        ensures
            forall|j: int|
                0 <= j < chosen@.len() ==> {
                    &&& (#[trigger] chosen@[j]).0 <= chosen@[j].1 <= text@.len()
                },
            goal == (chosen@.map_values(|p: (usize, usize)| text@.subrange(p.0 as int, p.1 as int)), line as nat),
        decreases ranges@.len() - k,
    {
        let ghost acc = chosen@.map_values(|p: (usize, usize)| text@.subrange(p.0 as int, p.1 as int));
        if k + 1 >= ranges.len() {
            chosen.push(ranges[k]);
            assert(chosen@.map_values(|p: (usize, usize)| text@.subrange(p.0 as int, p.1 as int)) =~= acc.push(lines.last()));
            line = match first {
                Some(f) => f,
                None => k,
            };
            break;
        }
        let (a, b) = ranges[k];
        let c = b + 1;
        assert(c == ranges@[k + 1].0);
        if c > start {
            chosen.push((a, b));
            assert(chosen@.map_values(|p: (usize, usize)| text@.subrange(p.0 as int, p.1 as int)) =~= acc.push(lines[k as int]));
            if first.is_none() {
                first = Some(k);
            }
        }
        if c >= end {
            line = match first {
                Some(f) => f,
                None => 0,
            };
            break;
        }
        current = c;
        k += 1;
    }
    let ghost picked = chosen@.map_values(|p: (usize, usize)| text@.subrange(p.0 as int, p.1 as int));
    assert(goal == (picked, line as nat));
    let mut out: Vec<String> = Vec::new();
    let mut i: usize = 0;
    while i < chosen.len()
        invariant
            i <= chosen@.len(),
            picked == chosen@.map_values(|p: (usize, usize)| text@.subrange(p.0 as int, p.1 as int)),
            goal == (picked, line as nat),
            goal == pick(lines_of(text@), 0, 0, span.0 as nat, span.1 as nat, Seq::empty(), None),
            forall|j: int|
                0 <= j < chosen@.len() ==> {
                    &&& (#[trigger] chosen@[j]).0 <= chosen@[j].1 <= text@.len()
                },
            out@.len() == i,
            forall|j: int| 0 <= j < i ==> valid_utf8(#[trigger] picked[j]),
            forall|j: int| 0 <= j < i ==> (#[trigger] out@[j])@ == decode_utf8(picked[j]),
        decreases chosen@.len() - i,
    {
        let (a, b) = chosen[i];
        let bytes = copy_range(text, a, b);
        assert(picked[i as int] == text@.subrange(a as int, b as int));
        match utf8_string(bytes) {
            Some(s) => {
                out.push(s);
            },
            None => {
                assert(!valid_utf8(picked[i as int]));
                assert(!all_utf8(touched(text@, span.0 as nat, span.1 as nat).0));
                return Err(Error::Other { message: "bad utf-8 line".to_string() });
            },
        }
        i += 1;
    }
    Ok((out, line))
}

} // verus!
