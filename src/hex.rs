use vstd::prelude::*;
use vstd::std_specs::iter::IteratorSpec;

verus! {

/// The value of a single hexadecimal digit, either case.
pub open spec fn hex_val(c: char) -> Option<u8> {
    if '0' <= c && c <= '9' {
        Some((c as u32 - '0' as u32) as u8)
    } else if 'a' <= c && c <= 'f' {
        Some((c as u32 - 'a' as u32 + 10) as u8)
    } else if 'A' <= c && c <= 'F' {
        Some((c as u32 - 'A' as u32 + 10) as u8)
    } else {
        None
    }
}

pub open spec fn is_hex(c: char) -> bool {
    hex_val(c) is Some
}

/// The byte written by two hexadecimal digits.
pub open spec fn byte_of(hi: char, lo: char) -> u8
    recommends
        is_hex(hi),
        is_hex(lo),
{
    (hex_val(hi)->0 * 16 + hex_val(lo)->0) as u8
}

pub open spec fn all_hex(s: Seq<char>) -> bool {
    forall|i: int| 0 <= i < s.len() ==> is_hex(#[trigger] s[i])
}

/// The bytes written by the complete digit pairs of `s`.
pub open spec fn hex_bytes(s: Seq<char>) -> Seq<u8> {
    Seq::new(s.len() / 2, |i: int| byte_of(s[2 * i], s[2 * i + 1]))
}

/// Decode a single hexadecimal digit.
pub fn hex_digit(c: char) -> (r: Option<u8>)
    ensures
        r == hex_val(c),
        r matches Some(v) ==> v < 16,
{
    if '0' <= c && c <= '9' {
        Some((c as u32 - '0' as u32) as u8)
    } else if 'a' <= c && c <= 'f' {
        Some((c as u32 - 'a' as u32 + 10) as u8)
    } else if 'A' <= c && c <= 'F' {
        Some((c as u32 - 'A' as u32 + 10) as u8)
    } else {
        None
    }
}

/// The characters of a string, in order.
pub fn chars_of(s: &str) -> (r: Vec<char>)
    ensures
        r@ == s@,
{
    let mut out: Vec<char> = Vec::new();
    let mut it = s.chars();
    proof {
        vstd::string::axiom_spec_iter(s);
    }
    loop
        invariant
            out@ + it.remaining() == s@,
            it.decrease() is Some,
            it.obeys_prophetic_iter_laws(),
        ensures
            out@ == s@,
        decreases it.decrease()->0,
    {
        match it.next() {
            Some(c) => {
                out.push(c);
            },
            None => {
                assert(out@ + it.remaining() =~= out@);
                break;
            },
        }
    }
    out
}

/// Does `s` hold, at `at`, exactly the characters `lit`?
pub fn chars_match(s: &Vec<char>, at: usize, lit: &[char]) -> (r: bool)
    ensures
        r == (at + lit@.len() <= s@.len() && s@.subrange(at as int, at + lit@.len()) == lit@),
{
    if at > s.len() || lit.len() > s.len() - at {
        return false;
    }
    let mut i: usize = 0;
    while i < lit.len()
        invariant
            at + lit@.len() <= s@.len(),
            s@.len() <= usize::MAX,
            i <= lit@.len(),
            forall|j: int| 0 <= j < i ==> s@[at + j] == lit@[j],
        decreases lit@.len() - i,
    {
        if s[at + i] != lit[i] {
            assert(s@.subrange(at as int, at + lit@.len())[i as int] != lit@[i as int]);
            return false;
        }
        i += 1;
    }
    assert(s@.subrange(at as int, at + lit@.len()) =~= lit@);
    true
}

/// Decode the digit pairs of `s[from..to]`, or `None` if one of them is no hexadecimal digit.
pub fn decode_pairs(s: &Vec<char>, from: usize, to: usize) -> (r: Option<Vec<u8>>)
    requires
        from <= to <= s@.len(),
        (to - from) % 2 == 0,
    ensures
        r is Some <==> all_hex(s@.subrange(from as int, to as int)),
        r matches Some(v) ==> v@ == hex_bytes(s@.subrange(from as int, to as int)),
{
    let ghost sub = s@.subrange(from as int, to as int);
    let mut out: Vec<u8> = Vec::new();
    let mut i: usize = from;
    while i < to
        invariant
            from <= i <= to <= s@.len(),
            (i - from) % 2 == 0,
            (to - from) % 2 == 0,
            sub == s@.subrange(from as int, to as int),
            all_hex(s@.subrange(from as int, i as int)),
            out@ == hex_bytes(s@.subrange(from as int, i as int)),
        decreases to - i,
    {
        assert(i + 2 <= to);
        let hi = hex_digit(s[i]);
        let lo = hex_digit(s[i + 1]);
        match (hi, lo) {
            (Some(h), Some(l)) => {
                let b: u8 = h * 16 + l;
                let ghost before = s@.subrange(from as int, i as int);
                out.push(b);
                i += 2;
                let ghost after = s@.subrange(from as int, i as int);
                assert(after.len() / 2 == before.len() / 2 + 1);
                assert forall|k: int| 0 <= k < after.len() implies is_hex(#[trigger] after[k]) by {
                    if k < before.len() {
                        assert(after[k] == before[k]);
                    }
                }
                assert forall|k: int| 0 <= k < after.len() / 2 implies out@[k] == byte_of(
                    after[2 * k],
                    after[2 * k + 1],
                ) by {
                    if k < before.len() / 2 {
                        assert(after[2 * k] == before[2 * k]);
                        assert(after[2 * k + 1] == before[2 * k + 1]);
                    }
                }
                assert(out@ =~= hex_bytes(after));
            },
            _ => {
                assert(!is_hex(sub[i - from]) || !is_hex(sub[i - from + 1]));
                return None;
            },
        }
    }
    Some(out)
}

/// A hexadecimal digit that could not be decoded.
#[derive(Debug, PartialEq, Eq)]
pub struct BadHex;

/// What one step of the pairwise decoder yields on `rest`, and what it leaves.
pub open spec fn hex_next(rest: Seq<char>) -> (Option<Result<u8, BadHex>>, Seq<char>) {
    if rest.len() == 0 {
        (None, rest)
    } else if !is_hex(rest[0]) {
        (Some(Err(BadHex)), Seq::empty())
    } else if rest.len() == 1 {
        (None, Seq::empty())
    } else if !is_hex(rest[1]) {
        (Some(Err(BadHex)), Seq::empty())
    } else {
        (Some(Ok(byte_of(rest[0], rest[1]))), rest.skip(2))
    }
}

/// The characters that open a swarm hash trailer.
pub open spec fn swarm_prefix() -> Seq<char> {
    seq!['a', '1', '6', '5', '6', '2', '7', 'a', '7', 'a', '7', '2', '3', '0', '5', '8', '2', '0']
}

/// The characters that close a swarm hash trailer.
pub open spec fn swarm_suffix() -> Seq<char> {
    seq!['0', '0', '2', '9']
}

/// `rest` is exactly a swarm hash trailer.
pub open spec fn is_swarm(rest: Seq<char>) -> bool {
    &&& rest.len() == 86
    &&& rest.take(18) == swarm_prefix()
    &&& rest.skip(82) == swarm_suffix()
}

/// The hash digits inside a swarm hash trailer.
pub open spec fn swarm_digits(rest: Seq<char>) -> Seq<char> {
    rest.subrange(18, 82)
}

/// The bytes of a swarm hash trailer whose hash digits are valid.
pub open spec fn swarm_bytes(rest: Seq<char>) -> Seq<u8> {
    seq![0xa1u8, 0x65u8, 0x62u8, 0x7au8, 0x7au8, 0x72u8, 0x30u8, 0x58u8, 0x20u8] + hex_bytes(
        swarm_digits(rest),
    ) + seq![0x00u8, 0x29u8]
}

/// A cursor over hexadecimal text that yields one byte per digit pair.
#[derive(Debug, Clone)]
pub struct HexDecode {
    chars: Vec<char>,
    at: usize,
}

impl HexDecode {
    pub closed spec fn wf(&self) -> bool {
        self.at <= self.chars@.len() <= usize::MAX
    }

    /// The text that is not consumed yet.
    pub closed spec fn rest(&self) -> Seq<char> {
        self.chars@.skip(self.at as int)
    }

    /// Number of characters consumed so far.
    pub closed spec fn consumed(&self) -> nat {
        self.at as nat
    }

    /// Number of characters in the whole text.
    pub closed spec fn total(&self) -> nat {
        self.chars@.len()
    }

    pub proof fn lemma_size(&self)
        requires
            self.wf(),
        ensures
            self.consumed() + self.rest().len() == self.total(),
            self.total() <= usize::MAX,
    {
    }

    pub fn new(s: &str) -> (r: HexDecode)
        ensures
            r.wf(),
            r.rest() == s@,
            r.consumed() == 0,
    {
        let chars = chars_of(s);
        let _ = chars.len();
        let r = HexDecode { chars, at: 0 };
        assert(r.rest() =~= s@);
        r
    }

    /// Decode the next byte: `None` at the end (a lone last digit is dropped), and
    /// `Some(Err(BadHex))` at a character that is no hexadecimal digit, after which
    /// nothing is left.
    pub fn next(&mut self) -> (r: Option<Result<u8, BadHex>>)
        requires
            old(self).wf(),
        ensures
            final(self).wf(),
            final(self).total() == old(self).total(),
            (r, final(self).rest()) == hex_next(old(self).rest()),
            final(self).consumed() >= old(self).consumed(),
            r is Some ==> final(self).consumed() > old(self).consumed(),
            final(self).consumed() <= usize::MAX,
            r matches Some(Ok(_)) ==> final(self).consumed() == old(self).consumed() + 2,
    {
        let n = self.chars.len();
        if self.at >= n {
            return None;
        }
        let hi = match hex_digit(self.chars[self.at]) {
            Some(h) => h,
            None => {
                self.at = n;
                assert(self.rest() =~= Seq::<char>::empty());
                return Some(Err(BadHex));
            },
        };
        if self.at + 1 >= n {
            self.at = n;
            assert(self.rest() =~= Seq::<char>::empty());
            return None;
        }
        let lo = match hex_digit(self.chars[self.at + 1]) {
            Some(l) => l,
            None => {
                self.at = n;
                assert(self.rest() =~= Seq::<char>::empty());
                return Some(Err(BadHex));
            },
        };
        let ghost before = self.rest();
        self.at = self.at + 2;
        assert(self.rest() =~= before.skip(2));
        Some(Ok(hi * 16 + lo))
    }

    /// Take the next `len` bytes as their `2 * len` characters, if that many are left.
    pub fn take_raw(&mut self, len: usize) -> (r: Option<Vec<char>>)
        requires
            old(self).wf(),
            len <= usize::MAX / 2,
        ensures
            final(self).wf(),
            final(self).total() == old(self).total(),
            final(self).consumed() >= old(self).consumed(),
            2 * len <= old(self).rest().len() ==> {
                &&& r matches Some(c)
                &&& c@ == old(self).rest().take(2 * len)
                &&& final(self).rest() == old(self).rest().skip(2 * len)
                &&& final(self).consumed() == old(self).consumed() + 2 * len
            },
            2 * len > old(self).rest().len() ==> r is None && final(self).rest() == old(self).rest()
                && final(self).consumed() == old(self).consumed(),
    {
        let len = len * 2;
        if self.chars.len() - self.at < len {
            return None;
        }
        let ghost before = self.rest();
        let mut out: Vec<char> = Vec::new();
        let mut i: usize = 0;
        while i < len
            invariant
                self.wf(),
                i <= len,
                self.at + len <= self.chars@.len(),
                self.chars@.len() <= usize::MAX,
                before == self.rest(),
                out@ == before.take(i as int),
            decreases len - i,
        {
            out.push(self.chars[self.at + i]);
            i += 1;
            assert(out@ =~= before.take(i as int));
        }
        self.at = self.at + len;
        assert(self.rest() =~= before.skip(len as int));
        Some(out)
    }

    /// Take the swarm hash trailer, if what is left is exactly one: its bytes and the
    /// bytes of its hash.
    pub fn take_swarm_hash(&mut self) -> (r: Result<Option<(Vec<u8>, Vec<u8>)>, BadHex>)
        requires
            old(self).wf(),
        ensures
            final(self).wf(),
            final(self).total() == old(self).total(),
            final(self).consumed() >= old(self).consumed(),
            !is_swarm(old(self).rest()) ==> {
                &&& r matches Ok(None)
                &&& final(self).rest() == old(self).rest()
                &&& final(self).consumed() == old(self).consumed()
            },
            is_swarm(old(self).rest()) && !all_hex(swarm_digits(old(self).rest())) ==> r is Err,
            is_swarm(old(self).rest()) && all_hex(swarm_digits(old(self).rest())) ==> {
                &&& r matches Ok(Some((bytes, hash)))
                &&& bytes@ == swarm_bytes(old(self).rest())
                &&& hash@ == hex_bytes(swarm_digits(old(self).rest()))
                &&& final(self).rest().len() == 0
            },
    {
        let ghost rest = self.rest();
        if self.chars.len() - self.at != 86 {
            return Ok(None);
        }
        let prefix: [char; 18] = [
            'a', '1', '6', '5', '6', '2', '7', 'a', '7', 'a', '7', '2', '3', '0', '5', '8', '2', '0',
        ];
        let suffix: [char; 4] = ['0', '0', '2', '9'];
        assert(prefix@ =~= swarm_prefix());
        assert(suffix@ =~= swarm_suffix());
        let p = chars_match(&self.chars, self.at, prefix.as_slice());
        let q = chars_match(&self.chars, self.at + 82, suffix.as_slice());
        assert(rest.take(18) =~= self.chars@.subrange(self.at as int, self.at + 18));
        assert(rest.skip(82) =~= self.chars@.subrange(self.at + 82, self.at + 86));
        if !p || !q {
            return Ok(None);
        }
        assert(swarm_digits(rest) =~= self.chars@.subrange(self.at + 18, self.at + 82));
        let hash = match decode_pairs(&self.chars, self.at + 18, self.at + 82) {
            Some(h) => h,
            None => {
                return Err(BadHex);
            },
        };
        let mut bytes: Vec<u8> = vec![0xa1u8, 0x65u8, 0x62u8, 0x7au8, 0x7au8, 0x72u8, 0x30u8, 0x58u8, 0x20u8];
        let ghost head = bytes@;
        let mut i: usize = 0;
        while i < hash.len()
            invariant
                i <= hash@.len(),
                bytes@ == head + hash@.take(i as int),
            decreases hash@.len() - i,
        {
            bytes.push(hash[i]);
            i += 1;
            assert(bytes@ =~= head + hash@.take(i as int));
        }
        bytes.push(0x00u8);
        bytes.push(0x29u8);
        assert(hash@.take(hash@.len() as int) =~= hash@);
        assert(bytes@ =~= swarm_bytes(rest));
        self.at = self.chars.len();
        assert(self.rest() =~= Seq::<char>::empty());
        Ok(Some((bytes, hash)))
    }
}

} // verus!
