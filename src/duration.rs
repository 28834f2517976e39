use std::time::Duration;
use vstd::prelude::*;

verus! {

/// The decimal digits of `n`.
pub open spec fn decimal(n: nat) -> Seq<char>
    decreases n,
{
    if n < 10 {
        seq![('0' as u8 + n as u8) as char]
    } else {
        decimal(n / 10).push(('0' as u8 + (n % 10) as u8) as char)
    }
}

/// Write `n` in decimal.
pub fn decimal_text(n: u64) -> (r: Vec<char>)
    ensures
        r@ == decimal(n as nat),
    decreases n,
{
    if n < 10 {
        let mut v = Vec::new();
        v.push(('0' as u8 + n as u8) as char);
        v
    } else {
        let mut v = decimal_text(n / 10);
        v.push(('0' as u8 + (n % 10) as u8) as char);
        v
    }
}

pub uninterp spec fn secs_of(d: Duration) -> u64;

pub uninterp spec fn subsec_nanos_of(d: Duration) -> u32;

/// Relies on `Duration::as_secs`: the whole seconds of the duration.
#[verifier::external_body]
fn as_secs(d: &Duration) -> (r: u64)
    ensures
        r == secs_of(*d),
{
    d.as_secs()
}

/// Relies on `Duration::subsec_nanos`: the nanoseconds past the whole seconds, below a
/// billion.
#[verifier::external_body]
fn subsec_nanos(d: &Duration) -> (r: u32)
    ensures
        r == subsec_nanos_of(*d),
        r < 1_000_000_000,
{
    d.subsec_nanos()
}

/// How a duration reads: its seconds, the milliseconds when there is more than one, and `s`.
pub open spec fn duration_text(secs: nat, nanos: nat) -> Seq<char> {
    decimal(secs) + if nanos > 1_000_000 {
        seq!['.'] + decimal((nanos / 1_000_000) % 1000)
    } else {
        Seq::empty()
    } + seq!['s']
}

/// Write a duration of `secs` seconds and `nanos` nanoseconds.
pub fn format_duration(secs: u64, nanos: u32) -> (r: String)
    ensures
        r@ == duration_text(secs as nat, nanos as nat),
{
    let mut out = decimal_text(secs);
    let ghost base = out@;
    if nanos > 1_000_000 {
        out.push('.');
        let ms = decimal_text(((nanos / 1_000_000) % 1_000) as u64);
        let ghost mid = out@;
        let mut i: usize = 0;
        while i < ms.len()
            invariant
                i <= ms@.len(),
                out@ == mid + ms@.take(i as int),
            decreases ms@.len() - i,
        {
            out.push(ms[i]);
            i += 1;
            assert(out@ =~= mid + ms@.take(i as int));
        }
        assert(ms@.take(i as int) =~= ms@);
        assert(out@ =~= base + (seq!['.'] + ms@));
    } else {
        assert(out@ =~= base + Seq::<char>::empty());
    }
    out.push('s');
    crate::linker::string_from_chars(out.as_slice())
}

/// Formats a duration as a human-readable time.
pub struct DurationFormat<'a>(pub &'a Duration);

impl<'a> DurationFormat<'a> {
    /// The text of the duration.
    pub fn render(&self) -> (r: String)
        ensures
            r@ == duration_text(secs_of(*self.0) as nat, subsec_nanos_of(*self.0) as nat),
    {
        format_duration(as_secs(self.0), subsec_nanos(self.0))
    }
}

} // verus!
