use crate::error::Error;
use crate::linker::Address;
use crate::wei::{checked_add, checked_sub, word, U256};
use vstd::prelude::*;

verus! {

/// Are the two addresses equal?
pub fn address_eq(a: &Address, b: &Address) -> (r: bool)
    ensures
        r == (a.bytes@ == b.bytes@),
{
    let mut i: usize = 0;
    while i < 20
        invariant
            i <= 20,
            a.bytes@.len() == 20,
            b.bytes@.len() == 20,
            forall|j: int| 0 <= j < i ==> a.bytes@[j] == b.bytes@[j],
        decreases 20 - i,
    {
        if a.bytes[i] != b.bytes[i] {
            return false;
        }
        i += 1;
    }
    assert(a.bytes@ =~= b.bytes@);
    true
}

/// The lowercase hexadecimal digit of `d`.
pub open spec fn hex_char(d: u8) -> char {
    if d < 10 {
        ('0' as u8 + d) as char
    } else {
        ('a' as u8 + d - 10) as char
    }
}

/// `0x` and two lowercase hexadecimal digits per byte.
pub open spec fn hex_text(b: Seq<u8>) -> Seq<char> {
    seq!['0', 'x'] + Seq::new(2 * b.len(), |i: int| if i % 2 == 0 {
        hex_char(b[i / 2] / 16)
    } else {
        hex_char(b[i / 2] % 16)
    })
}

fn hex_char_exec(d: u8) -> (r: char)
    requires
        d < 16,
    ensures
        r == hex_char(d),
{
    if d < 10 {
        ('0' as u8 + d) as char
    } else {
        ('a' as u8 + d - 10) as char
    }
}

/// An address written as `0x` and forty lowercase hexadecimal digits.
pub fn address_text(a: &Address) -> (r: String)
    ensures
        r@ == hex_text(a.bytes@),
{
    let mut out: Vec<char> = Vec::new();
    out.push('0');
    out.push('x');
    let mut i: usize = 0;
    while i < 20
        invariant
            i <= 20,
            a.bytes@.len() == 20,
            out@ == hex_text(a.bytes@.take(i as int)),
        decreases 20 - i,
    {
        let b = a.bytes[i];
        let ghost before = out@;
        out.push(hex_char_exec(b / 16));
        out.push(hex_char_exec(b % 16));
        i += 1;
        assert(out@ =~= hex_text(a.bytes@.take(i as int))) by {
            let t = a.bytes@.take(i as int);
            let p = a.bytes@.take(i - 1);
            assert forall|k: int| 0 <= k < p.len() implies #[trigger] t[k] == p[k] by {}
        }
    }
    assert(a.bytes@.take(20) =~= a.bytes@);
    crate::linker::string_from_chars(out.as_slice())
}

/// What a ledger keeps per address, and how it is checked against the machine.
pub trait LedgerState {
    type Entry;

    /// The entry holds for the address.
    spec fn holds(&self, address: Address, entry: Self::Entry) -> bool;

    /// The entry that a new instance starts as.
    spec fn initial(&self) -> Self::Entry;

    /// Synchronizing the address may turn the entry `before` into `after`.
    spec fn synced(&self, address: Address, before: Self::Entry, after: Self::Entry) -> bool;

    /// Construct a new entry.
    fn new_instance(&self) -> (r: Self::Entry)
        ensures
            r == self.initial();

    /// Verify the given entry.
    fn verify(&self, address: Address, entry: &Self::Entry) -> (r: Result<(), Error>)
        ensures
            r is Ok <==> self.holds(address, *entry);

    /// Synchronize the given entry.
    fn sync(&self, address: Address, entry: &mut Self::Entry) -> (r: Result<(), Error>)
        ensures
            self.synced(address, *old(entry), *final(entry));
}

/// Balances as the machine reports them, for the addresses it was asked about.
#[derive(Debug, Clone)]
pub struct AccountBalance {
    balances: Vec<(Address, U256)>,
}

/// The latest balance reported for an address.
pub open spec fn reported(b: Seq<(Address, U256)>, a: Address) -> Option<U256>
    decreases b.len(),
{
    if b.len() == 0 {
        None
    } else if b.last().0.bytes@ == a.bytes@ {
        Some(b.last().1)
    } else {
        reported(b.drop_last(), a)
    }
}

impl AccountBalance {
    pub closed spec fn balances(&self) -> Seq<(Address, U256)> {
        self.balances@
    }

    /// The balance reported for an address.
    pub open spec fn balance_of(&self, a: Address) -> Option<U256> {
        reported(self.balances(), a)
    }

    /// Balances read from the machine.
    pub fn new(balances: Vec<(Address, U256)>) -> (r: Self)
        ensures
            r.balances() == balances@,
    {
        AccountBalance { balances }
    }

    fn find(&self, a: &Address) -> (r: Option<U256>)
        ensures
            r == self.balance_of(*a),
    {
        let mut j: usize = self.balances.len();
        assert(self.balances@.take(j as int) =~= self.balances@);
        while j > 0
            invariant
                j <= self.balances@.len(),
                reported(self.balances@, *a) == reported(self.balances@.take(j as int), *a),
            decreases j,
        {
            assert(self.balances@.take(j as int).drop_last() =~= self.balances@.take(j - 1));
            if address_eq(&self.balances[j - 1].0, a) {
                return Some(self.balances[j - 1].1);
            }
            j -= 1;
        }
        None
    }
}

impl LedgerState for AccountBalance {
    type Entry = U256;

    open spec fn holds(&self, address: Address, entry: U256) -> bool {
        self.balance_of(address) matches Some(b) && b.value() == entry.value()
    }

    open spec fn initial(&self) -> U256 {
        U256([0, 0, 0, 0])
    }

    /// Where the machine reports a balance, the entry becomes it; else it stays.
    open spec fn synced(&self, address: Address, before: U256, after: U256) -> bool {
        match self.balance_of(address) {
            Some(b) => after == b,
            None => after == before,
        }
    }

    fn new_instance(&self) -> (r: U256) {
        U256([0, 0, 0, 0])
    }

    fn verify(&self, address: Address, entry: &U256) -> (r: Result<(), Error>) {
        match self.find(&address) {
            Some(b) => if b.eq(entry) {
                Ok(())
            } else {
                Err(Error::Other { message: "expected account wei balance differs".to_string() })
            },
            None => Err(Error::Other { message: "failed to get balance".to_string() }),
        }
    }

    fn sync(&self, address: Address, entry: &mut U256) -> (r: Result<(), Error>) {
        match self.find(&address) {
            Some(b) => {
                *entry = b;
                Ok(())
            },
            None => Err(Error::Other { message: "failed to get balance".to_string() }),
        }
    }
}

/// Expected entries per address, verified against the machine.
pub struct Ledger<S: LedgerState> {
    state: S,
    entries: Vec<(Address, S::Entry)>,
    names: Vec<(Address, String)>,
}

/// The index of the entry for `a`.
pub open spec fn entry_index<E>(entries: Seq<(Address, E)>, a: Address) -> Option<int> {
    if exists|i: int| 0 <= i < entries.len() && (#[trigger] entries[i]).0.bytes@ == a.bytes@ {
        Some(choose|i: int| 0 <= i < entries.len() && (#[trigger] entries[i]).0.bytes@ == a.bytes@)
    } else {
        None
    }
}

/// The entry for `a`, if there is one.
pub open spec fn entry_of<E>(entries: Seq<(Address, E)>, a: Address) -> Option<E> {
    match entry_index(entries, a) {
        Some(i) => Some(entries[i].1),
        None => None,
    }
}

/// No address has two entries.
pub open spec fn unique_addresses<E>(entries: Seq<(Address, E)>) -> bool {
    forall|x: int, y: int|
        0 <= x < y < entries.len() ==> (#[trigger] entries[x]).0.bytes@ != (#[trigger] entries[y]).0.bytes@
}

proof fn lemma_entry_of_update<E>(entries: Seq<(Address, E)>, i: int, e: E, b: Address)
    requires
        unique_addresses(entries),
        0 <= i < entries.len(),
        b.bytes@ != entries[i].0.bytes@,
    ensures
        entry_of(entries.update(i, (entries[i].0, e)), b) == entry_of(entries, b),
{
    let n = entries.update(i, (entries[i].0, e));
    assert forall|x: int, y: int| 0 <= x < y < n.len() implies (#[trigger] n[x]).0.bytes@ != (
    #[trigger] n[y]).0.bytes@ by {
        assert(n[x].0 == entries[x].0 && n[y].0 == entries[y].0);
    }
    if let Some(j) = entry_index(entries, b) {
        lemma_entry_index(entries, b, j);
        assert(n[j] == entries[j]);
        lemma_entry_index(n, b, j);
    } else if let Some(j) = entry_index(n, b) {
        assert(n[j].0 == entries[j].0);
    }
}

proof fn lemma_entry_of_push<E>(entries: Seq<(Address, E)>, a: Address, e: E, b: Address)
    requires
        unique_addresses(entries),
        forall|j: int| 0 <= j < entries.len() ==> entries[j].0.bytes@ != a.bytes@,
    ensures
        b.bytes@ != a.bytes@ ==> entry_of(entries.push((a, e)), b) == entry_of(entries, b),
        unique_addresses(entries.push((a, e))),
        entry_of(entries.push((a, e)), a) == Some(e),
{
    let n = entries.push((a, e));
    assert forall|x: int, y: int| 0 <= x < y < n.len() implies (#[trigger] n[x]).0.bytes@ != (
    #[trigger] n[y]).0.bytes@ by {
        assert(n[x].0 == entries[x].0);
    }
    lemma_entry_index(n, a, entries.len() as int);
    if b.bytes@ == a.bytes@ {
    } else if let Some(j) = entry_index(entries, b) {
        lemma_entry_index(entries, b, j);
        assert(n[j] == entries[j]);
        lemma_entry_index(n, b, j);
    } else if let Some(j) = entry_index(n, b) {
        assert(n[j].0 == entries[j].0);
    }
}

/// The latest name given to `a`, or else its hexadecimal form.
pub open spec fn label_of(names: Seq<(Address, String)>, a: Address) -> Seq<char>
    decreases names.len(),
{
    if names.len() == 0 {
        hex_text(a.bytes@)
    } else if names.last().0.bytes@ == a.bytes@ {
        names.last().1@
    } else {
        label_of(names.drop_last(), a)
    }
}

impl Ledger<AccountBalance> {
    /// A ledger of account balances, checked against the balances `state` reports.
    pub fn account_balance(state: AccountBalance) -> (r: Ledger<AccountBalance>)
        ensures
            r.wf(),
            r.entries().len() == 0,
            r.state() == state,
    {
        Ledger::new(state)
    }
}

impl<S: LedgerState> Ledger<S> {
    pub closed spec fn names(&self) -> Seq<(Address, String)> {
        self.names@
    }

    /// The message of a failed verification: a header, then for each entry that does not
    /// hold, in order, a line with its address's label and the error `errs` has for it.
    pub open spec fn report(&self, errs: Seq<Error>, k: nat) -> Seq<char>
        decreases k,
    {
        if k == 0 {
            "Errors in ledger:"@
        } else {
            let j = (k - 1) as int;
            self.report(errs, (k - 1) as nat) + if self.state().holds(
                self.entries()[j].0,
                self.entries()[j].1,
            ) {
                Seq::empty()
            } else {
                "\n"@ + label_of(self.names(), self.entries()[j].0) + ": "@ + crate::error::error_text(errs[j])
            }
        }
    }

    /// This ledger is `old` after synchronizing `address`: its entry exists, and the state
    /// turned the entry it had, or a new instance, into it.
    pub open spec fn synced_from(&self, old: Ledger<S>, address: Address) -> bool {
        entry_of(self.entries(), address) matches Some(e) && self.state().synced(
            address,
            match entry_of(old.entries(), address) {
                Some(x) => x,
                None => self.state().initial(),
            },
            e,
        )
    }

    /// `message` is the report of this ledger for some errors of the failing entries.
    pub open spec fn reports(&self, message: Seq<char>) -> bool {
        exists|errs: Seq<Error>| #[trigger] self.report(errs, self.entries().len()) == message
    }

    pub closed spec fn entries(&self) -> Seq<(Address, S::Entry)> {
        self.entries@
    }

    pub closed spec fn state(&self) -> S {
        self.state
    }

    /// Each address has at most one entry.
    pub closed spec fn wf(&self) -> bool {
        unique_addresses(self.entries@)
    }

    /// Every entry holds.
    pub open spec fn balanced(&self) -> bool {
        forall|i: int|
            0 <= i < self.entries().len() ==> self.state().holds(
                (#[trigger] self.entries()[i]).0,
                self.entries()[i].1,
            )
    }

    /// Construct a new ledger.
    pub fn new(state: S) -> (r: Ledger<S>)
        ensures
            r.wf(),
            r.entries().len() == 0,
            r.state() == state,
    {
        Ledger { state, entries: Vec::new(), names: Vec::new() }
    }

    /// Provide a readable name for an address.
    pub fn name(&mut self, address: Address, name: String)
        ensures
            final(self).entries() == old(self).entries(),
            final(self).state() == old(self).state(),
            old(self).wf() ==> final(self).wf(),
    {
        self.names.push((address, name));
    }

    fn position(&self, a: &Address) -> (r: Option<usize>)
        requires
            self.wf(),
        ensures
            match r {
                Some(i) => i < self.entries@.len() && self.entries@[i as int].0.bytes@ == a.bytes@,
                None => forall|i: int|
                    0 <= i < self.entries@.len() ==> self.entries@[i].0.bytes@ != a.bytes@,
            },
    {
        let mut i: usize = 0;
        while i < self.entries.len()
            invariant
                i <= self.entries@.len(),
                forall|j: int| 0 <= j < i ==> self.entries@[j].0.bytes@ != a.bytes@,
            decreases self.entries@.len() - i,
        {
            if address_eq(&self.entries[i].0, a) {
                return Some(i);
            }
            i += 1;
        }
        None
    }

    /// The human-friendly name of an address, or its hexadecimal form.
    pub fn address_format(&self, address: &Address) -> (r: String)
        ensures
            r@ == label_of(self.names(), *address),
    {
        let mut j: usize = self.names.len();
        assert(self.names@.take(j as int) =~= self.names@);
        while j > 0
            invariant
                j <= self.names@.len(),
                label_of(self.names@, *address) == label_of(self.names@.take(j as int), *address),
            decreases j,
        {
            assert(self.names@.take(j as int).drop_last() =~= self.names@.take(j - 1));
            if address_eq(&self.names[j - 1].0, address) {
                return self.names[j - 1].1.clone();
            }
            j -= 1;
        }
        address_text(address)
    }

    /// Synchronize the entry of an address against the machine, creating it if needed.
    pub fn sync(&mut self, address: Address) -> (r: Result<(), Error>)
        requires
            old(self).wf(),
        ensures
            final(self).wf(),
            final(self).state() == old(self).state(),
            final(self).names() == old(self).names(),
            final(self).synced_from(*old(self), address),
            forall|b: Address|
                b.bytes@ != address.bytes@ ==> #[trigger] entry_of(final(self).entries(), b) == entry_of(
                    old(self).entries(),
                    b,
                ),
    {
        match self.position(&address) {
            Some(i) => {
                let ghost before = self.entries@;
                let (a, mut e) = self.entries.remove(i);
                let ghost old_e = e;
                let r = self.state.sync(address, &mut e);
                self.entries.insert(i, (a, e));
                assert(self.entries@ =~= before.update(i as int, (a, e)));
                proof {
                    lemma_entry_index(before, address, i as int);
                    assert forall|b: Address| b.bytes@ != address.bytes@ implies #[trigger] entry_of(
                        self.entries@,
                        b,
                    ) == entry_of(before, b) by {
                        lemma_entry_of_update(before, i as int, e, b);
                    }
                    assert(self.entries@[i as int].0 == before[i as int].0);
                    assert(unique_addresses(self.entries@));
                    lemma_entry_index(self.entries@, address, i as int);
                }
                assert forall|x: int, y: int|
                    0 <= x < y < self.entries@.len() implies (#[trigger] self.entries@[x]).0.bytes@
                    != (#[trigger] self.entries@[y]).0.bytes@ by {
                    assert(self.entries@[x].0 == before[x].0);
                    assert(self.entries@[y].0 == before[y].0);
                }
                r
            },
            None => {
                let mut e = self.state.new_instance();
                let r = self.state.sync(address, &mut e);
                let ghost before = self.entries@;
                self.entries.push((address, e));
                assert forall|x: int, y: int|
                    0 <= x < y < self.entries@.len() implies (#[trigger] self.entries@[x]).0.bytes@
                    != (#[trigger] self.entries@[y]).0.bytes@ by {
                    if y < before.len() {
                        assert(self.entries@[x] == before[x]);
                        assert(self.entries@[y] == before[y]);
                    } else {
                        assert(self.entries@[x] == before[x]);
                        assert(self.entries@[y].0 == address);
                    }
                }
                proof {
                    assert forall|b: Address| b.bytes@ != address.bytes@ implies #[trigger] entry_of(
                        self.entries@,
                        b,
                    ) == entry_of(before, b) by {
                        lemma_entry_of_push(before, address, e, b);
                    }
                    lemma_entry_of_push(before, address, e, address);
                    assert(entry_index(before, address) is None);
                }
                r
            },
        }
    }

    /// Synchronize several addresses, in order, stopping at the first failure.
    pub fn sync_all(&mut self, addresses: Vec<Address>) -> (r: Result<(), Error>)
        requires
            old(self).wf(),
        ensures
            final(self).wf(),
            final(self).state() == old(self).state(),
            final(self).names() == old(self).names(),
            forall|b: Address|
                (forall|k: int| 0 <= k < addresses@.len() ==> addresses@[k].bytes@ != b.bytes@)
                    ==> #[trigger] entry_of(final(self).entries(), b) == entry_of(old(self).entries(), b),
            r is Ok ==> forall|k: int|
                0 <= k < addresses@.len() ==> #[trigger] entry_of(final(self).entries(), addresses@[k]) is Some,
    {
        let mut i: usize = 0;
        while i < addresses.len()
            invariant
                i <= addresses@.len(),
                self.wf(),
                self.state() == old(self).state(),
                self.names() == old(self).names(),
                forall|b: Address|
                    (forall|k: int| 0 <= k < i ==> addresses@[k].bytes@ != b.bytes@)
                        ==> #[trigger] entry_of(self.entries(), b) == entry_of(old(self).entries(), b),
                forall|k: int| 0 <= k < i ==> #[trigger] entry_of(self.entries(), addresses@[k]) is Some,
            decreases addresses@.len() - i,
        {
            let ghost before = self.entries();
            let a = addresses[i];
            match self.sync(a) {
                Ok(()) => {},
                Err(e) => {
                    return Err(e);
                },
            }
            assert forall|k: int| 0 <= k < i + 1 implies #[trigger] entry_of(self.entries(), addresses@[k]) is Some by {
                if addresses@[k].bytes@ != a.bytes@ {
                    assert(entry_of(self.entries(), addresses@[k]) == entry_of(before, addresses@[k]));
                } else {
                    assert(entry_of(self.entries(), a) is Some);
                    assert(entry_index(self.entries(), addresses@[k]) == entry_index(self.entries(), a));
                }
            }
            i += 1;
        }
        Ok(())
    }

    /// The entry of an address, made from a new instance if there is none.
    pub fn get(&mut self, address: Address) -> (r: &S::Entry)
        requires
            old(self).wf(),
        ensures
            final(self).wf(),
            final(self).state() == old(self).state(),
            final(self).names() == old(self).names(),
            entry_of(final(self).entries(), address) == Some(*r),
            entry_of(old(self).entries(), address) matches Some(e) ==> *r == e
                && final(self).entries() == old(self).entries(),
            entry_of(old(self).entries(), address) is None ==> *r == old(self).state().initial()
                && final(self).entries() == old(self).entries().push((address, *r)),
    {
        match self.position(&address) {
            Some(i) => {
                proof {
                    lemma_entry_index(self.entries@, address, i as int);
                }
                &self.entries[i].1
            },
            None => {
                let e = self.state.new_instance();
                let ghost before = self.entries@;
                self.entries.push((address, e));
                proof {
                    lemma_entry_of_push(before, address, e, address);
                }
                let n = self.entries.len();
                &self.entries[n - 1].1
            },
        }
    }

    /// Go through each registered address and verify its entry; the error names every
    /// address whose entry does not hold.
    pub fn verify(self) -> (r: Result<(), Error>)
        ensures
            r is Ok <==> self.balanced(),
            r is Err ==> (r->Err_0 is Other && self.reports(r->Err_0->Other_message@)),
    {
        let mut message = "Errors in ledger:".to_string();
        let mut failed = false;
        let ghost mut errs: Seq<Error> = Seq::empty();
        let mut i: usize = 0;
        while i < self.entries.len()
            invariant
                i <= self.entries@.len(),
                errs.len() == i,
                message@ == self.report(errs, i as nat),
                !failed <==> forall|j: int|
                    0 <= j < i ==> self.state().holds(
                        (#[trigger] self.entries()[j]).0,
                        self.entries()[j].1,
                    ),
            decreases self.entries@.len() - i,
        {
            let ok = self.state.verify(self.entries[i].0, &self.entries[i].1);
            assert(self.entries()[i as int] == self.entries@[i as int]);
            assert(self.state() == self.state);
            let ghost before = errs;
            match ok {
                Ok(()) => {
                    proof {
                        errs = errs.push(vstd::pervasive::arbitrary());
                    }
                    assert(self.report(before, i as nat) =~= self.report(errs, i as nat)) by {
                        lemma_report_prefix(&self, before, errs, i as nat);
                    }
                    assert(message@ =~= self.report(errs, (i + 1) as nat));
                },
                Err(e) => {
                    let label = self.address_format(&self.entries[i].0);
                    let text = e.text();
                    push_str(&mut message, "\n");
                    push_str(&mut message, label.as_str());
                    push_str(&mut message, ": ");
                    push_str(&mut message, text.as_str());
                    proof {
                        errs = errs.push(e);
                        lemma_report_prefix(&self, before, errs, i as nat);
                    }
                    assert(message@ =~= self.report(errs, (i + 1) as nat));
                    failed = true;
                },
            }
            i += 1;
        }
        if !failed {
            Ok(())
        } else {
            assert(self.report(errs, self.entries().len()) == message@);
            Err(Error::Other { message })
        }
    }
}

proof fn lemma_report_prefix<S: LedgerState>(l: &Ledger<S>, a: Seq<Error>, b: Seq<Error>, k: nat)
    requires
        a.len() >= k,
        b.len() >= k,
        forall|j: int| 0 <= j < k ==> a[j] == b[j],
    ensures
        l.report(a, k) == l.report(b, k),
    decreases k,
{
    if k > 0 {
        lemma_report_prefix(l, a, b, (k - 1) as nat);
    }
}

/// Relies on `String::push_str`: `b` is appended to `a`.
#[verifier::external_body]
fn push_str(a: &mut String, b: &str)
    ensures
        final(a)@ == old(a)@ + b@,
{
    a.push_str(b)
}

impl<S: LedgerState<Entry = U256>> Ledger<S> {
    /// The address has an entry, and it holds.
    pub open spec fn holds_at(&self, a: Address) -> bool {
        entry_index(self.entries(), a) is Some && ({
            let i = entry_index(self.entries(), a)->0;
            self.state().holds(self.entries()[i].0, self.entries()[i].1)
        })
    }

    /// The expected value of an address: its entry, or zero.
    pub open spec fn expected(&self, a: Address) -> nat {
        match entry_index(self.entries(), a) {
            Some(i) => self.entries()[i].1.value(),
            None => 0,
        }
    }

    fn change(&mut self, address: Address, value: U256, add: bool) -> (r: Result<(), Error>)
        requires
            old(self).wf(),
            add ==> old(self).expected(address) + value.value() < word(),
            !add ==> old(self).expected(address) >= value.value(),
        ensures
            final(self).wf(),
            final(self).state() == old(self).state(),
            final(self).expected(address) as int == if add {
                (old(self).expected(address) + value.value()) as int
            } else {
                old(self).expected(address) - value.value()
            },
            forall|b: Address| b.bytes@ != address.bytes@ ==> final(self).expected(b) == old(self).expected(b),
            r is Ok <==> ({
                let i = entry_index(final(self).entries(), address)->0;
                final(self).state().holds(final(self).entries()[i].0, final(self).entries()[i].1)
            }),
            entry_index(final(self).entries(), address) is Some,
    {
        let ghost before = self.entries@;
        let i = match self.position(&address) {
            Some(i) => i,
            None => {
                self.entries.push((address, U256::zero()));
                assert forall|x: int, y: int|
                    0 <= x < y < self.entries@.len() implies (#[trigger] self.entries@[x]).0.bytes@
                    != (#[trigger] self.entries@[y]).0.bytes@ by {}
                proof {
                    assert(entry_index(before, address) is None);
                    assert(self.entries@[before.len() as int].0.bytes@ == address.bytes@);
                }
                self.entries.len() - 1
            },
        };
        proof {
            lemma_entry_index(self.entries@, address, i as int);
            assert forall|b: Address| b.bytes@ != address.bytes@ implies #[trigger] entry_index(
                self.entries@,
                b,
            ) == entry_index(before, b) || (entry_index(before, b) is Some && entry_index(self.entries@, b) is Some && self.entries@[entry_index(self.entries@, b)->0] == before[entry_index(before, b)->0]) by {
                if let Some(j) = entry_index(self.entries@, b) {
                    if j < before.len() {
                        assert(self.entries@[j] == before[j]);
                        lemma_entry_index(before, b, j);
                    }
                } else {
                    if let Some(j) = entry_index(before, b) {
                        assert(self.entries@[j] == before[j]);
                    }
                }
            }
        }
        let ghost mid = self.entries@;
        let current = self.entries[i].1;
        let update = if add {
            checked_add(current, value)
        } else {
            checked_sub(current, value)
        };
        let update = update.unwrap();
        let (a, _) = self.entries.remove(i);
        self.entries.insert(i, (a, update));
        assert(self.entries@ =~= mid.update(i as int, (a, update)));
        assert forall|x: int, y: int|
            0 <= x < y < self.entries@.len() implies (#[trigger] self.entries@[x]).0.bytes@
            != (#[trigger] self.entries@[y]).0.bytes@ by {
            assert(self.entries@[x].0 == mid[x].0);
            assert(self.entries@[y].0 == mid[y].0);
        }
        proof {
            lemma_entry_index(self.entries@, address, i as int);
            assert forall|b: Address| b.bytes@ != address.bytes@ implies entry_index(self.entries@, b) == entry_index(mid, b) by {
                if let Some(j) = entry_index(self.entries@, b) {
                    assert(self.entries@[j].0 == mid[j].0);
                    lemma_entry_index(mid, b, j);
                } else if let Some(j) = entry_index(mid, b) {
                    assert(self.entries@[j].0 == mid[j].0);
                }
            }
        }
        self.state.verify(a, &self.entries[i].1)
    }

    /// Add to the expected balance of an address, then verify it.
    pub fn add(&mut self, address: Address, value: U256) -> (r: Result<(), Error>)
        requires
            old(self).wf(),
            old(self).expected(address) + value.value() < word(),
        ensures
            final(self).wf(),
            final(self).state() == old(self).state(),
            final(self).expected(address) == old(self).expected(address) + value.value(),
            final(self).holds_at(address) <==> r is Ok,
            forall|b: Address| b.bytes@ != address.bytes@ ==> final(self).expected(b) == old(self).expected(b),
    {
        self.change(address, value, true)
    }

    /// Subtract from the expected balance of an address, then verify it.
    pub fn sub(&mut self, address: Address, value: U256) -> (r: Result<(), Error>)
        requires
            old(self).wf(),
            old(self).expected(address) >= value.value(),
        ensures
            final(self).wf(),
            final(self).state() == old(self).state(),
            final(self).expected(address) as int == old(self).expected(address) - value.value(),
            final(self).holds_at(address) <==> r is Ok,
            forall|b: Address| b.bytes@ != address.bytes@ ==> final(self).expected(b) == old(self).expected(b),
    {
        self.change(address, value, false)
    }
}

proof fn lemma_entry_index<E>(entries: Seq<(Address, E)>, a: Address, i: int)
    requires
        0 <= i < entries.len(),
        entries[i].0.bytes@ == a.bytes@,
        forall|x: int, y: int|
            0 <= x < y < entries.len() ==> (#[trigger] entries[x]).0.bytes@ != (#[trigger] entries[y]).0.bytes@,
    ensures
        entry_index(entries, a) == Some(i),
{
    let j = entry_index(entries, a)->0;
    if j != i {
        if j < i {
            assert(entries[j].0.bytes@ != entries[i].0.bytes@);
        } else {
            assert(entries[i].0.bytes@ != entries[j].0.bytes@);
        }
    }
}

/// A ledger of balances verifies exactly when, at every address it tracks, the expected
/// balance equals the balance that the machine reports.
pub proof fn lemma_balance_ledger_verifies(ledger: Ledger<AccountBalance>)
    ensures
        ledger.balanced() <==> forall|i: int|
            0 <= i < ledger.entries().len() ==> (ledger.state().balance_of(
                (#[trigger] ledger.entries()[i]).0,
            ) matches Some(b) && b.value() == ledger.entries()[i].1.value()),
{
}

} // verus!
