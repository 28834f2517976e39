use crate::error::Error;
use crate::linker::Address;
use crate::trace::{any_reverted, ErrorInfo, failed_with, reverted};
use crate::wei::{checked_add, checked_mul, word, U256};
use vstd::prelude::*;

verus! {

/// The outcome of a transaction. Even when transactions fail, they might be using gas.
#[derive(Debug)]
pub enum Outcome<T> {
    Success(T),
    Reverted { error_info: ErrorInfo },
    Errored { error_info: ErrorInfo },
    Status { status: u8 },
}

impl<T> Outcome<T> {
    /// Check if the outcome is a success.
    pub fn is_ok(&self) -> (r: bool)
        ensures
            r == (*self is Success),
    {
        match self {
            Outcome::Success(..) => true,
            _ => false,
        }
    }

    /// Check if the outcome is not a success.
    pub fn is_err(&self) -> (r: bool)
        ensures
            r == !(*self is Success),
    {
        !self.is_ok()
    }

    /// Check if the outcome is reverted.
    pub fn is_reverted(&self) -> (r: bool)
        ensures
            r == (*self is Reverted),
    {
        match self {
            Outcome::Reverted { .. } => true,
            _ => false,
        }
    }
}

/// The trace holds errors and one of them was reverted.
pub open spec fn reverted_case(trace: Seq<ErrorInfo>, status: Option<u8>) -> bool {
    trace.len() > 0 && any_reverted(trace)
}

/// The trace holds errors and none of them was reverted.
pub open spec fn errored_case(trace: Seq<ErrorInfo>, status: Option<u8>) -> bool {
    trace.len() > 0 && !any_reverted(trace)
}

/// No errors, but the receipt carries a status other than 1.
pub open spec fn status_case(trace: Seq<ErrorInfo>, status: Option<u8>) -> bool {
    trace.len() == 0 && (status matches Some(s) && s != 1)
}

/// No errors, and the receipt carries no status or status 1.
pub open spec fn success_case(trace: Seq<ErrorInfo>, status: Option<u8>) -> bool {
    trace.len() == 0 && (status is None || status == Some(1u8))
}

/// Of the four cases a transaction can end in, exactly one holds.
pub proof fn lemma_exactly_one_outcome(trace: Seq<ErrorInfo>, status: Option<u8>)
    ensures
        reverted_case(trace, status) || errored_case(trace, status) || status_case(trace, status)
            || success_case(trace, status),
        !(reverted_case(trace, status) && errored_case(trace, status)),
        !(reverted_case(trace, status) && status_case(trace, status)),
        !(reverted_case(trace, status) && success_case(trace, status)),
        !(errored_case(trace, status) && status_case(trace, status)),
        !(errored_case(trace, status) && success_case(trace, status)),
        !(status_case(trace, status) && success_case(trace, status)),
{
}

fn any_is_reverted(trace: &Vec<ErrorInfo>) -> (r: bool)
    ensures
        r == any_reverted(trace@),
{
    let mut i: usize = 0;
    while i < trace.len()
        invariant
            i <= trace@.len(),
            !any_reverted(trace@.take(i as int)),
        decreases trace@.len() - i,
    {
        assert(trace@.take(i + 1).drop_last() =~= trace@.take(i as int));
        if trace[i].is_reverted() {
            proof {
                lemma_take_reverted(trace@, i + 1);
            }
            return true;
        }
        i += 1;
    }
    assert(trace@.take(i as int) =~= trace@);
    false
}

proof fn lemma_take_reverted(s: Seq<ErrorInfo>, k: int)
    requires
        0 <= k <= s.len(),
        any_reverted(s.take(k)),
    ensures
        any_reverted(s),
    decreases s.len() - k,
{
    if k < s.len() {
        assert(s.take(k + 1).drop_last() =~= s.take(k));
        lemma_take_reverted(s, k + 1);
    } else {
        assert(s.take(k) =~= s);
    }
}

/// `e` is the root over the errors `trace`: no line, no variables.
pub open spec fn is_root_of(e: ErrorInfo, trace: Vec<ErrorInfo>) -> bool {
    &&& e.kind == crate::trace::ErrorKind::Root
    &&& e.line_info is None
    &&& e.subs == trace
    &&& e.variables@.len() == 0
}

/// The outcome of a transaction with the given error trace and receipt status, or `None`
/// when it succeeded and its output is what remains to be decoded.
pub fn classify<T>(trace: Vec<ErrorInfo>, status: Option<u8>) -> (r: Option<Outcome<T>>)
    ensures
        reverted_case(trace@, status) ==> (r matches Some(Outcome::Reverted { error_info })
            && is_root_of(error_info, trace)),
        errored_case(trace@, status) ==> (r matches Some(Outcome::Errored { error_info })
            && is_root_of(error_info, trace)),
        status_case(trace@, status) ==> r == Some(Outcome::<T>::Status { status: status->0 }),
        success_case(trace@, status) ==> r is None,
{
    if trace.len() > 0 {
        if any_is_reverted(&trace) {
            return Some(Outcome::Reverted { error_info: ErrorInfo::new_root(trace) });
        } else {
            return Some(Outcome::Errored { error_info: ErrorInfo::new_root(trace) });
        }
    }
    match status {
        Some(s) => if s != 1 {
            Some(Outcome::Status { status: s })
        } else {
            None
        },
        None => None,
    }
}

/// The result of executing a transaction.
#[derive(Debug)]
pub struct Call<T> {
    /// The outcome of the call.
    pub outcome: Outcome<T>,
    /// Gas used to perform the call.
    pub gas_used: U256,
    /// The price paid for each gas.
    pub gas_price: U256,
    /// Value transmitted during the call.
    pub value: U256,
    /// The sender of the transaction.
    pub sender: Address,
}

impl<T> Call<T> {
    /// The wei spent on gas, or `None` where it does not fit in 256 bits.
    pub fn gas(&self) -> (r: Option<U256>)
        ensures
            self.gas_used.value() * self.gas_price.value() < word() ==> (r matches Some(g) && g.value()
                == self.gas_used.value() * self.gas_price.value()),
            self.gas_used.value() * self.gas_price.value() >= word() ==> r is None,
    {
        checked_mul(self.gas_used, self.gas_price)
    }

    /// The wei that left the sender: the gas, and on success the value too.
    pub fn total(&self) -> (r: Option<U256>)
        ensures
            ({
                let g = self.gas_used.value() * self.gas_price.value();
                let t = if self.outcome is Success {
                    g + self.value.value()
                } else {
                    g
                };
                &&& t < word() ==> (r matches Some(x) && x.value() == t)
                &&& t >= word() ==> r is None
            }),
    {
        let g = match self.gas() {
            Some(g) => g,
            None => {
                return None;
            },
        };
        match self.outcome {
            Outcome::Success(..) => checked_add(self.value, g),
            _ => Some(g),
        }
    }

    /// Check if the outcome is a success.
    pub fn is_ok(&self) -> (r: bool)
        ensures
            r == (self.outcome is Success),
    {
        self.outcome.is_ok()
    }

    /// Check if the outcome is not a success.
    pub fn is_err(&self) -> (r: bool)
        ensures
            r == !(self.outcome is Success),
    {
        self.outcome.is_err()
    }

    /// Check if the outcome is reverted.
    pub fn is_reverted(&self) -> (r: bool)
        ensures
            r == (self.outcome is Reverted),
    {
        self.outcome.is_reverted()
    }

    /// Check that the call reverted at the location `location` on a line that reads `stmt`.
    pub fn is_reverted_with(&self, location: &str, stmt: &str) -> (r: bool)
        ensures
            r == (self.outcome matches Outcome::Reverted { error_info } && reverted(error_info)
                && failed_with(error_info, location@, stmt@)),
    {
        match &self.outcome {
            Outcome::Reverted { error_info } => error_info.is_reverted() && error_info.is_failed_with(
                location,
                stmt,
            ),
            _ => false,
        }
    }

    /// The decoded output of a successful call, or an error that says how it ended.
    pub fn ok(self) -> (r: Result<T, Error>)
        ensures
            self.outcome is Success <==> r is Ok,
            r matches Ok(v) ==> self.outcome == Outcome::Success(v),
    {
        match self.outcome {
            Outcome::Success(value) => Ok(value),
            Outcome::Reverted { .. } => Err(Error::Call { message: "call reverted".to_string() }),
            Outcome::Errored { .. } => Err(Error::Call { message: "call errored".to_string() }),
            Outcome::Status { .. } => Err(
                Error::Call { message: "call returned a status other than 1".to_string() },
            ),
        }
    }
}

/// A 32-byte topic of a log entry.
#[derive(Debug, Clone, Copy, PartialEq, Eq, Hash)]
pub struct H256(pub [u8; 32]);

/// Are the two topics equal?
pub fn h256_eq(a: &H256, b: &H256) -> (r: bool)
    ensures
        r == (a.0@ == b.0@),
{
    let mut i: usize = 0;
    while i < 32
        invariant
            i <= 32,
            a.0@.len() == 32,
            b.0@.len() == 32,
            forall|j: int| 0 <= j < i ==> a.0@[j] == b.0@[j],
        decreases 32 - i,
    {
        if a.0[i] != b.0[i] {
            return false;
        }
        i += 1;
    }
    assert(a.0@ =~= b.0@);
    true
}

/// A log entry: the emitting address, its topics and its data.
#[derive(Debug)]
pub struct LogEntry {
    pub address: Address,
    pub topics: Vec<H256>,
    pub data: Vec<u8>,
}

/// What one topic slot of a filter admits.
#[derive(Debug)]
pub enum Topic {
    Any,
    OneOf(Vec<H256>),
    This(H256),
}

/// Four topic slots; the first one names the event.
#[derive(Debug)]
pub struct TopicFilter {
    pub topic0: Topic,
    pub topic1: Topic,
    pub topic2: Topic,
    pub topic3: Topic,
}

pub open spec fn slot(f: &TopicFilter, i: int) -> &Topic {
    if i == 0 {
        &f.topic0
    } else if i == 1 {
        &f.topic1
    } else if i == 2 {
        &f.topic2
    } else {
        &f.topic3
    }
}

pub open spec fn admits(t: &Topic, h: Seq<u8>) -> bool {
    match t {
        Topic::Any => true,
        Topic::OneOf(ids) => exists|k: int| 0 <= k < ids@.len() && (#[trigger] ids@[k]).0@ == h,
        Topic::This(id) => id.0@ == h,
    }
}

/// A log entry matches a filter when it has at most four topics, each admitted by its slot,
/// and the slots past its topics admit anything.
pub open spec fn filter_matches(f: &TopicFilter, topics: Seq<H256>) -> bool {
    &&& topics.len() <= 4
    &&& forall|i: int| 0 <= i < topics.len() ==> admits(slot(f, i), (#[trigger] topics[i]).0@)
    &&& forall|i: int| topics.len() <= i < 4 ==> #[trigger] slot(f, i) is Any
}

fn slot_exec(f: &TopicFilter, i: usize) -> (r: &Topic)
    requires
        i < 4,
    ensures
        r == slot(f, i as int),
{
    if i == 0 {
        &f.topic0
    } else if i == 1 {
        &f.topic1
    } else if i == 2 {
        &f.topic2
    } else {
        &f.topic3
    }
}

fn admits_exec(t: &Topic, h: &H256) -> (r: bool)
    ensures
        r == admits(t, h.0@),
{
    match t {
        Topic::Any => true,
        Topic::OneOf(ids) => {
            let mut k: usize = 0;
            while k < ids.len()
                invariant
                    k <= ids@.len(),
                    admits(t, h.0@) == exists|j: int| 0 <= j < ids@.len() && (#[trigger] ids@[j]).0@ == h.0@,
                    forall|j: int| 0 <= j < k ==> (#[trigger] ids@[j]).0@ != h.0@,
                decreases ids@.len() - k,
            {
                if h256_eq(&ids[k], h) {
                    assert(ids@[k as int].0@ == h.0@);
                    return true;
                }
                k += 1;
            }
            false
        },
        Topic::This(id) => h256_eq(id, h),
    }
}

/// Does the log entry with the given topics match the filter?
pub fn matches_filter(f: &TopicFilter, topics: &Vec<H256>) -> (r: bool)
    ensures
        r == filter_matches(f, topics@),
{
    if topics.len() > 4 {
        return false;
    }
    let mut i: usize = 0;
    while i < topics.len()
        invariant
            i <= topics@.len() <= 4,
            forall|j: int| 0 <= j < i ==> admits(slot(f, j), (#[trigger] topics@[j]).0@),
        decreases topics@.len() - i,
    {
        if !admits_exec(slot_exec(f, i), &topics[i]) {
            return false;
        }
        i += 1;
    }
    while i < 4
        invariant
            topics@.len() <= i <= 4,
            forall|j: int| 0 <= j < topics@.len() ==> admits(slot(f, j), (#[trigger] topics@[j]).0@),
            forall|j: int| topics@.len() <= j < i ==> #[trigger] slot(f, j) is Any,
        decreases 4 - i,
    {
        match slot_exec(f, i) {
            Topic::Any => {},
            _ => {
                return false;
            },
        }
        i += 1;
    }
    true
}

/// Logs, bucketed by their first topic, in the order they were added.
#[derive(Debug)]
pub struct LogStore {
    buckets: Vec<(H256, Vec<LogEntry>)>,
}

/// The entries of `s` that match the filter, in order.
pub open spec fn matching(s: Seq<LogEntry>, f: &TopicFilter) -> Seq<LogEntry> {
    s.filter(|e: LogEntry| filter_matches(f, e.topics@))
}

/// The entries of `s` that do not match the filter, in order.
pub open spec fn not_matching(s: Seq<LogEntry>, f: &TopicFilter) -> Seq<LogEntry> {
    s.filter(|e: LogEntry| !filter_matches(f, e.topics@))
}

/// The first bucket of `c` with key `t`.
pub open spec fn bucket_of(c: Seq<(Seq<u8>, Seq<LogEntry>)>, t: Seq<u8>) -> Option<int> {
    c.map_values(|p: (Seq<u8>, Seq<LogEntry>)| p.0).index_of_first(t)
}

/// The contents after adding `log` to the bucket of its first topic, a new one at the end
/// if there is none.
pub open spec fn with_log(c: Seq<(Seq<u8>, Seq<LogEntry>)>, log: LogEntry) -> Seq<(Seq<u8>, Seq<LogEntry>)> {
    let t = log.topics@[0].0@;
    match bucket_of(c, t) {
        Some(i) => c.update(i, (t, c[i].1.push(log))),
        None => c.push((t, seq![log])),
    }
}

/// The contents after adding `logs` in order.
pub open spec fn with_logs(c: Seq<(Seq<u8>, Seq<LogEntry>)>, logs: Seq<LogEntry>) -> Seq<(Seq<u8>, Seq<LogEntry>)>
    decreases logs.len(),
{
    if logs.len() == 0 {
        c
    } else {
        with_logs(with_log(c, logs[0]), logs.skip(1))
    }
}

impl LogStore {
    /// The buckets: their keys and their entries, in order.
    pub closed spec fn contents(&self) -> Seq<(Seq<u8>, Seq<LogEntry>)> {
        self.buckets@.map_values(|b: (H256, Vec<LogEntry>)| (b.0.0@, b.1@))
    }

    /// The bucket keys, in order of first appearance.
    pub closed spec fn keys(&self) -> Seq<Seq<u8>> {
        self.buckets@.map_values(|b: (H256, Vec<LogEntry>)| b.0.0@)
    }

    /// The entries of bucket `i`, in order.
    pub closed spec fn bucket(&self, i: int) -> Seq<LogEntry> {
        self.buckets@[i].1@
    }

    pub closed spec fn wf(&self) -> bool {
        &&& forall|i: int, j: int| 0 <= i < j < self.keys().len() ==> self.keys()[i] != self.keys()[j]
        &&& forall|i: int| 0 <= i < self.keys().len() ==> (#[trigger] self.bucket(i)).len() > 0
        &&& forall|i: int, k: int|
            0 <= i < self.keys().len() && 0 <= k < self.bucket(i).len() ==> (#[trigger] self.bucket(
                i,
            )[k]).topics@.len() > 0 && self.bucket(i)[k].topics@[0].0@ == self.keys()[i]
    }

    pub fn new() -> (r: LogStore)
        ensures
            r.wf(),
            r.keys().len() == 0,
    {
        let r = LogStore { buckets: Vec::new() };
        assert(r.keys() =~= Seq::<Seq<u8>>::empty());
        r
    }

    /// Check whether any log is left.
    pub fn has_logs(&self) -> (r: bool)
        requires
            self.wf(),
        ensures
            r == (self.keys().len() > 0),
    {
        self.buckets.len() > 0
    }

    /// The index of the bucket for `topic`.
    fn find_bucket(&self, topic: &H256) -> (r: Option<usize>)
        ensures
            match r {
                Some(i) => i < self.keys().len() && self.keys()[i as int] == topic.0@,
                None => forall|i: int| 0 <= i < self.keys().len() ==> self.keys()[i] != topic.0@,
            },
    {
        let mut i: usize = 0;
        while i < self.buckets.len()
            invariant
                i <= self.buckets@.len(),
                forall|j: int| 0 <= j < i ==> self.keys()[j] != topic.0@,
            decreases self.buckets@.len() - i,
        {
            if h256_eq(&self.buckets[i].0, topic) {
                return Some(i);
            }
            i += 1;
        }
        None
    }

    /// Add a log, in the bucket of its first topic; a log without topics is refused.
    pub fn add_log(&mut self, log: LogEntry) -> (r: Result<(), Error>)
        requires
            old(self).wf(),
        ensures
            final(self).wf(),
            log.topics@.len() == 0 <==> r is Err,
            r is Err ==> *final(self) == *old(self),
            r is Ok ==> final(self).contents() == with_log(old(self).contents(), log),
    {
        if log.topics.len() == 0 {
            return Err(Error::Other { message: "expected at least one topic".to_string() });
        }
        let topic = log.topics[0];
        let ghost key = topic.0@;
        let ghost entry = log;
        proof {
            self.keys().index_of_first_ensures(key);
            assert(self.contents().map_values(|p: (Seq<u8>, Seq<LogEntry>)| p.0) =~= self.keys());
        }
        match self.find_bucket(&topic) {
            Some(i) => {
                proof {
                    let k = self.keys().index_of_first(key)->0;
                    if k != i {
                        assert(self.keys()[k] == self.keys()[i as int]);
                    }
                }
                let ghost before = self.buckets@;
                let (t, mut bucket) = self.buckets.remove(i);
                bucket.push(log);
                self.buckets.insert(i, (t, bucket));
                assert(self.buckets@ =~= before.update(i as int, (t, bucket)));
                assert(self.keys() =~= old(self).keys());
                assert forall|j: int| 0 <= j < self.keys().len() implies (#[trigger] self.bucket(
                    j,
                )).len() > 0 by {
                    if j != i {
                        assert(self.bucket(j) == old(self).bucket(j));
                    }
                }
                assert forall|j: int, k: int|
                    0 <= j < self.keys().len() && 0 <= k < self.bucket(j).len() implies (
                    #[trigger] self.bucket(j)[k]).topics@.len() > 0 && self.bucket(j)[k].topics@[0].0@
                    == self.keys()[j] by {
                    if j != i {
                        assert(self.bucket(j) == old(self).bucket(j));
                    } else if k < old(self).bucket(j).len() {
                        assert(self.bucket(j)[k] == old(self).bucket(j)[k]);
                    }
                }
                assert(self.contents() =~= old(self).contents().update(
                    i as int,
                    (key, old(self).contents()[i as int].1.push(entry)),
                ));
            },
            None => {
                let mut bucket: Vec<LogEntry> = Vec::new();
                bucket.push(log);
                self.buckets.push((topic, bucket));
                assert(self.keys() =~= old(self).keys().push(topic.0@));
                assert forall|j: int| 0 <= j < self.keys().len() implies (#[trigger] self.bucket(
                    j,
                )).len() > 0 by {
                    if j < old(self).keys().len() {
                        assert(self.bucket(j) == old(self).bucket(j));
                    }
                }
                assert forall|j: int, k: int|
                    0 <= j < self.keys().len() && 0 <= k < self.bucket(j).len() implies (
                    #[trigger] self.bucket(j)[k]).topics@.len() > 0 && self.bucket(j)[k].topics@[0].0@
                    == self.keys()[j] by {
                    if j < old(self).keys().len() {
                        assert(self.bucket(j) == old(self).bucket(j));
                    }
                }
                assert(self.contents() =~= old(self).contents().push((key, seq![entry])));
            },
        }
        Ok(())
    }

    /// Add logs in order; a log without topics stops the adding with an error.
    pub fn add_logs(&mut self, logs: Vec<LogEntry>) -> (r: Result<(), Error>)
        requires
            old(self).wf(),
        ensures
            final(self).wf(),
            r is Err <==> exists|i: int| 0 <= i < logs@.len() && (#[trigger] logs@[i]).topics@.len() == 0,
            r is Ok ==> final(self).contents() == with_logs(old(self).contents(), logs@),
    {
        let ghost all = logs@;
        let mut rest = logs;
        let ghost mut k: int = 0;
        assert(all.skip(0) =~= all);
        while rest.len() > 0
            invariant
                self.wf(),
                all == logs@,
                0 <= k <= all.len(),
                rest@ == all.skip(k),
                forall|j: int| 0 <= j < k ==> (#[trigger] all[j]).topics@.len() > 0,
                with_logs(old(self).contents(), all) == with_logs(self.contents(), all.skip(k)),
            decreases rest@.len(),
        {
            let log = rest.remove(0);
            assert(log == all[k]);
            assert(all.skip(k).remove(0) =~= all.skip(k + 1));
            assert(all.skip(k).skip(1) =~= all.skip(k + 1));
            let ghost no_topics = log.topics@.len() == 0;
            match self.add_log(log) {
                Ok(()) => {},
                Err(e) => {
                    assert(all[k].topics@.len() == 0);
                    return Err(e);
                },
            }
            proof {
                k = k + 1;
            }
        }
        assert(k == all.len());
        assert(all.skip(k) =~= Seq::<LogEntry>::empty());
        Ok(())
    }

    /// Take out the logs of the filter's event that match it, in the order they were added;
    /// the others stay. The filter's first slot must name one topic.
    pub fn drain(&mut self, filter: &TopicFilter) -> (r: Result<Vec<LogEntry>, Error>)
        requires
            old(self).wf(),
        ensures
            final(self).wf(),
            !(filter.topic0 is This) <==> r is Err,
            r is Err ==> *final(self) == *old(self),
            r matches Ok(out) ==> ({
                let id = filter.topic0->This_0.0@;
                match old(self).keys().index_of_first(id) {
                    None => out@.len() == 0 && *final(self) == *old(self),
                    Some(i) => {
                        &&& out@ == matching(old(self).bucket(i), filter)
                        &&& if not_matching(old(self).bucket(i), filter).len() == 0 {
                            &&& final(self).keys() == old(self).keys().remove(i)
                            &&& forall|j: int|
                                0 <= j < final(self).keys().len() ==> #[trigger] final(self).bucket(j)
                                    == old(self).bucket(if j < i {
                                    j
                                } else {
                                    j + 1
                                })
                        } else {
                            &&& final(self).keys() == old(self).keys()
                            &&& final(self).bucket(i) == not_matching(old(self).bucket(i), filter)
                            &&& forall|j: int|
                                0 <= j < final(self).keys().len() && j != i ==> #[trigger] final(self).bucket(j) == old(self).bucket(j)
                        }
                    },
                }
            }),
    {
        let id = match &filter.topic0 {
            Topic::This(id) => *id,
            _ => {
                return Err(Error::Other { message: "not an exact topic".to_string() });
            },
        };
        let i = match self.find_bucket(&id) {
            Some(i) => i,
            None => {
                proof {
                    self.keys().index_of_first_ensures(id.0@);
                }
                return Ok(Vec::new());
            },
        };
        proof {
            self.keys().index_of_first_ensures(id.0@);
            assert(self.keys().index_of_first(id.0@) == Some(i as int)) by {
                let k = self.keys().index_of_first(id.0@)->0;
                if k != i {
                    assert(self.keys()[k] == self.keys()[i as int]);
                }
            }
        }
        let ghost entries = self.bucket(i as int);
        let (_, mut logs) = self.buckets.remove(i);
        let mut out: Vec<LogEntry> = Vec::new();
        let mut keep: Vec<LogEntry> = Vec::new();
        let ghost mut k: int = 0;
        proof {
            reveal(Seq::filter);
            assert(entries.take(0) =~= Seq::<LogEntry>::empty());
        }
        while logs.len() > 0
            invariant
                0 <= k <= entries.len(),
                logs@ == entries.skip(k),
                out@ == matching(entries.take(k), filter),
                keep@ == not_matching(entries.take(k), filter),
                forall|j: int| 0 <= j < keep@.len() ==> exists|m: int| 0 <= m < entries.len() && #[trigger] keep@[j] == entries[m],
            decreases logs@.len(),
        {
            let e = logs.remove(0);
            proof {
                reveal(Seq::filter);
                assert(e == entries[k]);
                assert(entries.skip(k).remove(0) =~= entries.skip(k + 1));
                assert(entries.take(k + 1).drop_last() =~= entries.take(k));
                assert(entries.take(k + 1).last() == e);
            }
            let hit = matches_filter(filter, &e.topics);
            if hit {
                out.push(e);
            } else {
                let ghost before = keep@;
                keep.push(e);
                assert forall|j: int| 0 <= j < keep@.len() implies exists|m: int| 0 <= m < entries.len() && #[trigger] keep@[j] == entries[m] by {
                    if j < before.len() {
                        assert(keep@[j] == before[j]);
                    } else {
                        assert(keep@[j] == entries[k]);
                    }
                }
            }
            proof {
                k = k + 1;
            }
        }
        assert(entries.take(k) =~= entries);
        proof {
            reveal(Seq::filter);
        }
        if keep.len() > 0 {
            let ghost before = self.buckets@;
            self.buckets.insert(i, (id, keep));
            assert(self.keys() =~= old(self).keys());
            assert forall|j: int| 0 <= j < self.keys().len() implies (#[trigger] self.bucket(j)).len()
                > 0 by {
                if j != i {
                    assert(self.bucket(j) == old(self).bucket(j));
                }
            }
            assert forall|j: int, m: int|
                0 <= j < self.keys().len() && 0 <= m < self.bucket(j).len() implies (
                #[trigger] self.bucket(j)[m]).topics@.len() > 0 && self.bucket(j)[m].topics@[0].0@
                == self.keys()[j] by {
                if j != i {
                    assert(self.bucket(j) == old(self).bucket(j));
                } else {
                    let q = choose|q: int| 0 <= q < entries.len() && self.bucket(j)[m] == entries[q];
                    assert(old(self).bucket(i as int)[q] == entries[q]);
                }
            }
        } else {
            assert(self.keys() =~= old(self).keys().remove(i as int));
            assert forall|j: int| 0 <= j < self.keys().len() implies (#[trigger] self.bucket(j)).len()
                > 0 by {
                if j < i {
                    assert(self.bucket(j) == old(self).bucket(j));
                } else {
                    assert(self.bucket(j) == old(self).bucket(j + 1));
                }
            }
            assert forall|j: int, m: int|
                0 <= j < self.keys().len() && 0 <= m < self.bucket(j).len() implies (
                #[trigger] self.bucket(j)[m]).topics@.len() > 0 && self.bucket(j)[m].topics@[0].0@
                == self.keys()[j] by {
                if j < i {
                    assert(self.bucket(j) == old(self).bucket(j));
                } else {
                    assert(self.bucket(j) == old(self).bucket(j + 1));
                }
            }
        }
        Ok(out)
    }
}

/// Draining loses no log and invents none: what is taken out and what stays are, together,
/// the logs that were there, and every log taken out matches the filter.
pub proof fn lemma_drain_preserves(entries: Seq<LogEntry>, f: &TopicFilter)
    ensures
        matching(entries, f).to_multiset().add(not_matching(entries, f).to_multiset())
            == entries.to_multiset(),
        forall|k: int|
            0 <= k < matching(entries, f).len() ==> filter_matches(
                f,
                (#[trigger] matching(entries, f)[k]).topics@,
            ),
    decreases entries.len(),
{
    broadcast use vstd::multiset::group_multiset_axioms;
    broadcast use vstd::seq_lib::group_to_multiset_ensures;

    reveal(Seq::filter);
    let p = |e: LogEntry| filter_matches(f, e.topics@);
    entries.lemma_filter_len(p);
    if entries.len() > 0 {
        lemma_drain_preserves(entries.drop_last(), f);
        let last = entries.last();
        assert(entries.drop_last().push(last) =~= entries);
        entries.drop_last().to_multiset_ensures();
        entries.to_multiset_ensures();
        matching(entries.drop_last(), f).to_multiset_ensures();
        not_matching(entries.drop_last(), f).to_multiset_ensures();
        if filter_matches(f, last.topics@) {
            assert(matching(entries, f) == matching(entries.drop_last(), f).push(last));
            assert(not_matching(entries, f) == not_matching(entries.drop_last(), f));
            assert(matching(entries, f).to_multiset().add(not_matching(entries, f).to_multiset())
                =~= entries.to_multiset());
        } else {
            assert(matching(entries, f) == matching(entries.drop_last(), f));
            assert(not_matching(entries, f) == not_matching(entries.drop_last(), f).push(last));
            assert(matching(entries, f).to_multiset().add(not_matching(entries, f).to_multiset())
                =~= entries.to_multiset());
        }
    } else {
        assert(matching(entries, f).to_multiset().add(not_matching(entries, f).to_multiset())
            =~= entries.to_multiset());
    }
    assert forall|k: int| 0 <= k < matching(entries, f).len() implies filter_matches(
        f,
        (#[trigger] matching(entries, f)[k]).topics@,
    ) by {
        entries.lemma_filter_pred(p, k);
    }
}

} // verus!
