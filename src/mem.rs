use vstd::prelude::*;
use vstd::string::*;
use vstd::utf8::*;
use std::collections::VecDeque;

verus! {

/// Why an operation on the in-memory index failed.
#[derive(Clone, Copy, Debug, PartialEq, Eq)]
pub enum MemError {
    MissingQueue,
    AlreadyExists,
    /// The operation cannot follow the queue's current state.
    Corruption,
}

/// Whether two names are the same text, compared byte by byte.
pub fn same_name(a: &str, b: &str) -> (r: bool)
    ensures
        r == (a@ == b@),
{
    let x = a.as_bytes();
    let y = b.as_bytes();
    if x.len() != y.len() {
        return false;
    }
    let mut i: usize = 0;
    while i < x.len()
        invariant
            x@.len() == y@.len(),
            i <= x@.len(),
            x@ == a.spec_bytes(),
            y@ == b.spec_bytes(),
            forall|k: int| 0 <= k < i ==> x@[k] == y@[k],
        decreases x@.len() - i,
    {
        if x[i] != y[i] {
            assert(x@ != y@);
            return false;
        }
        i = i + 1;
    }
    assert(x@ =~= y@);
    proof {
        encode_utf8_decode_utf8(a@);
        encode_utf8_decode_utf8(b@);
    }
    true
}

/// One queue: the live items at positions `start`, `start + 1`, ..., each with
/// the number of the file that holds it.
pub struct MemQueue {
    name: String,
    start: u64,
    files: VecDeque<u64>,
    payloads: VecDeque<Vec<u8>>,
    touch_file: u64,
}

impl MemQueue {
    pub closed spec fn spec_name(&self) -> Seq<char> {
        self.name@
    }

    /// The smallest position still held.
    pub closed spec fn first_retained(&self) -> int {
        self.start as int
    }

    /// The position the next append gets.
    pub closed spec fn next(&self) -> int {
        self.start + self.payloads@.len()
    }

    /// The live payloads, from `first_retained` on.
    pub closed spec fn payloads(&self) -> Seq<Seq<u8>> {
        Seq::new(self.payloads@.len(), |i: int| self.payloads@[i]@)
    }

    /// The file of each live payload.
    pub closed spec fn files(&self) -> Seq<u64> {
        self.files@
    }

    /// The file of the last touch; it pins the queue while it is empty.
    pub closed spec fn touch_file(&self) -> u64 {
        self.touch_file
    }

    /// The smallest file that the queue needs kept.
    pub open spec fn first_file(&self) -> u64 {
        if self.files().len() > 0 {
            self.files()[0]
        } else {
            self.touch_file()
        }
    }

    /// The newest file the queue refers to.
    pub open spec fn last_file(&self) -> u64 {
        if self.files().len() > 0 {
            self.files().last()
        } else {
            self.touch_file()
        }
    }

    /// The live items in `[a, b)`, each with its position.
    pub open spec fn range_items(&self, a: int, b: int) -> Seq<(u64, Seq<u8>)> {
        let lo = if a < self.first_retained() { self.first_retained() } else { a };
        let hi = if b > self.next() { self.next() } else { b };
        let n = if hi > lo { hi - lo } else { 0 };
        Seq::new(n as nat, |k: int| ((lo + k) as u64, self.payloads()[lo + k - self.first_retained()]))
    }

    /// Every file that the queue needs lies in `[lo, hi]`.
    pub open spec fn files_within(&self, lo: int, hi: int) -> bool {
        &&& lo <= self.first_file() <= hi
        &&& lo <= self.touch_file() <= hi
        &&& forall|j: int| 0 <= j < self.files().len() ==> lo <= #[trigger] self.files()[j] <= hi
    }

    pub closed spec fn wf(&self) -> bool {
        &&& self.files@.len() == self.payloads@.len()
        &&& self.next() <= u64::MAX
        &&& forall|i: int, j: int|
            0 <= i <= j < self.files@.len() ==> self.files@[i] <= self.files@[j]
        &&& self.files@.len() > 0 ==> self.touch_file == self.files@[0]
    }

    pub proof fn lemma_wf(&self)
        requires
            self.wf(),
        ensures
            self.first_file() == self.touch_file(),
            forall|j: int| 0 <= j < self.files().len() ==> #[trigger] self.files()[j] <= self.last_file(),
            self.files().len() == self.payloads().len(),
            self.first_retained() <= self.next() <= u64::MAX,
            self.next() == self.first_retained() + self.payloads().len(),
            forall|j: int| 0 <= j < self.files().len() ==> self.first_file() <= #[trigger] self.files()[j],
            0 <= self.first_retained(),
    {
    }

    pub fn name(&self) -> (r: &str)
        ensures
            r@ == self.spec_name(),
    {
        self.name.as_str()
    }

    pub fn next_position(&self) -> (r: u64)
        requires
            self.wf(),
        ensures
            r == self.next(),
    {
        self.start + self.payloads.len() as u64
    }

    pub fn is_empty(&self) -> (r: bool)
        requires
            self.wf(),
        ensures
            r == (self.payloads().len() == 0),
    {
        self.payloads.len() == 0
    }

    fn empty(name: String, position: u64, file: u64) -> (r: MemQueue)
        ensures
            r.wf(),
            r.spec_name() == name@,
            r.first_retained() == position,
            r.next() == position,
            r.payloads().len() == 0,
            r.files().len() == 0,
            r.touch_file() == file,
    {
        MemQueue { name, start: position, files: VecDeque::new(), payloads: VecDeque::new(), touch_file: file }
    }

    fn push(&mut self, file: u64, payload: &[u8])
        requires
            old(self).wf(),
            old(self).next() < u64::MAX,
            file >= old(self).last_file(),
        ensures
            final(self).wf(),
            final(self).spec_name() == old(self).spec_name(),
            final(self).first_retained() == old(self).first_retained(),
            final(self).next() == old(self).next() + 1,
            final(self).payloads() == old(self).payloads().push(payload@),
            final(self).files() == old(self).files().push(file),
            old(self).files().len() > 0 ==> final(self).touch_file() == old(self).touch_file(),
            old(self).files().len() == 0 ==> final(self).touch_file() == file,
    {
        proof {
            self.lemma_wf();
        }
        if self.files.len() == 0 {
            self.touch_file = file;
        }
        self.files.push_back(file);
        self.payloads.push_back(vstd::slice::slice_to_vec(payload));
        assert(self.payloads() =~= old(self).payloads().push(payload@));
    }

    /// Drops every item at a position up to and including `position`.
    fn truncate(&mut self, position: u64)
        requires
            old(self).wf(),
        ensures
            final(self).wf(),
            ({
                let o = old(self);
                let k = if position < o.first_retained() {
                    0
                } else if position - o.first_retained() + 1 >= o.payloads().len() {
                    o.payloads().len() as int
                } else {
                    position - o.first_retained() + 1
                };
                &&& final(self).spec_name() == o.spec_name()
                &&& final(self).first_retained() == o.first_retained() + k
                &&& final(self).next() == o.next()
                &&& final(self).payloads() == o.payloads().subrange(k, o.payloads().len() as int)
                &&& final(self).files() == o.files().subrange(k, o.files().len() as int)
                &&& final(self).files().len() == 0 ==> final(self).touch_file() == o.first_file()
                &&& final(self).files().len() > 0 ==> final(self).touch_file() == final(self).files()[0]
            }),
    {
        proof {
            self.lemma_wf();
        }
        if position < self.start {
            return;
        }
        let n = self.payloads.len();
        let k: usize = if (position - self.start) as u128 + 1 >= n as u128 {
            n
        } else {
            (position - self.start + 1) as usize
        };
        let ghost files0 = self.files@;
        let ghost payloads0 = self.payloads@;
        let mut t: usize = 0;
        while t < k
            invariant
                t <= k <= n,
                files0.len() == n,
                payloads0.len() == n,
                self.files@ == files0.subrange(t as int, n as int),
                self.payloads@ == payloads0.subrange(t as int, n as int),
                files0 == old(self).files@,
                payloads0 == old(self).payloads@,
                old(self).wf(),
                self.start == old(self).start,
                self.name == old(self).name,
                self.touch_file == old(self).touch_file,
                n == old(self).payloads@.len(),
            decreases k - t,
        {
            let _ = self.files.pop_front();
            let _ = self.payloads.pop_front();
            assert(self.files@ =~= files0.subrange(t + 1, n as int));
            assert(self.payloads@ =~= payloads0.subrange(t + 1, n as int));
            t = t + 1;
        }
        self.start = self.start + k as u64;
        if self.files.len() > 0 {
            self.touch_file = self.files[0];
        }
        assert(self.payloads() =~= old(self).payloads().subrange(k as int, n as int));
    }

    pub fn first_file_number(&self) -> (r: u64)
        requires
            self.wf(),
        ensures
            r == self.first_file(),
    {
        if self.files.len() > 0 {
            self.files[0]
        } else {
            self.touch_file
        }
    }
}

/// The in-memory index: every queue, by its unique name.
pub struct MemQueues {
    queues: Vec<MemQueue>,
}

impl MemQueues {
    pub closed spec fn queue_seq(&self) -> Seq<MemQueue> {
        self.queues@
    }

    pub open spec fn has(&self, name: Seq<char>) -> bool {
        exists|i: int| 0 <= i < self.queue_seq().len() && #[trigger] self.queue_seq()[i].spec_name() == name
    }

    /// The queue with that name (meaningful where `has(name)`).
    pub open spec fn get(&self, name: Seq<char>) -> MemQueue {
        self.queue_seq()[choose|i: int|
            0 <= i < self.queue_seq().len() && #[trigger] self.queue_seq()[i].spec_name() == name]
    }

    pub open spec fn wf(&self) -> bool {
        &&& forall|i: int| 0 <= i < self.queue_seq().len() ==> #[trigger] self.queue_seq()[i].wf()
        &&& forall|i: int, j: int|
            0 <= i < j < self.queue_seq().len() ==> self.queue_seq()[i].spec_name()
                != self.queue_seq()[j].spec_name()
    }

    /// Every file that any queue needs lies in `[lo, hi]`.
    pub open spec fn files_within(&self, lo: int, hi: int) -> bool {
        forall|i: int| 0 <= i < self.queue_seq().len() ==> #[trigger] self.queue_seq()[i].files_within(lo, hi)
    }

    /// `other` is `self` with the queue `name` alone changed, or removed.
    pub open spec fn same_except(&self, other: &MemQueues, name: Seq<char>) -> bool {
        forall|n: Seq<char>|
            n != name ==> (#[trigger] other.has(n) == self.has(n)) && (self.has(n) ==> other.get(n)
                == self.get(n))
    }

    pub proof fn lemma_get_at(&self, i: int)
        requires
            self.wf(),
            0 <= i < self.queue_seq().len(),
        ensures
            self.has(self.queue_seq()[i].spec_name()),
            self.get(self.queue_seq()[i].spec_name()) == self.queue_seq()[i],
    {
        let n = self.queue_seq()[i].spec_name();
        assert(self.queue_seq()[i].spec_name() == n);
        let j = choose|j: int| 0 <= j < self.queue_seq().len() && #[trigger] self.queue_seq()[j].spec_name() == n;
        if j != i {
            assert(self.queue_seq()[j].spec_name() == n);
        }
    }

    pub proof fn lemma_get_wf(&self, name: Seq<char>)
        requires
            self.wf(),
            self.has(name),
        ensures
            self.get(name).wf(),
            self.get(name).spec_name() == name,
    {
    }

    pub fn new() -> (r: MemQueues)
        ensures
            r.wf(),
            r.queue_seq().len() == 0,
            forall|n: Seq<char>| !r.has(n),
    {
        MemQueues { queues: Vec::new() }
    }

    /// The index of the queue with that name.
    fn find(&self, name: &str) -> (r: Option<usize>)
        requires
            self.wf(),
        ensures
            r is None <==> !self.has(name@),
            r matches Some(i) ==> i < self.queue_seq().len() && self.queue_seq()[i as int].spec_name()
                == name@ && self.get(name@) == self.queue_seq()[i as int],
    {
        let mut i: usize = 0;
        while i < self.queues.len()
            invariant
                self.wf(),
                i <= self.queue_seq().len(),
                forall|k: int| 0 <= k < i ==> self.queue_seq()[k].spec_name() != name@,
            decreases self.queue_seq().len() - i,
        {
            if same_name(self.queues[i].name.as_str(), name) {
                proof {
                    self.lemma_get_at(i as int);
                }
                return Some(i);
            }
            i = i + 1;
        }
        None
    }

    pub fn contains_queue(&self, name: &str) -> (r: bool)
        requires
            self.wf(),
        ensures
            r == self.has(name@),
    {
        self.find(name).is_some()
    }

    /// The names of all queues.
    pub fn list_queues(&self) -> (r: Vec<&str>)
        requires
            self.wf(),
        ensures
            r@.len() == self.queue_seq().len(),
            forall|n: Seq<char>| self.has(n) <==> exists|i: int| 0 <= i < r@.len() && #[trigger] r@[i]@ == n,
    {
        let mut out: Vec<&str> = Vec::new();
        let mut i: usize = 0;
        while i < self.queues.len()
            invariant
                i <= self.queue_seq().len(),
                out@.len() == i,
                forall|k: int| 0 <= k < i ==> #[trigger] out@[k]@ == self.queue_seq()[k].spec_name(),
            decreases self.queue_seq().len() - i,
        {
            out.push(self.queues[i].name());
            i = i + 1;
        }
        assert forall|n: Seq<char>| self.has(n) <==> exists|i: int| 0 <= i < out@.len() && #[trigger] out@[i]@ == n by {
            if self.has(n) {
                let k = choose|k: int| 0 <= k < self.queue_seq().len() && #[trigger] self.queue_seq()[k].spec_name() == n;
                assert(out@[k]@ == n);
            }
            if exists|i: int| 0 <= i < out@.len() && #[trigger] out@[i]@ == n {
                let k = choose|k: int| 0 <= k < out@.len() && #[trigger] out@[k]@ == n;
                assert(self.queue_seq()[k].spec_name() == n);
            }
        }
        out
    }

    pub fn next_position(&self, name: &str) -> (r: Result<u64, MemError>)
        requires
            self.wf(),
        ensures
            !self.has(name@) ==> r == Err::<u64, MemError>(MemError::MissingQueue),
            self.has(name@) ==> r == Ok::<u64, MemError>(self.get(name@).next() as u64),
    {
        match self.find(name) {
            None => Err(MemError::MissingQueue),
            Some(i) => {
                proof {
                    self.queues@[i as int].lemma_wf();
                }
                Ok(self.queues[i].next_position())
            },
        }
    }
}

impl MemQueues {
    proof fn lemma_update(old_q: &MemQueues, new_q: &MemQueues, i: int, q: MemQueue)
        requires
            old_q.wf(),
            0 <= i < old_q.queue_seq().len(),
            q.wf(),
            q.spec_name() == old_q.queue_seq()[i].spec_name(),
            new_q.queue_seq() == old_q.queue_seq().update(i, q),
        ensures
            new_q.wf(),
            new_q.has(q.spec_name()),
            new_q.get(q.spec_name()) == q,
            old_q.same_except(new_q, q.spec_name()),
    {
        assert(new_q.wf());
        new_q.lemma_get_at(i);
        assert forall|n: Seq<char>| n != q.spec_name() implies (#[trigger] new_q.has(n) == old_q.has(n)) && (
        old_q.has(n) ==> new_q.get(n) == old_q.get(n)) by {
            if old_q.has(n) {
                let j = choose|j: int| 0 <= j < old_q.queue_seq().len() && #[trigger] old_q.queue_seq()[j].spec_name() == n;
                old_q.lemma_get_at(j);
                new_q.lemma_get_at(j);
            }
            if new_q.has(n) {
                let j = choose|j: int| 0 <= j < new_q.queue_seq().len() && #[trigger] new_q.queue_seq()[j].spec_name() == n;
                assert(old_q.queue_seq()[j].spec_name() == n);
            }
        }
    }

    /// Adds an empty queue whose first file is `file`.
    pub fn create_queue(&mut self, name: &str, file: u64) -> (r: Result<(), MemError>)
        requires
            old(self).wf(),
        ensures
            final(self).wf(),
            old(self).has(name@) ==> r == Err::<(), MemError>(MemError::AlreadyExists) && *final(self) == *old(self),
            !old(self).has(name@) ==> {
                let q = final(self).get(name@);
                &&& r is Ok
                &&& final(self).has(name@)
                &&& q.next() == 0 && q.first_retained() == 0 && q.payloads().len() == 0
                &&& q.first_file() == file
                &&& old(self).same_except(final(self), name@)
            },
    {
        if self.find(name).is_some() {
            return Err(MemError::AlreadyExists);
        }
        let q = MemQueue::empty(name.to_owned(), 0, file);
        self.push_queue(q);
        Ok(())
    }

    fn push_queue(&mut self, q: MemQueue)
        requires
            old(self).wf(),
            q.wf(),
            !old(self).has(q.spec_name()),
        ensures
            final(self).wf(),
            final(self).has(q.spec_name()),
            final(self).get(q.spec_name()) == q,
            old(self).same_except(final(self), q.spec_name()),
    {
        let ghost o = *self;
        let ghost name = q.spec_name();
        self.queues.push(q);
        proof {
            assert forall|i: int| 0 <= i < o.queue_seq().len() implies o.queue_seq()[i].spec_name() != name by {
                if o.queue_seq()[i].spec_name() == name {
                    assert(o.has(name));
                }
            }
            self.lemma_get_at(o.queue_seq().len() as int);
            assert forall|n: Seq<char>| n != name implies (#[trigger] self.has(n) == o.has(n)) && (o.has(n)
                ==> self.get(n) == o.get(n)) by {
                if o.has(n) {
                    let j = choose|j: int| 0 <= j < o.queue_seq().len() && #[trigger] o.queue_seq()[j].spec_name() == n;
                    o.lemma_get_at(j);
                    assert(self.queue_seq()[j] == o.queue_seq()[j]);
                    self.lemma_get_at(j);
                }
                if self.has(n) {
                    let j = choose|j: int| 0 <= j < self.queue_seq().len() && #[trigger] self.queue_seq()[j].spec_name() == n;
                    assert(o.queue_seq()[j].spec_name() == n);
                }
            }
        }
    }

    /// Removes a queue and all it holds.
    pub fn delete_queue(&mut self, name: &str) -> (r: Result<(), MemError>)
        requires
            old(self).wf(),
        ensures
            final(self).wf(),
            !old(self).has(name@) ==> r == Err::<(), MemError>(MemError::MissingQueue) && *final(self) == *old(self),
            old(self).has(name@) ==> r is Ok && !final(self).has(name@) && old(self).same_except(final(self), name@),
    {
        let i = match self.find(name) {
            None => return Err(MemError::MissingQueue),
            Some(i) => i,
        };
        let ghost o = *self;
        let _removed = self.queues.remove(i);
        proof {
            assert(self.wf()) by {
                assert forall|a: int, b: int| 0 <= a < b < self.queue_seq().len() implies self.queue_seq()[a].spec_name()
                    != self.queue_seq()[b].spec_name() by {
                    let a2 = if a < i { a } else { a + 1 };
                    let b2 = if b < i { b } else { b + 1 };
                    assert(self.queue_seq()[a] == o.queue_seq()[a2]);
                    assert(self.queue_seq()[b] == o.queue_seq()[b2]);
                }
            }
            assert forall|n: Seq<char>| n != name@ implies (#[trigger] self.has(n) == o.has(n)) && (o.has(n)
                ==> self.get(n) == o.get(n)) by {
                if o.has(n) {
                    let j = choose|j: int| 0 <= j < o.queue_seq().len() && #[trigger] o.queue_seq()[j].spec_name() == n;
                    o.lemma_get_at(j);
                    let j2 = if j < i { j } else { j - 1 };
                    assert(j != i);
                    assert(self.queue_seq()[j2] == o.queue_seq()[j]);
                    self.lemma_get_at(j2);
                }
                if self.has(n) {
                    let j = choose|j: int| 0 <= j < self.queue_seq().len() && #[trigger] self.queue_seq()[j].spec_name() == n;
                    let j2 = if j < i { j } else { j + 1 };
                    assert(o.queue_seq()[j2].spec_name() == n);
                }
            }
            o.lemma_get_at(i as int);
            if self.has(name@) {
                let j = choose|j: int| 0 <= j < self.queue_seq().len() && #[trigger] self.queue_seq()[j].spec_name() == name@;
                let j2 = if j < i { j } else { j + 1 };
                assert(self.queue_seq()[j] == o.queue_seq()[j2]);
                assert(o.queue_seq()[j2].spec_name() == name@);
                assert(o.queue_seq()[i as int].spec_name() == name@);
                if j2 < i {
                    assert(o.queue_seq()[j2].spec_name() != o.queue_seq()[i as int].spec_name());
                } else {
                    assert(o.queue_seq()[i as int].spec_name() != o.queue_seq()[j2].spec_name());
                }
            }
        }
        Ok(())
    }

    /// Appends `payload` at `position`, which must be the queue's next position;
    /// `file` may not be older than the files the queue already refers to.
    pub fn append_record(&mut self, name: &str, file: u64, position: u64, payload: &[u8]) -> (r: Result<(), MemError>)
        requires
            old(self).wf(),
        ensures
            final(self).wf(),
            r is Err ==> *final(self) == *old(self),
            !old(self).has(name@) ==> r == Err::<(), MemError>(MemError::MissingQueue),
            old(self).has(name@) ==> {
                let o = old(self).get(name@);
                let q = final(self).get(name@);
                &&& (position != o.next() || position == u64::MAX || file < o.last_file()) ==> r == Err::<(), MemError>(MemError::Corruption)
                &&& r is Ok <==> (position == o.next() && position < u64::MAX && file >= o.last_file())
                &&& r is Ok ==> {
                    &&& final(self).has(name@)
                    &&& q.first_retained() == o.first_retained()
                    &&& q.next() == o.next() + 1
                    &&& q.payloads() == o.payloads().push(payload@)
                    &&& q.files() == o.files().push(file)
                    &&& q.first_file() == (if o.payloads().len() == 0 { file } else { o.first_file() })
                    &&& q.touch_file() == (if o.payloads().len() == 0 { file } else { o.touch_file() })
                    &&& old(self).same_except(final(self), name@)
                }
            },
    {
        let i = match self.find(name) {
            None => return Err(MemError::MissingQueue),
            Some(i) => i,
        };
        proof {
            self.queues@[i as int].lemma_wf();
        }
        let next = self.queues[i].next_position();
        if position != next || position == u64::MAX {
            return Err(MemError::Corruption);
        }
        let last = if self.queues[i].files.len() > 0 {
            let n = self.queues[i].files.len();
            self.queues[i].files[n - 1]
        } else {
            self.queues[i].touch_file
        };
        if file < last {
            return Err(MemError::Corruption);
        }
        let ghost o = *self;
        self.queues[i].push(file, payload);
        proof {
            MemQueues::lemma_update(&o, self, i as int, self.queues@[i as int]);
            o.queue_seq()[i as int].lemma_wf();
        }
        Ok(())
    }

    /// Records the next position of a queue, creating it if it is absent; an
    /// empty queue moves to `position` and is pinned to `file`.
    pub fn touch(&mut self, name: &str, position: u64, file: u64) -> (r: Result<(), MemError>)
        requires
            old(self).wf(),
        ensures
            final(self).wf(),
            r is Err ==> *final(self) == *old(self),
            !old(self).has(name@) || old(self).get(name@).payloads().len() == 0 ==> {
                let q = final(self).get(name@);
                &&& r is Ok
                &&& final(self).has(name@)
                &&& q.first_retained() == position && q.next() == position
                &&& q.payloads().len() == 0
                &&& q.first_file() == file
                &&& old(self).same_except(final(self), name@)
            },
            old(self).has(name@) ==> final(self).queue_seq().len() == old(self).queue_seq().len(),
            old(self).has(name@) ==> forall|k: int|
                0 <= k < old(self).queue_seq().len() ==> (#[trigger] final(self).queue_seq()[k]).spec_name()
                    == old(self).queue_seq()[k].spec_name(),
            old(self).has(name@) && old(self).get(name@).payloads().len() > 0 ==> {
                &&& r is Ok <==> position == old(self).get(name@).next()
                &&& r is Err ==> r == Err::<(), MemError>(MemError::Corruption)
                &&& *final(self) == *old(self)
            },
    {
        match self.find(name) {
            None => {
                let q = MemQueue::empty(name.to_owned(), position, file);
                self.push_queue(q);
                Ok(())
            },
            Some(i) => {
                proof {
                    self.queues@[i as int].lemma_wf();
                }
                if self.queues[i].payloads.len() == 0 {
                    let ghost o = *self;
                    self.queues[i].start = position;
                    self.queues[i].touch_file = file;
                    assert(self.queue_seq() =~= o.queue_seq().update(i as int, self.queues@[i as int]));
                    proof {
                        MemQueues::lemma_update(&o, self, i as int, self.queues@[i as int]);
                    }
                    Ok(())
                } else if position == self.queues[i].next_position() {
                    Ok(())
                } else {
                    Err(MemError::Corruption)
                }
            },
        }
    }

    /// Drops the items of a queue up to and including `position`; nothing
    /// happens to an absent queue.
    pub fn truncate(&mut self, name: &str, position: u64)
        requires
            old(self).wf(),
        ensures
            final(self).wf(),
            !old(self).has(name@) ==> *final(self) == *old(self),
            old(self).has(name@) ==> {
                let o = old(self).get(name@);
                let q = final(self).get(name@);
                let k = if position < o.first_retained() {
                    0
                } else if position - o.first_retained() + 1 >= o.payloads().len() {
                    o.payloads().len() as int
                } else {
                    position - o.first_retained() + 1
                };
                &&& final(self).has(name@)
                &&& q.first_retained() == o.first_retained() + k
                &&& q.next() == o.next()
                &&& q.payloads() == o.payloads().subrange(k, o.payloads().len() as int)
                &&& q.files() == o.files().subrange(k, o.files().len() as int)
                &&& forall|lo: int, hi: int| o.files_within(lo, hi) ==> #[trigger] q.files_within(lo, hi)
                &&& q.touch_file() == (if q.files().len() > 0 { q.files()[0] } else { o.first_file() })
                &&& old(self).same_except(final(self), name@)
            },
    {
        if let Some(i) = self.find(name) {
            let ghost o = *self;
            proof {
                self.queues@[i as int].lemma_wf();
            }
            self.queues[i].truncate(position);
            proof {
                MemQueues::lemma_update(&o, self, i as int, self.queues@[i as int]);
                self.queues@[i as int].lemma_wf();
                let oq = o.queue_seq()[i as int];
                let nq = self.queue_seq()[i as int];
                assert forall|lo: int, hi: int| oq.files_within(lo, hi) implies #[trigger] nq.files_within(lo, hi) by {
                    if nq.files().len() > 0 {
                        assert(nq.files()[0] == oq.files()[nq.first_retained() - oq.first_retained()]);
                    }
                    assert forall|j: int| 0 <= j < nq.files().len() implies lo <= #[trigger] nq.files()[j] <= hi by {
                        assert(nq.files()[j] == oq.files()[j + nq.first_retained() - oq.first_retained()]);
                    }
                }
            }
        }
    }

    /// The live items of a queue at positions in `[start, end)`, or `None`
    /// for an absent queue.
    pub fn range(&self, name: &str, start: u64, end: u64) -> (r: Option<Vec<(u64, &[u8])>>)
        requires
            self.wf(),
        ensures
            r is None <==> !self.has(name@),
            r matches Some(v) ==> v@.len() == self.get(name@).range_items(start as int, end as int).len()
                && forall|k: int| 0 <= k < v@.len() ==> (#[trigger] v@[k]).0 == self.get(name@).range_items(
                start as int, end as int)[k].0 && v@[k].1@ == self.get(name@).range_items(start as int, end as int)[k].1,
    {
        let i = match self.find(name) {
            None => return None,
            Some(i) => i,
        };
        let q = &self.queues[i];
        proof {
            q.lemma_wf();
        }
        let ghost items = q.range_items(start as int, end as int);
        let next = q.next_position();
        let lo = if start < q.start { q.start } else { start };
        let hi = if end > next { next } else { end };
        let count = q.payloads.len();
        let mut out: Vec<(u64, &[u8])> = Vec::new();
        let mut p = lo;
        while p < hi
            invariant
                q.wf(),
                count == q.payloads@.len(),
                q == self.get(name@),
                items == q.range_items(start as int, end as int),
                q.first_retained() <= lo <= p,
                hi <= q.next(),
                lo == (if start < q.first_retained() { q.first_retained() } else { start as int }),
                hi == (if end > q.next() { q.next() } else { end as int }),
                lo <= hi ==> p <= hi,
                lo > hi ==> p == lo,
                lo <= hi ==> out@.len() == p - lo,
                lo > hi ==> out@.len() == 0,
                forall|k: int| 0 <= k < out@.len() ==> (#[trigger] out@[k]).0 == items[k].0 && out@[k].1@ == items[k].1,
            decreases hi - p,
        {
            assert(p - q.start < count);
            let idx = (p - q.start) as usize;
            out.push((p, q.payloads[idx].as_slice()));
            proof {
                let k = p - lo;
                assert(k < items.len());
                assert(items[k] == ((lo + k) as u64, q.payloads()[lo + k - q.first_retained()]));
                assert(lo + k - q.first_retained() == idx);
                assert(q.payloads()[idx as int] == q.payloads@[idx as int]@);
                assert(items[k].0 == p);
                assert(items[k].1 == q.payloads@[idx as int]@);
            }
            p = p + 1;
        }
        if lo <= hi {
            assert(p == hi);
            assert(items.len() == hi - lo);
        } else {
            assert(items.len() == 0);
        }
        Some(out)
    }

    /// The smallest first file over all queues, or `None` when there is no queue.
    pub fn min_first_file(&self) -> (r: Option<u64>)
        requires
            self.wf(),
        ensures
            r is None <==> self.queue_seq().len() == 0,
            r matches Some(m) ==> (forall|i: int| 0 <= i < self.queue_seq().len() ==> m <= (#[trigger] self.queue_seq()[i]).first_file())
                && exists|i: int| 0 <= i < self.queue_seq().len() && m == (#[trigger] self.queue_seq()[i]).first_file(),
    {
        if self.queues.len() == 0 {
            return None;
        }
        assert(self.queue_seq()[0].wf());
        let mut m = self.queues[0].first_file_number();
        let mut i: usize = 1;
        while i < self.queues.len()
            invariant
                self.wf(),
                1 <= i <= self.queue_seq().len(),
                forall|k: int| 0 <= k < i ==> m <= (#[trigger] self.queue_seq()[k]).first_file(),
                exists|k: int| 0 <= k < i && m == (#[trigger] self.queue_seq()[k]).first_file(),
            decreases self.queue_seq().len() - i,
        {
            assert(self.queue_seq()[i as int].wf());
            let f = self.queues[i].first_file_number();
            if f < m {
                m = f;
            }
            i = i + 1;
        }
        Some(m)
    }
}

/// The bytes of a queue name fit the two-byte length of a frame header.
pub open spec fn name_fits(name: Seq<char>) -> bool {
    encode_utf8(name).len() <= u16::MAX
}

impl MemQueues {
    pub open spec fn names_fit(&self) -> bool {
        forall|i: int| 0 <= i < self.queue_seq().len() ==> name_fits(#[trigger] self.queue_seq()[i].spec_name())
    }

    /// After a change to the queue `name` alone, the bounds on files and names
    /// carry over from the other queues.
    pub proof fn lemma_carry_over(old_q: &MemQueues, new_q: &MemQueues, name: Seq<char>, lo: int, hi: int, hi2: int)
        requires
            old_q.wf(),
            new_q.wf(),
            old_q.same_except(new_q, name),
            old_q.files_within(lo, hi),
            old_q.names_fit(),
            hi <= hi2,
            new_q.has(name) ==> new_q.get(name).files_within(lo, hi2) && name_fits(name),
        ensures
            new_q.files_within(lo, hi2),
            new_q.names_fit(),
    {
        assert forall|i: int| 0 <= i < new_q.queue_seq().len() implies #[trigger] new_q.queue_seq()[i].files_within(lo, hi2)
            && name_fits(new_q.queue_seq()[i].spec_name()) by {
            let n = new_q.queue_seq()[i].spec_name();
            new_q.lemma_get_at(i);
            if n != name {
                assert(old_q.has(n) == new_q.has(n));
                let j = choose|j: int| 0 <= j < old_q.queue_seq().len() && #[trigger] old_q.queue_seq()[j].spec_name() == n;
                old_q.lemma_get_at(j);
                assert(old_q.queue_seq()[j].files_within(lo, hi));
                assert(name_fits(old_q.queue_seq()[j].spec_name()));
            }
        }
        assert forall|i: int| 0 <= i < new_q.queue_seq().len() implies name_fits(#[trigger] new_q.queue_seq()[i].spec_name()) by {
            assert(new_q.queue_seq()[i].files_within(lo, hi2));
        }
    }

    /// Bounds on files stay true under a larger upper bound.
    pub proof fn lemma_widen(&self, lo: int, hi: int, hi2: int)
        requires
            self.files_within(lo, hi),
            hi <= hi2,
        ensures
            self.files_within(lo, hi2),
    {
        assert forall|i: int| 0 <= i < self.queue_seq().len() implies #[trigger] self.queue_seq()[i].files_within(lo, hi2) by {
            assert(self.queue_seq()[i].files_within(lo, hi));
        }
    }

    pub fn queue_count(&self) -> (r: usize)
        ensures
            r == self.queue_seq().len(),
    {
        self.queues.len()
    }

    pub fn queue_at(&self, i: usize) -> (r: &MemQueue)
        requires
            i < self.queue_seq().len(),
        ensures
            *r == self.queue_seq()[i as int],
    {
        &self.queues[i]
    }
}

/// What the index holds for one queue: the first position retained, the
/// live payloads, the file of each, and the file of the last touch.
pub open spec fn queue_view(q: MemQueue) -> (int, Seq<Seq<u8>>, Seq<u64>, u64) {
    (q.first_retained(), q.payloads(), q.files(), q.touch_file())
}

pub open spec fn view_next(v: (int, Seq<Seq<u8>>, Seq<u64>, u64)) -> int {
    v.0 + v.1.len()
}

pub open spec fn view_first_file(v: (int, Seq<Seq<u8>>, Seq<u64>, u64)) -> u64 {
    if v.2.len() > 0 { v.2[0] } else { v.3 }
}

pub open spec fn view_last_file(v: (int, Seq<Seq<u8>>, Seq<u64>, u64)) -> u64 {
    if v.2.len() > 0 { v.2.last() } else { v.3 }
}

/// The index after a touch of `q` at `position` from file `file`, or `None`
/// where `q` holds items and `position` is not its next position.
pub open spec fn touch_spec(
    m: Map<Seq<char>, (int, Seq<Seq<u8>>, Seq<u64>, u64)>,
    q: Seq<char>,
    position: u64,
    file: u64,
) -> Option<Map<Seq<char>, (int, Seq<Seq<u8>>, Seq<u64>, u64)>> {
    if !m.contains_key(q) || m[q].1.len() == 0 {
        Some(m.insert(q, (position as int, Seq::empty(), Seq::empty(), file)))
    } else if position == view_next(m[q]) {
        Some(m)
    } else {
        None
    }
}

/// The index after dropping the items of `q` up to and including `position`.
pub open spec fn truncate_spec(
    m: Map<Seq<char>, (int, Seq<Seq<u8>>, Seq<u64>, u64)>,
    q: Seq<char>,
    position: u64,
) -> Map<Seq<char>, (int, Seq<Seq<u8>>, Seq<u64>, u64)> {
    if !m.contains_key(q) {
        m
    } else {
        let v = m[q];
        let len = v.1.len() as int;
        let k = if position < v.0 {
            0
        } else if position - v.0 + 1 >= len {
            len
        } else {
            position - v.0 + 1
        };
        let files = v.2.subrange(k, len);
        m.insert(
            q,
            (v.0 + k, v.1.subrange(k, len), files, if files.len() > 0 { files[0] } else { view_first_file(v) }),
        )
    }
}

/// The index after appending `payload` to `q` at `position` from file
/// `file`, or `None` where the append cannot follow.
pub open spec fn append_spec(
    m: Map<Seq<char>, (int, Seq<Seq<u8>>, Seq<u64>, u64)>,
    q: Seq<char>,
    file: u64,
    position: u64,
    payload: Seq<u8>,
) -> Option<Map<Seq<char>, (int, Seq<Seq<u8>>, Seq<u64>, u64)>> {
    if !m.contains_key(q) {
        None
    } else {
        let v = m[q];
        if position != view_next(v) || position == u64::MAX || file < view_last_file(v) {
            None
        } else {
            Some(m.insert(q, (v.0, v.1.push(payload), v.2.push(file), if v.1.len() == 0 { file } else { v.3 })))
        }
    }
}

impl MemQueues {
    /// Every queue, by name.
    pub open spec fn view(&self) -> Map<Seq<char>, (int, Seq<Seq<u8>>, Seq<u64>, u64)> {
        Map::new(|n: Seq<char>| self.has(n), |n: Seq<char>| queue_view(self.get(n)))
    }

    /// After a change to the queue `name` alone, the view changes at `name` alone.
    pub proof fn lemma_view_after(old_q: &MemQueues, new_q: &MemQueues, name: Seq<char>)
        requires
            old_q.same_except(new_q, name),
        ensures
            new_q.has(name) ==> new_q.view() == old_q.view().insert(name, queue_view(new_q.get(name))),
            !new_q.has(name) ==> new_q.view() == old_q.view().remove(name),
    {
        if new_q.has(name) {
            assert(new_q.view() =~= old_q.view().insert(name, queue_view(new_q.get(name)))) by {
                assert forall|n: Seq<char>| n != name implies #[trigger] new_q.has(n) == old_q.has(n) by {}
            }
        } else {
            assert(new_q.view() =~= old_q.view().remove(name)) by {
                assert forall|n: Seq<char>| n != name implies #[trigger] new_q.has(n) == old_q.has(n) by {}
            }
        }
    }
}

} // verus!
