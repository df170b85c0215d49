use crate::mem::{append_spec, name_fits, queue_view, touch_spec, truncate_spec, MemQueue, MemQueues};
use crate::record::{parse_items, parse_frame, encode_frame, encode_items, payload_views, positioned, MultiPlexedRecord, MultiRecord};
use vstd::string::*;
use vstd::utf8::*;
use crate::rolling::RollingFiles;
use vstd::prelude::*;

verus! {

/// Replay met a frame that cannot follow the state before it.
#[derive(Clone, Copy, Debug, PartialEq, Eq)]
pub enum ReadRecordError {
    Corruption,
}

#[derive(Clone, Copy, Debug, PartialEq, Eq)]
pub enum CreateQueueError {
    AlreadyExists,
}

#[derive(Clone, Copy, Debug, PartialEq, Eq)]
pub enum DeleteQueueError {
    MissingQueue,
}

#[derive(Clone, Copy, Debug, PartialEq, Eq)]
pub enum AppendError {
    MissingQueue,
    /// The position lies below the last one applied.
    Past,
    /// The position lies beyond the next one.
    Future,
}

#[derive(Clone, Copy, Debug, PartialEq, Eq)]
pub enum TruncateError {
    MissingQueue,
    /// The position has not been reached yet.
    Future,
}

/// Two queues hold the same items at the same positions.
pub open spec fn same_content(a: MemQueue, b: MemQueue) -> bool {
    &&& a.payloads() == b.payloads()
    &&& a.files() == b.files()
    &&& a.first_retained() == b.first_retained()
    &&& a.next() == b.next()
}

/// `after` is `before` with `payload` appended to `queue` at `position`.
pub open spec fn appended(before: MemQueues, after: MemQueues, queue: Seq<char>, payload: Seq<u8>, position: int) -> bool {
    &&& before.has(queue) && after.has(queue)
    &&& position == before.get(queue).next()
    &&& after.get(queue).next() == position + 1
    &&& after.get(queue).first_retained() == before.get(queue).first_retained()
    &&& after.get(queue).payloads() == before.get(queue).payloads().push(payload)
}

/// Within a queue, successive successful appends get strictly increasing
/// positions.
pub proof fn lemma_positions_increase(
    a: MemQueues,
    b: MemQueues,
    c: MemQueues,
    queue: Seq<char>,
    x: Seq<u8>,
    y: Seq<u8>,
    earlier: int,
    later: int,
)
    requires
        appended(a, b, queue, x, earlier),
        appended(b, c, queue, y, later),
    ensures
        earlier < later,
{
}

/// The queue `before_q`, empty, was pinned by a touch frame written in a
/// file from `from` on, and `after_q` is pinned to that file.
pub open spec fn touched(before_q: MemQueue, after_q: MemQueue, storage: RollingFiles, from: int) -> bool {
    &&& from <= after_q.touch_file() <= storage.current()
    &&& storage.holds_frame(
        after_q.touch_file() as int,
        encode_frame(2, before_q.next() as u64, encode_utf8(before_q.spec_name()), Seq::empty()),
    )
}

/// `m` is the smallest first file over the queues of `mem`, or `current`
/// where there is no queue.
pub open spec fn is_gc_threshold(mem: MemQueues, current: int, m: int) -> bool {
    if mem.queue_seq().len() == 0 {
        m == current
    } else {
        &&& forall|i: int| 0 <= i < mem.queue_seq().len() ==> m <= (#[trigger] mem.queue_seq()[i]).first_file()
        &&& exists|i: int| 0 <= i < mem.queue_seq().len() && m == (#[trigger] mem.queue_seq()[i]).first_file()
    }
}

/// Replay reads `files` up to frame `j` of the file at index `i`: every frame
/// before that point decodes, and the point is either a frame that does not
/// decode (a torn tail) or the end of the newest file.
pub open spec fn replay_cut(files: RollingFiles, i: int, j: int) -> bool {
    &&& 0 <= i < files.file_count()
    &&& 0 <= j <= files.frames(i).len()
    &&& forall|a: int, b: int|
        (0 <= a < i && 0 <= b < files.frames(a).len()) || (a == i && 0 <= b < j) ==> parse_frame(
            #[trigger] files.frames(a)[b],
        ) is Some
    &&& j < files.frames(i).len() ==> parse_frame(files.frames(i)[j]) is None
    &&& j == files.frames(i).len() ==> i == files.file_count() - 1
}

/// Many queues multiplexed over one log of frames, with the in-memory index
/// that replaying the frames gives.
pub struct MultiRecordLog {
    record_log_writer: RollingFiles,
    in_mem_queues: MemQueues,
}

impl MultiRecordLog {
    pub closed spec fn mem(&self) -> MemQueues {
        self.in_mem_queues
    }

    pub closed spec fn storage(&self) -> RollingFiles {
        self.record_log_writer
    }

    /// Every file that a live queue needs is still kept, and every queue name
    /// can be written in a frame.
    pub open spec fn wf(&self) -> bool {
        &&& self.storage().wf()
        &&& self.mem().wf()
        &&& self.mem().names_fit()
        &&& self.mem().files_within(self.storage().first(), self.storage().current())
    }

    /// Replays the frames of `files` in order and builds the index. Replay
    /// stops at the first frame that does not decode (a torn tail), and the
    /// frames from there on are dropped; a frame that cannot follow the index
    /// built so far gives `Corruption`.
    ///
    /// Garbage collection may have removed the frames that created a queue,
    /// so two cases that would otherwise be corruption are accepted: an append
    /// to an absent queue creates it at the append's position, and the removal
    /// of an absent queue does nothing. Without this, reopening after a
    /// collection would not give back the state it was taken from.
    pub fn open(files: RollingFiles) -> (r: Result<MultiRecordLog, ReadRecordError>)
        requires
            files.wf(),
        ensures
            r matches Ok(log) ==> {
                &&& log.wf()
                &&& log.storage().first() == files.first()
                &&& exists|i: int, j: int|
                    replay_cut(files, i, j) && log.storage().contents() == files.contents().take(i).push(
                        files.frames(i).take(j),
                    ) && replay(frames_upto(files, i, j)) == Some(log.mem().view())
            },
            (forall|k: int| 0 <= k < files.file_count() ==> #[trigger] files.frames(k).len() == 0) ==> (r is Ok
                && forall|n: Seq<char>| !(#[trigger] r->Ok_0.mem().has(n))),
            r is Err ==> exists|i: int, j: int|
                {
                    &&& 0 <= i < files.file_count()
                    &&& 0 <= j < files.frames(i).len()
                    &&& forall|a: int, b: int|
                        (0 <= a < i && 0 <= b < files.frames(a).len()) || (a == i && 0 <= b <= j) ==> parse_frame(
                            #[trigger] files.frames(a)[b],
                        ) is Some
                    &&& replay(#[trigger] frames_upto(files, i, j)) is Some
                    &&& replay(frames_upto(files, i, j + 1)) is None
                },
    {
        let ghost input = files;
        let mut store = files;
        let mut mem = MemQueues::new();
        let count = store.num_files();
        proof {
            store.lemma_wf();
        }
        let first = store.current_file_number() - (count - 1) as u64;
        let mut i: usize = 0;
        let mut stop = false;
        let mut stop_at: usize = 0;
        while i < count && !stop
            invariant
                store.wf(),
                count == store.file_count(),
                first == store.first(),
                i <= count,
                first + count - 1 <= u64::MAX,
                count >= 1,
                i < count,
                store == input,
                input == files,
                forall|a: int, b: int|
                    0 <= a < i && 0 <= b < store.frames(a).len() ==> parse_frame(#[trigger] store.frames(a)[b]) is Some,
                stop ==> replay_cut(store, i as int, stop_at as int),
                stop ==> replay(frames_upto(input, i as int, stop_at as int)) == Some(mem.view()),
                !stop ==> replay(frames_upto(input, i as int, 0)) == Some(mem.view()),
                mem.wf(),
                mem.names_fit(),
                mem.files_within(first as int, first + (if i < count { i as int } else { count - 1 })),
            decreases count - i + (if stop { 0int } else { 1int }),
        {
            let file_number = first + i as u64;
            let n = store.frame_count(i);
            let mut j: usize = 0;
            while j < n && !stop
                invariant
                    store.wf(),
                    count == store.file_count(),
                    first == store.first(),
                    i < count,
                    file_number == first + i,
                    n == store.frames(i as int).len(),
                    j <= n,
                    store == input,
                input == files,
                    forall|a: int, b: int|
                        0 <= a < i && 0 <= b < store.frames(a).len() ==> parse_frame(#[trigger] store.frames(a)[b]) is Some,
                    forall|b: int| 0 <= b < j ==> parse_frame(#[trigger] store.frames(i as int)[b]) is Some,
                    stop ==> stop_at == j && j < n && parse_frame(store.frames(i as int)[j as int]) is None,
                    replay(frames_upto(input, i as int, j as int)) == Some(mem.view()),
                    mem.wf(),
                    mem.names_fit(),
                    mem.files_within(first as int, file_number as int),
                decreases n - j + (if stop { 0int } else { 1int }),
            {
                let frame = store.frame_at(i, j);
                match MultiPlexedRecord::deserialize(frame) {
                    None => {
                        stop = true;
                        stop_at = j;
                    },
                    Some(record) => {
                        proof {
                            encode_utf8_decode_utf8(record.queue_name()@);
                            assert(frames_upto(input, i as int, j + 1).drop_last() =~= frames_upto(input, i as int, j as int));
                        }
                        match apply_record(&mut mem, record, first, file_number) {
                            Ok(()) => {},
                            Err(e) => {
                                proof {
                                    let ii = i as int;
                                    let jj = j as int;
                                    assert(replay(frames_upto(input, ii, jj + 1)) is None);
                                    assert(parse_frame(input.frames(ii)[jj]) is Some);
                                    assert forall|a: int, b: int|
                                        (0 <= a < ii && 0 <= b < input.frames(a).len()) || (a == ii && 0 <= b <= jj) implies parse_frame(
                                            #[trigger] input.frames(a)[b],
                                        ) is Some by {}
                                    assert(replay(frames_upto(input, ii, jj)) is Some);
                                }
                                return Err(e);
                            },
                        }
                        j = j + 1;
                    },
                }
            }
            if !stop {
                if i + 1 < count {
                    proof {
                        mem.lemma_widen(first as int, first + i, first + i + 1);
                    }
                    i = i + 1;
                } else {
                    stop = true;
                    stop_at = n;
                }
            }
        }
        store.cut_after(i, stop_at);
        assert(replay_cut(input, i as int, stop_at as int));
        proof {
            if forall|k: int| 0 <= k < input.file_count() ==> #[trigger] input.frames(k).len() == 0 {
                lemma_no_frames(input, i as int, stop_at as int);
                assert(mem.view() =~= Map::empty());
                assert forall|n: Seq<char>| !(#[trigger] mem.has(n)) by {
                    assert(!mem.view().contains_key(n));
                }
            }
        }
        Ok(MultiRecordLog { record_log_writer: store, in_mem_queues: mem })
    }

    /// Gives the files back, as they would be found on reopening.
    pub fn into_files(self) -> (r: RollingFiles)
        ensures
            r == self.storage(),
    {
        self.record_log_writer
    }

    /// The numbers of the files kept, oldest first.
    pub fn list_file_numbers(&self) -> (r: Vec<u64>)
        requires
            self.wf(),
        ensures
            r@.len() == self.storage().current() - self.storage().first() + 1,
            forall|i: int| 0 <= i < r@.len() ==> #[trigger] r@[i] == self.storage().first() + i,
    {
        proof {
            self.record_log_writer.lemma_wf();
        }
        self.record_log_writer.list_file_numbers()
    }

    pub fn queue_exists(&self, queue: &str) -> (r: bool)
        requires
            self.wf(),
        ensures
            r == self.mem().has(queue@),
    {
        self.in_mem_queues.contains_queue(queue)
    }

    /// The names of all queues.
    pub fn list_queues(&self) -> (r: Vec<&str>)
        requires
            self.wf(),
        ensures
            forall|n: Seq<char>| self.mem().has(n) <==> exists|i: int| 0 <= i < r@.len() && #[trigger] r@[i]@ == n,
            r@.len() == self.mem().queue_seq().len(),
    {
        self.in_mem_queues.list_queues()
    }

    /// The position the next append to `queue` gets.
    pub fn next_position(&self, queue: &str) -> (r: Option<u64>)
        requires
            self.wf(),
        ensures
            r is None <==> !self.mem().has(queue@),
            r matches Some(p) ==> p == self.mem().get(queue@).next(),
    {
        if self.in_mem_queues.contains_queue(queue) {
            proof {
                self.mem().lemma_get_wf(queue@);
                self.mem().get(queue@).lemma_wf();
            }
        }
        match self.in_mem_queues.next_position(queue) {
            Ok(p) => Some(p),
            Err(_) => None,
        }
    }

    /// The live items of `queue` at positions in `[start, end)`, in order.
    pub fn range(&self, queue: &str, start: u64, end: u64) -> (r: Option<Vec<(u64, &[u8])>>)
        requires
            self.wf(),
        ensures
            r is None <==> !self.mem().has(queue@),
            r matches Some(v) ==> {
                let items = self.mem().get(queue@).range_items(start as int, end as int);
                &&& v@.len() == items.len()
                &&& forall|k: int| 0 <= k < v@.len() ==> (#[trigger] v@[k]).0 == items[k].0 && v@[k].1@ == items[k].1
            },
    {
        self.in_mem_queues.range(queue, start, end)
    }

    /// Writes one frame to the newest file.
    fn write_record(&mut self, record: MultiPlexedRecord)
        requires
            old(self).storage().wf(),
            record.writable(),
        ensures
            final(self).storage().wf(),
            final(self).mem() == old(self).mem(),
            final(self).storage().first() == old(self).storage().first(),
            final(self).storage().current() >= old(self).storage().current(),
            old(self).storage().with_frame(final(self).storage(), record.frame()),
            old(self).storage().extended_by(final(self).storage()),
    {
        proof {
            old(self).record_log_writer.lemma_wf();
        }
        let mut buffer: Vec<u8> = Vec::new();
        record.serialize(&mut buffer);
        self.record_log_writer.append_frame(buffer);
        proof {
            old(self).record_log_writer.lemma_with_frame_extends(self.record_log_writer, record.frame());
        }
    }

    /// Creates an empty queue; nothing is written when it exists already.
    pub fn create_queue(&mut self, queue: &str) -> (r: Result<(), CreateQueueError>)
        requires
            old(self).wf(),
            name_fits(queue@),
        ensures
            final(self).wf(),
            old(self).mem().has(queue@) ==> r == Err::<(), CreateQueueError>(CreateQueueError::AlreadyExists)
                && *final(self) == *old(self),
            !old(self).mem().has(queue@) ==> {
                let q = final(self).mem().get(queue@);
                &&& r is Ok
                &&& final(self).mem().has(queue@)
                &&& q.next() == 0 && q.first_retained() == 0 && q.payloads().len() == 0
                &&& q.first_file() == final(self).storage().current()
                &&& old(self).mem().same_except(&final(self).mem(), queue@)
                &&& old(self).storage().with_frame(
                    final(self).storage(),
                    encode_frame(2, 0, queue.spec_bytes(), Seq::empty()),
                )
            },
    {
        if self.in_mem_queues.contains_queue(queue) {
            return Err(CreateQueueError::AlreadyExists);
        }
        let ghost lo = self.storage().first();
        let ghost hi = self.storage().current();
        self.write_record(MultiPlexedRecord::RecordPosition { queue, position: 0 });
        let file = self.record_log_writer.current_file_number();
        let ghost before = self.in_mem_queues;
        let _ = self.in_mem_queues.create_queue(queue, file);
        proof {
            self.record_log_writer.lemma_wf();
            self.in_mem_queues.lemma_get_wf(queue@);
            self.in_mem_queues.get(queue@).lemma_wf();
            MemQueues::lemma_carry_over(&before, &self.in_mem_queues, queue@, lo, hi, file as int);
        }
        Ok(())
    }

    /// Removes a queue and all it holds.
    pub fn delete_queue(&mut self, queue: &str) -> (r: Result<(), DeleteQueueError>)
        requires
            old(self).wf(),
        ensures
            final(self).wf(),
            !old(self).mem().has(queue@) ==> r == Err::<(), DeleteQueueError>(DeleteQueueError::MissingQueue)
                && *final(self) == *old(self),
            old(self).mem().has(queue@) ==> r is Ok && !final(self).mem().has(queue@)
                && old(self).mem().same_except(&final(self).mem(), queue@)
                && old(self).storage().with_frame(
                final(self).storage(),
                encode_frame(3, old(self).mem().get(queue@).next() as u64, queue.spec_bytes(), Seq::empty()),
            ),
    {
        let position = match self.in_mem_queues.next_position(queue) {
            Ok(p) => p,
            Err(_) => return Err(DeleteQueueError::MissingQueue),
        };
        proof {
            self.lemma_name_fits(queue@);
        }
        let ghost lo = self.storage().first();
        let ghost hi = self.storage().current();
        self.write_record(MultiPlexedRecord::DeleteQueue { queue, position });
        let ghost before = self.in_mem_queues;
        let ghost hi2 = self.storage().current();
        let _ = self.in_mem_queues.delete_queue(queue);
        proof {
            MemQueues::lemma_carry_over(&before, &self.in_mem_queues, queue@, lo, hi, hi2);
        }
        Ok(())
    }

    /// Garbage collection never deletes a file that a live record needs: in a
    /// well-formed log (which every operation, truncate included, keeps), each
    /// file that a queue refers to is among the files kept.
    pub proof fn lemma_live_files_kept(&self, name: Seq<char>)
        requires
            self.wf(),
            self.mem().has(name),
        ensures
            forall|j: int| 0 <= j < self.mem().get(name).files().len() ==> self.storage().first()
                <= #[trigger] self.mem().get(name).files()[j] <= self.storage().current(),
            self.storage().first() <= self.mem().get(name).first_file() <= self.storage().current(),
    {
        self.lemma_name_fits(name);
    }

    proof fn lemma_name_fits(&self, name: Seq<char>)
        requires
            self.wf(),
            self.mem().has(name),
        ensures
            name_fits(name),
            self.mem().get(name).files_within(self.storage().first(), self.storage().current()),
    {
        let m = self.mem();
        let j = choose|j: int| 0 <= j < m.queue_seq().len() && #[trigger] m.queue_seq()[j].spec_name() == name;
        m.lemma_get_at(j);
    }

    /// Appends `payload` to `queue`. With `Some(p)`, `p` must be the next
    /// position; `p` one below it means the append was already applied, and
    /// nothing is done.
    pub fn append_record(&mut self, queue: &str, position_opt: Option<u64>, payload: &[u8]) -> (r: Result<
        Option<u64>,
        AppendError,
    >)
        requires
            old(self).wf(),
            payload@.len() <= u32::MAX,
            old(self).mem().has(queue@) ==> old(self).mem().get(queue@).next() < u64::MAX,
        ensures
            final(self).wf(),
            !(r matches Ok(Some(_))) ==> *final(self) == *old(self),
            r matches Ok(Some(p)) ==> appended(old(self).mem(), final(self).mem(), queue@, payload@, p as int),
            !old(self).mem().has(queue@) ==> r == Err::<Option<u64>, AppendError>(AppendError::MissingQueue),
            old(self).mem().has(queue@) ==> {
                let o = old(self).mem().get(queue@);
                let q = final(self).mem().get(queue@);
                &&& (position_opt matches Some(p) && p > o.next()) ==> r == Err::<Option<u64>, AppendError>(AppendError::Future)
                &&& (position_opt matches Some(p) && p + 1 == o.next()) <==> r == Ok::<Option<u64>, AppendError>(None)
                &&& (position_opt matches Some(p) && p + 1 < o.next()) ==> r == Err::<Option<u64>, AppendError>(AppendError::Past)
                &&& (position_opt is None || position_opt == Some(o.next() as u64)) ==> {
                    &&& r == Ok::<Option<u64>, AppendError>(Some(o.next() as u64))
                    &&& final(self).mem().has(queue@)
                    &&& q.payloads() == o.payloads().push(payload@)
                    &&& q.first_retained() == o.first_retained()
                    &&& q.next() == o.next() + 1
                    &&& q.files() == o.files().push(final(self).storage().current() as u64)
                    &&& old(self).mem().same_except(&final(self).mem(), queue@)
                    &&& old(self).storage().with_frame(
                        final(self).storage(),
                        encode_frame(
                            4,
                            o.next() as u64,
                            queue.spec_bytes(),
                            encode_items(seq![(o.next() as u64, payload@)]),
                        ),
                    )
                }
            },
    {
        let next_position = match self.in_mem_queues.next_position(queue) {
            Ok(p) => p,
            Err(_) => return Err(AppendError::MissingQueue),
        };
        proof {
            self.mem().lemma_get_wf(queue@);
            self.mem().get(queue@).lemma_wf();
        }
        if let Some(position) = position_opt {
            if position > next_position {
                return Err(AppendError::Future);
            } else if next_position > 0 && position == next_position - 1 {
                return Ok(None);
            } else if position < next_position {
                return Err(AppendError::Past);
            }
        }
        let position = next_position;
        proof {
            self.lemma_name_fits(queue@);
            self.mem().lemma_get_wf(queue@);
            self.mem().get(queue@).lemma_wf();
        }
        let ghost lo = self.storage().first();
        let ghost hi = self.storage().current();
        let mut blob: Vec<u8> = Vec::new();
        let payloads: [&[u8]; 1] = [payload];
        MultiRecord::serialize(payloads.as_slice(), position, &mut blob);
        let record = MultiPlexedRecord::AppendRecords {
            queue,
            position,
            records: MultiRecord::new_unchecked(blob.as_slice()),
        };
        assert(positioned(payload_views(payloads@), position) =~= seq![(position, payload@)]);
        self.write_record(record);
        let file = self.record_log_writer.current_file_number();
        let ghost before = self.in_mem_queues;
        match self.in_mem_queues.append_record(queue, file, position, payload) {
            Ok(()) => {},
            Err(_) => return Err(AppendError::MissingQueue),
        }
        proof {
            MemQueues::lemma_carry_over(&before, &self.in_mem_queues, queue@, lo, hi, file as int);
        }
        Ok(Some(position))
    }

    /// Writes a touch frame for every empty queue and pins it to the file
    /// that frame lands in, so that older files can go. Non-empty queues are
    /// left as they are.
    fn touch_empty_queues(&mut self)
        requires
            old(self).wf(),
        ensures
            final(self).wf(),
            final(self).storage().first() == old(self).storage().first(),
            final(self).storage().current() >= old(self).storage().current(),
            old(self).storage().extended_by(final(self).storage()),
            forall|n: Seq<char>| #[trigger] final(self).mem().has(n) == old(self).mem().has(n),
            forall|n: Seq<char>| old(self).mem().has(n) ==> same_content(old(self).mem().get(n), #[trigger] final(self).mem().get(n)),
            forall|n: Seq<char>|
                old(self).mem().has(n) && old(self).mem().get(n).payloads().len() > 0 ==> #[trigger] final(self).mem().get(n)
                    == old(self).mem().get(n),
            forall|n: Seq<char>|
                old(self).mem().has(n) && old(self).mem().get(n).payloads().len() == 0 ==> touched(
                    old(self).mem().get(n),
                    #[trigger] final(self).mem().get(n),
                    final(self).storage(),
                    old(self).storage().current(),
                ),
    {
        let ghost start = self.in_mem_queues;
        let ghost start_store = self.record_log_writer;
        let ghost lo = self.storage().first();
        let ghost from = self.storage().current();
        proof {
            start_store.lemma_wf();
            start_store.lemma_extends_refl();
            assert forall|n: Seq<char>| start.has(n) && start.get(n).payloads().len() == 0 implies touched(
                start.get(n),
                #[trigger] self.mem().get(n),
                self.storage(),
                from,
            ) || exists|k: int| 0 <= k < start.queue_seq().len() && start.queue_seq()[k].spec_name() == n by {
                let k = choose|k: int| 0 <= k < start.queue_seq().len() && #[trigger] start.queue_seq()[k].spec_name() == n;
                assert(start.queue_seq()[k].spec_name() == n);
            }
        }
        let count = self.in_mem_queues.queue_count();
        let mut i: usize = 0;
        while i < count
            invariant
                self.wf(),
                count == self.mem().queue_seq().len(),
                count == start.queue_seq().len(),
                self.storage().first() == lo,
                self.storage().current() >= from,
                start_store.wf(),
                start_store.first() == lo,
                start_store.current() == from,
                start_store.extended_by(self.storage()),
                start.wf(),
                i <= count,
                forall|k: int| 0 <= k < count ==> (#[trigger] self.mem().queue_seq()[k]).spec_name() == start.queue_seq()[k].spec_name(),
                forall|n: Seq<char>| #[trigger] self.mem().has(n) == start.has(n),
                forall|n: Seq<char>| start.has(n) ==> same_content(start.get(n), #[trigger] self.mem().get(n)),
                forall|n: Seq<char>|
                    start.has(n) && start.get(n).payloads().len() > 0 ==> #[trigger] self.mem().get(n) == start.get(n),
                forall|n: Seq<char>|
                    start.has(n) && start.get(n).payloads().len() == 0 ==> touched(
                        start.get(n),
                        #[trigger] self.mem().get(n),
                        self.storage(),
                        from,
                    ) || exists|k: int| i <= k < count && start.queue_seq()[k].spec_name() == n,
            decreases count - i,
        {
            let q = self.in_mem_queues.queue_at(i);
            let ghost cur_mem = self.in_mem_queues;
            proof {
                assert(self.mem().queue_seq()[i as int].wf());
                q.lemma_wf();
                self.mem().lemma_get_at(i as int);
                start.lemma_get_at(i as int);
                assert(name_fits(self.mem().queue_seq()[i as int].spec_name()));
            }
            let ghost qname = q.spec_name();
            if q.is_empty() {
                let name: String = q.name().to_owned();
                let np = q.next_position();
                let ghost hi = self.storage().current();
                let ghost before = self.in_mem_queues;
                let ghost before_store = self.record_log_writer;
                let ghost oq = before.get(name@);
                proof {
                    assert(oq == q);
                    assert forall|n: Seq<char>| start.has(n) implies same_content(start.get(n), before.get(n)) by {
                        assert(self.mem().has(n));
                        assert(same_content(start.get(n), self.mem().get(n)));
                    }
                    assert forall|n: Seq<char>| #[trigger] before.has(n) == start.has(n) by {
                        assert(self.mem().has(n) == start.has(n));
                    }
                }
                let record = MultiPlexedRecord::RecordPosition { queue: name.as_str(), position: np };
                self.write_record(record);
                let file = self.record_log_writer.current_file_number();
                let _ = self.in_mem_queues.touch(name.as_str(), np, file);
                proof {
                    self.record_log_writer.lemma_wf();
                    before_store.lemma_wf();
                    start_store.lemma_wf();
                    before_store.lemma_with_frame_holds(self.record_log_writer, record.frame());
                    start_store.lemma_extends_trans(before_store, self.record_log_writer);
                    self.in_mem_queues.lemma_get_wf(name@);
                    self.in_mem_queues.get(name@).lemma_wf();
                    MemQueues::lemma_carry_over(&before, &self.in_mem_queues, name@, lo, hi, file as int);
                    let nq = self.in_mem_queues.get(name@);
                    assert(nq.payloads() =~= oq.payloads());
                    assert(nq.files() =~= oq.files());
                    assert(record.frame() == encode_frame(2, oq.next() as u64, encode_utf8(name@), Seq::empty()));
                    assert forall|n: Seq<char>| start.has(n) implies same_content(start.get(n), #[trigger] self.mem().get(n)) by {
                        if n != name@ {
                            assert(before.has(n));
                            assert(self.mem().has(n) == before.has(n));
                            assert(self.mem().get(n) == before.get(n));
                            assert(same_content(start.get(n), before.get(n)));
                        } else {
                            assert(start.has(name@));
                            assert(same_content(start.get(name@), oq));
                            assert(nq.first_retained() == oq.first_retained());
                            assert(nq.next() == oq.next());
                            assert(same_content(oq, nq));
                        }
                    }
                    assert forall|n: Seq<char>| #[trigger] self.mem().has(n) == start.has(n) by {
                        if n != name@ {
                            assert(before.has(n) == start.has(n));
                        }
                    }
                    assert forall|n: Seq<char>|
                        start.has(n) && start.get(n).payloads().len() > 0 implies #[trigger] self.mem().get(n) == start.get(n) by {
                        assert(before.has(n));
                        assert(same_content(start.get(n), before.get(n)));
                        if n == name@ {
                            assert(oq.payloads().len() == 0);
                        } else {
                            assert(self.mem().has(n) == before.has(n));
                            assert(self.mem().get(n) == before.get(n));
                        }
                        assert(before.get(n) == start.get(n));
                    }
                    assert forall|n: Seq<char>|
                        start.has(n) && start.get(n).payloads().len() == 0 implies touched(
                            start.get(n),
                            #[trigger] self.mem().get(n),
                            self.storage(),
                            from,
                        ) || exists|k: int| i + 1 <= k < count && start.queue_seq()[k].spec_name() == n by {
                        assert(same_content(start.get(n), before.get(n)));
                        if n == name@ {
                            assert(start.get(n).spec_name() == n) by {
                                start.lemma_get_wf(n);
                            }
                            assert(start.get(n).next() == oq.next());
                            assert(self.mem().get(n).touch_file() == file);
                        } else {
                            assert(before.has(n));
                            assert(self.mem().has(n) == before.has(n));
                            assert(self.mem().get(n) == before.get(n));
                            if touched(start.get(n), before.get(n), before_store, from) {
                                before_store.lemma_holds_frame_kept(self.record_log_writer, before.get(n).touch_file() as int,
                                    encode_frame(2, start.get(n).next() as u64, encode_utf8(start.get(n).spec_name()), Seq::empty()));
                            } else {
                                let k = choose|k: int| i <= k < count && start.queue_seq()[k].spec_name() == n;
                                assert(k != i);
                            }
                        }
                    }
                    assert forall|k: int| 0 <= k < count implies (#[trigger] self.mem().queue_seq()[k]).spec_name() == start.queue_seq()[k].spec_name() by {
                        assert(before.queue_seq()[k].spec_name() == start.queue_seq()[k].spec_name());
                    }
                }
            } else {
                proof {
                    assert forall|n: Seq<char>|
                        start.has(n) && start.get(n).payloads().len() == 0 implies touched(
                            start.get(n),
                            #[trigger] self.mem().get(n),
                            self.storage(),
                            from,
                        ) || exists|k: int| i + 1 <= k < count && start.queue_seq()[k].spec_name() == n by {
                        if !touched(start.get(n), self.mem().get(n), self.storage(), from) {
                            let k = choose|k: int| i <= k < count && start.queue_seq()[k].spec_name() == n;
                            if k == i {
                                assert(self.mem().has(n));
                                assert(same_content(start.get(n), self.mem().get(n)));
                                assert(self.mem().get(n) == q);
                            }
                        }
                    }
                }
            }
            i = i + 1;
        }
    }

    /// Drops the items of `queue` up to and including `position`, pins every
    /// empty queue to the newest file, then deletes the files that no queue
    /// needs any more.
    pub fn truncate(&mut self, queue: &str, position: u64) -> (r: Result<(), TruncateError>)
        requires
            old(self).wf(),
        ensures
            final(self).wf(),
            !old(self).mem().has(queue@) ==> r == Err::<(), TruncateError>(TruncateError::MissingQueue)
                && *final(self) == *old(self),
            old(self).mem().has(queue@) && position >= old(self).mem().get(queue@).next() ==> r == Err::<
                (),
                TruncateError,
            >(TruncateError::Future) && *final(self) == *old(self),
            old(self).mem().has(queue@) && position < old(self).mem().get(queue@).next() ==> {
                let o = old(self).mem().get(queue@);
                let q = final(self).mem().get(queue@);
                let k = if position < o.first_retained() { 0 } else { position - o.first_retained() + 1 };
                &&& r is Ok
                &&& final(self).mem().has(queue@)
                &&& q.first_retained() == o.first_retained() + k
                &&& q.next() == o.next()
                &&& q.payloads() == o.payloads().subrange(k, o.payloads().len() as int)
                &&& forall|n: Seq<char>| n != queue@ ==> #[trigger] final(self).mem().has(n) == old(self).mem().has(n)
                &&& forall|n: Seq<char>| n != queue@ && old(self).mem().has(n) ==> same_content(
                    old(self).mem().get(n),
                    #[trigger] final(self).mem().get(n),
                )
                &&& forall|n: Seq<char>|
                    n != queue@ && old(self).mem().has(n) && old(self).mem().get(n).payloads().len() > 0
                        ==> #[trigger] final(self).mem().get(n) == old(self).mem().get(n)
                &&& forall|n: Seq<char>|
                    final(self).mem().has(n) && final(self).mem().get(n).payloads().len() == 0 ==> touched(
                        final(self).mem().get(n),
                        #[trigger] final(self).mem().get(n),
                        final(self).storage(),
                        old(self).storage().current(),
                    )
                &&& exists|mid: RollingFiles, pre: RollingFiles, m: int|
                    {
                        &&& old(self).storage().with_frame(mid, encode_frame(1, position, queue.spec_bytes(), Seq::empty()))
                        &&& mid.extended_by(pre)
                        &&& pre.wf()
                        &&& is_gc_threshold(final(self).mem(), pre.current(), m)
                        &&& final(self).storage().current() == pre.current()
                        &&& final(self).storage().first() == RollingFiles::gc_bound(pre.first(), m, pre.current())
                        &&& final(self).storage().contents() == pre.contents().subrange(
                            final(self).storage().first() - pre.first(),
                            pre.file_count(),
                        )
                    }
            },
    {
        let next = match self.in_mem_queues.next_position(queue) {
            Ok(p) => p,
            Err(_) => return Err(TruncateError::MissingQueue),
        };
        proof {
            self.mem().lemma_get_wf(queue@);
            self.mem().get(queue@).lemma_wf();
            self.lemma_name_fits(queue@);
        }
        if position >= next {
            return Err(TruncateError::Future);
        }
        let ghost lo = self.storage().first();
        let ghost hi = self.storage().current();
        let ghost before = self.in_mem_queues;
        self.in_mem_queues.truncate(queue, position);
        proof {
            MemQueues::lemma_carry_over(&before, &self.in_mem_queues, queue@, lo, hi, hi);
        }
        let ghost store0 = self.record_log_writer;
        self.write_record(MultiPlexedRecord::Truncate { queue, position });
        let ghost mid_store = self.record_log_writer;
        proof {
            self.mem().lemma_widen(lo, hi, self.storage().current());
        }
        let ghost mid = self.in_mem_queues;
        self.touch_empty_queues();
        let ghost pre = self.record_log_writer;
        let ghost touched_mem = self.in_mem_queues;
        let current = self.record_log_writer.current_file_number();
        let threshold = match self.in_mem_queues.min_first_file() {
            Some(m) => m,
            None => current,
        };
        let ghost lo2 = self.storage().first();
        proof {
            pre.lemma_wf();
            let mm = self.mem();
            if mm.queue_seq().len() > 0 {
                assert(is_gc_threshold(mm, pre.current(), threshold as int));
            }
        }
        self.record_log_writer.gc(threshold);
        proof {
            let m = self.mem();
            let f = self.storage().first();
            assert forall|i: int| 0 <= i < m.queue_seq().len() implies #[trigger] m.queue_seq()[i].files_within(f, current as int) by {
                let qi = m.queue_seq()[i];
                assert(qi.wf());
                qi.lemma_wf();
                assert(qi.files_within(lo2, current as int));
                assert(f <= qi.first_file());
            }
            assert(mid.has(queue@));
            assert(same_content(mid.get(queue@), self.mem().get(queue@)));
            assert forall|n: Seq<char>| n != queue@ implies #[trigger] self.mem().has(n) == before.has(n) by {
                assert(mid.has(n) == before.has(n));
                assert(self.mem().has(n) == mid.has(n));
            }
            assert forall|n: Seq<char>| n != queue@ && before.has(n) implies same_content(
                before.get(n),
                #[trigger] self.mem().get(n),
            ) by {
                assert(mid.has(n));
                assert(mid.get(n) == before.get(n));
                assert(same_content(mid.get(n), self.mem().get(n)));
            }
            assert forall|n: Seq<char>|
                n != queue@ && before.has(n) && before.get(n).payloads().len() > 0 implies #[trigger] self.mem().get(n)
                    == before.get(n) by {
                assert(mid.has(n));
                assert(mid.get(n) == before.get(n));
            }
            self.record_log_writer.lemma_wf();
            assert forall|n: Seq<char>|
                self.mem().has(n) && self.mem().get(n).payloads().len() == 0 implies touched(
                    self.mem().get(n),
                    #[trigger] self.mem().get(n),
                    self.storage(),
                    store0.current(),
                ) by {
                assert(mid.has(n));
                assert(same_content(mid.get(n), self.mem().get(n)));
                if mid.get(n).payloads().len() > 0 {
                    assert(self.mem().get(n) == mid.get(n));
                }
                assert(touched(mid.get(n), self.mem().get(n), pre, mid_store.current()));
                mid.lemma_get_wf(n);
                self.mem().lemma_get_wf(n);
                self.lemma_name_fits(n);
                self.mem().get(n).lemma_wf();
                pre.lemma_holds_frame_after_gc(self.record_log_writer, self.mem().get(n).touch_file() as int,
                    encode_frame(2, mid.get(n).next() as u64, encode_utf8(n), Seq::empty()));
            }
            assert(store0.with_frame(mid_store, encode_frame(1, position, queue.spec_bytes(), Seq::empty())));
            assert(is_gc_threshold(self.mem(), pre.current(), threshold as int));
            assert(mid_store.extended_by(pre));
            assert(self.storage().first() == RollingFiles::gc_bound(pre.first(), threshold as int, pre.current()));
            assert(self.storage().contents() == pre.contents().subrange(self.storage().first() - pre.first(), pre.file_count()));
            assert(exists|a: RollingFiles, b: RollingFiles, c: int|
                {
                    &&& store0.with_frame(a, encode_frame(1, position, queue.spec_bytes(), Seq::empty()))
                    &&& a.extended_by(b)
                    &&& b.wf()
                    &&& is_gc_threshold(self.mem(), b.current(), c)
                    &&& self.storage().current() == b.current()
                    &&& self.storage().first() == RollingFiles::gc_bound(b.first(), c, b.current())
                    &&& self.storage().contents() == b.contents().subrange(self.storage().first() - b.first(), b.file_count())
                }) by {
                assert(store0.with_frame(mid_store, encode_frame(1, position, queue.spec_bytes(), Seq::empty())));
            }
        }
        Ok(())
    }
}

/// The index after appending the items in order to `q` from file `file`,
/// or `None` where one of them cannot follow.
pub open spec fn apply_items_spec(
    m: Map<Seq<char>, (int, Seq<Seq<u8>>, Seq<u64>, u64)>,
    q: Seq<char>,
    file: u64,
    items: Seq<(u64, Seq<u8>)>,
) -> Option<Map<Seq<char>, (int, Seq<Seq<u8>>, Seq<u64>, u64)>>
    decreases items.len(),
{
    if items.len() == 0 {
        Some(m)
    } else {
        match append_spec(m, q, file, items[0].0, items[0].1) {
            Some(m2) => apply_items_spec(m2, q, file, items.drop_first()),
            None => None,
        }
    }
}

/// The index after replaying one frame (its kind's tag, position, queue and
/// blob) read from file `file`, or `None` where replay fails with
/// `Corruption`. Files that garbage collection deleted may have held the
/// frames that created a queue, so replay departs from a strict reading in two
/// places: an append to an absent queue first creates it at the frame's
/// position, and the removal of an absent queue changes nothing.
pub open spec fn apply_frame_spec(
    m: Map<Seq<char>, (int, Seq<Seq<u8>>, Seq<u64>, u64)>,
    tag: u8,
    position: u64,
    q: Seq<char>,
    payload: Seq<u8>,
    file: u64,
) -> Option<Map<Seq<char>, (int, Seq<Seq<u8>>, Seq<u64>, u64)>> {
    if tag == 1 {
        Some(truncate_spec(m, q, position))
    } else if tag == 2 {
        touch_spec(m, q, position, file)
    } else if tag == 3 {
        Some(m.remove(q))
    } else {
        let m1 = if m.contains_key(q) {
            m
        } else {
            m.insert(q, (position as int, Seq::empty(), Seq::empty(), file))
        };
        match parse_items(payload) {
            Some(items) => apply_items_spec(m1, q, file, items),
            None => None,
        }
    }
}

/// The index after replaying the frame `frame` from file `file`; `None` where
/// it does not decode or cannot follow.
pub open spec fn apply_bytes(
    m: Map<Seq<char>, (int, Seq<Seq<u8>>, Seq<u64>, u64)>,
    frame: Seq<u8>,
    file: u64,
) -> Option<Map<Seq<char>, (int, Seq<Seq<u8>>, Seq<u64>, u64)>> {
    match parse_frame(frame) {
        Some(t) => apply_frame_spec(m, t.0, t.1, decode_utf8(t.2), t.3, file),
        None => None,
    }
}

/// The frames of `files` before frame `j` of the file at index `i`, each
/// with the number of its file, in order.
pub open spec fn frames_upto(files: RollingFiles, i: int, j: int) -> Seq<(Seq<u8>, u64)>
    decreases i, j,
{
    if i < 0 || j < 0 {
        Seq::empty()
    } else if j > 0 {
        if j <= files.frames(i).len() {
            frames_upto(files, i, j - 1).push((files.frames(i)[j - 1], (files.first() + i) as u64))
        } else {
            Seq::empty()
        }
    } else if i > 0 {
        frames_upto(files, i - 1, files.frames(i - 1).len() as int)
    } else {
        Seq::empty()
    }
}

/// Where no file holds a frame, there is nothing before any cut.
pub proof fn lemma_no_frames(files: RollingFiles, i: int, j: int)
    requires
        forall|k: int| 0 <= k < files.file_count() ==> #[trigger] files.frames(k).len() == 0,
        i < files.file_count(),
    ensures
        frames_upto(files, i, j) == Seq::<(Seq<u8>, u64)>::empty(),
    decreases i, j,
{
    if i < 0 || j < 0 {
    } else if j > 0 {
        if i >= 0 {
            assert(files.frames(i).len() == 0);
        }
    } else if i > 0 {
        lemma_no_frames(files, i - 1, files.frames(i - 1).len() as int);
    }
}

/// The index that replaying `frames` in order builds from an empty one, or
/// `None` where a frame fails.
pub open spec fn replay(frames: Seq<(Seq<u8>, u64)>) -> Option<Map<Seq<char>, (int, Seq<Seq<u8>>, Seq<u64>, u64)>>
    decreases frames.len(),
{
    if frames.len() == 0 {
        Some(Map::empty())
    } else {
        match replay(frames.drop_last()) {
            Some(m) => apply_bytes(m, frames.last().0, frames.last().1),
            None => None,
        }
    }
}

/// Applies one decoded frame, read from file `file`, to the index.
fn apply_record(mem: &mut MemQueues, record: MultiPlexedRecord, lo: u64, file: u64) -> (r: Result<(), ReadRecordError>)
    requires
        old(mem).wf(),
        old(mem).names_fit(),
        old(mem).files_within(lo as int, file as int),
        lo <= file,
        record.writable(),
        record matches MultiPlexedRecord::AppendRecords { records, .. } ==> records.wf() && records.offset() == 0
            && parse_items(records.bytes()) is Some,
    ensures
        final(mem).wf(),
        final(mem).names_fit(),
        final(mem).files_within(lo as int, file as int),
        r is Ok <==> apply_frame_spec(
            old(mem).view(),
            record.spec_tag(),
            record.spec_position(),
            record.queue_name()@,
            record.spec_payload(),
            file,
        ) is Some,
        r is Ok ==> Some(final(mem).view()) == apply_frame_spec(
            old(mem).view(),
            record.spec_tag(),
            record.spec_position(),
            record.queue_name()@,
            record.spec_payload(),
            file,
        ),
{
    let ghost target = apply_frame_spec(
        mem.view(),
        record.spec_tag(),
        record.spec_position(),
        record.queue_name()@,
        record.spec_payload(),
        file,
    );
    match record {
        MultiPlexedRecord::AppendRecords { queue, position, records } => {
            let ghost m1 = if mem.view().contains_key(queue@) {
                mem.view()
            } else {
                mem.view().insert(queue@, (position as int, Seq::empty(), Seq::empty(), file))
            };
            if !mem.contains_queue(queue) {
                // the frames that created the queue may have been collected
                let ghost before = *mem;
                let _ = mem.touch(queue, position, file);
                proof {
                    mem.lemma_get_wf(queue@);
                    mem.get(queue@).lemma_wf();
                    MemQueues::lemma_carry_over(&before, mem, queue@, lo as int, file as int, file as int);
                    MemQueues::lemma_view_after(&before, mem, queue@);
                    assert(mem.get(queue@).payloads() =~= Seq::<Seq<u8>>::empty());
                    assert(mem.get(queue@).files() =~= Seq::<u64>::empty());
                }
            }
            assert(mem.view() == m1);
            let mut records = records;
            assert(records.rest() =~= records.bytes());
            assert(target == apply_items_spec(m1, queue@, file, parse_items(records.bytes())->Some_0));
            loop
                invariant
                    record is AppendRecords,
                    record->AppendRecords_queue == queue,
                    mem.has(queue@),
                    records.wf(),
                    mem.wf(),
                    mem.names_fit(),
                    mem.files_within(lo as int, file as int),
                    lo <= file,
                    parse_items(records.rest()) is Some,
                    target == apply_items_spec(mem.view(), queue@, file, parse_items(records.rest())->Some_0),
                    target == apply_frame_spec(
                        old(mem).view(),
                        record.spec_tag(),
                        record.spec_position(),
                        record.queue_name()@,
                        record.spec_payload(),
                        file,
                    ),
                ensures
                    mem.wf(),
                    mem.names_fit(),
                    mem.files_within(lo as int, file as int),
                    target == Some(mem.view()),
                    target == apply_frame_spec(
                        old(mem).view(),
                        record.spec_tag(),
                        record.spec_position(),
                        record.queue_name()@,
                        record.spec_payload(),
                        file,
                    ),
                decreases records.bytes().len() - records.offset(),
            {
                let ghost rest = records.rest();
                match records.next() {
                    None => {
                        assert(parse_items(rest)->Some_0 =~= Seq::<(u64, Seq<u8>)>::empty());
                        break;
                    },
                    Some(Err(_)) => {
                        assert(false);
                        return Err(ReadRecordError::Corruption);
                    },
                    Some(Ok((p, payload))) => {
                        let ghost before = *mem;
                        let ghost end = 12 + crate::record::announced_len(rest);
                        proof {
                            assert(records.rest() =~= rest.subrange(end, rest.len() as int));
                            let items = parse_items(rest)->Some_0;
                            assert(items[0] == (p, payload@));
                            assert(items.drop_first() =~= parse_items(records.rest())->Some_0);
                            before.lemma_get_wf(queue@);
                            before.get(queue@).lemma_wf();
                        }
                        match mem.append_record(queue, file, p, payload) {
                            Ok(()) => {},
                            Err(_) => return Err(ReadRecordError::Corruption),
                        }
                        proof {
                            let j = choose|j: int| 0 <= j < before.queue_seq().len() && #[trigger] before.queue_seq()[j].spec_name() == queue@;
                            before.lemma_get_at(j);
                            let o = before.get(queue@);
                            let q = mem.get(queue@);
                            assert(o.files_within(lo as int, file as int));
                            assert forall|k: int| 0 <= k < q.files().len() implies lo <= #[trigger] q.files()[k] <= file by {
                                if k < o.files().len() {
                                    assert(q.files()[k] == o.files()[k]);
                                }
                            }
                            MemQueues::lemma_carry_over(&before, mem, queue@, lo as int, file as int, file as int);
                            MemQueues::lemma_view_after(&before, mem, queue@);
                            assert(append_spec(before.view(), queue@, file, p, payload@) == Some(mem.view()));
                        }
                    },
                }
            }
            Ok(())
        },
        MultiPlexedRecord::Truncate { queue, position } => {
            let ghost before = *mem;
            mem.truncate(queue, position);
            proof {
                if before.has(queue@) {
                    let j = choose|j: int| 0 <= j < before.queue_seq().len() && #[trigger] before.queue_seq()[j].spec_name() == queue@;
                    before.lemma_get_at(j);
                    before.lemma_get_wf(queue@);
                    before.get(queue@).lemma_wf();
                    MemQueues::lemma_view_after(&before, mem, queue@);
                    let o = before.get(queue@);
                    let q = mem.get(queue@);
                    assert(queue_view(q) == truncate_spec(before.view(), queue@, position)[queue@]);
                    assert(mem.view() =~= truncate_spec(before.view(), queue@, position));
                }
                MemQueues::lemma_carry_over(&before, mem, queue@, lo as int, file as int, file as int);
            }
            Ok(())
        },
        MultiPlexedRecord::RecordPosition { queue, position } => {
            let ghost before = *mem;
            proof {
                if before.has(queue@) {
                    before.lemma_get_wf(queue@);
                    before.get(queue@).lemma_wf();
                }
            }
            match mem.touch(queue, position, file) {
                Ok(()) => {},
                Err(_) => return Err(ReadRecordError::Corruption),
            }
            proof {
                if before.has(queue@) {
                    let j = choose|j: int| 0 <= j < before.queue_seq().len() && #[trigger] before.queue_seq()[j].spec_name() == queue@;
                    before.lemma_get_at(j);
                }
                mem.lemma_get_wf(queue@);
                mem.get(queue@).lemma_wf();
                MemQueues::lemma_carry_over(&before, mem, queue@, lo as int, file as int, file as int);
                if !before.has(queue@) || before.get(queue@).payloads().len() == 0 {
                    MemQueues::lemma_view_after(&before, mem, queue@);
                    assert(mem.get(queue@).payloads() =~= Seq::<Seq<u8>>::empty());
                    assert(mem.get(queue@).files() =~= Seq::<u64>::empty());
                }
            }
            Ok(())
        },
        MultiPlexedRecord::DeleteQueue { queue, position: _ } => {
            // the queue may be absent already where its frames were collected
            let ghost before = *mem;
            if mem.delete_queue(queue).is_ok() {
                proof {
                    MemQueues::lemma_carry_over(&before, mem, queue@, lo as int, file as int, file as int);
                    MemQueues::lemma_view_after(&before, mem, queue@);
                }
            } else {
                assert(mem.view() =~= before.view().remove(queue@));
            }
            Ok(())
        },
    }
}

} // verus!
