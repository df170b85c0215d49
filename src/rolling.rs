use vstd::prelude::*;

verus! {

/// A set of numbered files, each a sequence of frames. Files are numbered
/// consecutively; frames go to the newest one, and a new file is started
/// once the newest holds `frames_per_file` frames.
pub struct RollingFiles {
    first_file: u64,
    files: Vec<Vec<Vec<u8>>>,
    frames_per_file: usize,
}

impl RollingFiles {
    /// The number of the oldest file kept.
    pub closed spec fn first(&self) -> int {
        self.first_file as int
    }

    /// The number of the file the next frame goes to.
    pub closed spec fn current(&self) -> int {
        self.first_file + self.files@.len() - 1
    }

    /// The frames of the file at index `i` (numbered `first() + i`).
    pub closed spec fn frames(&self, i: int) -> Seq<Seq<u8>> {
        Seq::new(self.files@[i]@.len(), |j: int| self.files@[i]@[j]@)
    }

    pub closed spec fn file_count(&self) -> int {
        self.files@.len() as int
    }

    /// The frames of every file kept, oldest file first.
    pub closed spec fn contents(&self) -> Seq<Seq<Seq<u8>>> {
        Seq::new(self.files@.len(), |i: int| self.frames(i))
    }

    /// `after` is `self` with `frame` added at the end of the newest file, or
    /// as the only frame of a new file that follows it.
    pub open spec fn with_frame(&self, after: RollingFiles, frame: Seq<u8>) -> bool {
        let c = self.contents();
        let last = c.len() - 1;
        &&& after.first() == self.first()
        &&& after.contents() == c.update(last, c[last].push(frame)) || after.contents() == c.push(
            seq![frame],
        )
    }

    /// `after` holds the frames of `self`, and possibly more after them.
    pub open spec fn extended_by(&self, after: RollingFiles) -> bool {
        let c = self.contents();
        let d = after.contents();
        let last = c.len() - 1;
        &&& after.first() == self.first()
        &&& c.len() <= d.len()
        &&& forall|i: int| 0 <= i < last ==> #[trigger] d[i] == c[i]
        &&& c[last].len() <= d[last].len()
        &&& c[last] == d[last].take(c[last].len() as int)
    }

    pub closed spec fn wf(&self) -> bool {
        &&& self.files@.len() >= 1
        &&& self.first_file + self.files@.len() - 1 <= u64::MAX
        &&& self.frames_per_file >= 1
    }

    pub proof fn lemma_wf(&self)
        requires
            self.wf(),
        ensures
            0 <= self.first() <= self.current() <= u64::MAX,
            self.file_count() == self.current() - self.first() + 1,
            self.contents().len() == self.file_count(),
            forall|i: int| 0 <= i < self.file_count() ==> #[trigger] self.contents()[i] == self.frames(i),
    {
    }

    /// Adding frames one after another keeps the earlier ones.
    pub proof fn lemma_with_frame_extends(&self, after: RollingFiles, frame: Seq<u8>)
        requires
            self.wf(),
            self.with_frame(after, frame),
        ensures
            self.extended_by(after),
            after.current() == self.current() || after.current() == self.current() + 1,
    {
        let c = self.contents();
        let last = c.len() - 1;
        assert(c.len() == self.files@.len());
        assert(after.contents().len() == after.files@.len());
        if after.contents() == c.update(last, c[last].push(frame)) {
            assert(c[last] =~= after.contents()[last].take(c[last].len() as int));
        } else {
            assert(c[last] =~= after.contents()[last].take(c[last].len() as int));
        }
    }

    pub proof fn lemma_extends_trans(&self, mid: RollingFiles, after: RollingFiles)
        requires
            self.extended_by(mid),
            mid.extended_by(after),
            self.contents().len() >= 1,
        ensures
            self.extended_by(after),
    {
        let c = self.contents();
        let m = mid.contents();
        let d = after.contents();
        let last = c.len() - 1;
        if c.len() < m.len() {
            assert(m[last] == d[last]);
        } else {
            let ml = m[last].len() as int;
            let cl = c[last].len() as int;
            assert(m[last] == d[last].take(ml));
            assert(c[last] == m[last].take(cl));
            assert(c[last] =~= d[last].take(cl));
        }
    }

    /// The file numbered `file` holds `frame`.
    pub open spec fn holds_frame(&self, file: int, frame: Seq<u8>) -> bool {
        exists|j: int|
            0 <= j < self.contents()[file - self.first()].len() && #[trigger] self.contents()[file
                - self.first()][j] == frame
    }

    /// The frame just added lies in the newest file.
    pub proof fn lemma_with_frame_holds(&self, after: RollingFiles, frame: Seq<u8>)
        requires
            self.wf(),
            after.wf(),
            self.with_frame(after, frame),
        ensures
            after.holds_frame(after.current(), frame),
    {
        let d = after.contents();
        let k = after.current() - after.first();
        assert(d.len() == after.files@.len());
        assert(d[k][d[k].len() - 1] == frame);
    }

    /// A frame stays where it was while frames are added.
    pub proof fn lemma_holds_frame_kept(&self, after: RollingFiles, file: int, frame: Seq<u8>)
        requires
            self.wf(),
            self.extended_by(after),
            self.first() <= file <= self.current(),
            self.holds_frame(file, frame),
        ensures
            after.holds_frame(file, frame),
    {
        let c = self.contents();
        let d = after.contents();
        let k = file - self.first();
        assert(c.len() == self.files@.len());
        let j = choose|j: int| 0 <= j < c[k].len() && #[trigger] c[k][j] == frame;
        if k < c.len() - 1 {
            assert(d[k] == c[k]);
        } else {
            assert(d[k].take(c[k].len() as int)[j] == d[k][j]);
        }
        assert(d[k][j] == frame);
    }

    /// Where the oldest file kept lands when `gc(threshold)` runs.
    pub open spec fn gc_bound(first: int, threshold: int, current: int) -> int {
        if threshold <= first {
            first
        } else if threshold >= current {
            current
        } else {
            threshold
        }
    }

    /// A file that garbage collection keeps keeps its frames.
    pub proof fn lemma_holds_frame_after_gc(&self, after: RollingFiles, file: int, frame: Seq<u8>)
        requires
            self.wf(),
            after.wf(),
            self.first() <= after.first() <= file <= after.current(),
            after.current() == self.current(),
            after.contents() == self.contents().subrange(after.first() - self.first(), self.file_count()),
            self.holds_frame(file, frame),
        ensures
            after.holds_frame(file, frame),
    {
        let k = file - self.first();
        assert(after.contents()[file - after.first()] == self.contents()[k]);
        let j = choose|j: int| 0 <= j < self.contents()[k].len() && #[trigger] self.contents()[k][j] == frame;
        assert(after.contents()[file - after.first()][j] == frame);
    }

    pub proof fn lemma_extends_refl(&self)
        requires
            self.contents().len() >= 1,
        ensures
            self.extended_by(*self),
    {
        let c = self.contents();
        assert(c[c.len() - 1] =~= c[c.len() - 1].take(c[c.len() - 1].len() as int));
    }

    /// An empty set: file 0 alone, with no frame.
    pub fn new(frames_per_file: usize) -> (r: RollingFiles)
        requires
            frames_per_file >= 1,
        ensures
            r.wf(),
            r.first() == 0,
            r.current() == 0,
            r.frames(0).len() == 0,
    {
        let mut files: Vec<Vec<Vec<u8>>> = Vec::new();
        files.push(Vec::new());
        RollingFiles { first_file: 0, files, frames_per_file }
    }

    /// The files numbered `first`, `first + 1`, ..., each given as its frames.
    pub fn from_files(first: u64, files: Vec<Vec<Vec<u8>>>, frames_per_file: usize) -> (r: RollingFiles)
        requires
            files@.len() >= 1,
            first + files@.len() - 1 <= u64::MAX,
            frames_per_file >= 1,
        ensures
            r.wf(),
            r.first() == first,
            r.file_count() == files@.len(),
            r.contents() == Seq::new(
                files@.len(),
                |i: int| Seq::new(files@[i]@.len(), |j: int| files@[i]@[j]@),
            ),
    {
        let r = RollingFiles { first_file: first, files, frames_per_file };
        assert(r.contents() =~= Seq::new(
            r.files@.len(),
            |i: int| Seq::new(r.files@[i]@.len(), |j: int| r.files@[i]@[j]@),
        ));
        r
    }

    pub fn current_file_number(&self) -> (r: u64)
        requires
            self.wf(),
        ensures
            r == self.current(),
    {
        self.first_file + (self.files.len() - 1) as u64
    }

    /// Adds a frame to the newest file, starting a new file first where the
    /// newest is full.
    pub fn append_frame(&mut self, frame: Vec<u8>)
        requires
            old(self).wf(),
        ensures
            final(self).wf(),
            old(self).with_frame(*final(self), frame@),
            final(self).current() == old(self).current() || final(self).current() == old(self).current() + 1,
    {
        let ghost c = self.contents();
        let ghost fv = frame@;
        let last = self.files.len() - 1;
        if self.files[last].len() >= self.frames_per_file && self.current_file_number() < u64::MAX {
            self.files.push(Vec::new());
            let mut file = self.files.remove(last + 1);
            file.push(frame);
            self.files.push(file);
            assert(self.contents() =~= c.push(seq![fv])) by {
                assert forall|i: int| 0 <= i < c.len() implies #[trigger] self.contents()[i] == c.push(seq![fv])[i] by {
                    assert(self.files@[i] == old(self).files@[i]);
                    assert(self.frames(i) =~= old(self).frames(i));
                }
                assert(self.frames(c.len() as int) =~= seq![fv]);
            }
        } else {
            let mut file = self.files.remove(last);
            file.push(frame);
            self.files.push(file);
            assert(self.contents() =~= c.update(last as int, c[last as int].push(fv))) by {
                assert forall|i: int| 0 <= i < c.len() implies #[trigger] self.contents()[i] == c.update(last as int, c[last as int].push(fv))[i] by {
                    if i < last {
                        assert(self.files@[i] == old(self).files@[i]);
                        assert(self.frames(i) =~= old(self).frames(i));
                    } else {
                        assert(self.frames(i) =~= old(self).frames(i).push(fv));
                    }
                }
            }
        }
    }

    /// Deletes every file numbered below `threshold`, the newest one excepted.
    pub fn gc(&mut self, threshold: u64)
        requires
            old(self).wf(),
        ensures
            final(self).wf(),
            final(self).current() == old(self).current(),
            final(self).contents() == old(self).contents().subrange(
                final(self).first() - old(self).first(),
                old(self).file_count(),
            ),
            final(self).first() == if threshold <= old(self).first() {
                old(self).first()
            } else if threshold >= old(self).current() {
                old(self).current()
            } else {
                threshold as int
            },
    {
        let current = self.current_file_number();
        let count = self.files.len();
        if threshold <= self.first_file {
            assert(self.contents() =~= self.contents().subrange(0, self.file_count()));
            return;
        }
        let ghost c = self.contents();
        let upto = if threshold >= current { current } else { threshold };
        assert(upto - self.first_file < count);
        let drop = (upto - self.first_file) as usize;
        let kept = self.files.split_off(drop);
        assert(kept@.len() == count - drop);
        self.files = kept;
        self.first_file = upto;
        assert(self.first_file + self.files@.len() - 1 == current);
        assert(self.contents() =~= c.subrange(drop as int, count as int)) by {
            assert forall|i: int| 0 <= i < self.files@.len() implies #[trigger] self.contents()[i] == c.subrange(drop as int, count as int)[i] by {
                assert(self.files@[i] == old(self).files@[i + drop]);
                assert(self.frames(i) =~= old(self).frames(i + drop));
            }
        }
    }

    /// The numbers of the files kept, oldest first.
    pub fn list_file_numbers(&self) -> (r: Vec<u64>)
        requires
            self.wf(),
        ensures
            r@.len() == self.file_count(),
            forall|i: int| 0 <= i < r@.len() ==> #[trigger] r@[i] == self.first() + i,
    {
        let mut out: Vec<u64> = Vec::new();
        let mut i: usize = 0;
        while i < self.files.len()
            invariant
                self.wf(),
                i <= self.files@.len(),
                out@.len() == i,
                forall|k: int| 0 <= k < i ==> #[trigger] out@[k] == self.first() + k,
            decreases self.files@.len() - i,
        {
            out.push(self.first_file + i as u64);
            i = i + 1;
        }
        out
    }

    /// Cuts `n` bytes off the newest frame, as a write torn by a crash leaves it.
    pub fn tear_tail(&mut self, n: usize)
        requires
            old(self).wf(),
        ensures
            final(self).wf(),
            final(self).first() == old(self).first(),
            final(self).current() == old(self).current(),
            ({
                let c = old(self).contents();
                let last = c.len() - 1;
                let k = c[last].len() - 1;
                let keep = if n >= c[last][k].len() { 0 } else { c[last][k].len() - n };
                &&& c[last].len() == 0 ==> final(self).contents() == c
                &&& c[last].len() > 0 ==> final(self).contents() == c.update(
                    last,
                    c[last].update(k, c[last][k].take(keep)),
                )
            }),
    {
        proof {
            self.lemma_wf();
        }
        let ghost c = self.contents();
        let last = self.files.len() - 1;
        let mut file = self.files.remove(last);
        let count = file.len();
        if count > 0 {
            let mut frame = file.remove(count - 1);
            let keep = if n >= frame.len() { 0 } else { frame.len() - n };
            frame.truncate(keep);
            file.push(frame);
        }
        self.files.push(file);
        proof {
            let k = c[last as int].len() - 1;
            if count > 0 {
                assert(self.contents() =~= c.update(
                    last as int,
                    c[last as int].update(k, c[last as int][k].take(
                        if n >= c[last as int][k].len() { 0 } else { c[last as int][k].len() - n },
                    )),
                )) by {
                    assert forall|i: int| 0 <= i < c.len() implies #[trigger] self.contents()[i] == c.update(
                        last as int,
                        c[last as int].update(k, c[last as int][k].take(
                            if n >= c[last as int][k].len() { 0 } else { c[last as int][k].len() - n },
                        )),
                    )[i] by {
                        if i < last {
                            assert(self.files@[i] == old(self).files@[i]);
                            assert(self.frames(i) =~= old(self).frames(i));
                        } else {
                            assert(self.frames(i) =~= c[last as int].update(k, c[last as int][k].take(
                                if n >= c[last as int][k].len() { 0 } else { c[last as int][k].len() - n },
                            )));
                        }
                    }
                }
            } else {
                assert(self.contents() =~= c) by {
                    assert forall|i: int| 0 <= i < c.len() implies #[trigger] self.contents()[i] == c[i] by {
                        assert(self.frames(i) =~= old(self).frames(i));
                    }
                }
            }
        }
    }

    /// The frame at index `j` of the file at index `i`.
    pub fn frame_at(&self, i: usize, j: usize) -> (r: &[u8])
        requires
            i < self.file_count(),
            j < self.frames(i as int).len(),
        ensures
            r@ == self.frames(i as int)[j as int],
    {
        self.files[i][j].as_slice()
    }

    pub fn frame_count(&self, i: usize) -> (r: usize)
        requires
            i < self.file_count(),
        ensures
            r == self.frames(i as int).len(),
    {
        self.files[i].len()
    }

    pub fn num_files(&self) -> (r: usize)
        ensures
            r == self.file_count(),
    {
        self.files.len()
    }

    /// Keeps the files at indices `..=i`, and in the last of them the first `j` frames.
    pub fn cut_after(&mut self, i: usize, j: usize)
        requires
            old(self).wf(),
            i < old(self).file_count(),
            j <= old(self).frames(i as int).len(),
        ensures
            final(self).wf(),
            final(self).first() == old(self).first(),
            final(self).current() == old(self).first() + i,
            final(self).contents() == old(self).contents().take(i as int).push(
                old(self).frames(i as int).take(j as int),
            ),
    {
        let ghost c = self.contents();
        let count = self.files.len();
        self.files.truncate(i + 1);
        let mut file = self.files.remove(i);
        file.truncate(j);
        self.files.push(file);
        assert(self.contents() =~= c.take(i as int).push(old(self).frames(i as int).take(j as int))) by {
            assert forall|k: int| 0 <= k <= i implies #[trigger] self.contents()[k] == c.take(i as int).push(old(self).frames(i as int).take(j as int))[k] by {
                if k < i {
                    assert(self.files@[k] == old(self).files@[k]);
                    assert(self.frames(k) =~= old(self).frames(k));
                } else {
                    assert(self.frames(k) =~= old(self).frames(i as int).take(j as int));
                }
            }
        }
    }
}

} // verus!
