use vstd::bytes::*;
use vstd::prelude::*;
use vstd::slice::slice_subrange;
use vstd::string::*;
use vstd::utf8::*;

verus! {

/// The kind of a frame, as written in its first byte.
#[derive(Clone, Copy, Debug, PartialEq, Eq)]
pub enum RecordType {
    Truncate,
    Touch,
    DeleteQueue,
    AppendRecords,
}

/// The byte that stands for each kind of frame.
pub open spec fn tag_of(t: RecordType) -> u8 {
    match t {
        RecordType::Truncate => 1,
        RecordType::Touch => 2,
        RecordType::DeleteQueue => 3,
        RecordType::AppendRecords => 4,
    }
}

pub open spec fn known_tag(code: u8) -> bool {
    1 <= code && code <= 4
}

impl RecordType {
    /// Decodes a tag byte; only the four known tags are accepted.
    pub fn try_from(code: u8) -> (r: Result<RecordType, ()>)
        ensures
            r is Ok <==> known_tag(code),
            r matches Ok(t) ==> tag_of(t) == code,
    {
        match code {
            1 => Ok(RecordType::Truncate),
            2 => Ok(RecordType::Touch),
            3 => Ok(RecordType::DeleteQueue),
            4 => Ok(RecordType::AppendRecords),
            _ => Err(()),
        }
    }

    /// The tag byte of this kind.
    pub fn code(&self) -> (r: u8)
        ensures
            r == tag_of(*self),
    {
        match self {
            RecordType::Truncate => 1,
            RecordType::Touch => 2,
            RecordType::DeleteQueue => 3,
            RecordType::AppendRecords => 4,
        }
    }
}

/// The inner blob was cut or malformed.
#[derive(Clone, Copy, Debug, PartialEq, Eq)]
pub struct MultiRecordCorruption;

/// One item of the inner blob: `u64 position ‖ u32 length ‖ payload`.
pub open spec fn item_bytes(position: u64, payload: Seq<u8>) -> Seq<u8> {
    spec_u64_to_le_bytes(position) + spec_u32_to_le_bytes(payload.len() as u32) + payload
}

/// The blob that holds the given items, in order.
pub open spec fn encode_items(items: Seq<(u64, Seq<u8>)>) -> Seq<u8>
    decreases items.len(),
{
    if items.len() == 0 {
        Seq::empty()
    } else {
        encode_items(items.drop_last()) + item_bytes(items.last().0, items.last().1)
    }
}

/// The payload length announced by the item header at the front of `s`.
pub open spec fn announced_len(s: Seq<u8>) -> int {
    spec_u32_from_le_bytes(s.subrange(8, 12)) as int
}

/// Whether the front of `s` holds a complete item.
pub open spec fn has_item(s: Seq<u8>) -> bool {
    s.len() >= 12 && s.len() - 12 >= announced_len(s)
}

/// The items of a blob, or `None` where it does not split exactly into items.
pub open spec fn parse_items(s: Seq<u8>) -> Option<Seq<(u64, Seq<u8>)>>
    decreases s.len(),
{
    if s.len() == 0 {
        Some(Seq::empty())
    } else if !has_item(s) {
        None
    } else {
        let end = 12 + announced_len(s);
        match parse_items(s.subrange(end, s.len() as int)) {
            Some(rest) => Some(
                seq![(spec_u64_from_le_bytes(s.subrange(0, 8)), s.subrange(12, end))] + rest,
            ),
            None => None,
        }
    }
}

/// The items that a batch of payloads gets when its first one is at `position`.
pub open spec fn positioned(payloads: Seq<Seq<u8>>, position: u64) -> Seq<(u64, Seq<u8>)> {
    Seq::new(payloads.len(), |i: int| ((position + i) as u64, payloads[i]))
}

pub open spec fn payload_views<'b>(payloads: Seq<&'b [u8]>) -> Seq<Seq<u8>> {
    Seq::new(payloads.len(), |i: int| payloads[i]@)
}

/// A blob of items, and how far a reader has gone through it.
#[derive(Clone, Copy, Debug, PartialEq, Eq)]
pub struct MultiRecord<'a> {
    buffer: &'a [u8],
    byte_offset: usize,
}

impl<'a> MultiRecord<'a> {
    pub closed spec fn bytes(&self) -> Seq<u8> {
        self.buffer@
    }

    pub closed spec fn offset(&self) -> int {
        self.byte_offset as int
    }

    pub open spec fn wf(&self) -> bool {
        0 <= self.offset() <= self.bytes().len()
    }

    /// What is left to read.
    pub open spec fn rest(&self) -> Seq<u8> {
        self.bytes().subrange(self.offset(), self.bytes().len() as int)
    }

    /// Wraps a blob after checking that it splits exactly into items.
    pub fn new(buffer: &'a [u8]) -> (r: Result<MultiRecord<'a>, MultiRecordCorruption>)
        ensures
            r is Ok <==> parse_items(buffer@) is Some,
            r matches Ok(m) ==> m.bytes() == buffer@ && m.offset() == 0,
    {
        let mut mrecord = MultiRecord::new_unchecked(buffer);
        let ghost whole = buffer@;
        assert(mrecord.rest() =~= whole);
        loop
            invariant
                mrecord.wf(),
                mrecord.bytes() == whole,
                whole == buffer@,
                parse_items(whole) is Some <==> parse_items(mrecord.rest()) is Some,
            ensures
                parse_items(whole) is Some,
            decreases mrecord.bytes().len() - mrecord.offset(),
        {
            let ghost before = mrecord.rest();
            match mrecord.next() {
                None => {
                    assert(before.len() == 0);
                    assert(parse_items(before) is Some);
                    break ;
                },
                Some(Err(e)) => {
                    assert(before.len() != 0 && !has_item(before));
                    assert(parse_items(before) is None);
                    return Err(e);
                },
                Some(Ok(_)) => {
                    assert(mrecord.rest() =~= before.subrange(
                        12 + announced_len(before),
                        before.len() as int,
                    ));
                },
            }
        }
        mrecord.reset_position();
        Ok(mrecord)
    }

    /// Wraps a blob without looking at it.
    pub fn new_unchecked(buffer: &'a [u8]) -> (r: MultiRecord<'a>)
        ensures
            r.bytes() == buffer@,
            r.offset() == 0,
    {
        MultiRecord { buffer, byte_offset: 0 }
    }

    /// Clears `output`, then writes the payloads as items at `position`, `position + 1`, ...
    pub fn serialize(record_payloads: &[&[u8]], position: u64, output: &mut Vec<u8>)
        requires
            position + record_payloads@.len() <= u64::MAX,
            forall|i: int|
                0 <= i < record_payloads@.len() ==> #[trigger] record_payloads@[i]@.len()
                    <= u32::MAX,
        ensures
            final(output)@ == encode_items(
                positioned(payload_views(record_payloads@), position),
            ),
    {
        let ghost items = positioned(payload_views(record_payloads@), position);
        output.clear();
        let mut i: usize = 0;
        while i < record_payloads.len()
            invariant
                i <= record_payloads@.len(),
                position + record_payloads@.len() <= u64::MAX,
                forall|k: int|
                    0 <= k < record_payloads@.len() ==> #[trigger] record_payloads@[k]@.len()
                        <= u32::MAX,
                items == positioned(payload_views(record_payloads@), position),
                output@ == encode_items(items.take(i as int)),
            decreases record_payloads@.len() - i,
        {
            let payload: &[u8] = record_payloads[i];
            let item_position: u64 = position + i as u64;
            let pos_bytes = u64_to_le_bytes(item_position);
            let len_bytes = u32_to_le_bytes(payload.len() as u32);
            output.extend_from_slice(pos_bytes.as_slice());
            output.extend_from_slice(len_bytes.as_slice());
            output.extend_from_slice(payload);
            proof {
                let t = items.take(i + 1);
                assert(t.drop_last() =~= items.take(i as int));
                assert(t.last() == (item_position, payload@));
                assert(output@ =~= encode_items(t));
            }
            i = i + 1;
        }
        assert(items.take(i as int) =~= items);
    }

    /// Goes back to the first item.
    pub fn reset_position(&mut self)
        ensures
            final(self).bytes() == old(self).bytes(),
            final(self).offset() == 0,
    {
        self.byte_offset = 0;
    }

    /// Reads the next item: `None` at the end, an error where what is left
    /// holds no complete item (reading then stops).
    pub fn next(&mut self) -> (r: Option<Result<(u64, &'a [u8]), MultiRecordCorruption>>)
        requires
            old(self).wf(),
        ensures
            final(self).wf(),
            final(self).bytes() == old(self).bytes(),
            old(self).rest().len() == 0 ==> r is None && final(self).offset() == old(self).offset(),
            old(self).rest().len() != 0 && !has_item(old(self).rest()) ==> r == Some(
                Err::<(u64, &'a [u8]), MultiRecordCorruption>(MultiRecordCorruption),
            ) && final(self).rest().len() == 0,
            has_item(old(self).rest()) ==> {
                let rest = old(self).rest();
                let end = 12 + announced_len(rest);
                &&& r matches Some(Ok((p, payload)))
                &&& p == spec_u64_from_le_bytes(rest.subrange(0, 8))
                &&& payload@ == rest.subrange(12, end)
                &&& final(self).offset() == old(self).offset() + end
            },
    {
        let n = self.buffer.len();
        if self.byte_offset == n {
            return None;
        }
        let buffer = slice_subrange(self.buffer, self.byte_offset, n);
        if buffer.len() < 12 {
            self.byte_offset = n;
            return Some(Err(MultiRecordCorruption));
        }
        let position = u64_from_le_bytes(slice_subrange(buffer, 0, 8));
        let len = u32_from_le_bytes(slice_subrange(buffer, 8, 12)) as usize;
        let buffer = slice_subrange(buffer, 12, buffer.len());
        if buffer.len() < len {
            self.byte_offset = n;
            return Some(Err(MultiRecordCorruption));
        }
        self.byte_offset = self.byte_offset + 12 + len;
        Some(Ok((position, slice_subrange(buffer, 0, len))))
    }
}

/// The common header and the trailing payload of a frame.
pub open spec fn encode_frame(tag: u8, position: u64, queue: Seq<u8>, payload: Seq<u8>) -> Seq<u8> {
    seq![tag] + spec_u64_to_le_bytes(position) + spec_u16_to_le_bytes(queue.len() as u16) + queue
        + payload
}

/// The queue-name length announced by a frame header.
pub open spec fn announced_queue_len(s: Seq<u8>) -> int {
    spec_u16_from_le_bytes(s.subrange(9, 11)) as int
}

/// What a frame decodes to: tag, position, queue-name bytes and payload, or `None`.
pub open spec fn parse_frame(s: Seq<u8>) -> Option<(u8, u64, Seq<u8>, Seq<u8>)> {
    if s.len() < 11 || !known_tag(s[0]) {
        None
    } else {
        let qlen = announced_queue_len(s);
        if s.len() - 11 < qlen {
            None
        } else {
            let queue = s.subrange(11, 11 + qlen);
            let payload = s.subrange(11 + qlen, s.len() as int);
            if !valid_utf8(queue) || (s[0] == 4 && parse_items(payload) is None) {
                None
            } else {
                Some((s[0], spec_u64_from_le_bytes(s.subrange(1, 9)), queue, payload))
            }
        }
    }
}

/// Relies on std::str::from_utf8: `Ok` exactly for valid UTF-8, borrowing the same bytes.
#[verifier::external_body]
fn str_from_utf8<'a>(v: &'a [u8]) -> (r: Option<&'a str>)
    ensures
        r is Some <==> valid_utf8(v@),
        r matches Some(s) ==> s.spec_bytes() == v@,
{
    std::str::from_utf8(v).ok()
}

/// One frame of the log.
#[derive(Clone, Copy, Debug, PartialEq, Eq)]
pub enum MultiPlexedRecord<'a> {
    /// Adds items to a queue; `position` is that of the first one.
    AppendRecords { queue: &'a str, position: u64, records: MultiRecord<'a> },
    /// Drops the items of a queue up to and including `position`.
    Truncate { queue: &'a str, position: u64 },
    /// Records the next position of a queue, creating it if needed.
    RecordPosition { queue: &'a str, position: u64 },
    /// Removes a queue.
    DeleteQueue { queue: &'a str, position: u64 },
}

impl<'a> MultiPlexedRecord<'a> {
    pub open spec fn queue_name(&self) -> &'a str {
        match *self {
            MultiPlexedRecord::AppendRecords { queue, .. } => queue,
            MultiPlexedRecord::Truncate { queue, .. } => queue,
            MultiPlexedRecord::RecordPosition { queue, .. } => queue,
            MultiPlexedRecord::DeleteQueue { queue, .. } => queue,
        }
    }

    pub open spec fn spec_position(&self) -> u64 {
        match *self {
            MultiPlexedRecord::AppendRecords { position, .. } => position,
            MultiPlexedRecord::Truncate { position, .. } => position,
            MultiPlexedRecord::RecordPosition { position, .. } => position,
            MultiPlexedRecord::DeleteQueue { position, .. } => position,
        }
    }

    pub open spec fn spec_tag(&self) -> u8 {
        match *self {
            MultiPlexedRecord::AppendRecords { .. } => 4,
            MultiPlexedRecord::Truncate { .. } => 1,
            MultiPlexedRecord::RecordPosition { .. } => 2,
            MultiPlexedRecord::DeleteQueue { .. } => 3,
        }
    }

    /// The blob of an append; empty for the other kinds.
    pub open spec fn spec_payload(&self) -> Seq<u8> {
        match *self {
            MultiPlexedRecord::AppendRecords { records, .. } => records.bytes(),
            _ => Seq::empty(),
        }
    }

    /// The bytes this record is written as.
    pub open spec fn frame(&self) -> Seq<u8> {
        encode_frame(
            self.spec_tag(),
            self.spec_position(),
            self.queue_name().spec_bytes(),
            self.spec_payload(),
        )
    }

    /// Whether this record can be written: the queue name fits in a `u16`.
    pub open spec fn writable(&self) -> bool {
        self.queue_name().spec_bytes().len() <= u16::MAX
    }

    /// Clears `buffer`, then writes this record's frame into it.
    pub fn serialize(&self, buffer: &mut Vec<u8>)
        requires
            self.writable(),
        ensures
            final(buffer)@ == self.frame(),
    {
        buffer.clear();
        match *self {
            MultiPlexedRecord::AppendRecords { position, queue, records } => {
                serialize(RecordType::AppendRecords, position, queue, records.buffer, buffer);
            },
            MultiPlexedRecord::Truncate { queue, position } => {
                serialize(RecordType::Truncate, position, queue, &[], buffer);
            },
            MultiPlexedRecord::RecordPosition { queue, position } => {
                serialize(RecordType::Touch, position, queue, &[], buffer);
            },
            MultiPlexedRecord::DeleteQueue { position, queue } => {
                serialize(RecordType::DeleteQueue, position, queue, &[], buffer);
            },
        }
    }

    /// Decodes a frame, borrowing the queue name and blob from `buffer`.
    /// Bytes after the queue name of a payload-less kind are ignored.
    pub fn deserialize(buffer: &'a [u8]) -> (r: Option<MultiPlexedRecord<'a>>)
        ensures
            r is Some <==> parse_frame(buffer@) is Some,
            r matches Some(rec) ==> {
                let (tag, position, queue, payload) = parse_frame(buffer@)->Some_0;
                &&& rec.spec_tag() == tag
                &&& rec.spec_position() == position
                &&& rec.queue_name().spec_bytes() == queue
                &&& rec.writable()
                &&& rec matches MultiPlexedRecord::AppendRecords { records, .. } ==> records.bytes()
                    == payload && records.offset() == 0
            },
    {
        if buffer.len() < 11 {
            return None;
        }
        let enum_tag = match RecordType::try_from(buffer[0]) {
            Ok(t) => t,
            Err(_) => return None,
        };
        let position = u64_from_le_bytes(slice_subrange(buffer, 1, 9));
        let queue_len = u16_from_le_bytes(slice_subrange(buffer, 9, 11)) as usize;
        let remaining = slice_subrange(buffer, 11, buffer.len());
        if remaining.len() < queue_len {
            return None;
        }
        let queue_bytes = slice_subrange(remaining, 0, queue_len);
        assert(queue_bytes@ =~= buffer@.subrange(11, 11 + queue_len));
        let queue = match str_from_utf8(queue_bytes) {
            Some(q) => q,
            None => return None,
        };
        let payload = slice_subrange(remaining, queue_len, remaining.len());
        assert(payload@ =~= buffer@.subrange(11 + queue_len, buffer@.len() as int));
        match enum_tag {
            RecordType::AppendRecords => match MultiRecord::new(payload) {
                Ok(records) => Some(MultiPlexedRecord::AppendRecords { queue, position, records }),
                Err(_) => None,
            },
            RecordType::Truncate => Some(MultiPlexedRecord::Truncate { queue, position }),
            RecordType::Touch => Some(MultiPlexedRecord::RecordPosition { queue, position }),
            RecordType::DeleteQueue => Some(MultiPlexedRecord::DeleteQueue { queue, position }),
        }
    }
}

/// Appends the header, the queue name and the payload to `buffer`.
fn serialize(
    record_type: RecordType,
    position: u64,
    queue: &str,
    payload: &[u8],
    buffer: &mut Vec<u8>,
)
    requires
        queue.spec_bytes().len() <= u16::MAX,
    ensures
        final(buffer)@ == old(buffer)@ + encode_frame(
            tag_of(record_type),
            position,
            queue.spec_bytes(),
            payload@,
        ),
{
    let ghost start = buffer@;
    let queue_bytes = queue.as_bytes();
    buffer.push(record_type.code());
    let pos_bytes = u64_to_le_bytes(position);
    buffer.extend_from_slice(pos_bytes.as_slice());
    let len_bytes = u16_to_le_bytes(queue_bytes.len() as u16);
    buffer.extend_from_slice(len_bytes.as_slice());
    buffer.extend_from_slice(queue_bytes);
    buffer.extend_from_slice(payload);
    assert(buffer@ =~= start + encode_frame(
        tag_of(record_type),
        position,
        queue.spec_bytes(),
        payload@,
    ));
}

/// Writing an item in front of a batch puts its bytes in front of the batch's blob.
pub proof fn lemma_encode_prepend(x: (u64, Seq<u8>), rest: Seq<(u64, Seq<u8>)>)
    ensures
        encode_items(seq![x] + rest) == item_bytes(x.0, x.1) + encode_items(rest),
    decreases rest.len(),
{
    let all = seq![x] + rest;
    if rest.len() == 0 {
        assert(all.drop_last() =~= Seq::<(u64, Seq<u8>)>::empty());
        assert(all.last() == x);
        assert(encode_items(all.drop_last()) =~= Seq::<u8>::empty());
        assert(encode_items(rest) =~= Seq::<u8>::empty());
        assert(encode_items(all) =~= item_bytes(x.0, x.1) + encode_items(rest));
    } else {
        assert(all.drop_last() =~= seq![x] + rest.drop_last());
        lemma_encode_prepend(x, rest.drop_last());
        assert(all.last() == rest.last());
        assert(encode_items(rest) == encode_items(rest.drop_last()) + item_bytes(
            rest.last().0,
            rest.last().1,
        ));
        assert(encode_items(all) =~= item_bytes(x.0, x.1) + encode_items(rest));
    }
}

pub open spec fn payloads_fit(items: Seq<(u64, Seq<u8>)>) -> bool {
    forall|i: int| 0 <= i < items.len() ==> #[trigger] items[i].1.len() <= u32::MAX
}

/// Reading back a blob gives exactly the items that were written into it.
pub proof fn lemma_items_round_trip(items: Seq<(u64, Seq<u8>)>)
    requires
        payloads_fit(items),
    ensures
        parse_items(encode_items(items)) == Some(items),
    decreases items.len(),
{
    if items.len() == 0 {
        assert(encode_items(items).len() == 0);
        assert(items =~= Seq::<(u64, Seq<u8>)>::empty());
    } else {
        let x = items[0];
        let rest = items.drop_first();
        assert(items =~= seq![x] + rest);
        lemma_encode_prepend(x, rest);
        assert(payloads_fit(rest)) by {
            assert forall|i: int| 0 <= i < rest.len() implies #[trigger] rest[i].1.len()
                <= u32::MAX by {
                assert(rest[i] == items[i + 1]);
            }
        }
        lemma_items_round_trip(rest);
        lemma_auto_spec_u64_to_from_le_bytes();
        lemma_auto_spec_u32_to_from_le_bytes();
        let s = encode_items(items);
        let hb = item_bytes(x.0, x.1);
        let len = x.1.len() as int;
        assert(x.1.len() <= u32::MAX);
        assert(s.subrange(0, 8) =~= spec_u64_to_le_bytes(x.0));
        assert(s.subrange(8, 12) =~= spec_u32_to_le_bytes(len as u32));
        assert(announced_len(s) == len);
        assert(s.subrange(12, 12 + len) =~= x.1);
        assert(s.subrange(12 + len, s.len() as int) =~= encode_items(rest));
        assert(seq![(x.0, x.1)] + rest =~= items);
    }
}

/// Reading back a written frame gives the record's kind, position, queue name
/// and blob; an append's blob must itself split into items.
pub proof fn lemma_record_round_trip(r: MultiPlexedRecord)
    requires
        r.writable(),
        r is AppendRecords ==> parse_items(r.spec_payload()) is Some,
    ensures
        parse_frame(r.frame()) == Some(
            (r.spec_tag(), r.spec_position(), r.queue_name().spec_bytes(), r.spec_payload()),
        ),
{
    let q = r.queue_name().spec_bytes();
    let ql = q.len() as int;
    let s = r.frame();
    lemma_auto_spec_u64_to_from_le_bytes();
    lemma_auto_spec_u16_to_from_le_bytes();
    encode_utf8_valid_utf8(r.queue_name()@);
    assert(s.subrange(1, 9) =~= spec_u64_to_le_bytes(r.spec_position()));
    assert(s.subrange(9, 11) =~= spec_u16_to_le_bytes(q.len() as u16));
    assert(announced_queue_len(s) == q.len());
    assert(s.subrange(11, 11 + ql) =~= q);
    assert(s.subrange(11 + ql, s.len() as int) =~= r.spec_payload());
}

/// A decoded queue name is the same text as the one that was written.
pub proof fn lemma_queue_name_round_trip(a: &str, b: &str)
    requires
        a.spec_bytes() == b.spec_bytes(),
    ensures
        a@ == b@,
{
    encode_utf8_decode_utf8(a@);
    encode_utf8_decode_utf8(b@);
}

/// `k` is where an item of the blob of `items` ends (or 0).
pub open spec fn is_item_boundary(items: Seq<(u64, Seq<u8>)>, k: int) -> bool {
    exists|j: int| 0 <= j <= items.len() && k == #[trigger] encode_items(items.take(j)).len()
}

/// A blob cut short anywhere but at the end of an item is rejected.
pub proof fn lemma_blob_prefix_rejected(items: Seq<(u64, Seq<u8>)>, k: int)
    requires
        payloads_fit(items),
        0 <= k < encode_items(items).len(),
        !is_item_boundary(items, k),
    ensures
        parse_items(encode_items(items).take(k)) is None,
    decreases items.len(),
{
    assert(encode_items(items.take(0)).len() == 0) by {
        assert(items.take(0).len() == 0);
    }
    if items.len() == 0 {
        return;
    }
    let x = items[0];
    let rest = items.drop_first();
    assert(items =~= seq![x] + rest);
    lemma_encode_prepend(x, rest);
    lemma_auto_spec_u32_to_from_le_bytes();
    lemma_auto_spec_u64_to_from_le_bytes();
    let ib = item_bytes(x.0, x.1);
    let len = x.1.len() as int;
    assert(x.1.len() <= u32::MAX);
    let s = encode_items(items);
    let p = s.take(k);
    assert(k != 0);
    if k < 12 {
        assert(!has_item(p));
    } else if k < ib.len() {
        assert(p.subrange(8, 12) =~= spec_u32_to_le_bytes(len as u32));
        assert(announced_len(p) == len);
        assert(!has_item(p));
    } else {
        assert(items.take(1) =~= seq![x] + rest.take(0));
        lemma_encode_prepend(x, rest.take(0));
        assert(encode_items(rest.take(0)).len() == 0) by {
            assert(rest.take(0).len() == 0);
        }
        assert(k != ib.len());
        assert(p.subrange(8, 12) =~= spec_u32_to_le_bytes(len as u32));
        assert(announced_len(p) == len);
        assert(has_item(p));
        let k2 = k - ib.len();
        assert(p.subrange(12 + len, k) =~= encode_items(rest).take(k2));
        assert(payloads_fit(rest)) by {
            assert forall|i: int| 0 <= i < rest.len() implies #[trigger] rest[i].1.len() <= u32::MAX by {
                assert(rest[i] == items[i + 1]);
            }
        }
        assert(!is_item_boundary(rest, k2)) by {
            if is_item_boundary(rest, k2) {
                let j = choose|j: int| 0 <= j <= rest.len() && k2 == #[trigger] encode_items(rest.take(j)).len();
                assert(items.take(j + 1) =~= seq![x] + rest.take(j));
                lemma_encode_prepend(x, rest.take(j));
                assert(k == encode_items(items.take(j + 1)).len());
            }
        }
        lemma_blob_prefix_rejected(rest, k2);
    }
}

/// A frame cut inside its header or its queue name is rejected.
pub proof fn lemma_frame_prefix_rejected(r: MultiPlexedRecord, k: int)
    requires
        r.writable(),
        0 <= k < 11 + r.queue_name().spec_bytes().len(),
    ensures
        parse_frame(r.frame().take(k)) is None,
{
    let q = r.queue_name().spec_bytes();
    let p = r.frame().take(k);
    lemma_auto_spec_u16_to_from_le_bytes();
    lemma_auto_spec_u64_to_from_le_bytes();
    if k >= 11 {
        assert(p.subrange(9, 11) =~= spec_u16_to_le_bytes(q.len() as u16));
        assert(announced_queue_len(p) == q.len());
    }
}

/// An append frame cut inside its blob is rejected exactly when the blob cut
/// at that point is.
pub proof fn lemma_append_frame_prefix(r: MultiPlexedRecord, m: int)
    requires
        r.writable(),
        r is AppendRecords,
        0 <= m <= r.spec_payload().len(),
    ensures
        parse_frame(r.frame().take(11 + r.queue_name().spec_bytes().len() + m)) is None
            <==> parse_items(r.spec_payload().take(m)) is None,
{
    let q = r.queue_name().spec_bytes();
    let ql = q.len() as int;
    let p = r.frame().take(11 + ql + m);
    lemma_auto_spec_u16_to_from_le_bytes();
    lemma_auto_spec_u64_to_from_le_bytes();
    encode_utf8_valid_utf8(r.queue_name()@);
    assert(p.subrange(9, 11) =~= spec_u16_to_le_bytes(q.len() as u16));
    assert(announced_queue_len(p) == ql);
    assert(p.subrange(11, 11 + ql) =~= q);
    assert(p.subrange(11 + ql, p.len() as int) =~= r.spec_payload().take(m));
}

} // verus!
