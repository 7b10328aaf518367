//! Sequential emitter of numbered PDF objects and of the cross-reference table.
//!
//! The writer keeps the bytes that were produced but not yet taken by the
//! caller; `take_output` hands them over, so the document never has to be
//! held whole in memory.
use vstd::prelude::*;
use vstd::string::StringSliceAdditionalSpecFns;
use crate::decimal::{digits, lit, zero_pad10, lemma_zero_pad10_len, push_digits, push_zero_padded10, digit_count};

verus! {

/// Why the writer refused a request.
#[derive(Debug, Clone, Copy, PartialEq, Eq, Structural)]
pub enum WriterError {
    /// Every object number that fits in `u32` has been issued.
    IdSpaceExhausted,
    /// The number was never reserved.
    NotReserved(u32),
    /// The reserved number already has a body.
    AlreadyWritten(u32),
    /// `finish` was asked for while this reserved number had no body.
    Unwritten(u32),
    /// The output would grow past what a `u64` offset can address.
    OutputTooLarge,
}

pub open spec fn file_header() -> Seq<u8> {
    lit("%PDF-1.7\n")
}

/// The line that opens object `id`.
pub open spec fn obj_open(id: nat) -> Seq<u8> {
    digits(id) + lit(" 0 obj\n")
}

/// The bytes that close every object.
pub open spec fn obj_close() -> Seq<u8> {
    lit("\nendobj\n")
}

/// A complete object: its opening line, its body and its closing line.
pub open spec fn framed(id: nat, body: Seq<u8>) -> Seq<u8> {
    obj_open(id) + body + obj_close()
}

/// The bytes of several pieces, one after the other.
pub open spec fn joined(pieces: Seq<Vec<u8>>) -> Seq<u8> {
    pieces.map_values(|p: Vec<u8>| p@).flatten()
}

/// Every recorded offset points at the opening line of its own object.
pub open spec fn markers_resolve(out: Seq<u8>, slots: Seq<Option<u64>>) -> bool {
    forall|i: int|
        0 <= i < slots.len() && (#[trigger] slots[i]) is Some ==> {
            let off = slots[i]->Some_0 as int;
            &&& off + obj_open((i + 1) as nat).len() <= out.len()
            &&& out.subrange(off, off + obj_open((i + 1) as nat).len()) == obj_open((i + 1) as nat)
        }
}

/// No two objects were recorded at the same offset.
pub open spec fn offsets_distinct(slots: Seq<Option<u64>>) -> bool {
    forall|i: int, j: int|
        0 <= i < slots.len() && 0 <= j < slots.len() && i != j && (#[trigger] slots[i]) is Some
            && (#[trigger] slots[j]) is Some ==> slots[i]->Some_0 != slots[j]->Some_0
}

/// Every issued number has a body.
pub open spec fn all_written(slots: Seq<Option<u64>>) -> bool {
    forall|i: int| 0 <= i < slots.len() ==> (#[trigger] slots[i]) is Some
}

/// The cross-reference section, trailer and end marker for the given offsets.
pub open spec fn xref_rows(offs: Seq<u64>) -> Seq<u8>
    decreases offs.len(),
{
    if offs.len() == 0 {
        seq![]
    } else {
        xref_rows(offs.drop_last()) + zero_pad10(offs.last() as nat) + lit(" 00000 n \n")
    }
}

pub open spec fn xref_head(count: nat) -> Seq<u8> {
    lit("xref\n") + lit("0 ") + digits(count) + lit("\n") + lit("0000000000 65535 f \n")
}

pub open spec fn trailer_tail(count: nat, root: nat, xref_start: nat) -> Seq<u8> {
    lit("trailer << /Size ") + digits(count) + lit(" /Root ") + digits(root) + lit(" 0 R >>\n")
        + lit("startxref\n") + digits(xref_start) + lit("\n") + lit("%%EOF\n")
}

pub open spec fn written_offsets(slots: Seq<Option<u64>>) -> Seq<u64> {
    slots.map_values(|s: Option<u64>| s->Some_0)
}

/// What `finish` appends: the table of `slots`, placed at `xref_start`.
pub open spec fn closing_bytes(slots: Seq<Option<u64>>, root: nat, xref_start: nat) -> Seq<u8> {
    xref_head((slots.len() + 1) as nat) + xref_rows(written_offsets(slots)) + trailer_tail(
        (slots.len() + 1) as nat,
        root,
        xref_start,
    )
}

pub proof fn lemma_literal_lengths()
    ensures
        lit(" 0 obj\n").len() == 7,
        lit("\nendobj\n").len() == 8,
        lit("\n").len() == 1,
        lit("%PDF-1.7\n").len() == 9,
        lit(" 00000 n \n").len() == 10,
{
    reveal_strlit(" 0 obj\n");
    reveal_strlit("\nendobj\n");
    reveal_strlit("\n");
    reveal_strlit("%PDF-1.7\n");
    reveal_strlit(" 00000 n \n");
    vstd::string::is_ascii_spec_bytes(" 0 obj\n");
    vstd::string::is_ascii_spec_bytes("\nendobj\n");
    vstd::string::is_ascii_spec_bytes("\n");
    vstd::string::is_ascii_spec_bytes("%PDF-1.7\n");
    vstd::string::is_ascii_spec_bytes(" 00000 n \n");
}

/// With every offset below ten billion each row is twenty bytes wide, and
/// row `i` starts with offset `i` written as ten digits.
pub proof fn lemma_xref_rows(offs: Seq<u64>, i: int)
    requires
        forall|j: int| 0 <= j < offs.len() ==> (#[trigger] offs[j]) < 10_000_000_000u64,
        0 <= i < offs.len(),
    ensures
        xref_rows(offs).len() == 20 * offs.len(),
        xref_rows(offs).subrange(20 * i, 20 * i + 10) == zero_pad10(offs[i] as nat),
    decreases offs.len(),
{
    lemma_literal_lengths();
    let front = offs.drop_last();
    lemma_zero_pad10_len(offs.last() as nat);
    if i < offs.len() - 1 {
        lemma_xref_rows(front, i);
        let whole = xref_rows(offs);
        assert(whole.subrange(20 * i, 20 * i + 10) =~= xref_rows(front).subrange(20 * i, 20 * i + 10));
    } else {
        if front.len() > 0 {
            lemma_xref_rows(front, 0);
        }
        let whole = xref_rows(offs);
        assert(whole.subrange(20 * i, 20 * i + 10) =~= zero_pad10(offs.last() as nat));
    }
}

/// Whether an object with this number and body still fits in the output.
pub open spec fn frame_fits(out_len: nat, id: nat, body_len: nat) -> bool {
    out_len + obj_open(id).len() + body_len + obj_close().len() <= u64::MAX
}

/// The smallest number whose slot is still empty.
pub open spec fn first_unwritten(slots: Seq<Option<u64>>, k: nat) -> bool {
    &&& 1 <= k <= slots.len()
    &&& slots[k - 1] is None
    &&& forall|i: int| 0 <= i < k - 1 ==> (#[trigger] slots[i]) is Some
}

/// The pieces, one after the other, in a single buffer.
fn concat_pieces(pieces: &Vec<Vec<u8>>) -> (r: Vec<u8>)
    ensures
        r@ == joined(pieces@),
{
    let mut r: Vec<u8> = Vec::new();
    let mut i: usize = 0;
    while i < pieces.len()
        invariant
            i <= pieces@.len(),
            r@ == joined(pieces@.take(i as int)),
        decreases pieces@.len() - i,
    {
        proof {
            let v = pieces@.take(i as int).map_values(|p: Vec<u8>| p@);
            assert(pieces@.take(i + 1).map_values(|p: Vec<u8>| p@) =~= v.push(pieces@[i as int]@));
            v.lemma_flatten_push(pieces@[i as int]@);
        }
        r.extend_from_slice(pieces[i].as_slice());
        i = i + 1;
    }
    assert(pieces@.take(pieces@.len() as int) =~= pieces@);
    r
}

pub struct PdfStreamWriter {
    pending: Vec<u8>,
    flushed: u64,
    offsets: Vec<Option<u64>>,
    next_obj_id: u32,
    emitted: Ghost<Seq<u8>>,
}

impl PdfStreamWriter {
    /// Every byte produced so far, taken or not.
    pub closed spec fn output(&self) -> Seq<u8> {
        self.emitted@
    }

    /// One entry per issued number, in order: the offset of its body, or
    /// `None` while a reserved number has none yet.
    pub closed spec fn slots(&self) -> Seq<Option<u64>> {
        self.offsets@
    }

    /// How many bytes were already handed over by `take_output`.
    pub closed spec fn taken(&self) -> nat {
        self.flushed as nat
    }

    pub closed spec fn next_id(&self) -> nat {
        self.next_obj_id as nat
    }

    pub closed spec fn wf(&self) -> bool {
        &&& self.emitted@.len() == self.flushed + self.pending@.len()
        &&& self.emitted@.len() <= u64::MAX
        &&& self.emitted@.subrange(self.flushed as int, self.emitted@.len() as int) == self.pending@
        &&& self.offsets@.len() + 1 == self.next_obj_id
        &&& markers_resolve(self.emitted@, self.offsets@)
        &&& offsets_distinct(self.offsets@)
        &&& forall|i: int|
            0 <= i < self.offsets@.len() && (#[trigger] self.offsets@[i]) is Some
                ==> self.offsets@[i]->Some_0 < self.emitted@.len()
    }

    /// What a well-formed writer guarantees of its bookkeeping: one slot per
    /// issued number, numbers within `u32`, each written slot pointing at its
    /// own opening line inside the output, and no two slots sharing an offset.
    /// Every offset lies below the output's length, and each write records
    /// its object at the output's current length, so an object written later
    /// gets a larger offset than every object before it.
    pub proof fn lemma_bookkeeping(&self)
        requires
            self.wf(),
        ensures
            self.slots().len() + 1 == self.next_id(),
            1 <= self.next_id() <= u32::MAX,
            forall|i: int|
                0 <= i < self.slots().len() && (#[trigger] self.slots()[i]) is Some ==> self.slots()[i]->Some_0
                    < self.output().len(),
            markers_resolve(self.output(), self.slots()),
            offsets_distinct(self.slots()),
            self.taken() <= self.output().len(),
    {
    }

    pub fn new() -> (r: PdfStreamWriter)
        ensures
            r.wf(),
            r.output() == file_header(),
            r.slots() == Seq::<Option<u64>>::empty(),
            r.next_id() == 1,
            r.taken() == 0,
    {
        proof {
            lemma_literal_lengths();
        }
        let mut pending: Vec<u8> = Vec::new();
        pending.extend_from_slice("%PDF-1.7\n".as_bytes());
        let r = PdfStreamWriter {
            pending,
            flushed: 0,
            offsets: Vec::new(),
            next_obj_id: 1,
            emitted: Ghost(file_header()),
        };
        assert(r.emitted@.subrange(0, r.emitted@.len() as int) =~= r.pending@);
        r
    }

    /// The number the next issued object will get.
    pub fn next_obj_id(&self) -> (r: u32)
        requires
            self.wf(),
        ensures
            r == self.next_id(),
    {
        self.next_obj_id
    }

    /// Current length of the whole output.
    pub fn position(&self) -> (r: u64)
        requires
            self.wf(),
        ensures
            r == self.output().len(),
    {
        self.flushed + self.pending.len() as u64
    }

    /// Hands over the bytes produced since the last call.
    pub fn take_output(&mut self) -> (r: Vec<u8>)
        requires
            old(self).wf(),
        ensures
            final(self).wf(),
            final(self).output() == old(self).output(),
            final(self).slots() == old(self).slots(),
            final(self).next_id() == old(self).next_id(),
            final(self).taken() == old(self).output().len(),
            r@ == old(self).output().subrange(old(self).taken() as int, old(self).output().len() as int),
    {
        let r = self.pending.split_off(0);
        self.flushed = self.flushed + r.len() as u64;
        assert(self.emitted@.subrange(self.flushed as int, self.emitted@.len() as int) =~= self.pending@);
        r
    }

    fn append(&mut self, bytes: &[u8])
        requires
            old(self).wf(),
            old(self).output().len() + bytes@.len() <= u64::MAX,
        ensures
            final(self).output() == old(self).output() + bytes@,
            final(self).slots() == old(self).slots(),
            final(self).next_id() == old(self).next_id(),
            final(self).taken() == old(self).taken(),
            final(self).wf(),
    {
        let ghost old_out = self.emitted@;
        self.pending.extend_from_slice(bytes);
        self.emitted = Ghost(self.emitted@ + bytes@);
        assert(self.emitted@.subrange(self.flushed as int, self.emitted@.len() as int) =~= self.pending@);
        assert forall|i: int|
            0 <= i < self.offsets@.len() && (#[trigger] self.offsets@[i]) is Some implies {
                let off = self.offsets@[i]->Some_0 as int;
                &&& off + obj_open((i + 1) as nat).len() <= self.emitted@.len()
                &&& self.emitted@.subrange(off, off + obj_open((i + 1) as nat).len()) == obj_open((i + 1) as nat)
            } by {
            let off = self.offsets@[i]->Some_0 as int;
            assert(self.emitted@.subrange(off, off + obj_open((i + 1) as nat).len())
                =~= old_out.subrange(off, off + obj_open((i + 1) as nat).len()));
        }
    }

    /// Appends the opening line of object `id` and records its offset in slot `id - 1`.
    fn open_object(&mut self, id: u32)
        requires
            old(self).wf(),
            1 <= id < old(self).next_id(),
            old(self).slots()[id - 1] is None,
            old(self).output().len() + obj_open(id as nat).len() <= u64::MAX,
        ensures
            final(self).wf(),
            final(self).output() == old(self).output() + obj_open(id as nat),
            final(self).slots() == old(self).slots().update(id - 1, Some(old(self).output().len() as u64)),
            final(self).next_id() == old(self).next_id(),
            final(self).taken() == old(self).taken(),
    {
        proof {
            lemma_literal_lengths();
        }
        let pos = self.position();
        let ghost old_slots = self.offsets@;
        let mut line: Vec<u8> = Vec::new();
        push_digits(&mut line, id as u64);
        line.extend_from_slice(" 0 obj\n".as_bytes());
        assert(line@ =~= obj_open(id as nat));
        self.append(line.as_slice());
        self.offsets.set((id - 1) as usize, Some(pos));
        assert(self.emitted@.subrange(pos as int, pos + obj_open(id as nat).len()) =~= obj_open(id as nat));
        assert forall|i: int, j: int|
            0 <= i < self.offsets@.len() && 0 <= j < self.offsets@.len() && i != j
                && (#[trigger] self.offsets@[i]) is Some && (#[trigger] self.offsets@[j]) is Some
            implies self.offsets@[i]->Some_0 != self.offsets@[j]->Some_0 by {
            if i != id - 1 && j != id - 1 {
                assert(old_slots[i] == self.offsets@[i] && old_slots[j] == self.offsets@[j]);
            } else if i == id - 1 {
                assert(old_slots[j] == self.offsets@[j]);
            } else {
                assert(old_slots[i] == self.offsets@[i]);
            }
        }
        assert forall|i: int|
            0 <= i < self.offsets@.len() && (#[trigger] self.offsets@[i]) is Some
                implies self.offsets@[i]->Some_0 < self.emitted@.len() by {
            if i != id - 1 {
                assert(old_slots[i] == self.offsets@[i]);
            }
        }
        assert forall|i: int|
            0 <= i < self.offsets@.len() && (#[trigger] self.offsets@[i]) is Some implies {
                let off = self.offsets@[i]->Some_0 as int;
                &&& off + obj_open((i + 1) as nat).len() <= self.emitted@.len()
                &&& self.emitted@.subrange(off, off + obj_open((i + 1) as nat).len()) == obj_open((i + 1) as nat)
            } by {
            if i != id - 1 {
                assert(old_slots[i] == self.offsets@[i]);
            }
        }
    }

    /// Issues the next number with an empty slot.
    fn issue(&mut self) -> (r: Result<u32, WriterError>)
        requires
            old(self).wf(),
        ensures
            final(self).wf(),
            final(self).output() == old(self).output(),
            final(self).taken() == old(self).taken(),
            old(self).next_id() == u32::MAX ==> r == Err::<u32, WriterError>(WriterError::IdSpaceExhausted)
                && final(self).slots() == old(self).slots() && final(self).next_id() == old(self).next_id(),
            old(self).next_id() < u32::MAX ==> r == Ok::<u32, WriterError>(old(self).next_id() as u32)
                && final(self).slots() == old(self).slots().push(None)
                && final(self).next_id() == old(self).next_id() + 1,
    {
        if self.next_obj_id == u32::MAX {
            return Err(WriterError::IdSpaceExhausted);
        }
        let id = self.next_obj_id;
        self.offsets.push(None);
        self.next_obj_id = id + 1;
        let ghost s = self.offsets@;
        assert forall|i: int, j: int|
            0 <= i < s.len() && 0 <= j < s.len() && i != j && (#[trigger] s[i]) is Some
                && (#[trigger] s[j]) is Some implies s[i]->Some_0 != s[j]->Some_0 by {
            assert(s[i] == old(self).offsets@[i] && s[j] == old(self).offsets@[j]);
        }
        assert forall|i: int|
            0 <= i < s.len() && (#[trigger] s[i]) is Some implies s[i]->Some_0 < self.emitted@.len() by {
            assert(s[i] == old(self).offsets@[i]);
        }
        assert forall|i: int|
            0 <= i < s.len() && (#[trigger] s[i]) is Some implies {
                let off = s[i]->Some_0 as int;
                &&& off + obj_open((i + 1) as nat).len() <= self.emitted@.len()
                &&& self.emitted@.subrange(off, off + obj_open((i + 1) as nat).len()) == obj_open((i + 1) as nat)
            } by {
            assert(s[i] == old(self).offsets@[i]);
        }
        Ok(id)
    }

    pub fn fits(&self, id: u32, body_len: usize) -> (r: bool)
        requires
            self.wf(),
        ensures
            r == frame_fits(self.output().len(), id as nat, body_len as nat),
    {
        proof {
            lemma_literal_lengths();
        }
        let pos = self.position();
        let fixed: u64 = digit_count(id as u64) as u64 + 15;
        if fixed > u64::MAX - pos {
            false
        } else {
            (body_len as u64) <= u64::MAX - pos - fixed
        }
    }

    /// Issues the next number without writing a body, so that objects
    /// written earlier can refer to it.
    pub fn reserve_object(&mut self) -> (r: Result<u32, WriterError>)
        requires
            old(self).wf(),
        ensures
            final(self).wf(),
            final(self).output() == old(self).output(),
            final(self).taken() == old(self).taken(),
            old(self).next_id() == u32::MAX ==> r == Err::<u32, WriterError>(WriterError::IdSpaceExhausted)
                && final(self).slots() == old(self).slots() && final(self).next_id() == old(self).next_id(),
            old(self).next_id() < u32::MAX ==> r == Ok::<u32, WriterError>(old(self).next_id() as u32)
                && final(self).slots() == old(self).slots().push(None)
                && final(self).next_id() == old(self).next_id() + 1,
    {
        self.issue()
    }

    /// Writes `body` as a new object under the next number, and returns that number.
    pub fn write_object(&mut self, body: &[u8]) -> (r: Result<u32, WriterError>)
        requires
            old(self).wf(),
        ensures
            final(self).wf(),
            final(self).taken() == old(self).taken(),
            match r {
                Ok(id) => {
                    &&& old(self).next_id() < u32::MAX
                    &&& frame_fits(old(self).output().len(), old(self).next_id(), body@.len())
                    &&& id == old(self).next_id()
                    &&& final(self).output() == old(self).output() + framed(id as nat, body@)
                    &&& final(self).slots() == old(self).slots().push(Some(old(self).output().len() as u64))
                    &&& final(self).next_id() == old(self).next_id() + 1
                },
                Err(e) => {
                    &&& final(self).output() == old(self).output()
                    &&& final(self).slots() == old(self).slots()
                    &&& final(self).next_id() == old(self).next_id()
                    &&& (e == WriterError::IdSpaceExhausted || e == WriterError::OutputTooLarge)
                    &&& (e == WriterError::IdSpaceExhausted) == (old(self).next_id() == u32::MAX)
                    &&& (e == WriterError::OutputTooLarge) == (old(self).next_id() < u32::MAX
                        && !frame_fits(old(self).output().len(), old(self).next_id(), body@.len()))
                },
            },
    {
        if self.next_obj_id == u32::MAX {
            return Err(WriterError::IdSpaceExhausted);
        }
        if !self.fits(self.next_obj_id, body.len()) {
            return Err(WriterError::OutputTooLarge);
        }
        proof {
            lemma_literal_lengths();
        }
        let ghost start = self.output();
        let id = match self.issue() {
            Ok(id) => id,
            Err(e) => {
                return Err(e);
            },
        };
        self.open_object(id);
        self.append(body);
        self.append("\nendobj\n".as_bytes());
        assert(self.output() =~= start + framed(id as nat, body@));
        Ok(id)
    }

    /// Writes the pieces one after the other, and a newline, as a new object.
    pub fn write_object_with(&mut self, pieces: &Vec<Vec<u8>>) -> (r: Result<u32, WriterError>)
        requires
            old(self).wf(),
        ensures
            final(self).wf(),
            final(self).taken() == old(self).taken(),
            match r {
                Ok(id) => {
                    &&& old(self).next_id() < u32::MAX
                    &&& frame_fits(old(self).output().len(), old(self).next_id(), joined(pieces@).len() + 1)
                    &&& id == old(self).next_id()
                    &&& final(self).output() == old(self).output() + framed(id as nat, joined(pieces@) + lit("\n"))
                    &&& final(self).slots() == old(self).slots().push(Some(old(self).output().len() as u64))
                    &&& final(self).next_id() == old(self).next_id() + 1
                },
                Err(e) => {
                    &&& final(self).output() == old(self).output()
                    &&& final(self).slots() == old(self).slots()
                    &&& final(self).next_id() == old(self).next_id()
                    &&& (e == WriterError::IdSpaceExhausted || e == WriterError::OutputTooLarge)
                    &&& (e == WriterError::IdSpaceExhausted) == (old(self).next_id() == u32::MAX)
                    &&& (e == WriterError::OutputTooLarge) == (old(self).next_id() < u32::MAX
                        && !frame_fits(old(self).output().len(), old(self).next_id(), joined(pieces@).len() + 1))
                },
            },
    {
        proof {
            lemma_literal_lengths();
        }
        let body = concat_pieces(pieces);
        let mut body = body;
        body.extend_from_slice("\n".as_bytes());
        self.write_object(body.as_slice())
    }

    /// Writes the pieces as the body of the reserved number `id`.
    pub fn write_object_with_reserved_id(&mut self, id: u32, pieces: &Vec<Vec<u8>>) -> (r: Result<(), WriterError>)
        requires
            old(self).wf(),
        ensures
            final(self).wf(),
            final(self).taken() == old(self).taken(),
            final(self).next_id() == old(self).next_id(),
            match r {
                Ok(()) => {
                    &&& 1 <= id < old(self).next_id()
                    &&& old(self).slots()[id - 1] is None
                    &&& frame_fits(old(self).output().len(), id as nat, joined(pieces@).len())
                    &&& final(self).output() == old(self).output() + framed(id as nat, joined(pieces@))
                    &&& final(self).slots() == old(self).slots().update(id - 1, Some(old(self).output().len() as u64))
                },
                Err(e) => {
                    &&& final(self).output() == old(self).output()
                    &&& final(self).slots() == old(self).slots()
                    &&& (e == WriterError::NotReserved(id) || e == WriterError::AlreadyWritten(id)
                        || e == WriterError::OutputTooLarge)
                    &&& (e == WriterError::NotReserved(id)) == (id == 0 || id >= old(self).next_id())
                    &&& (e == WriterError::AlreadyWritten(id)) == (1 <= id < old(self).next_id()
                        && old(self).slots()[id - 1] is Some)
                    &&& (e == WriterError::OutputTooLarge) == (1 <= id < old(self).next_id()
                        && old(self).slots()[id - 1] is None
                        && !frame_fits(old(self).output().len(), id as nat, joined(pieces@).len()))
                },
            },
    {
        if id == 0 || id >= self.next_obj_id {
            return Err(WriterError::NotReserved(id));
        }
        if self.offsets[(id - 1) as usize].is_some() {
            return Err(WriterError::AlreadyWritten(id));
        }
        let body = concat_pieces(pieces);
        if !self.fits(id, body.len()) {
            return Err(WriterError::OutputTooLarge);
        }
        proof {
            lemma_literal_lengths();
        }
        let ghost start = self.output();
        self.open_object(id);
        self.append(body.as_slice());
        self.append("\nendobj\n".as_bytes());
        assert(self.output() =~= start + framed(id as nat, joined(pieces@)));
        Ok(())
    }

    /// Completes the file: appends the cross-reference table, the trailer
    /// naming `root_id`, the table's offset and the end marker, and hands back
    /// every byte not yet taken. Refused while a reserved number has no body.
    pub fn finish(self, root_id: u32) -> (r: Result<Vec<u8>, WriterError>)
        requires
            self.wf(),
        ensures
            match r {
                Ok(b) => {
                    &&& all_written(self.slots())
                    &&& b@ == self.output().subrange(self.taken() as int, self.output().len() as int)
                        + closing_bytes(self.slots(), root_id as nat, self.output().len())
                },
                Err(e) => exists|k: nat| first_unwritten(self.slots(), k) && e == WriterError::Unwritten(k as u32),
            },
    {
        let mut i: usize = 0;
        while i < self.offsets.len()
            invariant
                self.wf(),
                i <= self.offsets@.len(),
                forall|j: int| 0 <= j < i ==> (#[trigger] self.offsets@[j]) is Some,
            decreases self.offsets@.len() - i,
        {
            if self.offsets[i].is_none() {
                assert(first_unwritten(self.slots(), (i + 1) as nat));
                return Err(WriterError::Unwritten((i + 1) as u32));
            }
            i = i + 1;
        }
        let xref_start = self.position();
        let count = self.next_obj_id;
        let ghost offs = written_offsets(self.offsets@);
        let mut out = self.pending;
        let ghost start = out@;
        out.extend_from_slice("xref\n".as_bytes());
        out.extend_from_slice("0 ".as_bytes());
        push_digits(&mut out, count as u64);
        out.extend_from_slice("\n".as_bytes());
        out.extend_from_slice("0000000000 65535 f \n".as_bytes());
        assert(out@ =~= start + xref_head(count as nat));
        let ghost head = out@;
        let mut k: usize = 0;
        while k < self.offsets.len()
            invariant
                k <= self.offsets@.len(),
                offs == written_offsets(self.offsets@),
                all_written(self.offsets@),
                out@ == head + xref_rows(offs.take(k as int)),
            decreases self.offsets@.len() - k,
        {
            let off = match self.offsets[k] {
                Some(o) => o,
                None => 0,
            };
            assert(off == offs[k as int]);
            push_zero_padded10(&mut out, off);
            out.extend_from_slice(" 00000 n \n".as_bytes());
            assert(offs.take(k + 1).drop_last() =~= offs.take(k as int));
            assert(out@ =~= head + xref_rows(offs.take(k + 1)));
            k = k + 1;
        }
        assert(offs.take(offs.len() as int) =~= offs);
        let ghost rows = out@;
        out.extend_from_slice("trailer << /Size ".as_bytes());
        push_digits(&mut out, count as u64);
        out.extend_from_slice(" /Root ".as_bytes());
        push_digits(&mut out, root_id as u64);
        out.extend_from_slice(" 0 R >>\n".as_bytes());
        out.extend_from_slice("startxref\n".as_bytes());
        push_digits(&mut out, xref_start);
        out.extend_from_slice("\n".as_bytes());
        out.extend_from_slice("%%EOF\n".as_bytes());
        assert(out@ =~= rows + trailer_tail(count as nat, root_id as nat, xref_start as nat));
        assert(out@ =~= start + closing_bytes(self.offsets@, root_id as nat, xref_start as nat));
        Ok(out)
    }

    /// Reading the finished file back: for every number `id` from 1 to the
    /// count of issued numbers, row `id` of the cross-reference table names, in
    /// ten digits, an offset at which the file carries the opening line of
    /// object `id`. Rows are of fixed width only while offsets stay below ten
    /// billion.
    pub proof fn lemma_xref_resolves(&self, root_id: nat, id: int)
        requires
            self.wf(),
            all_written(self.slots()),
            self.output().len() < 10_000_000_000,
            1 <= id <= self.slots().len(),
        ensures
            ({
                let file = self.output() + closing_bytes(self.slots(), root_id, self.output().len());
                let row = self.output().len() + xref_head((self.slots().len() + 1) as nat).len() + 20 * (id - 1);
                let off = self.slots()[id - 1]->Some_0 as int;
                &&& file.subrange(row, row + 10) == zero_pad10(off as nat)
                &&& file.subrange(off, off + obj_open(id as nat).len()) == obj_open(id as nat)
            }),
    {
        lemma_table_resolves(self.output(), self.slots(), root_id, id);
    }
}

/// Reading a table back: where every offset of `slots` points at its object's
/// opening line in `out`, lies inside `out` and is below ten billion, row `id`
/// of the table appended after `out` names, in ten digits, an offset at which
/// the file carries the opening line of object `id`.
pub proof fn lemma_table_resolves(out: Seq<u8>, slots: Seq<Option<u64>>, root_id: nat, id: int)
    requires
        markers_resolve(out, slots),
        all_written(slots),
        out.len() < 10_000_000_000,
        forall|i: int| 0 <= i < slots.len() && (#[trigger] slots[i]) is Some ==> slots[i]->Some_0 < out.len(),
        1 <= id <= slots.len(),
    ensures
        ({
            let file = out + closing_bytes(slots, root_id, out.len());
            let row = out.len() + xref_head((slots.len() + 1) as nat).len() + 20 * (id - 1);
            let off = slots[id - 1]->Some_0 as int;
            &&& file.subrange(row, row + 10) == zero_pad10(off as nat)
            &&& file.subrange(off, off + obj_open(id as nat).len()) == obj_open(id as nat)
        }),
{
    let offs = written_offsets(slots);
    assert forall|j: int| 0 <= j < offs.len() implies (#[trigger] offs[j]) < 10_000_000_000u64 by {
        assert(slots[j] is Some);
    }
    lemma_xref_rows(offs, id - 1);
    let head = xref_head((slots.len() + 1) as nat);
    let file = out + closing_bytes(slots, root_id, out.len());
    let row = out.len() + head.len() + 20 * (id - 1);
    assert(file.subrange(row, row + 10) =~= xref_rows(offs).subrange(20 * (id - 1), 20 * (id - 1) + 10));
    let off = slots[id - 1]->Some_0 as int;
    assert(slots[id - 1] is Some);
    assert(file.subrange(off, off + obj_open(id as nat).len()) =~= out.subrange(off, off + obj_open(id as nat).len()));
}

} // verus!
