//! Disk-backed overflow FIFO of paths.
//!
//! Paths that do not fit in memory are appended to an anonymous temporary
//! file, each serialised as its raw bytes followed by a single NUL.  NUL
//! cannot occur inside a path, so the encoding is lossless.  A read cursor
//! trails the append position; the records between them are the pending
//! paths, oldest first.

use vstd::prelude::*;

verus! {

use crate::Error;
use crate::state::PathQueueState;
use std::io::Read;
use std::io::Seek;
use std::io::Write;
use tempfile::SpooledTempFile;

/// Byte budget for one spill store.  Leaves slack under `u64::MAX` so that
/// fill-level arithmetic over all stages of a queue cannot wrap.
pub const SPILL_MAX_BYTES: u64 = 0xFFFF_FFFD_FFFF_FFFF;

#[verifier::external_type_specification]
#[verifier::external_body]
pub struct ExSpooledTempFile(SpooledTempFile);

/// The bytes a spill store holds.
pub uninterp spec fn spill_bytes(f: SpooledTempFile) -> Seq<u8>;

/// A spill store's cursor position.
pub uninterp spec fn spill_pos(f: SpooledTempFile) -> int;

/// Relies on tempfile::SpooledTempFile::new: a fresh store holds no bytes and
/// its cursor is at the start.  With a zero in-memory threshold the first
/// write rolls the store over to an unnamed temporary file on disk.
#[verifier::external_body]
fn spill_create() -> (f: SpooledTempFile)
    ensures
        spill_bytes(f) == Seq::<u8>::empty(),
        spill_pos(f) == 0,
{
    SpooledTempFile::new(0)
}

/// Relies on Seek::seek for tempfile::SpooledTempFile: seeking from the start
/// moves the cursor and leaves the contents alone.
#[verifier::external_body]
fn spill_seek(f: &mut SpooledTempFile, pos: u64) -> (ok: bool)
    ensures
        spill_bytes(*final(f)) == spill_bytes(*old(f)),
        ok ==> spill_pos(*final(f)) == pos,
{
    f.seek(std::io::SeekFrom::Start(pos)).is_ok()
}

/// Relies on Write::write_all for tempfile::SpooledTempFile: with the cursor
/// at the end, a successful write appends exactly the given bytes and leaves
/// the cursor at the new end.  After a failure the store's bytes are not
/// relied on.
#[verifier::external_body]
fn spill_write(f: &mut SpooledTempFile, buf: &Vec<u8>) -> (ok: bool)
    requires
        spill_pos(*old(f)) == spill_bytes(*old(f)).len(),
    ensures
        ok ==> spill_bytes(*final(f)) == spill_bytes(*old(f)) + buf@,
        ok ==> spill_pos(*final(f)) == spill_bytes(*final(f)).len(),
{
    f.write_all(buf.as_slice()).is_ok()
}

/// Relies on Read::read_exact for tempfile::SpooledTempFile: a successful
/// read returns exactly the `n` bytes at the cursor and advances the cursor
/// past them; it fails if fewer than `n` bytes remain.  Reading never changes
/// the contents.  At least one byte must be asked for: a zero-length read
/// succeeds without touching the reader, even with the cursor past the end,
/// so it would witness nothing about the cursor.
#[verifier::external_body]
fn spill_read_exact(f: &mut SpooledTempFile, n: usize) -> (r: Option<Vec<u8>>)
    requires
        n >= 1,
    ensures
        spill_bytes(*final(f)) == spill_bytes(*old(f)),
        r is Some ==> {
            &&& spill_pos(*old(f)) + n <= spill_bytes(*old(f)).len()
            &&& r->0@ == spill_bytes(*old(f)).subrange(
                spill_pos(*old(f)),
                spill_pos(*old(f)) + n,
            )
            &&& spill_pos(*final(f)) == spill_pos(*old(f)) + n
        },
{
    let mut buf = vec![0u8; n];
    match f.read_exact(buf.as_mut_slice()) {
        Ok(()) => Some(buf),
        Err(_) => None,
    }
}

/// One record as laid out in the spill store: the path bytes and a NUL.
pub open spec fn encode_record(p: Seq<u8>) -> Seq<u8> {
    p.push(0u8)
}

/// The spill store layout of a sequence of pending paths.
pub open spec fn encode_records(rs: Seq<Seq<u8>>) -> Seq<u8>
    decreases rs.len(),
{
    if rs.len() == 0 {
        Seq::empty()
    } else {
        encode_record(rs.first()) + encode_records(rs.drop_first())
    }
}

/// Appending a path appends its record to the layout.
proof fn lemma_encode_records_push(rs: Seq<Seq<u8>>, p: Seq<u8>)
    ensures
        encode_records(rs.push(p)) == encode_records(rs) + encode_record(p),
    decreases rs.len(),
{
    if rs.len() == 0 {
        assert(rs.push(p).drop_first() =~= Seq::<Seq<u8>>::empty());
        assert(rs.push(p).first() == p);
        assert(encode_record(p) + encode_records(Seq::<Seq<u8>>::empty()) =~= encode_record(p));
        assert(encode_records(rs) + encode_record(p) =~= encode_record(p));
    } else {
        assert(rs.push(p).first() == rs.first());
        assert(rs.push(p).drop_first() =~= rs.drop_first().push(p));
        lemma_encode_records_push(rs.drop_first(), p);
        assert(encode_record(rs.first()) + (encode_records(rs.drop_first()) + encode_record(p))
            =~= (encode_record(rs.first()) + encode_records(rs.drop_first())) + encode_record(p));
    }
}

/// Unbounded overflow FIFO backed by an anonymous temporary file.
pub struct TempfilePathQueue {
    push_count: u64,
    pop_count: u64,
    read_pos: u64,
    written_len: u64,
    file: SpooledTempFile,
    pending: Ghost<Seq<Seq<u8>>>,
}

impl TempfilePathQueue {
    /// The pending paths, oldest first.
    pub closed spec fn view(self) -> Seq<Seq<u8>> {
        self.pending@
    }

    /// Count of paths ever pushed.
    pub closed spec fn pushed_spec(self) -> int {
        self.push_count as int
    }

    /// Count of paths ever popped.
    pub closed spec fn popped_spec(self) -> int {
        self.pop_count as int
    }

    /// Well-formedness: the counters agree with the pending records, and the
    /// bytes between the read cursor and the end of the store are exactly the
    /// pending records' layout.
    pub closed spec fn wf(self) -> bool {
        &&& self.pop_count <= self.push_count
        &&& self.push_count - self.pop_count == self.pending@.len()
        &&& self.push_count <= self.written_len
        &&& self.read_pos <= self.written_len
        &&& self.written_len <= SPILL_MAX_BYTES
        &&& spill_bytes(self.file).len() == self.written_len
        &&& spill_bytes(self.file).subrange(self.read_pos as int, self.written_len as int)
            == encode_records(self.pending@)
        &&& forall|i: int|
            0 <= i < self.pending@.len() ==> !(#[trigger] self.pending@[i]).contains(0u8)
        &&& forall|i: int| 0 <= i < self.pending@.len() ==> (#[trigger] self.pending@[i]).len()
            <= usize::MAX
    }

    /// The fill level a well-formed store's counters represent.
    pub proof fn lemma_counts(self)
        requires
            self.wf(),
        ensures
            self.pushed_spec() - self.popped_spec() == self@.len(),
            self@.len() <= SPILL_MAX_BYTES,
    {
    }

    /// Create an empty overflow FIFO.  The backing file is created lazily by
    /// the first write.
    pub fn new() -> (q: TempfilePathQueue)
        ensures
            q.wf(),
            q@ == Seq::<Seq<u8>>::empty(),
            q.pushed_spec() == 0 && q.popped_spec() == 0,
    {
        let file = spill_create();
        let q = TempfilePathQueue {
            push_count: 0,
            pop_count: 0,
            read_pos: 0,
            written_len: 0,
            file,
            pending: Ghost(Seq::empty()),
        };
        proof {
            assert(spill_bytes(q.file).subrange(0, 0) =~= Seq::<u8>::empty());
        }
        q
    }

    /// Append one path.  Fails only if the store cannot be written or the
    /// byte budget would be exceeded.
    pub fn push(&mut self, path: &Vec<u8>) -> (r: Result<(), Error>)
        requires
            old(self).wf(),
            !path@.contains(0u8),
        ensures
            r is Ok ==> final(self).wf() && final(self)@ == old(self)@.push(path@)
                && final(self).pushed_spec() == old(self).pushed_spec() + 1
                && final(self).popped_spec() == old(self).popped_spec(),
            r is Err ==> r->Err_0 == Error::Io && final(self).pushed_spec() == old(self).pushed_spec() && final(self).popped_spec() == old(self).popped_spec(),
    {
        let len64: u64 = path.len() as u64;
        if len64 >= SPILL_MAX_BYTES - self.written_len {
            return Err(Error::Io);
        }
        if !spill_seek(&mut self.file, self.written_len) {
            return Err(Error::Io);
        }
        let mut rec: Vec<u8> = Vec::new();
        let mut i: usize = 0;
        while i < path.len()
            invariant
                i <= path.len(),
                rec@ == path@.subrange(0, i as int),
            decreases path.len() - i,
        {
            rec.push(path[i]);
            proof {
                assert(rec@ =~= path@.subrange(0, i + 1));
            }
            i = i + 1;
        }
        rec.push(0u8);
        proof {
            assert(path@.subrange(0, path@.len() as int) =~= path@);
            assert(rec@ =~= encode_record(path@));
        }
        let ghost pre = *self;
        if !spill_write(&mut self.file, &rec) {
            return Err(Error::Io);
        }
        self.written_len = self.written_len + len64 + 1;
        self.push_count = self.push_count + 1;
        self.pending = Ghost(self.pending@.push(path@));
        proof {
            lemma_encode_records_push(pre.pending@, path@);
            let bytes = spill_bytes(self.file);
            assert(bytes.subrange(self.read_pos as int, self.written_len as int) =~= spill_bytes(
                pre.file,
            ).subrange(pre.read_pos as int, pre.written_len as int) + rec@);
        }
        Ok(())
    }

    /// Remove and return the oldest pending path, or `None` if the store is
    /// empty.  Fails only if the backing file cannot be read.
    pub fn pop(&mut self) -> (r: Result<Option<Vec<u8>>, Error>)
        requires
            old(self).wf(),
        ensures
            old(self)@.len() == 0 ==> r == Result::<Option<Vec<u8>>, Error>::Ok(None)
                && *final(self) == *old(self),
            r is Ok && old(self)@.len() > 0 ==> {
                &&& r->Ok_0 is Some
                &&& r->Ok_0->0@ == old(self)@[0]
                &&& final(self).wf()
                &&& final(self)@ == old(self)@.drop_first()
                &&& final(self).pushed_spec() == old(self).pushed_spec()
                &&& final(self).popped_spec() == old(self).popped_spec() + 1
            },
            r is Err ==> old(self)@.len() > 0 && r->Err_0 == Error::Io && final(self).pushed_spec() == old(self).pushed_spec() && final(self).popped_spec() == old(self).popped_spec(),
    {
        if self.push_count == self.pop_count {
            return Ok(None);
        }
        if !spill_seek(&mut self.file, self.read_pos) {
            return Err(Error::Io);
        }
        let ghost pre = *self;
        let ghost head = self.pending@[0];
        let ghost bytes = spill_bytes(self.file);
        proof {
            assert(encode_records(pre.pending@) == encode_record(head) + encode_records(
                pre.pending@.drop_first(),
            )) by {
                assert(pre.pending@.first() == head);
            }
            assert(pre.read_pos + head.len() + 1 <= pre.written_len) by {
                assert(bytes.subrange(pre.read_pos as int, pre.written_len as int).len()
                    == head.len() + 1 + encode_records(pre.pending@.drop_first()).len());
            }
        }
        let mut rec: Vec<u8> = Vec::new();
        loop
            invariant_except_break
                spill_pos(self.file) == pre.read_pos + rec@.len(),
            invariant
                self.push_count == pre.push_count,
                self.pop_count == pre.pop_count,
                self.read_pos == pre.read_pos,
                self.written_len == pre.written_len,
                self.pending == pre.pending,
                pre.wf(),
                old(self)@ == pre.pending@,
                pre.push_count == old(self).push_count,
                pre.pop_count == old(self).pop_count,
                pre.pending@.len() > 0,
                head == pre.pending@[0],
                head.len() <= usize::MAX,
                !head.contains(0u8),
                pre.read_pos + head.len() + 1 <= pre.written_len,
                spill_bytes(self.file) == spill_bytes(pre.file),
                rec@.len() <= head.len(),
                rec@ == head.subrange(0, rec@.len() as int),
            ensures
                rec@ == head,
                spill_bytes(self.file) == spill_bytes(pre.file),
                spill_pos(self.file) == pre.read_pos + head.len() + 1,
                self.push_count == pre.push_count,
                self.pop_count == pre.pop_count,
                self.read_pos == pre.read_pos,
                self.written_len == pre.written_len,
                self.pending == pre.pending,
            decreases head.len() - rec@.len(),
        {
            let got = spill_read_exact(&mut self.file, 1);
            match got {
                None => {
                    return Err(Error::Io);
                },
                Some(b) => {
                    proof {
                        let j = rec@.len() as int;
                        assert(b@[0] == spill_bytes(pre.file)[pre.read_pos + j]);
                        assert(spill_bytes(pre.file).subrange(
                            pre.read_pos as int,
                            pre.written_len as int,
                        )[j] == spill_bytes(pre.file)[pre.read_pos + j]);
                        assert(encode_records(pre.pending@)[j] == encode_record(head)[j]);
                        if j < head.len() {
                            assert(encode_record(head)[j] == head[j]);
                            assert(head[j] != 0u8) by {
                                if head[j] == 0u8 {
                                    assert(head.contains(0u8));
                                }
                            }
                        } else {
                            assert(encode_record(head)[j] == 0u8);
                        }
                    }
                    let byte = b[0];
                    if byte == 0 {
                        proof {
                            assert(rec@.len() == head.len());
                            assert(rec@ =~= head);
                        }
                        break;
                    }
                    rec.push(byte);
                    proof {
                        assert(rec@ =~= head.subrange(0, rec@.len() as int));
                    }
                },
            }
        }
        let rec_len: u64 = rec.len() as u64;
        self.read_pos = self.read_pos + rec_len + 1;
        self.pop_count = self.pop_count + 1;
        self.pending = Ghost(self.pending@.drop_first());
        proof {
            let rest = pre.pending@.drop_first();
            let bytes2 = spill_bytes(self.file);
            let all = bytes2.subrange(pre.read_pos as int, pre.written_len as int);
            assert(pre.pending@.first() == head);
            assert(encode_records(pre.pending@) == encode_record(head) + encode_records(rest));
            assert(all == encode_records(pre.pending@));
            assert(encode_record(head).len() == head.len() + 1);
            assert(all.len() == pre.written_len - pre.read_pos);
            assert((encode_record(head) + encode_records(rest)).len() == head.len() + 1
                + encode_records(rest).len());
            assert(encode_records(rest).len() == all.len() - head.len() - 1);
            assert(self.read_pos == pre.read_pos + head.len() + 1);
            assert(bytes2.subrange(self.read_pos as int, self.written_len as int)
                =~= encode_records(rest)) by {
                assert forall|j: int|
                    0 <= j < self.written_len - self.read_pos implies bytes2.subrange(
                    self.read_pos as int,
                    self.written_len as int,
                )[j] == encode_records(rest)[j] by {
                    assert(bytes2.subrange(self.read_pos as int, self.written_len as int)[j]
                        == bytes2[self.read_pos + j]);
                    assert(all[head.len() + 1 + j] == bytes2[pre.read_pos + head.len() + 1 + j]);
                    assert((encode_record(head) + encode_records(rest))[head.len() + 1 + j]
                        == encode_records(rest)[j]);
                }
            }
            assert forall|i: int|
                0 <= i < rest.len() implies !(#[trigger] rest[i]).contains(0u8) && rest[i].len()
                <= usize::MAX by {
                assert(rest[i] == pre.pending@[i + 1]);
            }
        }
        Ok(Some(rec))
    }

    /// Fill state of the overflow store; it is never reported full.
    pub fn state(&self) -> (s: PathQueueState)
        requires
            self.wf(),
        ensures
            s == (if self@.len() == 0 {
                PathQueueState::Empty
            } else {
                PathQueueState::PartiallyFilled
            }),
    {
        if self.push_count == self.pop_count {
            PathQueueState::Empty
        } else {
            PathQueueState::PartiallyFilled
        }
    }
}

} // verus!
