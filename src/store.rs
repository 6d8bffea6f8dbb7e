//! The store: an append-only log of frames and the index over it.
//!
//! The store keeps the image of its log in memory; whoever persists it
//! writes each frame that `insert` appends to the end of the backing file,
//! and hands the file's bytes to `load` when it is reopened.
use vstd::prelude::*;
use crate::frame::{
    append_bytes, decode, encode, frame_bytes, frame_end, frame_ok, key_at, le_value,
    lemma_decode_encode, parse_frame, payload_at, value_at, KeyValuePair, KvError, HEADER_LEN,
};
use vstd::slice::slice_to_vec;
use crate::index::Index;

verus! {

/// Replays the frames of `log` from `pos` on into `idx`, each frame's key
/// mapped to its offset, a later frame replacing an earlier one. Gives the
/// index and where the scan stopped: at the end, or before a tail too short
/// for a header. A truncated or corrupt frame ends it with that error.
pub open spec fn replay(log: Seq<u8>, pos: int, idx: Map<Seq<u8>, u64>) -> Result<
    (Map<Seq<u8>, u64>, int),
    KvError,
>
    decreases log.len() - pos,
{
    if frame_ok(log, pos) {
        replay(log, frame_end(log, pos), idx.insert(key_at(log, pos), pos as u64))
    } else {
        match parse_frame(log, pos) {
            Err(e) => Err(e),
            _ => Ok((idx, pos)),
        }
    }
}

/// The index that a full scan of `log` builds, and where the scan stopped.
pub open spec fn scan_log(log: Seq<u8>) -> Result<(Map<Seq<u8>, u64>, int), KvError> {
    replay(log, 0, Map::empty())
}

/// Each offset recorded for a key is that of a sound frame of `log` holding the key.
pub open spec fn offsets_valid(log: Seq<u8>, offsets: Map<Seq<u8>, u64>) -> bool {
    forall|k: Seq<u8>|
        #[trigger] offsets.contains_key(k) ==> frame_ok(log, offsets[k] as int) && key_at(
            log,
            offsets[k] as int,
        ) == k
}

/// The value that `offsets` leads to for `key`, if any.
pub open spec fn lookup(log: Seq<u8>, offsets: Map<Seq<u8>, u64>, key: Seq<u8>) -> Option<
    Seq<u8>,
> {
    if offsets.contains_key(key) {
        Some(value_at(log, offsets[key] as int))
    } else {
        None
    }
}

/// Whether a frame for `key` and `value` can follow a log of `log_len` bytes.
pub open spec fn fits(log_len: int, key_len: int, value_len: int) -> bool {
    &&& key_len <= u32::MAX
    &&& value_len <= u32::MAX
    &&& log_len + HEADER_LEN + key_len + value_len <= usize::MAX
}

/// A sound frame stays sound, with the same contents, when bytes follow the log.
pub proof fn lemma_frame_ok_extend(log: Seq<u8>, ext: Seq<u8>, pos: int)
    requires
        frame_ok(log, pos),
    ensures
        frame_ok(log + ext, pos),
        frame_end(log + ext, pos) == frame_end(log, pos),
        key_at(log + ext, pos) == key_at(log, pos),
        value_at(log + ext, pos) == value_at(log, pos),
{
    let s = log + ext;
    assert(forall|i: int| 0 <= i < log.len() ==> s[i] == log[i]);
    assert(le_value(s, pos) == le_value(log, pos));
    assert(le_value(s, pos + 4) == le_value(log, pos + 4));
    assert(le_value(s, pos + 8) == le_value(log, pos + 8));
    assert(payload_at(s, pos) =~= payload_at(log, pos));
    assert(key_at(s, pos) =~= key_at(log, pos));
    assert(value_at(s, pos) =~= value_at(log, pos));
}


/// Whether a scan ended without error at `len`, the end of the log.
pub open spec fn scanned_to(r: Result<(Map<Seq<u8>, u64>, int), KvError>, len: int) -> bool {
    match r {
        Ok((_, end)) => end == len,
        Err(_) => false,
    }
}

/// The index that a scan built, or an empty one where it failed.
pub open spec fn scanned_index(r: Result<(Map<Seq<u8>, u64>, int), KvError>) -> Map<
    Seq<u8>,
    u64,
> {
    match r {
        Ok((m, _)) => m,
        Err(_) => Map::empty(),
    }
}

/// A scan that reaches the end of `log` goes on over bytes appended to it
/// from where it stopped.
proof fn lemma_replay_extend(log: Seq<u8>, ext: Seq<u8>, pos: int, idx: Map<Seq<u8>, u64>)
    requires
        0 <= pos <= log.len(),
        scanned_to(replay(log, pos, idx), log.len() as int),
    ensures
        replay(log + ext, pos, idx) == replay(
            log + ext,
            log.len() as int,
            scanned_index(replay(log, pos, idx)),
        ),
    decreases log.len() - pos,
{
    if frame_ok(log, pos) {
        lemma_frame_ok_extend(log, ext, pos);
        lemma_replay_extend(log, ext, frame_end(log, pos), idx.insert(key_at(log, pos), pos as u64));
    }
}

/// Scanning a frame appended to a log that was scanned to its end records
/// the frame's key at the frame's offset and ends after it.
proof fn lemma_replay_frame(log: Seq<u8>, m: Map<Seq<u8>, u64>, key: Seq<u8>, value: Seq<u8>)
    requires
        key.len() <= u32::MAX,
        value.len() <= u32::MAX,
    ensures
        replay(log + frame_bytes(key, value), log.len() as int, m) == Ok::<
            (Map<Seq<u8>, u64>, int),
            KvError,
        >((m.insert(key, log.len() as u64), (log + frame_bytes(key, value)).len() as int)),
{
    let s = log + frame_bytes(key, value);
    lemma_decode_encode(key, value, log, Seq::empty());
    assert(log + frame_bytes(key, value) + Seq::<u8>::empty() =~= s);
    assert(frame_ok(s, log.len() as int));
    let m2 = m.insert(key, log.len() as u64);
    assert(replay(s, s.len() as int, m2) == Ok::<(Map<Seq<u8>, u64>, int), KvError>(
        (m2, s.len() as int),
    ));
}

/// The log after each of `writes`, in order, appended a frame to `log`.
pub open spec fn log_after(log: Seq<u8>, writes: Seq<(Seq<u8>, Seq<u8>)>) -> Seq<u8>
    decreases writes.len(),
{
    if writes.len() == 0 {
        log
    } else {
        log_after(log, writes.drop_last()) + frame_bytes(writes.last().0, writes.last().1)
    }
}

/// The index after each of `writes`, in order, recorded its key at the offset
/// of the frame it appended.
pub open spec fn offsets_after(
    log: Seq<u8>,
    offsets: Map<Seq<u8>, u64>,
    writes: Seq<(Seq<u8>, Seq<u8>)>,
) -> Map<Seq<u8>, u64>
    decreases writes.len(),
{
    if writes.len() == 0 {
        offsets
    } else {
        offsets_after(log, offsets, writes.drop_last()).insert(
            writes.last().0,
            log_after(log, writes.drop_last()).len() as u64,
        )
    }
}

/// Every key and value of `writes` fits in a frame.
pub open spec fn writes_fit(writes: Seq<(Seq<u8>, Seq<u8>)>) -> bool {
    forall|i: int|
        0 <= i < writes.len() ==> #[trigger] writes[i].0.len() <= u32::MAX && writes[i].1.len()
            <= u32::MAX
}

/// Reloading rebuilds the index: if a scan of `log` reaches its end with
/// `offsets`, then after any sequence of writes a scan of the grown log
/// reaches its end with exactly the index those writes left in memory.
pub proof fn lemma_reload_after_writes(
    log: Seq<u8>,
    offsets: Map<Seq<u8>, u64>,
    writes: Seq<(Seq<u8>, Seq<u8>)>,
)
    requires
        scan_log(log) == Ok::<(Map<Seq<u8>, u64>, int), KvError>((offsets, log.len() as int)),
        writes_fit(writes),
    ensures
        scan_log(log_after(log, writes)) == Ok::<(Map<Seq<u8>, u64>, int), KvError>(
            (offsets_after(log, offsets, writes), log_after(log, writes).len() as int),
        ),
    decreases writes.len(),
{
    if writes.len() > 0 {
        let w = writes.drop_last();
        assert forall|i: int| 0 <= i < w.len() implies #[trigger] w[i].0.len() <= u32::MAX
            && w[i].1.len() <= u32::MAX by {
            assert(w[i] == writes[i]);
        }
        lemma_reload_after_writes(log, offsets, w);
        let l = log_after(log, w);
        let (key, value) = writes.last();
        assert(writes[writes.len() - 1] == writes.last());
        lemma_replay_extend(l, frame_bytes(key, value), 0, Map::empty());
        lemma_replay_frame(l, offsets_after(log, offsets, w), key, value);
    }
}


/// After one more write the lookup gives the new value for its key and what
/// it gave before for every other key.
pub proof fn lemma_lookup_after_insert(
    log: Seq<u8>,
    offsets: Map<Seq<u8>, u64>,
    key: Seq<u8>,
    value: Seq<u8>,
)
    requires
        offsets_valid(log, offsets),
        log.len() <= u64::MAX,
        key.len() <= u32::MAX,
        value.len() <= u32::MAX,
    ensures
        offsets_valid(
            log + frame_bytes(key, value),
            offsets.insert(key, log.len() as u64),
        ),
        forall|q: Seq<u8>|
            #[trigger] lookup(
                log + frame_bytes(key, value),
                offsets.insert(key, log.len() as u64),
                q,
            ) == if q == key {
                Some(value)
            } else {
                lookup(log, offsets, q)
            },
{
    let s = log + frame_bytes(key, value);
    let o = offsets.insert(key, log.len() as u64);
    lemma_decode_encode(key, value, log, Seq::empty());
    assert(log + frame_bytes(key, value) + Seq::<u8>::empty() =~= s);
    assert forall|k: Seq<u8>| #[trigger] offsets.contains_key(k) implies frame_ok(
        s,
        offsets[k] as int,
    ) && key_at(s, offsets[k] as int) == key_at(log, offsets[k] as int) && value_at(
        s,
        offsets[k] as int,
    ) == value_at(log, offsets[k] as int) by {
        lemma_frame_ok_extend(log, frame_bytes(key, value), offsets[k] as int);
    }
    assert(frame_ok(s, log.len() as int));
    assert(offsets_valid(s, o));
}

/// Last write wins: writing `key` with `first` and then with `second` leaves
/// the key reading as `second`, while the log keeps both frames, in order.
pub proof fn lemma_last_write_wins(
    log: Seq<u8>,
    offsets: Map<Seq<u8>, u64>,
    key: Seq<u8>,
    first: Seq<u8>,
    second: Seq<u8>,
)
    requires
        offsets_valid(log, offsets),
        key.len() <= u32::MAX,
        first.len() <= u32::MAX,
        second.len() <= u32::MAX,
        log.len() + frame_bytes(key, first).len() <= u64::MAX,
    ensures
        lookup(
            log + frame_bytes(key, first) + frame_bytes(key, second),
            offsets.insert(key, log.len() as u64).insert(
                key,
                (log.len() + frame_bytes(key, first).len()) as u64,
            ),
            key,
        ) == Some(second),
        (log + frame_bytes(key, first) + frame_bytes(key, second)).subrange(
            log.len() as int,
            (log.len() + frame_bytes(key, first).len()) as int,
        ) == frame_bytes(key, first),
        (log + frame_bytes(key, first) + frame_bytes(key, second)).subrange(
            (log.len() + frame_bytes(key, first).len()) as int,
            (log.len() + frame_bytes(key, first).len() + frame_bytes(key, second).len()) as int,
        ) == frame_bytes(key, second),
{
    let log1 = log + frame_bytes(key, first);
    let offsets1 = offsets.insert(key, log.len() as u64);
    lemma_lookup_after_insert(log, offsets, key, first);
    lemma_lookup_after_insert(log1, offsets1, key, second);
    assert(lookup(log1 + frame_bytes(key, second), offsets1.insert(key, log1.len() as u64), key)
        == Some(second));
    let all = log1 + frame_bytes(key, second);
    assert(all.subrange(log.len() as int, log1.len() as int) =~= frame_bytes(key, first));
    assert(all.subrange(log1.len() as int, all.len() as int) =~= frame_bytes(key, second));
}

/// A key-value store over an append-only log of frames.
pub struct ActionKv {
    log: Vec<u8>,
    index: Index,
}

impl ActionKv {
    /// The bytes of the log, oldest frame first.
    pub closed spec fn bytes(&self) -> Seq<u8> {
        self.log@
    }

    /// The index: each key's latest offset.
    pub closed spec fn offsets(&self) -> Map<Seq<u8>, u64> {
        self.index@
    }

    /// The index is well formed and leads only to sound frames of the log
    /// that hold their keys.
    #[verifier::type_invariant]
    closed spec fn inv(&self) -> bool {
        &&& self.index.wf()
        &&& offsets_valid(self.log@, self.index@)
    }

    /// A fresh scan of the log would rebuild the index and reach the log's end.
    pub open spec fn in_sync(&self) -> bool {
        scan_log(self.bytes()) == Ok::<(Map<Seq<u8>, u64>, int), KvError>(
            (self.offsets(), self.bytes().len() as int),
        )
    }

    /// A store with an empty log.
    pub fn new() -> (r: ActionKv)
        ensures
            r.in_sync(),
            r.bytes() == Seq::<u8>::empty(),
            r.offsets() == Map::<Seq<u8>, u64>::empty(),
    {
        ActionKv { log: Vec::new(), index: Index::new() }
    }

    /// The bytes of the log.
    pub fn log(&self) -> (r: &[u8])
        ensures
            r@ == self.bytes(),
    {
        self.log.as_slice()
    }

    /// The length of the log: the offset at which the next frame goes.
    pub fn seek_to_end(&self) -> (r: u64)
        ensures
            r == self.bytes().len(),
    {
        self.log.len() as u64
    }

    /// The offset of the latest frame for `key`.
    pub fn offset_of(&self, key: &[u8]) -> (r: Option<u64>)
        ensures
            r == (if self.offsets().contains_key(key@) {
                Some(self.offsets()[key@])
            } else {
                None::<u64>
            }),
    {
        proof {
            use_type_invariant(self);
        }
        self.index.get(key)
    }

    /// Rebuilds the store from the bytes of its log file: every frame is
    /// replayed in order, the latest frame of each key winning. A tail too
    /// short for a header ends the scan cleanly. A truncated or corrupt frame
    /// fails the whole load with its offset, and the store is left as it was.
    pub fn load(&mut self, bytes: Vec<u8>) -> (r: Result<(), KvError>)
        ensures
            match scan_log(bytes@) {
                Ok((m, end)) => {
                    &&& r is Ok
                    &&& final(self).bytes() == bytes@
                    &&& final(self).offsets() == m
                    &&& (final(self).in_sync() <==> end == bytes@.len())
                },
                Err(e) => {
                    &&& r == Err::<(), KvError>(e)
                    &&& final(self).bytes() == old(self).bytes()
                    &&& final(self).offsets() == old(self).offsets()
                },
            },
    {
        let mut index = Index::new();
        let mut pos: usize = 0;
        loop
            invariant
                pos <= bytes@.len(),
                index.wf(),
                offsets_valid(bytes@, index@),
                replay(bytes@, 0, Map::empty()) == replay(bytes@, pos as int, index@),
                self.bytes() == old(self).bytes(),
                self.offsets() == old(self).offsets(),
            ensures
                pos <= bytes@.len(),
                index.wf(),
                offsets_valid(bytes@, index@),
                scan_log(bytes@) == Ok::<(Map<Seq<u8>, u64>, int), KvError>((index@, pos as int)),
            decreases bytes@.len() - pos,
        {
            match decode(bytes.as_slice(), pos) {
                Ok(Some((kv, next))) => {
                    assert(frame_ok(bytes@, pos as int));
                    index.insert(kv.key, pos as u64);
                    pos = next;
                },
                Ok(None) => {
                    break ;
                },
                Err(e) => {
                    return Err(e);
                },
            }
        }
        *self = ActionKv { log: bytes, index };
        Ok(())
    }

    /// Appends the frame of `key` and `value` to the log, leaving the index
    /// as it is, and gives the offset at which the frame starts. Fails with
    /// `TooLarge`, changing nothing, where the frame does not fit.
    pub fn insert_but_ignore_index(&mut self, key: &[u8], value: &[u8]) -> (r: Result<
        u64,
        KvError,
    >)
        ensures
            final(self).offsets() == old(self).offsets(),
            fits(old(self).bytes().len() as int, key@.len() as int, value@.len() as int) ==> {
                &&& r == Ok::<u64, KvError>(old(self).bytes().len() as u64)
                &&& final(self).bytes() == old(self).bytes() + frame_bytes(key@, value@)
            },
            !fits(old(self).bytes().len() as int, key@.len() as int, value@.len() as int) ==> {
                &&& r == Err::<u64, KvError>(KvError::TooLarge)
                &&& final(self).bytes() == old(self).bytes()
            },
    {
        let room = usize::MAX - self.log.len();
        if key.len() > u32::MAX as usize || value.len() > u32::MAX as usize || room < HEADER_LEN
            || room - HEADER_LEN < key.len() || room - HEADER_LEN - key.len() < value.len() {
            return Err(KvError::TooLarge);
        }
        let position = self.log.len() as u64;
        let frame = encode(key, value);
        let mut taken = ActionKv::new();
        std::mem::swap(self, &mut taken);
        proof {
            use_type_invariant(&taken);
        }
        let ActionKv { mut log, index } = taken;
        append_bytes(&mut log, frame.as_slice());
        proof {
            assert forall|k: Seq<u8>| #[trigger] index@.contains_key(k) implies frame_ok(
                log@,
                index@[k] as int,
            ) && key_at(log@, index@[k] as int) == k by {
                lemma_frame_ok_extend(old(self).bytes(), frame_bytes(key@, value@), index@[k] as int);
            }
        }
        *self = ActionKv { log, index };
        Ok(position)
    }

    /// Writes `value` for `key`: appends a new frame, even where the key is
    /// there already, and points the index at it. Afterwards `key` reads as
    /// `value` and every other key as before. Fails with `TooLarge`, changing
    /// nothing, where the frame does not fit.
    pub fn insert(&mut self, key: &[u8], value: &[u8]) -> (r: Result<(), KvError>)
        ensures
            old(self).in_sync() ==> final(self).in_sync(),
            fits(old(self).bytes().len() as int, key@.len() as int, value@.len() as int) ==> {
                &&& r is Ok
                &&& final(self).bytes() == old(self).bytes() + frame_bytes(key@, value@)
                &&& final(self).offsets() == old(self).offsets().insert(
                    key@,
                    old(self).bytes().len() as u64,
                )
                &&& forall|q: Seq<u8>|
                    #[trigger] lookup(final(self).bytes(), final(self).offsets(), q) == if q
                        == key@ {
                        Some(value@)
                    } else {
                        lookup(old(self).bytes(), old(self).offsets(), q)
                    }
            },
            !fits(old(self).bytes().len() as int, key@.len() as int, value@.len() as int) ==> {
                &&& r == Err::<(), KvError>(KvError::TooLarge)
                &&& final(self).bytes() == old(self).bytes()
                &&& final(self).offsets() == old(self).offsets()
            },
    {
        proof {
            use_type_invariant(&*self);
        }
        let position = match self.insert_but_ignore_index(key, value) {
            Ok(p) => p,
            Err(e) => {
                return Err(e);
            },
        };
        let mut taken = ActionKv::new();
        std::mem::swap(self, &mut taken);
        proof {
            use_type_invariant(&taken);
        }
        let ActionKv { log, mut index } = taken;
        index.insert(slice_to_vec(key), position);
        proof {
            lemma_lookup_after_insert(old(self).bytes(), old(self).offsets(), key@, value@);
            if old(self).in_sync() {
                let writes = seq![(key@, value@)];
                assert(writes.drop_last() =~= Seq::<(Seq<u8>, Seq<u8>)>::empty());
                assert(writes_fit(writes));
                lemma_reload_after_writes(old(self).bytes(), old(self).offsets(), writes);
                assert(log_after(old(self).bytes(), writes.drop_last()) == old(self).bytes());
                assert(offsets_after(old(self).bytes(), old(self).offsets(), writes.drop_last())
                    == old(self).offsets());
                assert(log_after(old(self).bytes(), writes) == log@);
                assert(offsets_after(old(self).bytes(), old(self).offsets(), writes)
                    == index@);
            }
        }
        *self = ActionKv { log, index };
        Ok(())
    }

    /// The current value of `key`: the value of its latest frame, or `None`
    /// where the key was never written. A deleted key reads as empty.
    pub fn get(&self, key: &[u8]) -> (r: Option<Vec<u8>>)
        ensures
            match r {
                Some(v) => lookup(self.bytes(), self.offsets(), key@) == Some(v@),
                None => lookup(self.bytes(), self.offsets(), key@) == None::<Seq<u8>>,
            },
    {
        proof {
            use_type_invariant(self);
        }
        match self.index.get(key) {
            None => None,
            Some(position) => {
                let kv = self.get_at(position);
                Some(kv.value)
            },
        }
    }

    /// The record whose frame starts at `position`, one the index points at.
    fn get_at(&self, position: u64) -> (r: KeyValuePair)
        requires
            exists|k: Seq<u8>| #[trigger]
                self.offsets().contains_key(k) && self.offsets()[k] == position,
        ensures
            r.key@ == key_at(self.bytes(), position as int),
            r.value@ == value_at(self.bytes(), position as int),
    {
        proof {
            use_type_invariant(self);
        }
        let ghost k = choose|k: Seq<u8>| #[trigger]
            self.offsets().contains_key(k) && self.offsets()[k] == position;
        assert(frame_ok(self.bytes(), position as int));
        let len = self.log.len();
        assert(position < len);
        match decode(self.log.as_slice(), position as usize) {
            Ok(Some((kv, _))) => kv,
            _ => {
                proof {
                    assert(false);
                }
                KeyValuePair { key: Vec::new(), value: Vec::new() }
            },
        }
    }

    /// Writes `value` for `key`; the same as `insert`, the log not telling a
    /// first write from a later one.
    pub fn update(&mut self, key: &[u8], value: &[u8]) -> (r: Result<(), KvError>)
        ensures
            old(self).in_sync() ==> final(self).in_sync(),
            fits(old(self).bytes().len() as int, key@.len() as int, value@.len() as int) ==> {
                &&& r is Ok
                &&& final(self).bytes() == old(self).bytes() + frame_bytes(key@, value@)
                &&& final(self).offsets() == old(self).offsets().insert(
                    key@,
                    old(self).bytes().len() as u64,
                )
                &&& forall|q: Seq<u8>|
                    #[trigger] lookup(final(self).bytes(), final(self).offsets(), q) == if q
                        == key@ {
                        Some(value@)
                    } else {
                        lookup(old(self).bytes(), old(self).offsets(), q)
                    }
            },
            !fits(old(self).bytes().len() as int, key@.len() as int, value@.len() as int) ==> {
                &&& r == Err::<(), KvError>(KvError::TooLarge)
                &&& final(self).bytes() == old(self).bytes()
                &&& final(self).offsets() == old(self).offsets()
            },
    {
        self.insert(key, value)
    }

    /// Deletes `key` by writing it with an empty value: afterwards `get`
    /// finds the key with an empty value, not absent.
    pub fn delete(&mut self, key: &[u8]) -> (r: Result<(), KvError>)
        ensures
            old(self).in_sync() ==> final(self).in_sync(),
            fits(old(self).bytes().len() as int, key@.len() as int, 0) ==> {
                &&& r is Ok
                &&& final(self).bytes() == old(self).bytes() + frame_bytes(key@, Seq::empty())
                &&& final(self).offsets() == old(self).offsets().insert(
                    key@,
                    old(self).bytes().len() as u64,
                )
                &&& forall|q: Seq<u8>|
                    #[trigger] lookup(final(self).bytes(), final(self).offsets(), q) == if q
                        == key@ {
                        Some(Seq::<u8>::empty())
                    } else {
                        lookup(old(self).bytes(), old(self).offsets(), q)
                    }
            },
            !fits(old(self).bytes().len() as int, key@.len() as int, 0) ==> {
                &&& r == Err::<(), KvError>(KvError::TooLarge)
                &&& final(self).bytes() == old(self).bytes()
                &&& final(self).offsets() == old(self).offsets()
            },
    {
        let empty: Vec<u8> = Vec::new();
        self.insert(key, empty.as_slice())
    }
}

} // verus!
