use vstd::prelude::*;
use vstd::slice::slice_subrange;
use vstd::string::*;
use vstd::utf8::*;

use crate::layout::{
    EntryPos,
    MAX_LEN,
    Slot,
    bytes_match,
    fits_in_place,
    fresh_slot,
    has_key,
    index_of,
    keys_unique,
    layout,
    lemma_in_place,
    lemma_index_of,
    lemma_layout_full,
    lemma_layout_push,
    lemma_layout_split,
    lemma_layout_take,
    lemma_map_len,
    lemma_map_push,
    lemma_map_remove,
    lemma_map_update,
    lemma_offsets_eq,
    lemma_prefix_bytes,
    lemma_replace,
    lemma_slot_fields,
    lemma_slots_ok_get,
    lemma_slots_ok_push,
    lemma_slots_ok_remove,
    lemma_slots_ok_update,
    lemma_splice,
    len_prefix,
    map_of,
    offset,
    prefix_width,
    push_len,
    read_len,
    remove_range,
    repr_of,
    set_outcome,
    slot_bytes,
    slot_ok,
    slots_ok,
    str_from_utf8,
    value_chunk,
    value_need,
    value_region,
    write_at,
};

verus! {

/// A byte-string to byte-string map kept as one buffer of encoded entries.
///
/// Byte 0 is a header: the number of entries while that is below
/// `COUNT_UNKNOWN`, else `COUNT_UNKNOWN`. The entries follow back to back,
/// each laid out as `slot_bytes` says: key length, key, value length, value,
/// a slack byte, and as many reserved bytes as the slack byte counts. Keys
/// are unique. A cursor walks the entries for `rewind` and `next`; a `set`,
/// or a `del` that removes something, puts it back at the first entry.
pub struct ZipMap {
    buf: Vec<u8>,
    iter_pos: usize,
    slots: Ghost<Seq<Slot>>,
    iter_idx: Ghost<nat>,
}

/// Header byte value meaning that the entries have to be counted.
pub const COUNT_UNKNOWN: u8 = 254;

/// The header byte after a `set`: one more while it counts and the key is
/// new, else as it was.
pub open spec fn header_after_set(h: u8, had_key: bool) -> u8 {
    if !had_key && h < COUNT_UNKNOWN {
        (h + 1) as u8
    } else {
        h
    }
}

/// The header byte after a `del` that removed an entry: one less while it
/// counts, else as it was.
pub open spec fn header_after_del(h: u8) -> u8 {
    if h < COUNT_UNKNOWN {
        (h - 1) as u8
    } else {
        h
    }
}

/// What `set(k, v)` leaves: `after` maps `k` to `v` and is otherwise
/// `before`, the entries change as `set_outcome` says, the buffer is the
/// header and the layout of the entries and grew by at most the new pair and
/// its prefixes, and the cursor is at the first entry.
pub open spec fn set_done(before: ZipMap, after: ZipMap, k: Seq<u8>, v: Seq<u8>) -> bool {
    &&& after.wf()
    &&& after.buffer_ok()
    &&& after@ == before@.insert(k, v)
    &&& set_outcome(before.slots(), after.slots(), k, v)
    &&& after.bytes()[0] == header_after_set(before.bytes()[0], has_key(before.slots(), k))
    &&& after.bytes().len() <= before.bytes().len() + k.len() + v.len() + 9
    &&& after.cursor() == 0
}

/// What `del(k)` leaves, with `r` the answer: the entry of `k` is cut out
/// and the cursor is at the first entry; an absent key changes nothing.
pub open spec fn del_done(before: ZipMap, after: ZipMap, k: Seq<u8>, r: bool) -> bool {
    &&& after.wf()
    &&& after.buffer_ok()
    &&& r ==> after.bytes()[0] == header_after_del(before.bytes()[0])
    &&& after.bytes().len() <= before.bytes().len()
    &&& r == before@.contains_key(k)
    &&& after@ == before@.remove(k)
    &&& r ==> after.slots() == before.slots().remove(index_of(before.slots(), k)) && after.cursor() == 0
    &&& !r ==> after == before
}

/// A pair of strings as their bytes.
pub open spec fn pair_bytes(r: Option<(&str, &str)>) -> Option<(Seq<u8>, Seq<u8>)> {
    match r {
        Some((k, v)) => Some((k.spec_bytes(), v.spec_bytes())),
        None => None,
    }
}

/// What `next` leaves, with `out` what it yielded: the entry at the cursor,
/// the cursor one further on; `None` once past the last entry.
pub open spec fn next_done(before: ZipMap, after: ZipMap, out: Option<(Seq<u8>, Seq<u8>)>) -> bool {
    &&& after.wf()
    &&& after.buffer_ok()
    &&& after.slots() == before.slots()
    &&& after.bytes() == before.bytes()
    &&& if before.cursor() < before.slots().len() {
        &&& out == Some(before.entries()[before.cursor() as int])
        &&& after.cursor() == before.cursor() + 1
    } else {
        &&& out is None
        &&& after.cursor() == before.cursor()
    }
}

/// A call that changes a map.
pub enum Op {
    Store(Seq<u8>, Seq<u8>),
    Remove(Seq<u8>),
}

/// `after` is what `op` left of `before`.
pub open spec fn op_done(before: ZipMap, after: ZipMap, op: Op) -> bool {
    match op {
        Op::Store(k, v) => set_done(before, after, k, v),
        Op::Remove(k) => del_done(before, after, k, before@.contains_key(k)),
    }
}

/// The keys that remain of `start` after `ops`: each `set` adds its key,
/// each `del` takes its key out.
pub open spec fn live_keys(start: Set<Seq<u8>>, ops: Seq<Op>) -> Set<Seq<u8>>
    decreases ops.len(),
{
    if ops.len() == 0 {
        start
    } else {
        match ops.last() {
            Op::Store(k, _) => live_keys(start, ops.drop_last()).insert(k),
            Op::Remove(k) => live_keys(start, ops.drop_last()).remove(k),
        }
    }
}

impl View for ZipMap {
    type V = Map<Seq<u8>, Seq<u8>>;

    open spec fn view(&self) -> Map<Seq<u8>, Seq<u8>> {
        map_of(self.slots())
    }
}

impl ZipMap {
    /// The entries in storage order.
    pub closed spec fn slots(&self) -> Seq<Slot> {
        self.slots@
    }

    /// The whole buffer, header byte first.
    pub closed spec fn bytes(&self) -> Seq<u8> {
        self.buf@
    }

    /// Index of the entry that `next` yields.
    pub closed spec fn cursor(&self) -> nat {
        self.iter_idx@
    }

    /// The buffer is the header byte followed by the entries laid out back
    /// to back; the header is the number of entries while below
    /// `COUNT_UNKNOWN`, else `COUNT_UNKNOWN`.
    pub open spec fn buffer_ok(&self) -> bool {
        &&& self.bytes().len() >= 1
        &&& self.bytes() == seq![self.bytes()[0]] + layout(self.slots())
        &&& self.bytes()[0] <= COUNT_UNKNOWN
        &&& self.bytes()[0] < COUNT_UNKNOWN ==> self.bytes()[0] as nat == self.slots().len()
    }

    /// Key and value of each entry, in storage order.
    pub open spec fn entries(&self) -> Seq<(Seq<u8>, Seq<u8>)> {
        self.slots().map_values(|s: Slot| (s.key, s.value))
    }

    /// Byte offset at which entry `j` starts.
    pub open spec fn offset_of(&self, j: int) -> int {
        offset(self.slots(), j)
    }

    /// The buffer is the header byte and the layout of the entries; the
    /// header holds the count or `COUNT_UNKNOWN`; every entry fits the
    /// encoding and holds UTF-8; keys are unique; the cursor stands at an
    /// entry or at the end.
    pub closed spec fn wf(&self) -> bool {
        let ss = self.slots@;
        &&& self.buf@.len() >= 1
        &&& self.buf@ == seq![self.buf@[0]] + layout(ss)
        &&& self.buf@[0] <= COUNT_UNKNOWN
        &&& self.buf@[0] < COUNT_UNKNOWN ==> self.buf@[0] as nat == ss.len()
        &&& slots_ok(ss)
        &&& keys_unique(ss)
        &&& self.iter_idx@ <= ss.len()
        &&& self.iter_pos as int == offset(ss, self.iter_idx@ as int)
    }

    proof fn lemma_offsets(&self, j: int)
        requires
            self.wf(),
            0 <= j < self.slots().len(),
        ensures
            offset(self.slots(), j + 1) == offset(self.slots(), j) + slot_bytes(self.slots()[j]).len(),
            offset(self.slots(), j + 1) <= self.buf@.len(),
            self.buf@.subrange(offset(self.slots(), j), offset(self.slots(), j + 1))
                == slot_bytes(self.slots()[j]),
    {
        let ss = self.slots();
        lemma_layout_take(ss, j);
        let a = layout(ss.take(j)).len() as int;
        let b = layout(ss.take(j + 1)).len() as int;
        assert(self.buf@.subrange(1 + a, 1 + b) =~= layout(ss).subrange(a, b));
    }

    proof fn lemma_end(&self)
        requires
            self.wf(),
        ensures
            offset(self.slots(), self.slots().len() as int) == self.buf@.len(),
    {
        lemma_layout_full(self.slots());
    }

    spec fn entry_at(&self, e: EntryPos, j: int) -> bool {
        let s = self.slots@[j];
        &&& e.key_len == s.key.len()
        &&& e.key_start == offset(self.slots@, j) + prefix_width(s.key.len())
        &&& e.val_pos == e.key_start + e.key_len
        &&& e.val_len == s.value.len()
        &&& e.val_start == e.val_pos + prefix_width(s.value.len())
        &&& e.slack_pos == e.val_start + e.val_len
        &&& e.next == offset(self.slots@, j + 1)
        &&& e.next == e.slack_pos + 1 + s.spare.len()
        &&& e.next <= self.buf@.len()
        &&& self.buf@.subrange(offset(self.slots@, j), e.key_start as int) == len_prefix(s.key.len())
        &&& self.buf@.subrange(e.key_start as int, e.val_pos as int) == s.key
        &&& self.buf@.subrange(e.val_start as int, e.slack_pos as int) == s.value
        &&& self.buf@.subrange(e.val_pos as int, e.val_start as int) == len_prefix(s.value.len())
        &&& self.buf@[e.slack_pos as int] == s.spare.len() as u8
        &&& self.buf@.subrange(e.val_pos as int, e.next as int) == value_region(s)
    }

    /// Decodes the entry that starts at `pos`, entry `j`.
    fn decode_entry(&self, pos: usize, Ghost(j): Ghost<int>) -> (r: EntryPos)
        requires
            self.wf(),
            0 <= j < self.slots().len(),
            pos == offset(self.slots(), j),
        ensures
            self.entry_at(r, j),
    {
        let ghost s = self.slots@[j];
        proof {
            self.lemma_offsets(j);
            lemma_slots_ok_get(self.slots@, j);
            lemma_slot_fields(self.buf@, pos as int, s);
            lemma_prefix_bytes(s.key.len());
            lemma_prefix_bytes(s.value.len());
        }
        let len = self.buf.len();
        let key_len = read_len(&self.buf, pos, Ghost(s.key.len()));
        let key_start = if key_len < 254 { pos + 1 } else { pos + 4 };
        let val_pos = key_start + key_len;
        let val_len = read_len(&self.buf, val_pos, Ghost(s.value.len()));
        let val_start = if val_len < 254 { val_pos + 1 } else { val_pos + 4 };
        let slack_pos = val_start + val_len;
        let slack = self.buf[slack_pos] as usize;
        let next = slack_pos + 1 + slack;
        EntryPos { key_start, key_len, val_pos, val_start, val_len, slack_pos, next }
    }

    /// Finds the entry whose key is `key`.
    fn find_entry(&self, key: &[u8]) -> (r: Option<(usize, EntryPos)>)
        requires
            self.wf(),
        ensures
            match r {
                Some((pos, e)) => {
                    &&& has_key(self.slots(), key@)
                    &&& pos == offset(self.slots(), index_of(self.slots(), key@))
                    &&& self.entry_at(e, index_of(self.slots(), key@))
                },
                None => !has_key(self.slots(), key@),
            },
    {
        let ghost ss = self.slots@;
        let len = self.buf.len();
        let mut pos: usize = 1;
        let ghost mut j: int = 0;
        proof {
            assert(ss.take(0) =~= Seq::<Slot>::empty());
            self.lemma_end();
        }
        while pos < len
            invariant
                self.wf(),
                ss == self.slots@,
                len == self.buf@.len(),
                0 <= j <= ss.len(),
                pos == offset(ss, j),
                offset(ss, ss.len() as int) == len,
                forall|t: int| 0 <= t < j ==> (#[trigger] ss[t]).key != key@,
            decreases len - pos,
        {
            assert(j < ss.len());
            let e = self.decode_entry(pos, Ghost(j));
            if e.key_len == key.len() && bytes_match(&self.buf, e.key_start, key) {
                proof {
                    lemma_index_of(ss, key@, j);
                }
                return Some((pos, e));
            }
            proof {
                self.lemma_offsets(j);
                assert(slot_bytes(ss[j]).len() > 0);
            }
            pos = e.next;
            proof { j = j + 1; }
        }
        proof {
            if j < ss.len() {
                self.lemma_offsets(j);
                assert(slot_bytes(ss[j]).len() > 0);
                assert(false);
            }
        }
        None
    }

    /// The value stored under `key`, if any.
    pub fn get(&self, key: &str) -> (r: Option<&str>)
        requires
            self.wf(),
        ensures
            match r {
                Some(v) => self@.contains_key(key.spec_bytes()) && v.spec_bytes() == self@[key.spec_bytes()],
                None => !self@.contains_key(key.spec_bytes()),
            },
    {
        match self.find_entry(key.as_bytes()) {
            Some((_, e)) => {
                proof {
                    let i = index_of(self.slots@, key.spec_bytes());
                    lemma_slots_ok_get(self.slots@, i);
                }
                str_from_utf8(slice_subrange(self.buf.as_slice(), e.val_start, e.slack_pos))
            },
            None => None,
        }
    }

    /// Whether `key` is stored.
    pub fn contains_key(&self, key: &str) -> (r: bool)
        requires
            self.wf(),
        ensures
            r == self@.contains_key(key.spec_bytes()),
    {
        self.find_entry(key.as_bytes()).is_some()
    }

    /// The number of entries; read from the header byte while it holds the
    /// count, else counted.
    pub fn len(&self) -> (r: usize)
        requires
            self.wf(),
        ensures
            r == self.slots().len(),
            r == self@.len(),
    {
        let head = self.buf[0];
        if head < COUNT_UNKNOWN {
            proof { lemma_map_len(self.slots@); }
            return head as usize;
        }
        let ghost ss = self.slots@;
        let len = self.buf.len();
        let mut pos: usize = 1;
        let mut count: usize = 0;
        proof {
            assert(ss.take(0) =~= Seq::<Slot>::empty());
            self.lemma_end();
        }
        while pos < len
            invariant
                self.wf(),
                ss == self.slots@,
                len == self.buf@.len(),
                0 <= count <= ss.len(),
                count < pos,
                pos == offset(ss, count as int),
                offset(ss, ss.len() as int) == len,
            decreases len - pos,
        {
            assert(count < ss.len());
            let e = self.decode_entry(pos, Ghost(count as int));
            proof {
                self.lemma_offsets(count as int);
                assert(slot_bytes(ss[count as int]).len() > 0);
            }
            pos = e.next;
            count = count + 1;
        }
        proof {
            if count < ss.len() {
                self.lemma_offsets(count as int);
                assert(slot_bytes(ss[count as int]).len() > 0);
                assert(false);
            }
            lemma_map_len(ss);
        }
        count
    }

    /// Removes entry `j`, which starts at `pos` and ends at `next`.
    fn remove_entry(&mut self, pos: usize, next: usize, Ghost(j): Ghost<int>)
        requires
            old(self).wf(),
            0 <= j < old(self).slots().len(),
            pos == offset(old(self).slots(), j),
            next == offset(old(self).slots(), j + 1),
        ensures
            final(self).wf(),
            final(self).slots() == old(self).slots().remove(j),
            final(self).cursor() == 0,
            final(self).bytes().len() <= old(self).bytes().len(),
            final(self).bytes()[0] == if old(self).bytes()[0] < COUNT_UNKNOWN {
                (old(self).bytes()[0] - 1) as u8
            } else {
                old(self).bytes()[0]
            },
    {
        let ghost ss = self.slots@;
        proof {
            self.lemma_offsets(j);
            lemma_layout_split(ss, j);
        }
        remove_range(&mut self.buf, pos, next);
        let head = self.buf[0];
        if head < COUNT_UNKNOWN {
            self.buf[0] = head - 1;
        }
        self.slots = Ghost(ss.remove(j));
        self.iter_pos = 1;
        self.iter_idx = Ghost(0);
        proof {
            let ns = ss.remove(j);
            let a = layout(ss.take(j));
            assert(self.buf@.subrange(1, self.buf@.len() as int) =~= a + layout(ss.skip(j + 1)));
            assert(self.buf@ =~= seq![self.buf@[0]] + layout(ns));
            assert(ns.take(0) =~= Seq::<Slot>::empty());
            lemma_slots_ok_remove(ss, j);
            lemma_map_remove(ss, j);
        }
    }

    /// Rewrites the value of entry `j` in its own space.
    #[verifier::rlimit(30)]
    fn overwrite_value(&mut self, pos: usize, e: EntryPos, v: &[u8], slack: usize, Ghost(j): Ghost<int>)
        requires
            old(self).wf(),
            0 <= j < old(self).slots().len(),
            pos == offset(old(self).slots(), j),
            old(self).entry_at(e, j),
            v@.len() <= MAX_LEN,
            valid_utf8(v@),
            slack <= 255,
            e.val_pos + prefix_width(v@.len()) + v@.len() + 1 + slack == e.next,
        ensures
            final(self).wf(),
            final(self).slots() == old(self).slots().update(
                j,
                (Slot {
                    key: old(self).slots()[j].key,
                    value: v@,
                    spare: value_region(old(self).slots()[j]).skip(value_need(v@) as int),
                }),
            ),
            final(self).cursor() == 0,
            final(self).bytes().len() == old(self).bytes().len(),
            final(self).bytes()[0] == old(self).bytes()[0],
    {
        let ghost ss = self.slots@;
        let ghost old_buf = self.buf@;
        let ghost ns = Slot { key: ss[j].key, value: v@, spare: old_buf.subrange(e.next - slack, e.next as int) };
        proof {
            let reg = value_region(ss[j]);
            let need = value_need(v@) as int;
            assert(old_buf.subrange(e.next - slack, e.next as int) =~= old_buf.subrange(e.val_pos as int, e.next as int).subrange(need, reg.len() as int));
            assert(ns.spare =~= reg.skip(need));
        }
        let chunk = value_chunk(v, slack);
        write_at(&mut self.buf, e.val_pos, &chunk);
        self.slots = Ghost(ss.update(j, ns));
        self.iter_pos = 1;
        self.iter_idx = Ghost(0);
        proof {
            let nb = self.buf@;
            let cut = e.next - slack;
            assert(old_buf.subrange(pos as int, e.val_pos as int) =~= old_buf.subrange(pos as int, e.key_start as int) + old_buf.subrange(e.key_start as int, e.val_pos as int));
            assert(slot_bytes(ns) =~= old_buf.subrange(pos as int, e.val_pos as int) + chunk@ + old_buf.subrange(cut, e.next as int));
            lemma_splice(old_buf, nb, ss, j, ns, e.val_pos as int, chunk@);
            lemma_map_update(ss, j, ns);
            let us = ss.update(j, ns);
            assert(us.take(0) =~= Seq::<Slot>::empty());
            lemma_slots_ok_get(ss, j);
            lemma_slots_ok_update(ss, j, ns);
        }
    }

    /// Appends an entry for a key that is not there.
    #[verifier::rlimit(30)]
    fn append_entry(&mut self, k: &[u8], v: &[u8])
        requires
            old(self).wf(),
            !has_key(old(self).slots(), k@),
            k@.len() <= MAX_LEN,
            v@.len() <= MAX_LEN,
            valid_utf8(k@),
            valid_utf8(v@),
            old(self).bytes().len() + k@.len() + v@.len() + 9 <= usize::MAX,
        ensures
            final(self).wf(),
            final(self).slots() == old(self).slots().push(fresh_slot(k@, v@)),
            final(self).cursor() == 0,
            final(self).bytes().len() <= old(self).bytes().len() + k@.len() + v@.len() + 9,
            final(self).bytes()[0] == if old(self).bytes()[0] < COUNT_UNKNOWN {
                (old(self).bytes()[0] + 1) as u8
            } else {
                old(self).bytes()[0]
            },
    {
        let ghost ss = self.slots@;
        let ghost old_buf = self.buf@;
        let ghost ns = fresh_slot(k@, v@);
        proof {
            lemma_prefix_bytes(k@.len());
            lemma_prefix_bytes(v@.len());
        }
        push_len(&mut self.buf, k.len());
        self.buf.extend_from_slice(k);
        push_len(&mut self.buf, v.len());
        self.buf.extend_from_slice(v);
        self.buf.push(0u8);
        let head = self.buf[0];
        if head < COUNT_UNKNOWN {
            self.buf[0] = head + 1;
        }
        self.slots = Ghost(ss.push(ns));
        self.iter_pos = 1;
        self.iter_idx = Ghost(0);
        proof {
            lemma_layout_push(ss, ns);
            lemma_map_push(ss, ns);
            let nb = self.buf@;
            assert(slot_bytes(ns) =~= len_prefix(k@.len()) + k@ + len_prefix(v@.len()) + v@ + seq![0u8]);
            assert(nb.subrange(1, nb.len() as int) =~= old_buf.subrange(1, old_buf.len() as int) + slot_bytes(ns));
            assert(old_buf.subrange(1, old_buf.len() as int) =~= layout(ss));
            assert(nb =~= seq![nb[0]] + layout(ss) + slot_bytes(ns));
            assert(nb == seq![nb[0]] + layout(ss.push(ns)));
            assert(nb[0] <= COUNT_UNKNOWN);
            assert(nb[0] < COUNT_UNKNOWN ==> nb[0] as nat == ss.len() + 1);
            assert(keys_unique(ss.push(ns)));
            assert(ss.push(ns).take(0) =~= Seq::<Slot>::empty());
            let us = ss.push(ns);
            lemma_slots_ok_push(ss, ns);
        }
    }

    /// Stores `val` under `key` and returns `true`. An entry whose reserved
    /// space holds the new value is rewritten where it stands; otherwise the
    /// old entry, if any, is dropped and the pair is appended. A key or value
    /// longer than `MAX_LEN` bytes, or a buffer that would outgrow `usize`,
    /// is refused: the map is left as it was and `false` returned.
    pub fn set(&mut self, key: &str, val: &str) -> (r: bool)
        requires
            old(self).wf(),
        ensures
            r == (key.spec_bytes().len() <= MAX_LEN && val.spec_bytes().len() <= MAX_LEN
                && old(self).bytes().len() + key.spec_bytes().len() + val.spec_bytes().len() + 9
                <= usize::MAX),
            r ==> set_done(*old(self), *final(self), key.spec_bytes(), val.spec_bytes()),
            !r ==> *final(self) == *old(self),
    {
        let k = key.as_bytes();
        let v = val.as_bytes();
        if k.len() > MAX_LEN || v.len() > MAX_LEN || self.buf.len() > usize::MAX - 9 - k.len() - v.len() {
            return false;
        }
        proof {
            encode_utf8_valid_utf8(key@);
            encode_utf8_valid_utf8(val@);
        }
        self.set_bytes(k, v);
        true
    }

    #[verifier::rlimit(30)]
    fn set_bytes(&mut self, k: &[u8], v: &[u8])
        requires
            old(self).wf(),
            k@.len() <= MAX_LEN,
            v@.len() <= MAX_LEN,
            valid_utf8(k@),
            valid_utf8(v@),
            old(self).bytes().len() + k@.len() + v@.len() + 9 <= usize::MAX,
        ensures
            final(self).wf(),
            final(self)@ == old(self)@.insert(k@, v@),
            set_outcome(old(self).slots(), final(self).slots(), k@, v@),
            final(self).cursor() == 0,
            final(self).bytes().len() <= old(self).bytes().len() + k@.len() + v@.len() + 9,
            final(self).bytes()[0] == header_after_set(old(self).bytes()[0], has_key(old(self).slots(), k@)),
    {
        let ghost ss = self.slots@;
        match self.find_entry(k) {
            Some((pos, e)) => {
                let ghost j = index_of(ss, k@);
                let vlen = v.len();
                let region = e.next - e.val_pos;
                let need = if vlen < 254 { vlen + 2 } else { vlen + 5 };
                if need <= region && region - need <= 255 {
                    let slack = region - need;
                    self.overwrite_value(pos, e, v, slack, Ghost(j));
                    proof { lemma_in_place(ss, self.slots@, k@, v@); }
                    return;
                }
                proof { lemma_replace(ss, k@, v@); }
                self.remove_entry(pos, e.next, Ghost(j));
            },
            None => {
                proof { lemma_map_push(ss, fresh_slot(k@, v@)); }
            },
        }
        self.append_entry(k, v);
    }

    /// Removes `key` and its value; says whether it was there.
    pub fn del(&mut self, key: &str) -> (r: bool)
        requires
            old(self).wf(),
        ensures
            del_done(*old(self), *final(self), key.spec_bytes(), r),
    {
        match self.find_entry(key.as_bytes()) {
            Some((pos, e)) => {
                let ghost ss = self.slots@;
                let ghost j = index_of(ss, key.spec_bytes());
                proof { lemma_map_remove(ss, j); }
                self.remove_entry(pos, e.next, Ghost(j));
                true
            },
            None => {
                assert(self@.remove(key.spec_bytes()) =~= self@);
                false
            },
        }
    }

    /// Restarts the iteration at the first entry.
    pub fn rewind(&mut self)
        requires
            old(self).wf(),
        ensures
            final(self).wf(),
            final(self).slots() == old(self).slots(),
            final(self).bytes() == old(self).bytes(),
            final(self).cursor() == 0,
    {
        self.iter_pos = 1;
        self.iter_idx = Ghost(0);
        assert(self.slots@.take(0) =~= Seq::<Slot>::empty());
    }

    /// The entry at the cursor, which then moves past it; `None` once all
    /// entries have been yielded.
    pub fn next(&mut self) -> (r: Option<(&str, &str)>)
        requires
            old(self).wf(),
        ensures
            next_done(*old(self), *final(self), pair_bytes(r)),
    {
        proof { self.lemma_end(); }
        if self.iter_pos >= self.buf.len() {
            proof {
                if self.iter_idx@ < self.slots@.len() {
                    self.lemma_offsets(self.iter_idx@ as int);
                    assert(false);
                }
            }
            return None;
        }
        let ghost j = self.iter_idx@ as int;
        proof {
            if j >= self.slots@.len() {
                assert(false);
            }
            lemma_slots_ok_get(self.slots@, j);
        }
        let e = self.decode_entry(self.iter_pos, Ghost(j));
        self.iter_pos = e.next;
        self.iter_idx = Ghost((j + 1) as nat);
        let k = str_from_utf8(slice_subrange(self.buf.as_slice(), e.key_start, e.val_pos));
        let v = str_from_utf8(slice_subrange(self.buf.as_slice(), e.val_start, e.slack_pos));
        match (k, v) {
            (Some(k), Some(v)) => Some((k, v)),
            _ => None,
        }
    }

    /// The entries as text: `{ k1: v1, k2: v2, }`.
    pub fn repr(&self) -> (r: String)
        requires
            self.wf(),
        ensures
            r@ == seq!['{', ' '] + repr_of(self.entries()) + seq!['}'],
    {
        let ghost ss = self.slots@;
        let ghost es = self.entries();
        let mut out = String::from_str("{ ");
        proof {
            reveal_strlit("{ ");
            assert(es.take(0) =~= Seq::<(Seq<u8>, Seq<u8>)>::empty());
            self.lemma_end();
        }
        let len = self.buf.len();
        let mut pos: usize = 1;
        let ghost mut j: int = 0;
        while pos < len
            invariant
                self.wf(),
                ss == self.slots@,
                es == self.entries(),
                es.len() == ss.len(),
                len == self.buf@.len(),
                0 <= j <= ss.len(),
                pos == offset(ss, j),
                offset(ss, ss.len() as int) == len,
                out@ == seq!['{', ' '] + repr_of(es.take(j)),
            decreases len - pos,
        {
            assert(j < ss.len());
            proof { lemma_slots_ok_get(ss, j); }
            let e = self.decode_entry(pos, Ghost(j));
            let k = str_from_utf8(slice_subrange(self.buf.as_slice(), e.key_start, e.val_pos));
            let v = str_from_utf8(slice_subrange(self.buf.as_slice(), e.val_start, e.slack_pos));
            if let (Some(k), Some(v)) = (k, v) {
                out.append(k);
                out.append(": ");
                out.append(v);
                out.append(", ");
                proof {
                    reveal_strlit(": ");
                    reveal_strlit(", ");
                    encode_utf8_decode_utf8(k@);
                    encode_utf8_decode_utf8(v@);
                    assert(es.take(j + 1).drop_last() =~= es.take(j));
                    assert(es[j] == (ss[j].key, ss[j].value));
                    assert(out@ =~= seq!['{', ' '] + repr_of(es.take(j + 1)));
                }
            }
            proof {
                self.lemma_offsets(j);
                assert(slot_bytes(ss[j]).len() > 0);
            }
            pos = e.next;
            proof { j = j + 1; }
        }
        proof {
            if j < ss.len() {
                self.lemma_offsets(j);
                assert(slot_bytes(ss[j]).len() > 0);
                assert(false);
            }
            assert(es.take(j) =~= es);
        }
        out.append("}");
        proof {
            reveal_strlit("}");
        }
        out
    }

    /// The buffer itself, header byte first: the map's serialized form.
    pub fn as_bytes(&self) -> (r: &[u8])
        ensures
            r@ == self.bytes(),
    {
        self.buf.as_slice()
    }

    /// An empty map: the header byte alone.
    pub fn new() -> (r: ZipMap)
        ensures
            r.wf(),
            r.slots() == Seq::<Slot>::empty(),
            r@ == Map::<Seq<u8>, Seq<u8>>::empty(),
            r.bytes() == seq![0u8],
            r.cursor() == 0,
    {
        let mut buf: Vec<u8> = Vec::new();
        buf.push(0u8);
        let r = ZipMap { buf, iter_pos: 1, slots: Ghost(Seq::empty()), iter_idx: Ghost(0) };
        proof {
            assert(r.buf@ =~= seq![r.buf@[0]] + layout(Seq::<Slot>::empty()));
            assert(Seq::<Slot>::empty().take(0) =~= Seq::<Slot>::empty());
            assert(r@ =~= Map::<Seq<u8>, Seq<u8>>::empty());
            reveal(slots_ok);
            reveal(keys_unique);
        }
        r
    }
}

impl ZipMap {
    /// A well-formed map's buffer is its header byte followed by the layout
    /// of its entries; every entry fits the encoding and holds UTF-8, and no
    /// two entries share a key.
    pub proof fn lemma_bytes(m: ZipMap)
        requires
            m.wf(),
        ensures
            m.buffer_ok(),
            forall|i: int| 0 <= i < m.slots().len() ==> slot_ok(#[trigger] m.slots()[i]),
            forall|i: int, j: int|
                0 <= i < m.slots().len() && 0 <= j < m.slots().len() && i != j
                    ==> (#[trigger] m.slots()[i]).key != (#[trigger] m.slots()[j]).key,
    {
        reveal(slots_ok);
        reveal(keys_unique);
    }

    /// A run of `set` calls: `ms[t + 1]` is what `set(ks[t], vs[t])` left of
    /// `ms[t]`.
    pub open spec fn set_run(ms: Seq<ZipMap>, ks: Seq<Seq<u8>>, vs: Seq<Seq<u8>>) -> bool {
        &&& ms.len() == ks.len() + 1
        &&& vs.len() == ks.len()
        &&& ms[0].wf()
        &&& forall|t: int| 0 <= t < ks.len() ==> set_done(#[trigger] ms[t], ms[t + 1], ks[t], vs[t])
    }

    /// After `set(k, v)` and any number of `set` calls on other keys, `k`
    /// still maps to `v`.
    pub proof fn lemma_round_trip(ms: Seq<ZipMap>, ks: Seq<Seq<u8>>, vs: Seq<Seq<u8>>)
        requires
            Self::set_run(ms, ks, vs),
            ks.len() >= 1,
            forall|t: int| 1 <= t < ks.len() ==> #[trigger] ks[t] != ks[0],
        ensures
            forall|t: int| 1 <= t < ms.len() ==> (#[trigger] ms[t])@.contains_key(ks[0]) && ms[t]@[ks[0]]
                == vs[0],
    {
        assert forall|t: int| 1 <= t < ms.len() implies (#[trigger] ms[t])@.contains_key(ks[0])
            && ms[t]@[ks[0]] == vs[0] by {
            Self::lemma_round_trip_upto(ms, ks, vs, t);
        }
    }

    proof fn lemma_round_trip_upto(ms: Seq<ZipMap>, ks: Seq<Seq<u8>>, vs: Seq<Seq<u8>>, i: int)
        requires
            Self::set_run(ms, ks, vs),
            ks.len() >= 1,
            forall|t: int| 1 <= t < ks.len() ==> #[trigger] ks[t] != ks[0],
            1 <= i < ms.len(),
        ensures
            ms[i]@.contains_key(ks[0]),
            ms[i]@[ks[0]] == vs[0],
        decreases i,
    {
        if i == 1 {
            assert(set_done(ms[0], ms[1], ks[0], vs[0]));
        } else {
            Self::lemma_round_trip_upto(ms, ks, vs, i - 1);
            assert(set_done(ms[i - 1], ms[i], ks[i - 1], vs[i - 1]));
            assert(ks[i - 1] != ks[0]);
        }
    }

    /// A run of `set` and `del` calls: `ms[t + 1]` is what `ops[t]` left of
    /// `ms[t]`.
    pub open spec fn op_run(ms: Seq<ZipMap>, ops: Seq<Op>) -> bool {
        &&& ms.len() == ops.len() + 1
        &&& ms[0].wf()
        &&& forall|t: int| 0 <= t < ops.len() ==> op_done(#[trigger] ms[t], ms[t + 1], ops[t])
    }

    proof fn lemma_op_run_step(ms: Seq<ZipMap>, ops: Seq<Op>, i: int)
        requires
            Self::op_run(ms, ops),
            0 <= i < ms.len(),
        ensures
            ms[i].wf(),
            ms[i]@.dom() == live_keys(ms[0]@.dom(), ops.take(i)),
        decreases i,
    {
        if i == 0 {
            assert(ops.take(0) =~= Seq::<Op>::empty());
        } else {
            Self::lemma_op_run_step(ms, ops, i - 1);
            assert(op_done(ms[i - 1], ms[i], ops[i - 1]));
            assert(ops.take(i).drop_last() =~= ops.take(i - 1));
            assert(ms[i]@.dom() =~= live_keys(ms[0]@.dom(), ops.take(i)));
        }
    }

    /// After any run of `set` and `del` calls the keys are exactly those there
    /// before or set since, and not deleted after their last `set`; no two
    /// entries share a key, and there are as many entries, which `len`
    /// counts, as such keys.
    pub proof fn lemma_live_keys(ms: Seq<ZipMap>, ops: Seq<Op>)
        requires
            Self::op_run(ms, ops),
        ensures
            ms.last()@.dom() == live_keys(ms[0]@.dom(), ops),
            ms.last().entries().len() == live_keys(ms[0]@.dom(), ops).len(),
            forall|i: int, j: int|
                0 <= i < ms.last().entries().len() && 0 <= j < ms.last().entries().len() && i != j
                    ==> (#[trigger] ms.last().entries()[i]).0 != (#[trigger] ms.last().entries()[j]).0,
    {
        let n = ops.len() as int;
        Self::lemma_op_run_step(ms, ops, n);
        assert(ops.take(n) =~= ops);
        Self::lemma_unique_keys(ms.last());
    }

    /// No two entries share a key, and there are as many entries as keys in
    /// the map.
    pub proof fn lemma_unique_keys(m: ZipMap)
        requires
            m.wf(),
        ensures
            forall|i: int, j: int|
                0 <= i < m.entries().len() && 0 <= j < m.entries().len() && i != j
                    ==> (#[trigger] m.entries()[i]).0 != (#[trigger] m.entries()[j]).0,
            m.entries().len() == m@.len(),
    {
        reveal(keys_unique);
        lemma_map_len(m.slots());
        assert forall|i: int, j: int|
            0 <= i < m.entries().len() && 0 <= j < m.entries().len() && i != j
                implies (#[trigger] m.entries()[i]).0 != (#[trigger] m.entries()[j]).0 by {
            assert(m.slots()[i].key != m.slots()[j].key);
        }
    }

    /// A `del` that finds its key leaves one entry fewer and the key absent;
    /// one that does not find it leaves the buffer as it was.
    pub proof fn lemma_delete(m0: ZipMap, m1: ZipMap, k: Seq<u8>, r: bool)
        requires
            m0.wf(),
            del_done(m0, m1, k, r),
        ensures
            !m1@.contains_key(k),
            r ==> m1@.len() == m0@.len() - 1 && m1.entries().len() == m0.entries().len() - 1,
            !r ==> m1.bytes() == m0.bytes() && m1@.len() == m0@.len(),
    {
        lemma_map_len(m0.slots());
        lemma_map_len(m1.slots());
    }

    /// Setting a key to a shorter value and then to a longer one no longer
    /// than the first keeps the buffer's length and every entry's offset, as
    /// long as the space given up fits the slack byte.
    pub proof fn lemma_slack_reuse(
        m0: ZipMap,
        m1: ZipMap,
        m2: ZipMap,
        k: Seq<u8>,
        short: Seq<u8>,
        long: Seq<u8>,
    )
        requires
            m0.wf(),
            m0@.contains_key(k),
            short.len() <= long.len() <= m0@[k].len(),
            fits_in_place(m0.slots()[index_of(m0.slots(), k)], short),
            set_done(m0, m1, k, short),
            set_done(m1, m2, k, long),
        ensures
            m1.bytes().len() == m0.bytes().len(),
            m2.bytes().len() == m0.bytes().len(),
            m2.slots().len() == m0.slots().len(),
            forall|j: int| 0 <= j <= m0.slots().len() ==> #[trigger] m2.offset_of(j) == m0.offset_of(j),
            m2@ == m0@.insert(k, long),
    {
        let s0 = m0.slots();
        let s1 = m1.slots();
        let s2 = m2.slots();
        let j = index_of(s0, k);
        assert(has_key(s0, k));
        lemma_index_of(s1, k, j);
        assert forall|i: int| 0 <= i < s0.len() implies slot_bytes(#[trigger] s0[i]).len() == slot_bytes(s1[i]).len() by {}
        lemma_offsets_eq(s0, s1);
        assert(m1.bytes().len() == m0.bytes().len());
        let a = s0[j];
        let b = s1[j];
        assert(slot_bytes(a).len() == prefix_width(k.len()) + k.len() + prefix_width(a.value.len()) + a.value.len() + 1 + a.spare.len());
        assert(slot_bytes(b).len() == prefix_width(k.len()) + k.len() + prefix_width(b.value.len()) + b.value.len() + 1 + b.spare.len());
        assert(m0@[k] == a.value);
        assert(fits_in_place(b, long));
        assert forall|i: int| 0 <= i < s1.len() implies slot_bytes(#[trigger] s1[i]).len() == slot_bytes(s2[i]).len() by {}
        lemma_offsets_eq(s1, s2);
    }

    proof fn lemma_run_step(ms: Seq<ZipMap>, outs: Seq<Option<(Seq<u8>, Seq<u8>)>>, i: int)
        requires
            ms.len() == outs.len() + 1,
            ms[0].wf(),
            ms[0].cursor() == 0,
            forall|t: int| 0 <= t < outs.len() ==> next_done(#[trigger] ms[t], ms[t + 1], outs[t]),
            0 <= i < ms.len(),
        ensures
            ms[i].wf(),
            ms[i].slots() == ms[0].slots(),
            ms[i].cursor() == if i < ms[0].slots().len() { i } else { ms[0].slots().len() as int },
        decreases i,
    {
        if i > 0 {
            Self::lemma_run_step(ms, outs, i - 1);
            assert(next_done(ms[i - 1], ms[i], outs[i - 1]));
        }
    }

    /// Starting at the first entry, successive `next` calls yield the
    /// entries one by one in storage order, then `None` for ever.
    pub proof fn lemma_iteration(ms: Seq<ZipMap>, outs: Seq<Option<(Seq<u8>, Seq<u8>)>>)
        requires
            ms.len() == outs.len() + 1,
            ms[0].wf(),
            ms[0].cursor() == 0,
            forall|t: int| 0 <= t < outs.len() ==> next_done(#[trigger] ms[t], ms[t + 1], outs[t]),
        ensures
            forall|t: int| 0 <= t < outs.len() && t < ms[0].entries().len() ==> #[trigger] outs[t]
                == Some(ms[0].entries()[t]),
            forall|t: int| 0 <= t < outs.len() && t >= ms[0].entries().len() ==> #[trigger] outs[t]
                is None,
    {
        assert forall|t: int| 0 <= t < outs.len() implies (t < ms[0].entries().len() ==> #[trigger] outs[t]
            == Some(ms[0].entries()[t])) && (t >= ms[0].entries().len() ==> outs[t] is None) by {
            Self::lemma_run_step(ms, outs, t);
            assert(next_done(ms[t], ms[t + 1], outs[t]));
        }
    }

    /// The entries, which `rewind` and `next` yield in order, are exactly the
    /// pairs of the map, each key once.
    pub proof fn lemma_entries_complete(m: ZipMap)
        requires
            m.wf(),
        ensures
            m.entries().len() == m@.len(),
            forall|i: int| 0 <= i < m.entries().len() ==> m@.contains_key(#[trigger] m.entries()[i].0)
                && m@[m.entries()[i].0] == m.entries()[i].1,
            forall|k: Seq<u8>| #[trigger] m@.contains_key(k) ==> exists|i: int|
                0 <= i < m.entries().len() && (#[trigger] m.entries()[i]).0 == k,
    {
        let ss = m.slots();
        lemma_map_len(ss);
        assert forall|i: int| 0 <= i < m.entries().len() implies m@.contains_key(#[trigger] m.entries()[i].0)
            && m@[m.entries()[i].0] == m.entries()[i].1 by {
            lemma_index_of(ss, ss[i].key, i);
        }
        assert forall|k: Seq<u8>| #[trigger] m@.contains_key(k) implies exists|i: int|
            0 <= i < m.entries().len() && (#[trigger] m.entries()[i]).0 == k by {
            let i = index_of(ss, k);
            assert(m.entries()[i].0 == k);
        }
    }
}

} // verus!
