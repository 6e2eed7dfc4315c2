use vstd::prelude::*;
use vstd::string::*;
use vstd::utf8::*;

verus! {

/// Largest length that a length prefix can hold (three bytes after the marker).
pub const MAX_LEN: usize = 16777215;

/// First byte of the four-byte form of a length prefix.
pub const BIG_LEN_MARKER: u8 = 254;

/// Encoding of a length: one byte below the marker, else the marker and three
/// big-endian bytes.
pub open spec fn len_prefix(n: nat) -> Seq<u8> {
    if n < 254 {
        seq![n as u8]
    } else {
        seq![254u8, (n / 65536) as u8, ((n / 256) % 256) as u8, (n % 256) as u8]
    }
}

/// Number of bytes in the prefix of `n`.
pub open spec fn prefix_width(n: nat) -> nat {
    if n < 254 { 1 } else { 4 }
}

/// A prefix takes `prefix_width` bytes and decodes back to its length.
pub proof fn lemma_prefix_bytes(n: nat)
    requires
        n <= MAX_LEN,
    ensures
        len_prefix(n).len() == prefix_width(n),
        n < 254 ==> len_prefix(n)[0] as nat == n,
        n >= 254 ==> len_prefix(n)[0] == 254 && (len_prefix(n)[1] as nat) * 65536
            + (len_prefix(n)[2] as nat) * 256 + (len_prefix(n)[3] as nat) == n,
{
    if n >= 254 {
        let a = n / 65536;
        let b = (n / 256) % 256;
        let c = n % 256;
        assert(a < 256) by (nonlinear_arith)
            requires a == n / 65536, n <= 16777215;
        assert(b < 256 && c < 256);
        assert(a * 65536 + b * 256 + c == n) by (nonlinear_arith)
            requires a == n / 65536, b == (n / 256) % 256, c == n % 256;
        assert(len_prefix(n)[1] as nat == a);
        assert(len_prefix(n)[2] as nat == b);
        assert(len_prefix(n)[3] as nat == c);
    }
}

/// Appends the prefix of `n` to `buf`.
pub(crate) fn push_len(buf: &mut Vec<u8>, n: usize)
    requires
        n <= MAX_LEN,
    ensures
        final(buf)@ == old(buf)@ + len_prefix(n as nat),
{
    proof { lemma_prefix_bytes(n as nat); }
    if n < 254 {
        buf.push(n as u8);
    } else {
        buf.push(BIG_LEN_MARKER);
        buf.push((n / 65536) as u8);
        buf.push(((n / 256) % 256) as u8);
        buf.push((n % 256) as u8);
    }
    assert(buf@ =~= old(buf)@ + len_prefix(n as nat));
}

/// Reads the length whose prefix starts at `pos`.
pub(crate) fn read_len(buf: &Vec<u8>, pos: usize, Ghost(n): Ghost<nat>) -> (r: usize)
    requires
        n <= MAX_LEN,
        pos + prefix_width(n) <= buf@.len(),
        buf@.subrange(pos as int, pos + prefix_width(n)) == len_prefix(n),
    ensures
        r == n,
{
    proof {
        lemma_prefix_bytes(n);
        assert(buf@[pos as int] == len_prefix(n)[0]);
    }
    let len = buf.len();
    let b0 = buf[pos];
    if b0 < BIG_LEN_MARKER {
        b0 as usize
    } else {
        proof {
            assert(n >= 254);
            assert(pos + 4 <= len);
            assert(buf@[pos + 1] == len_prefix(n)[1]);
            assert(buf@[pos + 2] == len_prefix(n)[2]);
            assert(buf@[pos + 3] == len_prefix(n)[3]);
        }
        let hi = buf[pos + 1] as usize;
        let mid = buf[pos + 2] as usize;
        let lo = buf[pos + 3] as usize;
        hi * 65536 + mid * 256 + lo
    }
}

/// One stored pair as it lies in the buffer: its key, its value, and the
/// reserved bytes that follow the slack byte.
pub struct Slot {
    pub key: Seq<u8>,
    pub value: Seq<u8>,
    pub spare: Seq<u8>,
}

/// The bytes of one entry: key prefix, key, value prefix, value, slack byte,
/// reserved bytes.
pub open spec fn slot_bytes(s: Slot) -> Seq<u8> {
    len_prefix(s.key.len()) + s.key + len_prefix(s.value.len()) + s.value + seq![
        s.spare.len() as u8,
    ] + s.spare
}

/// The entries laid out back to back.
pub open spec fn layout(ss: Seq<Slot>) -> Seq<u8>
    decreases ss.len(),
{
    if ss.len() == 0 {
        Seq::empty()
    } else {
        layout(ss.drop_last()) + slot_bytes(ss.last())
    }
}

pub open spec fn slot_ok(s: Slot) -> bool {
    &&& s.key.len() <= MAX_LEN
    &&& s.value.len() <= MAX_LEN
    &&& s.spare.len() <= 255
    &&& valid_utf8(s.key)
    &&& valid_utf8(s.value)
}

#[verifier::opaque]
pub open spec fn slots_ok(ss: Seq<Slot>) -> bool {
    forall|i: int| 0 <= i < ss.len() ==> slot_ok(#[trigger] ss[i])
}

pub(crate) proof fn lemma_slots_ok_get(ss: Seq<Slot>, i: int)
    requires
        slots_ok(ss),
        0 <= i < ss.len(),
    ensures
        slot_ok(ss[i]),
{
    reveal(slots_ok);
}

pub(crate) proof fn lemma_slots_ok_update(ss: Seq<Slot>, j: int, s: Slot)
    requires
        slots_ok(ss),
        slot_ok(s),
        0 <= j < ss.len(),
    ensures
        slots_ok(ss.update(j, s)),
{
    reveal(slots_ok);
    let us = ss.update(j, s);
    assert forall|i: int| 0 <= i < us.len() implies slot_ok(#[trigger] us[i]) by {
        if i != j {
            assert(us[i] == ss[i]);
        }
    }
}

pub(crate) proof fn lemma_slots_ok_push(ss: Seq<Slot>, s: Slot)
    requires
        slots_ok(ss),
        slot_ok(s),
    ensures
        slots_ok(ss.push(s)),
{
    reveal(slots_ok);
    let us = ss.push(s);
    assert forall|i: int| 0 <= i < us.len() implies slot_ok(#[trigger] us[i]) by {
        if i < ss.len() {
            assert(us[i] == ss[i]);
        }
    }
}

pub open spec fn has_key(ss: Seq<Slot>, k: Seq<u8>) -> bool {
    exists|i: int| 0 <= i < ss.len() && (#[trigger] ss[i]).key == k
}

pub open spec fn index_of(ss: Seq<Slot>, k: Seq<u8>) -> int {
    choose|i: int| 0 <= i < ss.len() && (#[trigger] ss[i]).key == k
}

#[verifier::opaque]
pub open spec fn keys_unique(ss: Seq<Slot>) -> bool {
    forall|i: int, j: int| 0 <= i < ss.len() && 0 <= j < ss.len() && i != j ==> (#[trigger] ss[i]).key != (#[trigger] ss[j]).key
}

/// Byte offset of entry `j`, the header byte included.
pub open spec fn offset(ss: Seq<Slot>, j: int) -> int {
    1 + layout(ss.take(j)).len() as int
}

/// The mapping that the entries describe.
pub open spec fn map_of(ss: Seq<Slot>) -> Map<Seq<u8>, Seq<u8>> {
    Map::new(|k: Seq<u8>| has_key(ss, k), |k: Seq<u8>| ss[index_of(ss, k)].value)
}

/// The layout of two runs of entries is the one layout after the other.
pub proof fn lemma_layout_concat(a: Seq<Slot>, b: Seq<Slot>)
    ensures
        layout(a + b) == layout(a) + layout(b),
    decreases b.len(),
{
    if b.len() == 0 {
        assert(a + b =~= a);
        assert(layout(b) =~= Seq::<u8>::empty());
        assert(layout(a) + layout(b) =~= layout(a));
    } else {
        lemma_layout_concat(a, b.drop_last());
        assert((a + b).drop_last() =~= a + b.drop_last());
        assert((a + b).last() == b.last());
        assert(layout(a + b) =~= layout(a) + layout(b));
    }
}

pub(crate) proof fn lemma_layout_take(ss: Seq<Slot>, j: int)
    requires
        0 <= j < ss.len(),
    ensures
        layout(ss.take(j + 1)) == layout(ss.take(j)) + slot_bytes(ss[j]),
        layout(ss).len() >= layout(ss.take(j + 1)).len(),
        layout(ss).subrange(layout(ss.take(j)).len() as int, layout(ss.take(j + 1)).len() as int)
            == slot_bytes(ss[j]),
{
    assert(ss.take(j + 1).drop_last() =~= ss.take(j));
    lemma_layout_concat(ss.take(j + 1), ss.skip(j + 1));
    assert(ss.take(j + 1) + ss.skip(j + 1) =~= ss);
    let a = layout(ss.take(j));
    let e = slot_bytes(ss[j]);
    let rest = layout(ss.skip(j + 1));
    assert(layout(ss) == a + e + rest);
    assert(layout(ss).subrange(a.len() as int, (a.len() + e.len()) as int) =~= e);
}

pub(crate) proof fn lemma_layout_full(ss: Seq<Slot>)
    ensures
        ss.take(ss.len() as int) == ss,
{
    assert(ss.take(ss.len() as int) =~= ss);
}

pub(crate) proof fn lemma_slot_fields(buf: Seq<u8>, p: int, s: Slot)
    requires
        slot_ok(s),
        0 <= p,
        p + slot_bytes(s).len() <= buf.len(),
        buf.subrange(p, p + slot_bytes(s).len()) == slot_bytes(s),
    ensures
        ({
            let ks = p + prefix_width(s.key.len());
            let vp = ks + s.key.len();
            let vs = vp + prefix_width(s.value.len());
            let sb = vs + s.value.len();
            &&& buf.subrange(p, ks) == len_prefix(s.key.len())
            &&& buf.subrange(ks, vp) == s.key
            &&& buf.subrange(vp, vs) == len_prefix(s.value.len())
            &&& buf.subrange(vs, sb) == s.value
            &&& buf[sb] == s.spare.len() as u8
            &&& sb + 1 + s.spare.len() == p + slot_bytes(s).len()
            &&& buf.subrange(vp, p + slot_bytes(s).len()) == value_region(s)
        }),
{
    lemma_prefix_bytes(s.key.len());
    lemma_prefix_bytes(s.value.len());
    let e = slot_bytes(s);
    let kw = prefix_width(s.key.len()) as int;
    let vw = prefix_width(s.value.len()) as int;
    let ks = kw;
    let vp = ks + s.key.len();
    let vs = vp + vw;
    let sb = vs + s.value.len();
    assert(e.subrange(0, ks) =~= len_prefix(s.key.len()));
    assert(e.subrange(ks, vp) =~= s.key);
    assert(e.subrange(vp, vs) =~= len_prefix(s.value.len()));
    assert(e.subrange(vs, sb) =~= s.value);
    assert(e[sb] == s.spare.len() as u8);
    let w = buf.subrange(p, p + e.len());
    assert(buf.subrange(p, p + ks) =~= w.subrange(0, ks));
    assert(buf.subrange(p + ks, p + vp) =~= w.subrange(ks, vp));
    assert(buf.subrange(p + vp, p + vs) =~= w.subrange(vp, vs));
    assert(buf.subrange(p + vs, p + sb) =~= w.subrange(vs, sb));
    assert(buf[p + sb] == w[sb]);
    assert(e.subrange(vp, e.len() as int) =~= value_region(s));
    assert(buf.subrange(p + vp, p + e.len()) =~= w.subrange(vp, e.len() as int));
}

/// Positions inside one decoded entry.
pub(crate) struct EntryPos {
    pub(crate) key_start: usize,
    pub(crate) key_len: usize,
    pub(crate) val_pos: usize,
    pub(crate) val_start: usize,
    pub(crate) val_len: usize,
    pub(crate) slack_pos: usize,
    pub(crate) next: usize,
}

/// Relies on std::str::from_utf8: well-formed UTF-8 is accepted, and the
/// string it returns is the same bytes.
#[verifier::external_body]
pub(crate) fn str_from_utf8(b: &[u8]) -> (r: Option<&str>)
    ensures
        valid_utf8(b@) ==> r is Some,
        r matches Some(s) ==> s.spec_bytes() == b@,
{
    std::str::from_utf8(b).ok()
}

/// Whether `buf` holds `key` at `start`.
pub(crate) fn bytes_match(buf: &Vec<u8>, start: usize, key: &[u8]) -> (r: bool)
    requires
        start + key@.len() <= buf@.len(),
    ensures
        r == (buf@.subrange(start as int, start + key@.len()) == key@),
{
    let n = key.len();
    let blen = buf.len();
    let mut i: usize = 0;
    while i < n
        invariant
            n == key@.len(),
            blen == buf@.len(),
            start + n <= buf@.len(),
            i <= n,
            forall|t: int| 0 <= t < i ==> buf@[start + t] == key@[t],
        decreases n - i,
    {
        if buf[start + i] != key[i] {
            assert(buf@.subrange(start as int, start + n)[i as int] != key@[i as int]);
            return false;
        }
        i = i + 1;
    }
    assert(buf@.subrange(start as int, start + n) =~= key@);
    true
}

pub open spec fn keys_of(ss: Seq<Slot>) -> Seq<Seq<u8>> {
    ss.map_values(|s: Slot| s.key)
}

pub(crate) proof fn lemma_map_len(ss: Seq<Slot>)
    requires
        keys_unique(ss),
    ensures
        map_of(ss).dom() == keys_of(ss).to_set(),
        map_of(ss).len() == ss.len(),
{
    reveal(keys_unique);
    let ks = keys_of(ss);
    assert(map_of(ss).dom() =~= ks.to_set()) by {
        assert forall|k: Seq<u8>| has_key(ss, k) <==> ks.contains(k) by {
            if has_key(ss, k) {
                let i = choose|i: int| 0 <= i < ss.len() && (#[trigger] ss[i]).key == k;
                assert(ks[i] == k);
            }
            if ks.contains(k) {
                let i = choose|i: int| 0 <= i < ks.len() && ks[i] == k;
                assert(ss[i].key == k);
            }
        }
    }
    assert(ks.no_duplicates()) by {
        assert forall|i: int, j: int| 0 <= i < ks.len() && 0 <= j < ks.len() && i != j implies ks[i] != ks[j] by {
            assert(ss[i].key != ss[j].key);
        }
    }
    ks.unique_seq_to_set();
}

/// Entry `j` lies between the layout of the entries before it and that of
/// those after; without it the two meet.
pub proof fn lemma_layout_split(ss: Seq<Slot>, j: int)
    requires
        0 <= j < ss.len(),
    ensures
        layout(ss) == layout(ss.take(j)) + slot_bytes(ss[j]) + layout(ss.skip(j + 1)),
        layout(ss.remove(j)) == layout(ss.take(j)) + layout(ss.skip(j + 1)),
{
    lemma_layout_take(ss, j);
    lemma_layout_concat(ss.take(j + 1), ss.skip(j + 1));
    assert(ss.take(j + 1) + ss.skip(j + 1) =~= ss);
    lemma_layout_concat(ss.take(j), ss.skip(j + 1));
    assert(ss.take(j) + ss.skip(j + 1) =~= ss.remove(j));
}

pub(crate) proof fn lemma_layout_update(ss: Seq<Slot>, j: int, s: Slot)
    requires
        0 <= j < ss.len(),
    ensures
        layout(ss.update(j, s)) == layout(ss.take(j)) + slot_bytes(s) + layout(ss.skip(j + 1)),
{
    let t = ss.update(j, s);
    lemma_layout_split(t, j);
    assert(t.take(j) =~= ss.take(j));
    assert(t.skip(j + 1) =~= ss.skip(j + 1));
}

/// Appending an entry appends its bytes.
pub proof fn lemma_layout_push(ss: Seq<Slot>, s: Slot)
    ensures
        layout(ss.push(s)) == layout(ss) + slot_bytes(s),
{
    assert(ss.push(s).drop_last() =~= ss);
}

pub(crate) proof fn lemma_index_of(ss: Seq<Slot>, k: Seq<u8>, i: int)
    requires
        keys_unique(ss),
        0 <= i < ss.len(),
        ss[i].key == k,
    ensures
        has_key(ss, k),
        index_of(ss, k) == i,
{
    reveal(keys_unique);
    assert(has_key(ss, k));
    let c = index_of(ss, k);
    if c != i {
        assert(ss[c].key != ss[i].key);
    }
}

pub(crate) proof fn lemma_map_remove(ss: Seq<Slot>, j: int)
    requires
        keys_unique(ss),
        0 <= j < ss.len(),
    ensures
        keys_unique(ss.remove(j)),
        map_of(ss.remove(j)) == map_of(ss).remove(ss[j].key),
{
    reveal(keys_unique);
    let ns = ss.remove(j);
    let k = ss[j].key;
    assert forall|a: int, b: int| 0 <= a < ns.len() && 0 <= b < ns.len() && a != b implies (#[trigger] ns[a]).key != (#[trigger] ns[b]).key by {
        let a2 = if a < j { a } else { a + 1 };
        let b2 = if b < j { b } else { b + 1 };
        assert(ns[a] == ss[a2]);
        assert(ns[b] == ss[b2]);
    }
    assert forall|q: Seq<u8>| has_key(ns, q) <==> (has_key(ss, q) && q != k) by {
        if has_key(ns, q) {
            let i = choose|i: int| 0 <= i < ns.len() && (#[trigger] ns[i]).key == q;
            let i2 = if i < j { i } else { i + 1 };
            assert(ns[i] == ss[i2]);
            assert(ss[i2].key == q);
            if q == k {
                assert(ss[j].key == ss[i2].key);
            }
        }
        if has_key(ss, q) && q != k {
            let i = choose|i: int| 0 <= i < ss.len() && (#[trigger] ss[i]).key == q;
            let i2 = if i < j { i } else { i - 1 };
            assert(ns[i2] == ss[i]);
        }
    }
    assert forall|q: Seq<u8>| has_key(ns, q) implies map_of(ns)[q] == map_of(ss)[q] by {
        let i = index_of(ns, q);
        let i2 = if i < j { i } else { i + 1 };
        assert(ns[i] == ss[i2]);
        lemma_index_of(ss, q, i2);
    }
    assert(map_of(ns) =~= map_of(ss).remove(k));
}

pub(crate) proof fn lemma_map_push(ss: Seq<Slot>, s: Slot)
    requires
        keys_unique(ss),
        !has_key(ss, s.key),
    ensures
        keys_unique(ss.push(s)),
        map_of(ss.push(s)) == map_of(ss).insert(s.key, s.value),
{
    reveal(keys_unique);
    let ns = ss.push(s);
    let n = ss.len() as int;
    assert forall|a: int, b: int| 0 <= a < ns.len() && 0 <= b < ns.len() && a != b implies (#[trigger] ns[a]).key != (#[trigger] ns[b]).key by {
        if a < n && b < n {
            assert(ns[a] == ss[a] && ns[b] == ss[b]);
        } else if a < n {
            assert(ns[a] == ss[a]);
        } else {
            assert(ns[b] == ss[b]);
        }
    }
    assert forall|q: Seq<u8>| has_key(ns, q) <==> (has_key(ss, q) || q == s.key) by {
        if has_key(ns, q) {
            let i = choose|i: int| 0 <= i < ns.len() && (#[trigger] ns[i]).key == q;
            if i < n {
                assert(ns[i] == ss[i]);
            }
        }
        if has_key(ss, q) {
            let i = choose|i: int| 0 <= i < ss.len() && (#[trigger] ss[i]).key == q;
            assert(ns[i] == ss[i]);
        }
        if q == s.key {
            assert(ns[n] == s);
        }
    }
    assert forall|q: Seq<u8>| has_key(ns, q) implies map_of(ns)[q] == map_of(ss).insert(s.key, s.value)[q] by {
        let i = index_of(ns, q);
        if i < n {
            assert(ns[i] == ss[i]);
            lemma_index_of(ss, q, i);
        } else {
            assert(ns[i] == s);
        }
    }
    assert(map_of(ns) =~= map_of(ss).insert(s.key, s.value));
}

pub(crate) proof fn lemma_map_update(ss: Seq<Slot>, j: int, s: Slot)
    requires
        keys_unique(ss),
        0 <= j < ss.len(),
        s.key == ss[j].key,
    ensures
        keys_unique(ss.update(j, s)),
        map_of(ss.update(j, s)) == map_of(ss).insert(s.key, s.value),
{
    reveal(keys_unique);
    let ns = ss.update(j, s);
    assert forall|a: int, b: int| 0 <= a < ns.len() && 0 <= b < ns.len() && a != b implies (#[trigger] ns[a]).key != (#[trigger] ns[b]).key by {
        assert(ns[a].key == ss[a].key);
        assert(ns[b].key == ss[b].key);
    }
    assert forall|q: Seq<u8>| has_key(ns, q) <==> has_key(ss, q) by {
        if has_key(ns, q) {
            let i = choose|i: int| 0 <= i < ns.len() && (#[trigger] ns[i]).key == q;
            assert(ss[i].key == q);
        }
        if has_key(ss, q) {
            let i = choose|i: int| 0 <= i < ss.len() && (#[trigger] ss[i]).key == q;
            assert(ns[i].key == q);
        }
    }
    assert forall|q: Seq<u8>| has_key(ns, q) implies map_of(ns)[q] == map_of(ss).insert(s.key, s.value)[q] by {
        let i = index_of(ns, q);
        assert(ns[i].key == ss[i].key);
        lemma_index_of(ss, q, i);
        if i == j {
            assert(ns[i] == s);
        } else {
            assert(ns[i] == ss[i]);
        }
    }
    assert(has_key(ss, s.key)) by {
        assert(ss[j].key == s.key);
    }
    assert(map_of(ns) =~= map_of(ss).insert(s.key, s.value));
}

pub(crate) proof fn lemma_slots_ok_remove(ss: Seq<Slot>, j: int)
    requires
        0 <= j < ss.len(),
        slots_ok(ss),
    ensures
        slots_ok(ss.remove(j)),
{
    reveal(slots_ok);
    let ns = ss.remove(j);
    assert forall|i: int| 0 <= i < ns.len() implies slot_ok(#[trigger] ns[i]) by {
        if i < j {
            assert(ns[i] == ss[i]);
        } else {
            assert(ns[i] == ss[i + 1]);
        }
    }
}

/// Removes `buf[from..to]`, closing the gap.
pub(crate) fn remove_range(buf: &mut Vec<u8>, from: usize, to: usize)
    requires
        from <= to <= old(buf)@.len(),
    ensures
        final(buf)@ == old(buf)@.subrange(0, from as int) + old(buf)@.subrange(to as int, old(buf)@.len() as int),
{
    let len = buf.len();
    let gap = to - from;
    let end = len - gap;
    let mut i: usize = from;
    while i < end
        invariant
            from <= i <= end,
            end == len - gap,
            gap == to - from,
            to <= len,
            buf@.len() == len,
            old(buf)@.len() == len,
            forall|t: int| 0 <= t < from ==> buf@[t] == old(buf)@[t],
            forall|t: int| from <= t < i ==> buf@[t] == old(buf)@[t + gap],
            forall|t: int| i <= t < len ==> buf@[t] == old(buf)@[t],
        decreases end - i,
    {
        let b = buf[i + gap];
        buf[i] = b;
        i = i + 1;
    }
    buf.truncate(end);
    assert(buf@ =~= old(buf)@.subrange(0, from as int) + old(buf)@.subrange(to as int, len as int));
}

/// The value part of an entry: prefix, bytes, slack byte.
pub(crate) fn value_chunk(v: &[u8], slack: usize) -> (r: Vec<u8>)
    requires
        v@.len() <= MAX_LEN,
        slack <= 255,
    ensures
        r@ == len_prefix(v@.len()) + v@ + seq![slack as u8],
{
    let mut chunk: Vec<u8> = Vec::new();
    push_len(&mut chunk, v.len());
    chunk.extend_from_slice(v);
    chunk.push(slack as u8);
    assert(chunk@ =~= len_prefix(v@.len()) + v@ + seq![slack as u8]);
    chunk
}

/// Overwrites `buf[pos..pos + data.len()]` with `data`.
pub(crate) fn write_at(buf: &mut Vec<u8>, pos: usize, data: &Vec<u8>)
    requires
        pos + data@.len() <= old(buf)@.len(),
    ensures
        final(buf)@ == old(buf)@.subrange(0, pos as int) + data@ + old(buf)@.subrange(
            pos + data@.len(),
            old(buf)@.len() as int,
        ),
{
    let n = data.len();
    let len = buf.len();
    let mut i: usize = 0;
    while i < n
        invariant
            n == data@.len(),
            pos + n <= len,
            buf@.len() == len,
            old(buf)@.len() == len,
            i <= n,
            forall|t: int| 0 <= t < pos ==> buf@[t] == old(buf)@[t],
            forall|t: int| 0 <= t < i ==> buf@[pos + t] == data@[t],
            forall|t: int| pos + i <= t < len ==> buf@[t] == old(buf)@[t],
        decreases n - i,
    {
        buf[pos + i] = data[i];
        i = i + 1;
    }
    assert(buf@ =~= old(buf)@.subrange(0, pos as int) + data@ + old(buf)@.subrange(pos + n, len as int));
}

/// Replacing bytes inside entry `j` by what makes it the entry `ns`.
pub(crate) proof fn lemma_splice(old_buf: Seq<u8>, nb: Seq<u8>, ss: Seq<Slot>, j: int, ns: Slot, at: int, chunk: Seq<u8>)
    requires
        old_buf.len() >= 1,
        old_buf == seq![old_buf[0]] + layout(ss),
        0 <= j < ss.len(),
        offset(ss, j) <= at,
        at + chunk.len() <= offset(ss, j + 1),
        nb == old_buf.subrange(0, at) + chunk + old_buf.subrange(at + chunk.len(), old_buf.len() as int),
        slot_bytes(ns) == old_buf.subrange(offset(ss, j), at) + chunk + old_buf.subrange(
            at + chunk.len(),
            offset(ss, j + 1),
        ),
    ensures
        nb.len() == old_buf.len(),
        nb[0] == old_buf[0],
        nb == seq![nb[0]] + layout(ss.update(j, ns)),
{
    lemma_layout_split(ss, j);
    lemma_layout_take(ss, j);
    lemma_layout_update(ss, j, ns);
    let l1 = layout(ss.take(j));
    let l2 = layout(ss.skip(j + 1));
    let e = slot_bytes(ss[j]);
    let p = offset(ss, j);
    let q = offset(ss, j + 1);
    assert(old_buf =~= seq![old_buf[0]] + l1 + e + l2);
    assert(old_buf.subrange(1, p) =~= l1);
    assert(old_buf.subrange(q, old_buf.len() as int) =~= l2);
    assert(nb =~= seq![old_buf[0]] + old_buf.subrange(1, p) + (old_buf.subrange(p, at) + chunk
        + old_buf.subrange(at + chunk.len(), q)) + old_buf.subrange(q, old_buf.len() as int));
}

/// The part of an entry after its key: value prefix, value, slack byte,
/// reserved bytes.
pub open spec fn value_region(s: Slot) -> Seq<u8> {
    len_prefix(s.value.len()) + s.value + seq![s.spare.len() as u8] + s.spare
}

/// Bytes that value `v` takes with its prefix and the slack byte.
pub open spec fn value_need(v: Seq<u8>) -> nat {
    prefix_width(v.len()) + v.len() + 1
}

/// Whether value `v` fits where the value of `s` and its reserve lie, with
/// what is left over small enough for the slack byte.
pub open spec fn fits_in_place(s: Slot, v: Seq<u8>) -> bool {
    let region = prefix_width(s.value.len()) + s.value.len() + 1 + s.spare.len();
    let need = prefix_width(v.len()) + v.len() + 1;
    need <= region && region - need <= 255
}

/// A new entry, with no reserve.
pub open spec fn fresh_slot(k: Seq<u8>, v: Seq<u8>) -> Slot {
    Slot { key: k, value: v, spare: Seq::empty() }
}

/// How `set(k, v)` turns the entries `before` into `after`: in place when the
/// key is there and the value fits its reserved space (the bytes of the old
/// value region past the new value and slack byte become the reserve), else
/// the old entry (if any) is dropped and a fresh one goes to the end.
pub open spec fn set_outcome(before: Seq<Slot>, after: Seq<Slot>, k: Seq<u8>, v: Seq<u8>) -> bool {
    if has_key(before, k) {
        let j = index_of(before, k);
        if fits_in_place(before[j], v) {
            &&& after.len() == before.len()
            &&& after[j] == (Slot { key: k, value: v, spare: value_region(before[j]).skip(value_need(v) as int) })
            &&& slot_bytes(after[j]).len() == slot_bytes(before[j]).len()
            &&& forall|i: int| 0 <= i < before.len() && i != j ==> after[i] == before[i]
        } else {
            after == before.remove(j).push(fresh_slot(k, v))
        }
    } else {
        after == before.push(fresh_slot(k, v))
    }
}

pub(crate) proof fn lemma_replace(ss: Seq<Slot>, k: Seq<u8>, v: Seq<u8>)
    requires
        keys_unique(ss),
        has_key(ss, k),
    ensures
        !has_key(ss.remove(index_of(ss, k)), k),
        map_of(ss.remove(index_of(ss, k)).push(fresh_slot(k, v))) == map_of(ss).insert(k, v),
{
    let j = index_of(ss, k);
    let rs = ss.remove(j);
    lemma_map_remove(ss, j);
    assert(!has_key(rs, k)) by {
        if has_key(rs, k) {
            assert(map_of(rs).contains_key(k));
        }
    }
    lemma_map_push(rs, fresh_slot(k, v));
    assert(map_of(ss).remove(k).insert(k, v) =~= map_of(ss).insert(k, v));
}

pub(crate) proof fn lemma_in_place(ss: Seq<Slot>, ns: Seq<Slot>, k: Seq<u8>, v: Seq<u8>)
    requires
        keys_unique(ss),
        has_key(ss, k),
        fits_in_place(ss[index_of(ss, k)], v),
        ns == ss.update(
            index_of(ss, k),
            (Slot { key: k, value: v, spare: value_region(ss[index_of(ss, k)]).skip(value_need(v) as int) }),
        ),
        slot_bytes(ns[index_of(ss, k)]).len() == slot_bytes(ss[index_of(ss, k)]).len(),
    ensures
        set_outcome(ss, ns, k, v),
        map_of(ns) == map_of(ss).insert(k, v),
{
    let j = index_of(ss, k);
    lemma_map_update(ss, j, ns[j]);
}

/// The text of the entries as `key: value, ` pieces, one after another.
pub open spec fn repr_of(es: Seq<(Seq<u8>, Seq<u8>)>) -> Seq<char>
    decreases es.len(),
{
    if es.len() == 0 {
        Seq::empty()
    } else {
        repr_of(es.drop_last()) + decode_utf8(es.last().0) + seq![':', ' '] + decode_utf8(es.last().1)
            + seq![',', ' ']
    }
}

pub(crate) proof fn lemma_layout_len_eq(a: Seq<Slot>, b: Seq<Slot>)
    requires
        a.len() == b.len(),
        forall|i: int| 0 <= i < a.len() ==> slot_bytes(#[trigger] a[i]).len() == slot_bytes(b[i]).len(),
    ensures
        layout(a).len() == layout(b).len(),
    decreases a.len(),
{
    if a.len() > 0 {
        let a2 = a.drop_last();
        let b2 = b.drop_last();
        assert forall|i: int| 0 <= i < a2.len() implies slot_bytes(#[trigger] a2[i]).len() == slot_bytes(b2[i]).len() by {
            assert(a2[i] == a[i] && b2[i] == b[i]);
        }
        lemma_layout_len_eq(a2, b2);
        assert(slot_bytes(a[a.len() - 1]).len() == slot_bytes(b[b.len() - 1]).len());
    }
}

/// Entries of equal encoded sizes start at equal offsets.
pub(crate) proof fn lemma_offsets_eq(a: Seq<Slot>, b: Seq<Slot>)
    requires
        a.len() == b.len(),
        forall|i: int| 0 <= i < a.len() ==> slot_bytes(#[trigger] a[i]).len() == slot_bytes(b[i]).len(),
    ensures
        forall|j: int| 0 <= j <= a.len() ==> #[trigger] offset(a, j) == offset(b, j),
        layout(a).len() == layout(b).len(),
{
    lemma_layout_len_eq(a, b);
    assert forall|j: int| 0 <= j <= a.len() implies #[trigger] offset(a, j) == offset(b, j) by {
        let ta = a.take(j);
        let tb = b.take(j);
        assert forall|i: int| 0 <= i < ta.len() implies slot_bytes(#[trigger] ta[i]).len() == slot_bytes(tb[i]).len() by {
            assert(ta[i] == a[i] && tb[i] == b[i]);
        }
        lemma_layout_len_eq(ta, tb);
    }
}

} // verus!
