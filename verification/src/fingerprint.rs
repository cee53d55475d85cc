//! Structural fingerprints of syntax nodes.
//!
//! A scalar hashes its style and exact bytes; a mapping hashes its entries
//! in key order (stable for repeated keys); a sequence hashes its items in
//! order. Children contribute their own fingerprints.
use vstd::prelude::*;

use crate::digest::{blake3_digest, blake3_hash};
use crate::syntax::{Entry, Item, Node, NodeKind, ScalarStyle, Span};
use vstd::string::StringSliceAdditionalSpecFns;

verus! {

/// The `k` low-order bytes of `n`, least significant first.
pub open spec fn le_bytes(n: nat, k: nat) -> Seq<u8>
    decreases k,
{
    if k == 0 {
        Seq::empty()
    } else {
        seq![(n % 256) as u8] + le_bytes(n / 256, (k - 1) as nat)
    }
}

/// `u64::to_le_bytes`.
pub fn u64_le_bytes(n: u64) -> (res: Vec<u8>)
    ensures
        res@ == le_bytes(n as nat, 8),
{
    let mut out: Vec<u8> = Vec::new();
    let mut rest = n;
    let mut k: usize = 0;
    while k < 8
        invariant
            k <= 8,
            out@ + le_bytes(rest as nat, (8 - k) as nat) == le_bytes(n as nat, 8),
        decreases 8 - k,
    {
        let ghost before = out@;
        out.push((rest % 256) as u8);
        proof {
            let tail = le_bytes((rest / 256) as nat, (8 - k - 1) as nat);
            assert(le_bytes(rest as nat, (8 - k) as nat) == seq![(rest % 256) as u8] + tail);
            assert(out@ + tail == before + (seq![(rest % 256) as u8] + tail));
        }
        rest = rest / 256;
        k = k + 1;
    }
    assert(out@ + Seq::<u8>::empty() == out@);
    out
}

/// Byte-wise lexicographic order, as `str::cmp` orders keys.
pub open spec fn bytes_lt(a: Seq<u8>, b: Seq<u8>) -> bool
    decreases a.len(),
{
    if b.len() == 0 {
        false
    } else if a.len() == 0 {
        true
    } else if a[0] != b[0] {
        a[0] < b[0]
    } else {
        bytes_lt(a.drop_first(), b.drop_first())
    }
}

fn slice_lt(a: &[u8], b: &[u8]) -> (res: bool)
    ensures
        res == bytes_lt(a@, b@),
{
    let mut i: usize = 0;
    assert(a@.skip(0) == a@ && b@.skip(0) == b@);
    while i < a.len() && i < b.len() && a[i] == b[i]
        invariant
            i <= a@.len(),
            i <= b@.len(),
            bytes_lt(a@, b@) == bytes_lt(a@.skip(i as int), b@.skip(i as int)),
        decreases a@.len() - i,
    {
        proof {
            let sa = a@.skip(i as int);
            let sb = b@.skip(i as int);
            assert(sa.drop_first() == a@.skip(i + 1));
            assert(sb.drop_first() == b@.skip(i + 1));
        }
        i = i + 1;
    }
    if i == b.len() {
        false
    } else if i == a.len() {
        true
    } else {
        a[i] < b[i]
    }
}

/// The UTF-8 bytes of an entry's key.
pub open spec fn key_bytes(e: Entry) -> Seq<u8> {
    vstd::utf8::encode_utf8(e.key@)
}

/// Inserts index `x` before the first index whose key is greater than `x`'s.
pub open spec fn insert_by_key(order: Seq<int>, x: int, keys: Seq<Seq<u8>>) -> Seq<int>
    decreases order.len(),
{
    if order.len() == 0 {
        seq![x]
    } else if bytes_lt(keys[x], keys[order[0]]) {
        seq![x] + order
    } else {
        seq![order[0]] + insert_by_key(order.drop_first(), x, keys)
    }
}

/// The stable key order of the first `n` keys.
pub open spec fn key_order(keys: Seq<Seq<u8>>, n: nat) -> Seq<int>
    decreases n,
{
    if n == 0 {
        Seq::empty()
    } else {
        insert_by_key(key_order(keys, (n - 1) as nat), n - 1, keys)
    }
}

proof fn lemma_insert_at(order: Seq<int>, x: int, keys: Seq<Seq<u8>>, p: int)
    requires
        0 <= p <= order.len(),
        forall|j: int| 0 <= j < p ==> !bytes_lt(keys[x], keys[#[trigger] order[j]]),
        p < order.len() ==> bytes_lt(keys[x], keys[order[p]]),
    ensures
        insert_by_key(order, x, keys) == order.take(p) + seq![x] + order.skip(p),
    decreases order.len(),
{
    if order.len() == 0 {
    } else if p == 0 {
        assert(order.skip(0) == order);
    } else {
        let rest = order.drop_first();
        assert forall|j: int| 0 <= j < p - 1 implies !bytes_lt(keys[x], keys[#[trigger] rest[j]]) by {
            assert(rest[j] == order[j + 1]);
        }
        lemma_insert_at(rest, x, keys, p - 1);
        assert(order.take(p) == seq![order[0]] + rest.take(p - 1));
        assert(order.skip(p) == rest.skip(p - 1));
    }
}

proof fn lemma_insert_len(order: Seq<int>, x: int, keys: Seq<Seq<u8>>)
    ensures
        insert_by_key(order, x, keys).len() == order.len() + 1,
        forall|j: int| 0 <= j < insert_by_key(order, x, keys).len() ==> (#[trigger] insert_by_key(
            order,
            x,
            keys,
        )[j] == x || order.contains(insert_by_key(order, x, keys)[j])),
    decreases order.len(),
{
    if order.len() > 0 && !bytes_lt(keys[x], keys[order[0]]) {
        lemma_insert_len(order.drop_first(), x, keys);
        let r = insert_by_key(order.drop_first(), x, keys);
        assert forall|j: int| 0 <= j < insert_by_key(order, x, keys).len() implies (#[trigger] insert_by_key(
            order,
            x,
            keys,
        )[j] == x || order.contains(insert_by_key(order, x, keys)[j])) by {
            if j > 0 {
                assert(insert_by_key(order, x, keys)[j] == r[j - 1]);
                if r[j - 1] != x {
                    let w = choose|w: int| 0 <= w < order.drop_first().len() && order.drop_first()[w] == r[j - 1];
                    assert(order[w + 1] == r[j - 1]);
                }
            } else {
                assert(order[0] == insert_by_key(order, x, keys)[0]);
            }
        }
    } else if order.len() > 0 {
        assert forall|j: int| 0 <= j < insert_by_key(order, x, keys).len() implies (#[trigger] insert_by_key(
            order,
            x,
            keys,
        )[j] == x || order.contains(insert_by_key(order, x, keys)[j])) by {
            if j > 0 {
                assert(insert_by_key(order, x, keys)[j] == order[j - 1]);
            }
        }
    }
}

pub proof fn lemma_key_order(keys: Seq<Seq<u8>>, n: nat)
    ensures
        key_order(keys, n).len() == n,
        forall|j: int| 0 <= j < n ==> 0 <= #[trigger] key_order(keys, n)[j] < n,
    decreases n,
{
    if n > 0 {
        lemma_key_order(keys, (n - 1) as nat);
        let prev = key_order(keys, (n - 1) as nat);
        lemma_insert_len(prev, n - 1, keys);
        assert forall|j: int| 0 <= j < n implies 0 <= #[trigger] key_order(keys, n)[j] < n by {
            let v = key_order(keys, n)[j];
            if v != n - 1 {
                let w = choose|w: int| 0 <= w < prev.len() && prev[w] == v;
            }
        }
    }
}

/// The keys of a mapping's entries as UTF-8 bytes.
pub open spec fn entry_keys(entries: Seq<Entry>) -> Seq<Seq<u8>> {
    entries.map_values(|e: Entry| key_bytes(e))
}

/// One entry's contribution: key length (8 bytes, little endian), key bytes,
/// then the value's fingerprint.
pub open spec fn entry_record(e: Entry) -> Seq<u8> {
    le_bytes(key_bytes(e).len(), 8) + key_bytes(e) + e.value.fingerprint@
}

pub open spec fn entry_records(entries: Seq<Entry>, order: Seq<int>) -> Seq<u8>
    decreases order.len(),
{
    if order.len() == 0 {
        Seq::empty()
    } else {
        entry_records(entries, order.drop_last()) + entry_record(entries[order.last()])
    }
}

pub open spec fn item_records(items: Seq<Item>) -> Seq<u8>
    decreases items.len(),
{
    if items.len() == 0 {
        Seq::empty()
    } else {
        item_records(items.drop_last()) + items.last().value.fingerprint@
    }
}

/// The bytes a node's fingerprint hashes.
pub open spec fn preimage(kind: NodeKind, span: Span, bytes: Seq<u8>) -> Seq<u8> {
    match kind {
        NodeKind::Scalar(style) => seq![0u8, style.tag()] + bytes.subrange(
            span.start as int,
            span.end as int,
        ),
        NodeKind::Mapping(entries) => seq![1u8] + entry_records(
            entries@,
            key_order(entry_keys(entries@), entries@.len()),
        ),
        NodeKind::Sequence(items) => seq![2u8] + item_records(items@),
    }
}

/// The fingerprint a node of this kind and span must carry.
pub open spec fn fingerprint_of(kind: NodeKind, span: Span, bytes: Seq<u8>) -> Seq<u8> {
    blake3_digest(preimage(kind, span, bytes))
}

fn append(out: &mut Vec<u8>, data: &[u8])
    ensures
        final(out)@ == old(out)@ + data@,
{
    let mut i: usize = 0;
    while i < data.len()
        invariant
            i <= data@.len(),
            out@ == old(out)@ + data@.take(i as int),
        decreases data@.len() - i,
    {
        out.push(data[i]);
        i = i + 1;
        assert(data@.take(i as int) == data@.take(i - 1).push(data@[i - 1]));
    }
    assert(data@.take(data@.len() as int) == data@);
}

/// The stable key order of a mapping's entries.
fn sorted_entries(entries: &Vec<Entry>) -> (res: Vec<usize>)
    ensures
        res@.len() == entries@.len(),
        forall|j: int| 0 <= j < res@.len() ==> res@[j] as int == key_order(
            entry_keys(entries@),
            entries@.len(),
        )[j],
{
    let ghost keys = entry_keys(entries@);
    let mut order: Vec<usize> = Vec::new();
    let mut n: usize = 0;
    while n < entries.len()
        invariant
            n <= entries@.len(),
            keys == entry_keys(entries@),
            order@.len() == n,
            forall|j: int| 0 <= j < n ==> (#[trigger] order@[j]) as int == key_order(keys, n as nat)[j],
            forall|j: int| 0 <= j < n ==> (#[trigger] order@[j]) < n,
        decreases entries@.len() - n,
    {
        let ghost prev = key_order(keys, n as nat);
        let ghost as_int = order@.map_values(|v: usize| v as int);
        proof { lemma_key_order(keys, n as nat); }
        assert(as_int =~= prev);
        let key = entries[n].key.as_str().as_bytes();
        let mut p: usize = 0;
        while p < order.len() && !slice_lt(key, entries[order[p]].key.as_str().as_bytes())
            invariant
                p <= order@.len(),
                order@.len() == n,
                n < entries@.len(),
                keys == entry_keys(entries@),
                key@ == keys[n as int],
                forall|j: int| 0 <= j < n ==> (#[trigger] order@[j]) < n,
                forall|j: int| 0 <= j < p ==> !bytes_lt(keys[n as int], keys[#[trigger] as_int[j]]),
                as_int == order@.map_values(|v: usize| v as int),
            decreases order@.len() - p,
        {
            p = p + 1;
        }
        proof {
            lemma_insert_at(as_int, n as int, keys, p as int);
        }
        order.insert(p, n);
        proof {
            let next = key_order(keys, (n + 1) as nat);
            assert(next == as_int.take(p as int) + seq![n as int] + as_int.skip(p as int));
            assert forall|j: int| 0 <= j < n + 1 implies (#[trigger] order@[j]) as int == next[j] by {
                if j < p {
                } else if j == p {
                } else {
                    assert(order@[j] == order@[j - 1] || true);
                }
            }
        }
        n = n + 1;
    }
    assert(n == entries@.len());
    order
}

pub open spec fn bytes_view(keys: Seq<Vec<u8>>) -> Seq<Seq<u8>> {
    keys.map_values(|k: Vec<u8>| k@)
}

/// The stable byte-wise order of a list of keys, as indices.
pub(crate) fn key_order_of(keys: &Vec<Vec<u8>>) -> (res: Vec<usize>)
    ensures
        res@.len() == keys@.len(),
        forall|j: int| 0 <= j < res@.len() ==> res@[j] as int == key_order(bytes_view(keys@), keys@.len())[j],
{
    let ghost kv = bytes_view(keys@);
    let mut order: Vec<usize> = Vec::new();
    let mut n: usize = 0;
    while n < keys.len()
        invariant
            n <= keys@.len(),
            kv == bytes_view(keys@),
            order@.len() == n,
            forall|j: int| 0 <= j < n ==> (#[trigger] order@[j]) as int == key_order(kv, n as nat)[j],
            forall|j: int| 0 <= j < n ==> (#[trigger] order@[j]) < n,
        decreases keys@.len() - n,
    {
        let ghost prev = key_order(kv, n as nat);
        let ghost as_int = order@.map_values(|v: usize| v as int);
        proof { lemma_key_order(kv, n as nat); }
        assert(as_int =~= prev);
        let key = keys[n].as_slice();
        assert(key@ == kv[n as int]);
        let mut p: usize = 0;
        while p < order.len() && !slice_lt(key, keys[order[p]].as_slice())
            invariant
                p <= order@.len(),
                order@.len() == n,
                n < keys@.len(),
                kv == bytes_view(keys@),
                key@ == kv[n as int],
                forall|j: int| 0 <= j < n ==> (#[trigger] order@[j]) < n,
                forall|j: int| 0 <= j < p ==> !bytes_lt(kv[n as int], kv[#[trigger] as_int[j]]),
                as_int == order@.map_values(|v: usize| v as int),
            decreases order@.len() - p,
        {
            assert(keys@[order@[p as int] as int]@ == kv[as_int[p as int]]);
            p = p + 1;
        }
        proof {
            if p < order@.len() {
                assert(keys@[order@[p as int] as int]@ == kv[as_int[p as int]]);
            }
            lemma_insert_at(as_int, n as int, kv, p as int);
        }
        order.insert(p, n);
        proof {
            let next = key_order(kv, (n + 1) as nat);
            assert(next == as_int.take(p as int) + seq![n as int] + as_int.skip(p as int));
            assert forall|j: int| 0 <= j < n + 1 implies (#[trigger] order@[j]) as int == next[j] by {
                if j < p {
                } else if j == p {
                } else {
                    assert(order@[j] == order@[j - 1] || true);
                }
            }
        }
        n = n + 1;
    }
    order
}

/// Computes the fingerprint of a node with the given kind and span.
pub fn fingerprint(kind: &NodeKind, span: Span, bytes: &[u8]) -> (res: [u8; 32])
    requires
        span.within(bytes@.len() as int),
    ensures
        res@ == fingerprint_of(*kind, span, bytes@),
{
    let mut pre: Vec<u8> = Vec::new();
    match kind {
        NodeKind::Scalar(style) => {
            pre.push(0);
            pre.push(style.tag_byte());
            append(&mut pre, crate::syntax::slice_range(bytes, span.start, span.end));
            assert(pre@ == preimage(*kind, span, bytes@));
        },
        NodeKind::Mapping(entries) => {
            pre.push(1);
            let order = sorted_entries(entries);
            let ghost keys = entry_keys(entries@);
            let ghost full = key_order(keys, entries@.len());
            proof { lemma_key_order(keys, entries@.len()); }
            let mut k: usize = 0;
            while k < order.len()
                invariant
                    k <= order@.len(),
                    order@.len() == entries@.len(),
                    full.len() == entries@.len(),
                    forall|j: int| 0 <= j < order@.len() ==> order@[j] as int == full[j],
                    forall|j: int| 0 <= j < full.len() ==> 0 <= #[trigger] full[j] < entries@.len(),
                    pre@ == seq![1u8] + entry_records(entries@, full.take(k as int)),
                decreases order@.len() - k,
            {
                assert(order@[k as int] as int == full[k as int]);
                let e = &entries[order[k]];
                let key = e.key.as_str().as_bytes();
                let len = u64_le_bytes(key.len() as u64);
                append(&mut pre, len.as_slice());
                append(&mut pre, key);
                append(&mut pre, &e.value.fingerprint);
                proof {
                    assert(full.take(k + 1).drop_last() == full.take(k as int));
                    assert(full.take(k + 1).last() == full[k as int]);
                }
                k = k + 1;
            }
            assert(full.take(full.len() as int) == full);
            assert(pre@ == preimage(*kind, span, bytes@));
        },
        NodeKind::Sequence(items) => {
            pre.push(2);
            let mut k: usize = 0;
            while k < items.len()
                invariant
                    k <= items@.len(),
                    pre@ == seq![2u8] + item_records(items@.take(k as int)),
                decreases items@.len() - k,
            {
                append(&mut pre, &items[k].value.fingerprint);
                proof {
                    assert(items@.take(k + 1).drop_last() == items@.take(k as int));
                }
                k = k + 1;
            }
            assert(items@.take(items@.len() as int) == items@);
            assert(pre@ == preimage(*kind, span, bytes@));
        },
    }
    blake3_hash(pre.as_slice())
}

} // verus!
