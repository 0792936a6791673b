use crate::codec::dec_u64_at;
use crate::errors::Error;
use crate::region::{
    spec_num_pages, spec_page_count, spec_region_view, RegionHandle, RegionManager,
    MAX_DATA_PAGES, MAX_REGIONS, PAGE_SIZE,
};
use crate::wire::{append_range, append_u64};
use vstd::bytes::*;
use vstd::prelude::*;

verus! {

/// One key/value pair of the sorted record map.
#[derive(Debug)]
pub struct MapEntry {
    pub key: u64,
    pub value: Vec<u8>,
}

pub open spec fn entry_view(e: MapEntry) -> (u64, Seq<u8>) {
    (e.key, e.value@)
}

pub open spec fn entries_view(v: Seq<MapEntry>) -> Seq<(u64, Seq<u8>)> {
    v.map_values(|e: MapEntry| entry_view(e))
}

// Wire format of the table, front to back: entry count, then each entry as
// key, value length, value bytes; integers are eight little-endian bytes.
// The table occupies a prefix of its region; the rest of the region is
// padding.

pub open spec fn enc_entry(e: (u64, Seq<u8>)) -> Seq<u8> {
    spec_u64_to_le_bytes(e.0) + spec_u64_to_le_bytes(e.1.len() as u64) + e.1
}

pub open spec fn enc_entries(es: Seq<(u64, Seq<u8>)>) -> Seq<u8>
    decreases es.len(),
{
    if es.len() == 0 {
        Seq::empty()
    } else {
        enc_entry(es[0]) + enc_entries(es.drop_first())
    }
}

pub open spec fn enc_table(es: Seq<(u64, Seq<u8>)>) -> Seq<u8> {
    spec_u64_to_le_bytes(es.len() as u64) + enc_entries(es)
}

pub open spec fn dec_entry_at(b: Seq<u8>, pos: int) -> Option<((u64, Seq<u8>), int)> {
    match dec_u64_at(b, pos) {
        Option::None => Option::None,
        Option::Some((key, p1)) => match dec_u64_at(b, p1) {
            Option::None => Option::None,
            Option::Some((n, p2)) => {
                if p2 + n <= b.len() {
                    Some(((key, b.subrange(p2, p2 + n)), p2 + n))
                } else {
                    None
                }
            },
        },
    }
}

pub open spec fn dec_entries_at(b: Seq<u8>, pos: int, n: nat) -> Option<(Seq<(u64, Seq<u8>)>, int)>
    decreases n,
{
    if n == 0 {
        Some((Seq::empty(), pos))
    } else {
        match dec_entry_at(b, pos) {
            Option::None => Option::None,
            Option::Some((e, p1)) => {
                match dec_entries_at(b, p1, (n - 1) as nat) {
                    Option::None => Option::None,
                    Option::Some((es, p2)) => Some((seq![e] + es, p2)),
                }
            },
        }
    }
}

/// The table a region's bytes hold, if their prefix parses.
pub open spec fn dec_table(b: Seq<u8>) -> Option<Seq<(u64, Seq<u8>)>> {
    match dec_u64_at(b, 0) {
        Option::None => Option::None,
        Option::Some((n, p1)) => match dec_entries_at(b, p1, n as nat) {
            Option::None => Option::None,
            Option::Some((es, _)) => Some(es),
        },
    }
}

/// Keys strictly ascend: they are unique and iteration is ordered.
pub open spec fn entries_sorted(es: Seq<(u64, Seq<u8>)>) -> bool {
    forall|i: int, j: int| 0 <= i < j < es.len() ==> es[i].0 < es[j].0
}

pub open spec fn entries_wf(es: Seq<(u64, Seq<u8>)>) -> bool {
    &&& es.len() <= u64::MAX
    &&& forall|i: int| 0 <= i < es.len() ==> (#[trigger] es[i]).1.len() <= u64::MAX
}

pub open spec fn spec_contains_key(es: Seq<(u64, Seq<u8>)>, k: u64) -> bool {
    exists|i: int| 0 <= i < es.len() && (#[trigger] es[i]).0 == k
}

pub open spec fn key_index(es: Seq<(u64, Seq<u8>)>, k: u64) -> int {
    choose|i: int| 0 <= i < es.len() && (#[trigger] es[i]).0 == k
}

/// The value stored under `k`, if any.
pub open spec fn spec_find(es: Seq<(u64, Seq<u8>)>, k: u64) -> Option<Seq<u8>> {
    if spec_contains_key(es, k) {
        Some(es[key_index(es, k)].1)
    } else {
        None
    }
}

/// Index of the first entry whose key is at least `k`.
pub open spec fn spec_lower_bound(es: Seq<(u64, Seq<u8>)>, k: u64) -> int
    decreases es.len(),
{
    if es.len() == 0 {
        0
    } else if es[0].0 < k {
        1 + spec_lower_bound(es.drop_first(), k)
    } else {
        0
    }
}

/// The table after storing `v` under `k`, keeping keys sorted.
pub open spec fn spec_store(es: Seq<(u64, Seq<u8>)>, k: u64, v: Seq<u8>) -> Seq<(u64, Seq<u8>)> {
    let i = spec_lower_bound(es, k);
    if i < es.len() && es[i].0 == k {
        es.update(i, (k, v))
    } else {
        es.insert(i, (k, v))
    }
}

/// The table after erasing the entry under `k`, if present.
pub open spec fn spec_erase(es: Seq<(u64, Seq<u8>)>, k: u64) -> Seq<(u64, Seq<u8>)> {
    let i = spec_lower_bound(es, k);
    if i < es.len() && es[i].0 == k {
        es.remove(i)
    } else {
        es
    }
}

proof fn lemma_lower_bound_props(es: Seq<(u64, Seq<u8>)>, k: u64)
    ensures
        0 <= spec_lower_bound(es, k) <= es.len(),
        forall|i: int| 0 <= i < spec_lower_bound(es, k) ==> (#[trigger] es[i]).0 < k,
        spec_lower_bound(es, k) < es.len() ==> es[spec_lower_bound(es, k)].0 >= k,
    decreases es.len(),
{
    if es.len() == 0 {
    } else if es[0].0 < k {
        lemma_lower_bound_props(es.drop_first(), k);
        let lb = spec_lower_bound(es, k);
        assert forall|i: int| 0 <= i < lb implies (#[trigger] es[i]).0 < k by {
            if i > 0 {
                assert(es.drop_first()[i - 1] == es[i]);
            }
        }
        if lb < es.len() {
            assert(es.drop_first()[lb - 1] == es[lb]);
        }
    }
}

pub proof fn lemma_find_at(es: Seq<(u64, Seq<u8>)>, k: u64, i: int)
    requires
        entries_sorted(es),
        0 <= i < es.len(),
        es[i].0 == k,
    ensures
        spec_find(es, k) == Some(es[i].1),
        key_index(es, k) == i,
{
    assert(spec_contains_key(es, k));
    let j = key_index(es, k);
    if i < j {
        assert(es[i].0 < es[j].0);
    }
    if j < i {
        assert(es[j].0 < es[i].0);
    }
}

pub proof fn lemma_store_props(es: Seq<(u64, Seq<u8>)>, k: u64, v: Seq<u8>)
    requires
        entries_sorted(es),
    ensures
        entries_sorted(spec_store(es, k, v)),
        spec_find(spec_store(es, k, v), k) == Some(v),
        forall|k2: u64| k2 != k ==> spec_find(spec_store(es, k, v), k2) == spec_find(es, k2),
        spec_store(es, k, v).len() == es.len() + (if spec_contains_key(es, k) {
            0int
        } else {
            1int
        }),
        forall|i: int| 0 <= i < spec_store(es, k, v).len() ==> (#[trigger] spec_store(es, k, v)[i])
            == (k, v) || spec_contains_key(es, spec_store(es, k, v)[i].0) && spec_find(
            es,
            spec_store(es, k, v)[i].0,
        ) == Some(spec_store(es, k, v)[i].1),
{
    lemma_lower_bound_props(es, k);
    let lb = spec_lower_bound(es, k);
    let new = spec_store(es, k, v);
    if lb < es.len() && es[lb].0 == k {
        // Overwrite in place.
        lemma_find_at(es, k, lb);
        assert(entries_sorted(new));
        lemma_find_at(new, k, lb);
        assert forall|k2: u64| k2 != k implies spec_find(new, k2) == spec_find(es, k2) by {
            if spec_contains_key(new, k2) {
                let j = key_index(new, k2);
                assert(new[j].0 == k2 && j != lb);
                lemma_find_at(es, k2, j);
                lemma_find_at(new, k2, j);
            } else {
                if spec_contains_key(es, k2) {
                    let j = key_index(es, k2);
                    assert(j != lb);
                    assert(new[j].0 == k2);
                }
            }
        }
        assert forall|i: int|
            0 <= i < new.len() implies (#[trigger] new[i]) == (k, v) || spec_contains_key(
            es,
            new[i].0,
        ) && spec_find(es, new[i].0) == Some(new[i].1) by {
            if i != lb {
                lemma_find_at(es, new[i].0, i);
            }
        }
    } else {
        // Insert at the lower bound; every key differs from k.
        assert forall|i: int| 0 <= i < es.len() implies (#[trigger] es[i]).0 != k by {
            if i < lb {
            } else {
                if es[i].0 == k {
                    if i == lb {
                    } else {
                        assert(es[lb].0 < es[i].0);
                    }
                }
            }
        }
        assert(!spec_contains_key(es, k));
        assert(new == es.insert(lb, (k, v)));
        assert(new.len() == es.len() + 1);
        assert forall|i: int, j: int| 0 <= i < j < new.len() implies new[i].0 < new[j].0 by {
            if i < lb && j < lb {
            } else if i < lb && j == lb {
                assert(new[i].0 == es[i].0 && es[i].0 < k);
            } else if i < lb && j > lb {
                assert(new[j].0 == es[j - 1].0);
            } else if i == lb {
                assert(new[j].0 == es[j - 1].0 && es[j - 1].0 >= k && es[j - 1].0 != k);
            } else {
                assert(new[i].0 == es[i - 1].0 && new[j].0 == es[j - 1].0);
            }
        }
        lemma_find_at(new, k, lb);
        assert forall|k2: u64| k2 != k implies spec_find(new, k2) == spec_find(es, k2) by {
            if spec_contains_key(new, k2) {
                let j = key_index(new, k2);
                assert(new[j].0 == k2 && j != lb);
                if j < lb {
                    lemma_find_at(es, k2, j);
                    lemma_find_at(new, k2, j);
                } else {
                    assert(new[j] == es[j - 1]);
                    lemma_find_at(es, k2, j - 1);
                    lemma_find_at(new, k2, j);
                }
            } else {
                if spec_contains_key(es, k2) {
                    let j = key_index(es, k2);
                    if j < lb {
                        assert(new[j].0 == k2);
                    } else {
                        assert(new[j + 1].0 == k2);
                    }
                }
            }
        }
        assert forall|i: int|
            0 <= i < new.len() implies (#[trigger] new[i]) == (k, v) || spec_contains_key(
            es,
            new[i].0,
        ) && spec_find(es, new[i].0) == Some(new[i].1) by {
            if i < lb {
                lemma_find_at(es, new[i].0, i);
            } else if i > lb {
                assert(new[i] == es[i - 1]);
                lemma_find_at(es, new[i].0, i - 1);
            }
        }
    }
}

pub proof fn lemma_erase_props(es: Seq<(u64, Seq<u8>)>, k: u64)
    requires
        entries_sorted(es),
    ensures
        entries_sorted(spec_erase(es, k)),
        spec_find(spec_erase(es, k), k) is None,
        forall|k2: u64| k2 != k ==> spec_find(spec_erase(es, k), k2) == spec_find(es, k2),
        spec_contains_key(es, k) ==> spec_erase(es, k).len() == es.len() - 1,
        !spec_contains_key(es, k) ==> spec_erase(es, k) == es,
        forall|i: int|
            0 <= i < spec_erase(es, k).len() ==> spec_contains_key(
                es,
                (#[trigger] spec_erase(es, k)[i]).0,
            ) && spec_find(es, spec_erase(es, k)[i].0) == Some(spec_erase(es, k)[i].1),
{
    lemma_lower_bound_props(es, k);
    let lb = spec_lower_bound(es, k);
    let new = spec_erase(es, k);
    if lb < es.len() && es[lb].0 == k {
        lemma_find_at(es, k, lb);
        assert(new == es.remove(lb));
        assert forall|i: int|
            0 <= i < new.len() implies spec_contains_key(es, (#[trigger] new[i]).0) && spec_find(
            es,
            new[i].0,
        ) == Some(new[i].1) by {
            let i2 = if i < lb {
                i
            } else {
                i + 1
            };
            assert(new[i] == es[i2]);
            lemma_find_at(es, new[i].0, i2);
        }
        assert forall|i: int, j: int| 0 <= i < j < new.len() implies new[i].0 < new[j].0 by {
            let i2 = if i < lb {
                i
            } else {
                i + 1
            };
            let j2 = if j < lb {
                j
            } else {
                j + 1
            };
            assert(new[i] == es[i2] && new[j] == es[j2]);
        }
        if spec_contains_key(new, k) {
            let j = key_index(new, k);
            let j2 = if j < lb {
                j
            } else {
                j + 1
            };
            assert(es[j2].0 == k);
            lemma_find_at(es, k, j2);
        }
        assert forall|k2: u64| k2 != k implies spec_find(new, k2) == spec_find(es, k2) by {
            if spec_contains_key(new, k2) {
                let j = key_index(new, k2);
                let j2 = if j < lb {
                    j
                } else {
                    j + 1
                };
                assert(new[j] == es[j2]);
                lemma_find_at(es, k2, j2);
                lemma_find_at(new, k2, j);
            } else {
                if spec_contains_key(es, k2) {
                    let j = key_index(es, k2);
                    assert(j != lb);
                    if j < lb {
                        assert(new[j].0 == k2);
                    } else {
                        assert(new[j - 1] == es[j]);
                        assert(new[j - 1].0 == k2);
                    }
                }
            }
        }
    } else {
        assert forall|i: int| 0 <= i < es.len() implies (#[trigger] es[i]).0 != k by {
            if i >= lb && es[i].0 == k {
                if i != lb {
                    assert(es[lb].0 < es[i].0);
                }
            }
        }
        assert(!spec_contains_key(es, k));
        if spec_contains_key(new, k) {
            let j = key_index(new, k);
            assert(es[j].0 == k);
        }
        assert forall|i: int|
            0 <= i < new.len() implies spec_contains_key(es, (#[trigger] new[i]).0) && spec_find(
            es,
            new[i].0,
        ) == Some(new[i].1) by {
            lemma_find_at(es, new[i].0, i);
        }
    }
}

proof fn lemma_dec_entries_of_enc(b: Seq<u8>, pos: int, es: Seq<(u64, Seq<u8>)>)
    requires
        entries_wf(es),
        0 <= pos,
        pos + enc_entries(es).len() <= b.len(),
        b.subrange(pos, pos + enc_entries(es).len() as int) == enc_entries(es),
    ensures
        dec_entries_at(b, pos, es.len()) == Some((es, pos + enc_entries(es).len() as int)),
    decreases es.len(),
{
    lemma_auto_spec_u64_to_from_le_bytes();
    if es.len() == 0 {
        assert(es =~= Seq::<(u64, Seq<u8>)>::empty());
    } else {
        let head = es[0];
        let rest = es.drop_first();
        let e0 = enc_entry(head);
        let er = enc_entries(rest);
        let whole = b.subrange(pos, pos + enc_entries(es).len() as int);
        assert(enc_entries(es) == e0 + er);
        assert forall|i: int| 0 <= i < es.len() implies (#[trigger] rest[i - 1]).1.len()
            <= u64::MAX || i == 0 by {
            if i > 0 {
                assert(rest[i - 1] == es[i]);
            }
        }
        assert(entries_wf(rest)) by {
            assert forall|i: int| 0 <= i < rest.len() implies (#[trigger] rest[i]).1.len()
                <= u64::MAX by {
                assert(rest[i] == es[i + 1]);
            }
        }
        // Parse the head entry.
        assert forall|q: int| 0 <= q < 8 implies #[trigger] b.subrange(pos, pos + 8)[q]
            == spec_u64_to_le_bytes(head.0)[q] by {
            assert(b[pos + q] == whole[q]);
        }
        assert(b.subrange(pos, pos + 8) =~= spec_u64_to_le_bytes(head.0));
        assert forall|q: int| 0 <= q < 8 implies #[trigger] b.subrange(pos + 8, pos + 16)[q]
            == spec_u64_to_le_bytes(head.1.len() as u64)[q] by {
            assert(b[pos + 8 + q] == whole[8 + q]);
        }
        assert(b.subrange(pos + 8, pos + 16) =~= spec_u64_to_le_bytes(head.1.len() as u64));
        let vl = head.1.len() as int;
        assert forall|q: int| 0 <= q < vl implies #[trigger] b.subrange(pos + 16, pos + 16 + vl)[q]
            == head.1[q] by {
            assert(b[pos + 16 + q] == whole[16 + q]);
        }
        assert(b.subrange(pos + 16, pos + 16 + vl) =~= head.1);
        assert(dec_entry_at(b, pos) == Some((head, pos + e0.len() as int)));
        // Parse the rest inductively.
        let p1 = pos + e0.len() as int;
        assert forall|q: int| 0 <= q < er.len() implies #[trigger] b.subrange(
            p1,
            p1 + er.len() as int,
        )[q] == er[q] by {
            assert(b[pos + e0.len() + q] == whole[e0.len() + q]);
        }
        assert(b.subrange(p1, p1 + er.len() as int) =~= er);
        lemma_dec_entries_of_enc(b, p1, rest);
        assert(seq![head] + rest =~= es);
    }
}

/// A well-formed encoded table is recovered intact from any byte sequence
/// it prefixes; this is what makes a saved table durable under reopening.
pub proof fn lemma_dec_table_of_enc(b: Seq<u8>, es: Seq<(u64, Seq<u8>)>)
    requires
        entries_wf(es),
        enc_table(es).len() <= b.len(),
        b.subrange(0, enc_table(es).len() as int) == enc_table(es),
    ensures
        dec_table(b) == Some(es),
{
    lemma_auto_spec_u64_to_from_le_bytes();
    let whole = b.subrange(0, enc_table(es).len() as int);
    assert forall|q: int| 0 <= q < 8 implies #[trigger] b.subrange(0, 8)[q] == spec_u64_to_le_bytes(
        es.len() as u64,
    )[q] by {
        assert(b[q] == whole[q]);
    }
    assert(b.subrange(0, 8) =~= spec_u64_to_le_bytes(es.len() as u64));
    let er = enc_entries(es);
    assert forall|q: int| 0 <= q < er.len() implies #[trigger] b.subrange(8, 8 + er.len() as int)[q]
        == er[q] by {
        assert(b[8 + q] == whole[8 + q]);
    }
    assert(b.subrange(8, 8 + er.len() as int) =~= er);
    lemma_dec_entries_of_enc(b, 8, es);
}

proof fn lemma_enc_entries_snoc(es: Seq<(u64, Seq<u8>)>, e: (u64, Seq<u8>))
    ensures
        enc_entries(es.push(e)) == enc_entries(es) + enc_entry(e),
    decreases es.len(),
{
    if es.len() == 0 {
        assert(es.push(e)[0] == e);
        assert(es.push(e).drop_first() =~= Seq::<(u64, Seq<u8>)>::empty());
        assert(enc_entries(Seq::<(u64, Seq<u8>)>::empty()) == Seq::<u8>::empty());
        assert(enc_entries(es.push(e)) == enc_entry(e) + Seq::<u8>::empty());
        assert(es =~= Seq::<(u64, Seq<u8>)>::empty());
        assert(enc_entries(es.push(e)) =~= enc_entries(es) + enc_entry(e));
    } else {
        let a = enc_entry(es[0]);
        let mid = enc_entries(es.drop_first());
        let c = enc_entry(e);
        assert(es.push(e).drop_first() =~= es.drop_first().push(e));
        lemma_enc_entries_snoc(es.drop_first(), e);
        assert(es.push(e)[0] == es[0]);
        assert(enc_entries(es.push(e)) == a + (mid + c));
        assert(a + (mid + c) =~= (a + mid) + c);
    }
}

fn copy_bytes(v: &Vec<u8>) -> (res: Vec<u8>)
    ensures
        res@ == v@,
{
    let mut out: Vec<u8> = Vec::new();
    let n = v.len();
    let mut i: usize = 0;
    while i < n
        invariant
            i <= n,
            n == v@.len(),
            out@ == v@.subrange(0, i as int),
        decreases n - i,
    {
        out.push(v[i]);
        proof {
            assert(out@ =~= v@.subrange(0, i as int + 1));
        }
        i = i + 1;
    }
    proof {
        assert(out@ =~= v@);
    }
    out
}

#[verifier::loop_isolation(false)]
fn parse_table(bytes: &Vec<u8>) -> (res: Option<Vec<MapEntry>>)
    ensures
        res is Some <==> dec_table(bytes@) is Some,
        res matches Some(v) ==> dec_table(bytes@) == Some(entries_view(v@)) && entries_wf(
            entries_view(v@),
        ),
{
    let (count, p1) = match crate::codec::read_u64_checked(bytes, 0) {
        Option::Some(x) => x,
        Option::None => {
            return None;
        },
    };
    let blen = bytes.len();
    let mut out: Vec<MapEntry> = Vec::new();
    let mut pos = p1;
    let mut i: u64 = 0;
    while i < count
        invariant
            i <= count,
            entries_view(out@).len() == i,
            forall|q: int|
                0 <= q < out@.len() ==> (#[trigger] entries_view(out@)[q]).1.len() <= u64::MAX,
            (match dec_entries_at(bytes@, pos as int, (count - i) as nat) {
                Option::Some(pair) => dec_entries_at(bytes@, p1 as int, count as nat) == Some(
                    (entries_view(out@) + pair.0, pair.1),
                ),
                Option::None => dec_entries_at(bytes@, p1 as int, count as nat) is None,
            }),
        decreases count - i,
    {
        let ghost pre = entries_view(out@);
        let (key, q1) = match crate::codec::read_u64_checked(bytes, pos) {
            Option::Some(x) => x,
            Option::None => {
                return None;
            },
        };
        let (vlen64, q2) = match crate::codec::read_u64_checked(bytes, q1) {
            Option::Some(x) => x,
            Option::None => {
                return None;
            },
        };
        if vlen64 > (blen - q2) as u64 {
            return None;
        }
        let vlen = vlen64 as usize;
        let mut value: Vec<u8> = Vec::new();
        let mut j: usize = 0;
        while j < vlen
            invariant
                j <= vlen,
                q2 + vlen <= blen,
                value@ == bytes@.subrange(q2 as int, q2 as int + j as int),
            decreases vlen - j,
        {
            value.push(bytes[q2 + j]);
            proof {
                assert(value@ =~= bytes@.subrange(q2 as int, q2 as int + j as int + 1));
            }
            j = j + 1;
        }
        proof {
            assert(dec_entry_at(bytes@, pos as int) == Some(
                ((key, value@), q2 as int + vlen as int),
            ));
        }
        out.push(MapEntry { key, value });
        proof {
            assert(entries_view(out@) =~= pre.push((key, value@)));
            match dec_entries_at(bytes@, q2 as int + vlen as int, (count - i - 1) as nat) {
                Option::Some(pair) => {
                    assert(dec_entries_at(bytes@, pos as int, (count - i) as nat) == Some(
                        (seq![(key, value@)] + pair.0, pair.1),
                    ));
                    assert(pre.push((key, value@)) + pair.0 =~= pre + (seq![(key, value@)]
                        + pair.0));
                },
                Option::None => {},
            }
        }
        pos = q2 + vlen;
        i = i + 1;
    }
    proof {
        assert(dec_entries_at(bytes@, pos as int, 0) == Some(
            (Seq::<(u64, Seq<u8>)>::empty(), pos as int),
        ));
        assert(entries_view(out@) + Seq::<(u64, Seq<u8>)>::empty() =~= entries_view(out@));
    }
    Some(out)
}

#[verifier::loop_isolation(false)]
fn table_bytes(es: &Vec<MapEntry>) -> (res: Vec<u8>)
    ensures
        res@ == enc_table(entries_view(es@)),
        entries_wf(entries_view(es@)),
{
    let mut out: Vec<u8> = Vec::new();
    let n = es.len();
    append_u64(&mut out, n as u64);
    let ghost mid = out@;
    let ghost tv = entries_view(es@);
    let mut i: usize = 0;
    while i < n
        invariant
            i <= n,
            out@ == mid + enc_entries(tv.take(i as int)),
            forall|q: int| 0 <= q < i ==> (#[trigger] tv[q]).1.len() <= u64::MAX,
        decreases n - i,
    {
        let entry = &es[i];
        append_u64(&mut out, entry.key);
        let vlen = entry.value.len();
        append_u64(&mut out, vlen as u64);
        append_range(&mut out, &entry.value, 0, vlen);
        proof {
            assert(entry.value@.subrange(0, vlen as int) =~= entry.value@);
            assert(tv[i as int] == (entry.key, entry.value@));
            lemma_enc_entries_snoc(tv.take(i as int), tv[i as int]);
            assert(tv.take(i as int).push(tv[i as int]) =~= tv.take(i as int + 1));
        }
        i = i + 1;
    }
    proof {
        assert(tv.take(n as int) =~= tv);
        assert(out@ =~= enc_table(tv));
    }
    out
}

fn check_sorted(es: &Vec<MapEntry>) -> (res: bool)
    ensures
        res == entries_sorted(entries_view(es@)),
{
    let n = es.len();
    let mut i: usize = 1;
    while i < n
        invariant
            1 <= i <= n || (n == 0 && i == 1),
            n == es@.len(),
            forall|a: int, b: int|
                0 <= a < b < i ==> (#[trigger] entries_view(es@)[a]).0 < (#[trigger] entries_view(
                    es@,
                )[b]).0,
        decreases n - i,
    {
        if es[i - 1].key >= es[i].key {
            proof {
                assert(entries_view(es@)[i as int - 1].0 >= entries_view(es@)[i as int].0);
            }
            return false;
        }
        proof {
            assert forall|a: int| 0 <= a < i as int implies (#[trigger] entries_view(es@)[a]).0
                < entries_view(es@)[i as int].0 by {
                if a < i as int - 1 {
                    assert(entries_view(es@)[a].0 < entries_view(es@)[i as int - 1].0);
                }
                assert(entries_view(es@)[i as int - 1].0 < entries_view(es@)[i as int].0);
            }
        }
        i = i + 1;
    }
    true
}

/// Required room for saving `es`: either the table already fits the
/// region's pages, or the backing memory can grow by the difference.
pub open spec fn save_fits(b: Seq<u8>, r: int, es: Seq<(u64, Seq<u8>)>) -> bool {
    let len = enc_table(es).len() as int;
    let need = len / (PAGE_SIZE as int) + if len % (PAGE_SIZE as int) != 0 {
        1int
    } else {
        0int
    };
    need <= spec_page_count(b, r) || spec_num_pages(b) + (need - spec_page_count(b, r))
        <= MAX_DATA_PAGES as int
}

/// The table a region holds, empty when the bytes do not parse.
pub open spec fn spec_table_opt(b: Seq<u8>, r: int) -> Option<Seq<(u64, Seq<u8>)>> {
    dec_table(spec_region_view(b, r))
}

pub open spec fn spec_table(b: Seq<u8>, r: int) -> Seq<(u64, Seq<u8>)> {
    match spec_table_opt(b, r) {
        Option::Some(es) => es,
        Option::None => Seq::empty(),
    }
}

/// A region holding a well-formed sorted table.
pub open spec fn map_wf(b: Seq<u8>, r: int) -> bool {
    &&& spec_table_opt(b, r) is Some
    &&& entries_sorted(spec_table(b, r))
    &&& entries_wf(spec_table(b, r))
}

/// A durable sorted map of `u64` keys to byte strings inside one region.
///
/// Every mutating operation rewrites the serialized table in the region
/// before returning, so the map's contents are always exactly what the
/// backing memory holds.
pub struct StableMap {
    region: RegionHandle,
}

impl StableMap {
    pub closed spec fn region_id(&self) -> int {
        self.region.id_spec()
    }

    pub open spec fn wf(&self) -> bool {
        0 <= self.region_id() < MAX_REGIONS as int
    }

    /// Binds to a region, reconstructing any previously stored entries; a
    /// fresh region is grown by one page and seeded with an empty table.
    pub fn init(mgr: &mut RegionManager, region: RegionHandle) -> (res: Result<StableMap, Error>)
        requires
            old(mgr).wf(),
            region.wf(),
        ensures
            final(mgr).wf(),
            res is Ok <==> (if old(mgr).page_count(region.id_spec()) == 0 {
                old(mgr).num_pages() + 1 <= MAX_DATA_PAGES as int
            } else {
                map_wf(old(mgr).backing(), region.id_spec())
            }),
            res matches Err(e) ==> *final(mgr) == *old(mgr) && (e == Error::Exhausted || e
                == Error::CorruptEncoding),
            res is Ok ==> final(mgr).num_pages() == (if old(mgr).page_count(region.id_spec())
                == 0 {
                old(mgr).num_pages() + 1
            } else {
                old(mgr).num_pages()
            }),
            res matches Ok(m) ==> {
                &&& m.wf()
                &&& m.region_id() == region.id_spec()
                &&& map_wf(final(mgr).backing(), region.id_spec())
                &&& (old(mgr).page_count(region.id_spec()) > 0 ==> *final(mgr) == *old(mgr))
                &&& (old(mgr).page_count(region.id_spec()) == 0 ==> spec_table(
                    final(mgr).backing(),
                    region.id_spec(),
                ) == Seq::<(u64, Seq<u8>)>::empty())
                &&& forall|r2: int|
                    r2 != region.id_spec() ==> final(mgr).region_view(r2) == old(mgr).region_view(
                        r2,
                    ) && final(mgr).page_count(r2) == old(mgr).page_count(r2)
            },
    {
        let pc = mgr.count_pages(&region);
        if pc == 0 {
            match mgr.grow(&region, 1) {
                Ok(_) => (),
                Err(_) => {
                    return Err(Error::Exhausted);
                },
            }
            let bytes = u64_to_le_bytes(0u64);
            match mgr.write(&region, 0, &bytes) {
                Ok(()) => (),
                Err(_) => {
                    proof {
                        assert(false);
                    }
                },
            }
            proof {
                lemma_auto_spec_u64_to_from_le_bytes();
                let view = spec_region_view(mgr.backing(), region.id_spec());
                let empty = Seq::<(u64, Seq<u8>)>::empty();
                assert(enc_table(empty) =~= spec_u64_to_le_bytes(0u64));
                assert(view.subrange(0, 8) =~= spec_u64_to_le_bytes(0u64));
                lemma_dec_table_of_enc(view, empty);
            }
            Ok(StableMap { region })
        } else {
            let rl = mgr.len_of(&region);
            let data = match mgr.read(&region, 0, rl) {
                Ok(d) => d,
                Err(_) => {
                    proof {
                        assert(false);
                    }
                    Vec::new()
                },
            };
            proof {
                assert(data@ =~= spec_region_view(mgr.backing(), region.id_spec()));
            }
            let parsed = match parse_table(&data) {
                Option::Some(v) => v,
                Option::None => {
                    return Err(Error::CorruptEncoding);
                },
            };
            if !check_sorted(&parsed) {
                return Err(Error::CorruptEncoding);
            }
            Ok(StableMap { region })
        }
    }

    /// Reads the whole table out of the region.
    pub(crate) fn load(&self, mgr: &RegionManager) -> (res: Vec<MapEntry>)
        requires
            mgr.wf(),
            self.wf(),
            map_wf(mgr.backing(), self.region_id()),
        ensures
            entries_view(res@) == spec_table(mgr.backing(), self.region_id()),
    {
        let rl = mgr.len_of(&self.region);
        let data = match mgr.read(&self.region, 0, rl) {
            Ok(d) => d,
            Err(_) => {
                proof {
                    assert(false);
                }
                Vec::new()
            },
        };
        proof {
            assert(data@ =~= spec_region_view(mgr.backing(), self.region_id()));
        }
        match parse_table(&data) {
            Option::Some(v) => v,
            Option::None => {
                proof {
                    assert(false);
                }
                Vec::new()
            },
        }
    }

    /// Serializes `es` into the region, growing it when required.
    fn save(&self, mgr: &mut RegionManager, es: &Vec<MapEntry>) -> (res: Result<(), Error>)
        requires
            old(mgr).wf(),
            self.wf(),
            entries_sorted(entries_view(es@)),
        ensures
            final(mgr).wf(),
            res is Ok <==> save_fits(old(mgr).backing(), self.region_id(), entries_view(es@)),
            res matches Err(e) ==> e == Error::Exhausted && *final(mgr) == *old(mgr),
            res is Ok ==> {
                &&& map_wf(final(mgr).backing(), self.region_id())
                &&& spec_table(final(mgr).backing(), self.region_id()) == entries_view(es@)
                &&& forall|r2: int|
                    r2 != self.region_id() ==> final(mgr).region_view(r2) == old(mgr).region_view(
                        r2,
                    ) && final(mgr).page_count(r2) == old(mgr).page_count(r2)
            },
    {
        let out = table_bytes(es);
        let olen = out.len();
        let need: usize = olen / PAGE_SIZE + (if olen % PAGE_SIZE != 0 {
            1
        } else {
            0
        });
        let pc = mgr.count_pages(&self.region);
        if need > pc {
            match mgr.grow(&self.region, need - pc) {
                Ok(_) => (),
                Err(e) => {
                    return Err(Error::Exhausted);
                },
            }
        }
        proof {
            let pc2 = mgr.page_count(self.region_id());
            assert(pc2 >= need);
            assert(need * PAGE_SIZE >= olen);
            assert(pc2 * PAGE_SIZE >= need * PAGE_SIZE) by (nonlinear_arith)
                requires
                    pc2 >= need as int,
                    need >= 0,
            ;
        }
        match mgr.write(&self.region, 0, &out) {
            Ok(()) => (),
            Err(_) => {
                proof {
                    assert(false);
                }
            },
        }
        proof {
            let view = spec_region_view(mgr.backing(), self.region_id());
            assert(view.subrange(0, olen as int) =~= out@);
            lemma_dec_table_of_enc(view, entries_view(es@));
        }
        Ok(())
    }

    /// Returns the stored value for `key`, or nothing if absent.
    #[verifier::loop_isolation(false)]
    pub fn get(&self, mgr: &RegionManager, key: u64) -> (res: Option<Vec<u8>>)
        requires
            mgr.wf(),
            self.wf(),
            map_wf(mgr.backing(), self.region_id()),
        ensures
            res is Some <==> spec_contains_key(spec_table(mgr.backing(), self.region_id()), key),
            res matches Some(v) ==> spec_find(spec_table(mgr.backing(), self.region_id()), key)
                == Some(v@),
    {
        let es = self.load(mgr);
        let ghost tv = spec_table(mgr.backing(), self.region_id());
        let n = es.len();
        let mut i: usize = 0;
        while i < n
            invariant
                i <= n,
                n == es@.len(),
                entries_view(es@) == tv,
                entries_sorted(tv),
                forall|q: int| 0 <= q < i ==> (#[trigger] tv[q]).0 != key,
            decreases n - i,
        {
            if es[i].key == key {
                proof {
                    assert(tv[i as int] == (es@[i as int].key, es@[i as int].value@));
                    lemma_find_at(tv, key, i as int);
                }
                return Some(copy_bytes(&es[i].value));
            }
            i = i + 1;
        }
        proof {
            if spec_contains_key(tv, key) {
                let j = key_index(tv, key);
                assert(tv[j].0 != key);
            }
        }
        None
    }

    /// Stores `value` under `key` (overwriting any prior value), durably,
    /// and returns the prior value if the key existed.
    pub fn insert(&self, mgr: &mut RegionManager, key: u64, value: Vec<u8>) -> (res: Result<
        Option<Vec<u8>>,
        Error,
    >)
        requires
            old(mgr).wf(),
            self.wf(),
            map_wf(old(mgr).backing(), self.region_id()),
        ensures
            final(mgr).wf(),
            res is Ok <==> save_fits(
                old(mgr).backing(),
                self.region_id(),
                spec_store(spec_table(old(mgr).backing(), self.region_id()), key, value@),
            ),
            res matches Err(e) ==> e == Error::Exhausted && *final(mgr) == *old(mgr),
            res matches Ok(prior) ==> {
                &&& map_wf(final(mgr).backing(), self.region_id())
                &&& spec_table(final(mgr).backing(), self.region_id()) == spec_store(
                    spec_table(old(mgr).backing(), self.region_id()),
                    key,
                    value@,
                )
                &&& (prior is Some <==> spec_contains_key(
                    spec_table(old(mgr).backing(), self.region_id()),
                    key,
                ))
                &&& (prior matches Some(v) ==> spec_find(
                    spec_table(old(mgr).backing(), self.region_id()),
                    key,
                ) == Some(v@))
                &&& forall|r2: int|
                    r2 != self.region_id() ==> final(mgr).region_view(r2) == old(mgr).region_view(
                        r2,
                    ) && final(mgr).page_count(r2) == old(mgr).page_count(r2)
            },
    {
        let mut es = self.load(mgr);
        let ghost tv = spec_table(old(mgr).backing(), self.region_id());
        let i = Self::lower_bound(&es, key);
        let ghost lb = spec_lower_bound(tv, key);
        proof {
            lemma_lower_bound_props(tv, key);
            if (i as int) < lb {
                assert(tv[i as int].0 < key);
            }
            if (i as int) > lb {
                assert(tv[lb].0 < key);
            }
            assert(i as int == lb);
        }
        let prior: Option<Vec<u8>>;
        if i < es.len() && es[i].key == key {
            prior = Some(copy_bytes(&es[i].value));
            proof {
                lemma_find_at(tv, key, i as int);
            }
            es.set(i, MapEntry { key, value });
            proof {
                assert(entries_view(es@) =~= tv.update(i as int, (key, value@)));
            }
        } else {
            prior = None;
            proof {
                if spec_contains_key(tv, key) {
                    let j = key_index(tv, key);
                    if j < i as int {
                        assert(tv[j].0 < key);
                    } else {
                        if j != i as int {
                            assert(tv[i as int].0 < tv[j].0);
                        }
                    }
                    assert(false);
                }
            }
            es.insert(i, MapEntry { key, value });
            proof {
                assert(entries_view(es@) =~= tv.insert(i as int, (key, value@)));
            }
        }
        proof {
            lemma_store_props(tv, key, value@);
            assert(entries_view(es@) == spec_store(tv, key, value@));
        }
        match self.save(mgr, &es) {
            Ok(()) => Ok(prior),
            Err(e) => Err(e),
        }
    }

    /// Deletes the entry under `key`, durably, and returns its prior value
    /// if the key existed.
    pub fn remove(&self, mgr: &mut RegionManager, key: u64) -> (res: Result<
        Option<Vec<u8>>,
        Error,
    >)
        requires
            old(mgr).wf(),
            self.wf(),
            map_wf(old(mgr).backing(), self.region_id()),
        ensures
            final(mgr).wf(),
            res is Ok <==> save_fits(
                old(mgr).backing(),
                self.region_id(),
                spec_erase(spec_table(old(mgr).backing(), self.region_id()), key),
            ),
            res matches Err(e) ==> e == Error::Exhausted && *final(mgr) == *old(mgr),
            res matches Ok(prior) ==> {
                &&& map_wf(final(mgr).backing(), self.region_id())
                &&& spec_table(final(mgr).backing(), self.region_id()) == spec_erase(
                    spec_table(old(mgr).backing(), self.region_id()),
                    key,
                )
                &&& (prior is Some <==> spec_contains_key(
                    spec_table(old(mgr).backing(), self.region_id()),
                    key,
                ))
                &&& (prior matches Some(v) ==> spec_find(
                    spec_table(old(mgr).backing(), self.region_id()),
                    key,
                ) == Some(v@))
                &&& forall|r2: int|
                    r2 != self.region_id() ==> final(mgr).region_view(r2) == old(mgr).region_view(
                        r2,
                    ) && final(mgr).page_count(r2) == old(mgr).page_count(r2)
            },
    {
        let mut es = self.load(mgr);
        let ghost tv = spec_table(old(mgr).backing(), self.region_id());
        let i = Self::lower_bound(&es, key);
        let ghost lb = spec_lower_bound(tv, key);
        proof {
            lemma_lower_bound_props(tv, key);
            if (i as int) < lb {
                assert(tv[i as int].0 < key);
            }
            if (i as int) > lb {
                assert(tv[lb].0 < key);
            }
            assert(i as int == lb);
        }
        let prior: Option<Vec<u8>>;
        if i < es.len() && es[i].key == key {
            proof {
                lemma_find_at(tv, key, i as int);
            }
            let removed = es.remove(i);
            prior = Some(removed.value);
            proof {
                assert(entries_view(es@) =~= tv.remove(i as int));
            }
        } else {
            prior = None;
            proof {
                if spec_contains_key(tv, key) {
                    let j = key_index(tv, key);
                    if j < i as int {
                        assert(tv[j].0 < key);
                    } else {
                        if j != i as int {
                            assert(tv[i as int].0 < tv[j].0);
                        }
                    }
                    assert(false);
                }
                assert(entries_view(es@) =~= tv);
            }
        }
        proof {
            lemma_erase_props(tv, key);
            assert(entries_view(es@) == spec_erase(tv, key));
        }
        match self.save(mgr, &es) {
            Ok(()) => Ok(prior),
            Err(e) => Err(e),
        }
    }

    /// The stored keys, in ascending order.
    pub fn keys(&self, mgr: &RegionManager) -> (res: Vec<u64>)
        requires
            mgr.wf(),
            self.wf(),
            map_wf(mgr.backing(), self.region_id()),
        ensures
            res@.len() == spec_table(mgr.backing(), self.region_id()).len(),
            forall|i: int|
                0 <= i < res@.len() ==> res@[i] == (#[trigger] spec_table(
                    mgr.backing(),
                    self.region_id(),
                )[i]).0,
    {
        let es = self.load(mgr);
        let ghost tv = spec_table(mgr.backing(), self.region_id());
        let n = es.len();
        let mut out: Vec<u64> = Vec::new();
        let mut i: usize = 0;
        while i < n
            invariant
                i <= n,
                n == es@.len(),
                entries_view(es@) == tv,
                out@.len() == i,
                forall|q: int| 0 <= q < i ==> out@[q] == (#[trigger] tv[q]).0,
            decreases n - i,
        {
            out.push(es[i].key);
            i = i + 1;
        }
        out
    }

    fn lower_bound(es: &Vec<MapEntry>, key: u64) -> (res: usize)
        requires
            entries_sorted(entries_view(es@)),
        ensures
            res <= es@.len(),
            forall|q: int| 0 <= q < res ==> (#[trigger] entries_view(es@)[q]).0 < key,
            res < es@.len() ==> entries_view(es@)[res as int].0 >= key,
    {
        let n = es.len();
        let mut i: usize = 0;
        while i < n && es[i].key < key
            invariant
                i <= n,
                n == es@.len(),
                forall|q: int| 0 <= q < i ==> (#[trigger] entries_view(es@)[q]).0 < key,
            decreases n - i,
        {
            i = i + 1;
        }
        i
    }
}

} // verus!

