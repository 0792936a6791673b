use vstd::bytes::*;
use vstd::prelude::*;

verus! {

/// Reads the eight bytes at `pos` as a little-endian `u64`.
pub fn read_u64_at(v: &Vec<u8>, pos: usize) -> (x: u64)
    requires
        pos + 8 <= v@.len(),
    ensures
        x == spec_u64_from_le_bytes(v@.subrange(pos as int, pos as int + 8)),
{
    let n = v.len();
    let mut eight: Vec<u8> = Vec::new();
    let mut i: usize = 0;
    while i < 8
        invariant
            i <= 8,
            pos + 8 <= v@.len(),
            v@.len() == n,
            eight@ == v@.subrange(pos as int, pos as int + i as int),
        decreases 8 - i,
    {
        eight.push(v[pos + i]);
        proof {
            assert(eight@ =~= v@.subrange(pos as int, pos as int + i as int + 1));
        }
        i = i + 1;
    }
    u64_from_le_bytes(eight.as_slice())
}

/// Appends the little-endian encoding of `x` to `out`.
pub fn append_u64(out: &mut Vec<u8>, x: u64)
    ensures
        final(out)@ == old(out)@ + spec_u64_to_le_bytes(x),
{
    let eight = u64_to_le_bytes(x);
    let mut i: usize = 0;
    while i < eight.len()
        invariant
            i <= eight@.len(),
            eight@ == spec_u64_to_le_bytes(x),
            out@ == old(out)@ + eight@.subrange(0, i as int),
        decreases eight@.len() - i,
    {
        out.push(eight[i]);
        proof {
            assert(out@ =~= old(out)@ + eight@.subrange(0, i as int + 1));
        }
        i = i + 1;
    }
    proof {
        assert(out@ =~= old(out)@ + eight@);
    }
}

/// Overwrites the eight bytes at `pos` with the little-endian encoding of `x`.
pub fn write_u64_at(v: &mut Vec<u8>, pos: usize, x: u64)
    requires
        pos + 8 <= old(v)@.len(),
    ensures
        final(v)@.len() == old(v)@.len(),
        final(v)@.subrange(pos as int, pos as int + 8) == spec_u64_to_le_bytes(x),
        forall|k: int|
            0 <= k < old(v)@.len() && !(pos <= k < pos + 8) ==> final(v)@[k] == old(v)@[k],
{
    let eight = u64_to_le_bytes(x);
    let n = v.len();
    let mut i: usize = 0;
    while i < 8
        invariant
            i <= 8,
            pos + 8 <= v@.len(),
            v@.len() == old(v)@.len(),
            v@.len() == n,
            eight@ == spec_u64_to_le_bytes(x),
            eight@.len() == 8,
            forall|k: int| pos <= k < pos + i ==> v@[k] == eight@[k - pos],
            forall|k: int| 0 <= k < v@.len() && !(pos <= k < pos + i) ==> v@[k] == old(v)@[k],
        decreases 8 - i,
    {
        v.set(pos + i, eight[i]);
        i = i + 1;
    }
    proof {
        assert(v@.subrange(pos as int, pos as int + 8) =~= eight@);
    }
}

/// Appends `v@.subrange(from, to)` to `out`.
pub fn append_range(out: &mut Vec<u8>, v: &Vec<u8>, from: usize, to: usize)
    requires
        from <= to <= v@.len(),
    ensures
        final(out)@ == old(out)@ + v@.subrange(from as int, to as int),
{
    let n = v.len();
    let mut i: usize = from;
    while i < to
        invariant
            from <= i <= to <= v@.len(),
            v@.len() == n,
            out@ == old(out)@ + v@.subrange(from as int, i as int),
        decreases to - i,
    {
        out.push(v[i]);
        proof {
            assert(out@ =~= old(out)@ + v@.subrange(from as int, i as int + 1));
        }
        i = i + 1;
    }
}

} // verus!
