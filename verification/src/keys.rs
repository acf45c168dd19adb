//! The packed key format: a little-endian depth, then `depth` segments,
//! each a little-endian byte length followed by that many key bytes.

use vstd::prelude::*;
use crate::fast_output::spec_le_u64_at;
use crate::fast_output::read_u64_le;

verus! {

/// Offset just past `count` packed segments starting at `i`, or `None`
/// when the buffer ends first.
pub open spec fn spec_segs_end(s: Seq<u8>, i: int, count: nat) -> Option<int>
    decreases count,
{
    if count == 0 {
        Some(i)
    } else if i + 8 <= s.len() {
        let l = spec_le_u64_at(s, i);
        if i + 8 + l <= s.len() {
            spec_segs_end(s, i + 8 + l, (count - 1) as nat)
        } else {
            None
        }
    } else {
        None
    }
}

/// Offset just past the packed key starting at `i`, or `None` when the
/// buffer ends before the key does.
pub open spec fn spec_key_end(s: Seq<u8>, i: int) -> Option<int> {
    if i + 8 <= s.len() {
        spec_segs_end(s, i + 8, spec_le_u64_at(s, i) as nat)
    } else {
        None
    }
}

/// A segments end never lies before its start or past the buffer.
pub proof fn lemma_segs_end_bounds(s: Seq<u8>, i: int, count: nat)
    requires
        0 <= i <= s.len(),
        spec_segs_end(s, i, count) is Some,
    ensures
        i <= spec_segs_end(s, i, count).unwrap() <= s.len(),
    decreases count,
{
    if count != 0 {
        let l = spec_le_u64_at(s, i);
        lemma_segs_end_bounds(s, i + 8 + l, (count - 1) as nat);
    }
}

/// A verified byte-vector clone.
pub fn clone_bytes(src: &Vec<u8>) -> (r: Vec<u8>)
    ensures
        r@ == src@,
{
    let r = src.clone();
    proof {
        assert(r@.len() == src@.len());
        assert(forall|i: int| 0 <= i < src@.len() ==> r@[i] == src@[i]);
        assert(r@ =~= src@);
    }
    r
}

/// Copies `src[a..b]` into a fresh vector.
pub fn bytes_range(src: &Vec<u8>, a: usize, b: usize) -> (r: Vec<u8>)
    requires
        a <= b,
        b <= src@.len(),
    ensures
        r@ == src@.subrange(a as int, b as int),
{
    let mut out: Vec<u8> = Vec::new();
    let mut j: usize = a;
    while j < b
        invariant
            a <= j <= b,
            b <= src@.len(),
            out@ == src@.subrange(a as int, j as int),
        decreases b - j,
    {
        out.push(src[j]);
        j += 1;
        assert(out@ =~= src@.subrange(a as int, j as int));
    }
    out
}

/// Walks the packed key starting at `start` and returns the offset just
/// past it, or `None` when the buffer ends before the key does.
pub fn packed_key_end(input: &Vec<u8>, start: usize) -> (r: Option<usize>)
    ensures
        match r {
            Some(e) => spec_key_end(input@, start as int) == Some(e as int) && start <= e
                <= input@.len(),
            None => spec_key_end(input@, start as int) is None,
        },
{
    proof {
        vstd::std_specs::vec::axiom_spec_len(input);
    }
    if input.len() < 8 || start > input.len() - 8 {
        return None;
    }
    let depth = read_u64_le(input, start);
    let mut left: u64 = depth;
    let mut at: usize = start + 8;
    while left > 0
        invariant
            start + 8 <= at <= input@.len(),
            input@.len() <= usize::MAX,
            depth == spec_le_u64_at(input@, start as int),
            spec_segs_end(input@, start + 8, depth as nat) == spec_segs_end(
                input@,
                at as int,
                left as nat,
            ),
        decreases left,
    {
        if input.len() - at < 8 {
            return None;
        }
        let l = read_u64_le(input, at);
        if l > (input.len() - at - 8) as u64 {
            return None;
        }
        proof {
            lemma_segs_end_unfold(input@, at as int, left as nat);
        }
        at = at + 8 + (l as usize);
        left = left - 1;
    }
    Some(at)
}

/// One unfolding step of `spec_segs_end` for a segment that fits.
proof fn lemma_segs_end_unfold(s: Seq<u8>, i: int, count: nat)
    requires
        count > 0,
        i + 8 <= s.len(),
        i + 8 + spec_le_u64_at(s, i) <= s.len(),
    ensures
        spec_segs_end(s, i, count) == spec_segs_end(
            s,
            i + 8 + spec_le_u64_at(s, i),
            (count - 1) as nat,
        ),
{
}

/// The segments of the packed key at `i` and the offset just past them,
/// or `None` when the buffer ends first.
pub open spec fn spec_key_segs(s: Seq<u8>, i: int, count: nat) -> Option<(Seq<Seq<u8>>, int)>
    decreases count,
{
    if count == 0 {
        Some((Seq::empty(), i))
    } else if i + 8 <= s.len() {
        let l = spec_le_u64_at(s, i);
        if i + 8 + l <= s.len() {
            match spec_key_segs(s, i + 8 + l, (count - 1) as nat) {
                Some(p) => Some((seq![s.subrange(i + 8, i + 8 + l)] + p.0, p.1)),
                None => None,
            }
        } else {
            None
        }
    } else {
        None
    }
}

/// The parse of a whole packed key at `i`: its segments and end offset.
pub open spec fn spec_parse_key(s: Seq<u8>, i: int) -> Option<(Seq<Seq<u8>>, int)> {
    if 0 <= i && i + 8 <= s.len() {
        spec_key_segs(s, i + 8, spec_le_u64_at(s, i) as nat)
    } else {
        None
    }
}

/// Reads a packed key at the cursor: its segments and its packed bytes.
/// Returns `None`, leaving the cursor wherever the walk stopped, when the
/// buffer ends before the key does.
#[verifier::loop_isolation(false)]
pub fn parse_key(cmd: &Vec<u8>, place: &mut usize) -> (r: Option<(Vec<Vec<u8>>, Vec<u8>)>)
    ensures
        match r {
            Some(p) => {
                &&& spec_parse_key(cmd@, *old(place) as int) matches Some(sp)
                    && p.0.deep_view() == sp.0 && *final(place) == sp.1 && p.1@ == cmd@.subrange(
                    *old(place) as int,
                    sp.1,
                )
                &&& *old(place) + 8 <= *final(place) <= cmd@.len()
            },
            None => spec_parse_key(cmd@, *old(place) as int) is None && *final(place) >= *old(
                place,
            ) && (*old(place) <= cmd@.len() ==> *final(place) <= cmd@.len()),
        },
{
    proof {
        vstd::std_specs::vec::axiom_spec_len(cmd);
    }
    let start = *place;
    if cmd.len() < 8 || start > cmd.len() - 8 {
        return None;
    }
    let depth = read_u64_le(cmd, start);
    *place = start + 8;
    let mut left: u64 = depth;
    let mut segs: Vec<Vec<u8>> = Vec::new();
    while left > 0
        invariant
            start + 8 <= *place <= cmd@.len(),
            depth == spec_le_u64_at(cmd@, start as int),
            segs@.len() == depth - left,
            ({
                let full = spec_key_segs(cmd@, start + 8, depth as nat);
                let rest = spec_key_segs(cmd@, *place as int, left as nat);
                match rest {
                    Some(p) => full matches Some(fp) && fp.0 == segs.deep_view() + p.0 && fp.1
                        == p.1,
                    None => full is None,
                }
            }),
        decreases left,
    {
        if cmd.len() - *place < 8 {
            return None;
        }
        let l = read_u64_le(cmd, *place);
        if l > (cmd.len() - *place - 8) as u64 {
            return None;
        }
        let ghost p0 = *place as int;
        let ghost left0 = left as nat;
        let ghost segs0 = segs.deep_view();
        let seg = bytes_range(cmd, *place + 8, *place + 8 + (l as usize));
        segs.push(seg);
        *place = *place + 8 + (l as usize);
        left = left - 1;
        proof {
            let sv = seg@;
            assert(sv == cmd@.subrange(p0 + 8, p0 + 8 + l));
            assert(segs.deep_view() =~~= segs0.push(sv));
            assert(spec_key_segs(cmd@, p0, left0) == (match spec_key_segs(
                cmd@,
                p0 + 8 + l,
                (left0 - 1) as nat,
            ) {
                Some(p2) => Some((seq![cmd@.subrange(p0 + 8, p0 + 8 + l)] + p2.0, p2.1)),
                None => None,
            }));
            match spec_key_segs(cmd@, *place as int, left as nat) {
                Some(p2) => {
                    assert(segs0 + (seq![sv] + p2.0) =~~= segs0.push(sv) + p2.0);
                },
                None => (),
            }
        }
    }
    let packed = bytes_range(cmd, start, *place);
    Some((segs, packed))
}

/// Length in bytes of the packed key at the start of `key`.
pub fn key_u64_len(key: &Vec<u8>) -> (r: usize)
    requires
        spec_key_end(key@, 0) is Some,
    ensures
        r as int == spec_key_end(key@, 0).unwrap(),
        r <= key@.len(),
{
    match packed_key_end(key, 0) {
        Some(e) => e,
        None => 0,  // unreachable under the precondition
    }
}

/// Appends the packed key at the start of `key` to `output`.
pub fn key_u64_out_vu8(key: &Vec<u8>, output: &mut Vec<u8>)
    requires
        spec_key_end(key@, 0) is Some,
    ensures
        final(output)@ == old(output)@ + key@.subrange(0, spec_key_end(key@, 0).unwrap()),
{
    let end = key_u64_len(key);
    let mut j: usize = 0;
    while j < end
        invariant
            0 <= j <= end,
            end <= key@.len(),
            output@ == old(output)@ + key@.subrange(0, j as int),
        decreases end - j,
    {
        output.push(key[j]);
        j += 1;
        assert(output@ =~= old(output)@ + key@.subrange(0, j as int));
    }
}

} // verus!
