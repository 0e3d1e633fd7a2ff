//! Repair of a DICOM file whose File Meta group (0002) lacks its group
//! length element (0002,0000): the length is computed from the group's
//! explicit-VR elements and the element is inserted after the prefix.
use vstd::prelude::*;

use crate::text::slice_vec;

verus! {

pub open spec fn dicm() -> Seq<u8> {
    seq![68u8, 73u8, 67u8, 77u8]
}

/// Where the File Meta group starts: after a 128-byte preamble and `DICM`,
/// else after a bare `DICM`.
pub open spec fn prefix_offset(b: Seq<u8>) -> Option<int> {
    if b.len() >= 132 && b.subrange(128, 132) == dicm() {
        Some(132)
    } else if b.len() >= 4 && b.take(4) == dicm() {
        Some(4)
    } else {
        None
    }
}

pub open spec fn u16_at(b: Seq<u8>, p: int) -> int {
    b[p] as int + 256 * (b[p + 1] as int)
}

pub open spec fn u32_at(b: Seq<u8>, p: int) -> int {
    b[p] as int + 256 * (b[p + 1] as int) + 65536 * (b[p + 2] as int) + 16777216 * (b[p + 3] as int)
}

/// Value representations whose explicit-VR header is 12 bytes with a 4-byte length.
pub open spec fn long_vr(a: u8, c: u8) -> bool {
    ||| a == 79 && (c == 66 || c == 68 || c == 70 || c == 76 || c == 87)
    ||| a == 83 && c == 81
    ||| a == 85 && (c == 67 || c == 82 || c == 84 || c == 78)
}

/// Header length and value length of the explicit-VR element at `p`
/// (`p + 8` bytes are there); `None` when a long header is cut off or its
/// length is undefined (all ones).
pub open spec fn element_len(b: Seq<u8>, p: int) -> Option<(int, int)> {
    if long_vr(b[p + 4], b[p + 5]) {
        if p + 12 > b.len() {
            None
        } else if u32_at(b, p + 8) == 0xFFFF_FFFF {
            None
        } else {
            Some((12, u32_at(b, p + 8)))
        }
    } else {
        Some((8, u16_at(b, p + 6)))
    }
}

/// Position after the run of group-0002 elements starting at `p`, where a
/// full header of another group begins; `None` when an element is
/// malformed, runs past the end, or the run is not followed by a full
/// header (a truncated header or an unterminated run).
pub open spec fn meta_run_end(b: Seq<u8>, p: int) -> Option<int>
    decreases b.len() - p,
{
    if p < 0 || p + 8 > b.len() {
        None
    } else if u16_at(b, p) != 2 {
        Some(p)
    } else {
        match element_len(b, p) {
            None => None,
            Some((h, v)) => if p + h + v > b.len() {
                None
            } else {
                meta_run_end(b, p + h + v)
            },
        }
    }
}

/// The byte span of the group-0002 elements from `start`, when there is at least one.
pub open spec fn meta_group_len(b: Seq<u8>, start: int) -> Option<int> {
    match meta_run_end(b, start) {
        Some(e) => if e > start {
            Some(e - start)
        } else {
            None
        },
        None => None,
    }
}

pub open spec fn le32(v: int) -> Seq<u8> {
    seq![(v % 256) as u8, ((v / 256) % 256) as u8, ((v / 65536) % 256) as u8, ((v / 16777216) % 256) as u8]
}

/// The element (0002,0000) UL, length 4, holding `len`.
pub open spec fn group_length_element(len: int) -> Seq<u8> {
    seq![2u8, 0u8, 0u8, 0u8, 85u8, 76u8, 4u8, 0u8] + le32(len)
}

/// The repaired bytes, or `None` when no repair applies: no prefix, the
/// first meta element is already (0002,0000) or not of group 0002, or the
/// group cannot be measured.
pub open spec fn repaired(b: Seq<u8>) -> Option<Seq<u8>> {
    match prefix_offset(b) {
        None => None,
        Some(off) => if b.len() < off + 4 || u16_at(b, off) != 2 || u16_at(b, off + 2) == 0 {
            None
        } else {
            match meta_group_len(b, off) {
                None => None,
                Some(len) => if len > 0xFFFF_FFFF {
                    None
                } else {
                    Some(b.take(off) + group_length_element(len) + b.skip(off))
                },
            }
        },
    }
}

/// Where the File Meta group starts (see `prefix_offset`).
pub fn detect_dicom_prefix_offset(bytes: &[u8]) -> (r: Option<usize>)
    ensures
        match r {
            Some(o) => prefix_offset(bytes@) == Some(o as int),
            None => prefix_offset(bytes@) is None,
        },
{
    let n = bytes.len();
    if n >= 132 && bytes[128] == 68 && bytes[129] == 73 && bytes[130] == 67 && bytes[131] == 77 {
        assert(bytes@.subrange(128, 132) =~= dicm());
        return Some(132);
    }
    proof {
        if n >= 132 && bytes@.subrange(128, 132) == dicm() {
            assert(bytes@.subrange(128, 132)[0] == bytes@[128]);
            assert(bytes@.subrange(128, 132)[1] == bytes@[129]);
            assert(bytes@.subrange(128, 132)[2] == bytes@[130]);
            assert(bytes@.subrange(128, 132)[3] == bytes@[131]);
        }
    }
    if n >= 4 && bytes[0] == 68 && bytes[1] == 73 && bytes[2] == 67 && bytes[3] == 77 {
        assert(bytes@.take(4) =~= dicm());
        return Some(4);
    }
    proof {
        if n >= 4 && bytes@.take(4) == dicm() {
            assert(bytes@.take(4)[0] == bytes@[0]);
            assert(bytes@.take(4)[1] == bytes@[1]);
            assert(bytes@.take(4)[2] == bytes@[2]);
            assert(bytes@.take(4)[3] == bytes@[3]);
        }
    }
    None
}

fn read_u16(b: &[u8], p: usize) -> (r: u32)
    requires
        p + 2 <= b@.len(),
    ensures
        r as int == u16_at(b@, p as int),
{
    (b[p] as u32) + 256 * (b[p + 1] as u32)
}

fn read_u32(b: &[u8], p: usize) -> (r: u64)
    requires
        p + 4 <= b@.len(),
    ensures
        r as int == u32_at(b@, p as int),
{
    (b[p] as u64) + 256 * (b[p + 1] as u64) + 65536 * (b[p + 2] as u64) + 16777216 * (
    b[p + 3] as u64)
}

/// Header and value length of the explicit-VR element at `position`.
pub fn read_explicit_vr_element_length(bytes: &[u8], position: usize) -> (r: Option<(usize, u64)>)
    requires
        position + 8 <= bytes@.len(),
    ensures
        match r {
            Some((h, v)) => element_len(bytes@, position as int) == Some((h as int, v as int)),
            None => element_len(bytes@, position as int) is None,
        },
{
    let n = bytes.len();
    let a = bytes[position + 4];
    let c = bytes[position + 5];
    let long = (a == 79 && (c == 66 || c == 68 || c == 70 || c == 76 || c == 87)) || (a == 83
        && c == 81) || (a == 85 && (c == 67 || c == 82 || c == 84 || c == 78));
    if long {
        if bytes.len() - position < 12 {
            return None;
        }
        let v = read_u32(bytes, position + 8);
        if v == 0xFFFF_FFFF {
            return None;
        }
        Some((12, v))
    } else {
        Some((8, read_u16(bytes, position + 6) as u64))
    }
}

/// The byte span of the group-0002 run from `start` (see `meta_group_len`).
pub fn scan_meta_group_len_without_group_length(bytes: &[u8], start: usize) -> (r: Option<usize>)
    ensures
        match r {
            Some(l) => meta_group_len(bytes@, start as int) == Some(l as int),
            None => meta_group_len(bytes@, start as int) is None,
        },
{
    let n = bytes.len();
    let mut position = start;
    loop
        invariant
            n == bytes@.len(),
            start <= position,
            meta_run_end(bytes@, start as int) == meta_run_end(bytes@, position as int),
        ensures
            start <= position,
            meta_run_end(bytes@, start as int) == Some(position as int),
        decreases n + 8 - position,
    {
        if position > n || n - position < 8 {
            return None;
        }
        if read_u16(bytes, position) != 2 {
            break;
        }
        let (h, v) = match read_explicit_vr_element_length(bytes, position) {
            Some(x) => x,
            None => return None,
        };
        if v > (n - position - h) as u64 {
            return None;
        }
        position = position + h + v as usize;
    }
    if position > start {
        Some(position - start)
    } else {
        None
    }
}

/// The group length element (0002,0000) holding `group_len` (see `group_length_element`).
pub fn build_group_length_element(group_len: u32) -> (r: [u8; 12])
    ensures
        r@ == group_length_element(group_len as int),
{
    let v = group_len;
    let out: [u8; 12] = [
        2,
        0,
        0,
        0,
        85,
        76,
        4,
        0,
        (v % 256) as u8,
        ((v / 256) % 256) as u8,
        ((v / 65536) % 256) as u8,
        ((v / 16777216) % 256) as u8,
    ];
    assert(out@ =~= group_length_element(group_len as int));
    out
}

/// Inserts the missing group length element when the File Meta group
/// lacks it (see `repaired`); `None` when no repair applies.
pub fn repair_missing_meta_group_length(bytes: &[u8]) -> (r: Option<Vec<u8>>)
    ensures
        match r {
            Some(x) => repaired(bytes@) == Some(x@),
            None => repaired(bytes@) is None,
        },
{
    let offset = match detect_dicom_prefix_offset(bytes) {
        Some(o) => o,
        None => return None,
    };
    let n = bytes.len();
    if n < offset + 4 {
        return None;
    }
    let first_group = read_u16(bytes, offset);
    let first_element = read_u16(bytes, offset + 2);
    if first_group != 2 || first_element == 0 {
        return None;
    }
    let len = match scan_meta_group_len_without_group_length(bytes, offset) {
        Some(l) => l,
        None => return None,
    };
    if len > 0xFFFF_FFFF {
        return None;
    }
    let element = build_group_length_element(len as u32);
    let mut out = slice_vec(bytes, 0, offset);
    let mut k: usize = 0;
    let ghost head = out@;
    while k < 12
        invariant
            k <= 12,
            out@ == head + element@.take(k as int),
        decreases 12 - k,
    {
        out.push(element[k]);
        k = k + 1;
        assert(out@ =~= head + element@.take(k as int));
    }
    let ghost mid = out@;
    let mut i: usize = offset;
    while i < n
        invariant
            offset <= i <= n,
            n == bytes@.len(),
            out@ == mid + bytes@.subrange(offset as int, i as int),
        decreases n - i,
    {
        out.push(bytes[i]);
        i = i + 1;
        assert(out@ =~= mid + bytes@.subrange(offset as int, i as int));
    }
    proof {
        assert(element@.take(12) =~= element@);
        assert(head =~= bytes@.take(offset as int));
        assert(bytes@.subrange(offset as int, n as int) =~= bytes@.skip(offset as int));
    }
    Some(out)
}

/// A file whose first meta element already is the group length element is
/// left alone.
pub proof fn lemma_repair_noop_when_group_length_present(b: Seq<u8>, off: int)
    requires
        prefix_offset(b) == Some(off),
        b.len() >= off + 4,
        u16_at(b, off) == 2,
        u16_at(b, off + 2) == 0,
    ensures
        repaired(b) is None,
{
}

/// A standard parse that stopped at an unexpected tag calls for the repair
/// when that tag is a non-length element of the File Meta group.
pub fn unexpected_tag_calls_for_repair(group: u16, element: u16) -> (r: bool)
    ensures
        r == (group == 2 && element != 0),
{
    group == 2 && element != 0
}

} // verus!
