//! Structural predicates over byte windows: repeated-byte runs, container
//! signature markers, and the known degenerate false-positive patterns.

use vstd::prelude::*;

verus! {

/// Five identical consecutive bytes start at position `j`.
pub open spec fn run5_at(s: Seq<u8>, j: int) -> bool {
    &&& 0 <= j
    &&& j + 5 <= s.len()
    &&& s[j] == s[j + 1]
    &&& s[j + 1] == s[j + 2]
    &&& s[j + 2] == s[j + 3]
    &&& s[j + 3] == s[j + 4]
}

/// The sequence holds a run of more than four identical consecutive bytes.
pub open spec fn has_run5(s: Seq<u8>) -> bool {
    exists|j: int| run5_at(s, j)
}

/// Scans for a run of five identical consecutive bytes.
pub fn has_run_of_five(data: &[u8]) -> (r: bool)
    ensures
        r == has_run5(data@),
{
    if data.len() == 0 {
        return false;
    }
    let mut run: usize = 1;
    let mut i: usize = 1;
    while i < data.len()
        invariant
            1 <= i <= data@.len(),
            1 <= run && run <= i && run <= 4,
            forall|k: int| i - run <= k < i ==> #[trigger] data@[k] == data@[i - 1],
            run == i || data@[i - run - 1] != data@[i - run],
            forall|j: int| j + 5 <= i ==> !run5_at(data@, j),
        decreases data@.len() - i,
    {
        if data[i] == data[i - 1] {
            if run >= 4 {
                proof {
                    assert(run5_at(data@, i - 4));
                }
                return true;
            }
            run = run + 1;
        } else {
            run = 1;
        }
        i = i + 1;
    }
    proof {
        assert(forall|j: int| run5_at(data@, j) ==> j + 5 <= data@.len());
    }
    false
}

/// One of the three 4-byte container markers starts at position `j`:
/// `FPak`, `AES\0` or `UE4\0`.
pub open spec fn marker_at(buf: Seq<u8>, j: int) -> bool {
    &&& 0 <= j
    &&& j + 4 <= buf.len()
    &&& {
        ||| (buf[j] == 0x46 && buf[j + 1] == 0x50 && buf[j + 2] == 0x61 && buf[j + 3] == 0x6B)
        ||| (buf[j] == 0x41 && buf[j + 1] == 0x45 && buf[j + 2] == 0x53 && buf[j + 3] == 0x00)
        ||| (buf[j] == 0x55 && buf[j + 1] == 0x45 && buf[j + 2] == 0x34 && buf[j + 3] == 0x00)
    }
}

/// A marker occurs among the 256 bytes immediately preceding `offset`
/// (clamped to the buffer's end); offsets with fewer than 256 preceding
/// bytes have no signature context at all.
pub open spec fn has_signature_before(buf: Seq<u8>, offset: int) -> bool {
    &&& offset >= 256
    &&& exists|j: int|
        offset - 256 <= j && j + 4 <= offset && #[trigger] marker_at(buf, j)
}

/// Scans the 256 bytes before `offset` for a container marker.
pub fn has_signature_near(buf: &Vec<u8>, offset: usize) -> (r: bool)
    ensures
        r == has_signature_before(buf@, offset as int),
{
    if offset < 256 {
        return false;
    }
    let end: usize = if offset < buf.len() {
        offset
    } else {
        buf.len()
    };
    if end < 4 {
        proof {
            assert(forall|j: int|
                offset - 256 <= j && j + 4 <= offset ==> !marker_at(buf@, j));
        }
        return false;
    }
    let mut j: usize = offset - 256;
    while j <= end - 4
        invariant
            256 <= offset,
            4 <= end <= buf@.len(),
            end == if offset < buf@.len() {
                offset as int
            } else {
                buf@.len() as int
            },
            offset - 256 <= j,
            forall|j2: int|
                offset - 256 <= j2 < j && j2 + 4 <= offset ==> !(#[trigger] marker_at(buf@, j2)),
        decreases end - j,
    {
        let b0: u8 = buf[j];
        let b1: u8 = buf[j + 1];
        let b2: u8 = buf[j + 2];
        let b3: u8 = buf[j + 3];
        if (b0 == 0x46 && b1 == 0x50 && b2 == 0x61 && b3 == 0x6B) || (b0 == 0x41 && b1 == 0x45
            && b2 == 0x53 && b3 == 0x00) || (b0 == 0x55 && b1 == 0x45 && b2 == 0x34 && b3
            == 0x00) {
            proof {
                assert(marker_at(buf@, j as int));
            }
            return true;
        }
        j = j + 1;
    }
    proof {
        assert(forall|j2: int|
            offset - 256 <= j2 && j2 + 4 <= offset && #[trigger] marker_at(buf@, j2) ==> j2
                + 4 <= end && j2 < j);
    }
    false
}

/// Thirty-two repeats of the byte value `b`.
pub open spec fn rep32(b: u8) -> Seq<u8> {
    Seq::new(32, |i: int| b)
}

/// The window equals one of the four known degenerate 32-byte patterns:
/// all `0x00`, all `0xFF`, all `0xCC` or all `0xCD`.
pub open spec fn is_known_fp(s: Seq<u8>) -> bool {
    s == rep32(0x00) || s == rep32(0xFF) || s == rep32(0xCC) || s == rep32(0xCD)
}

/// Thirty-two copies of `b`.
pub fn repeat32(b: u8) -> (r: Vec<u8>)
    ensures
        r@ == rep32(b),
{
    let r: Vec<u8> = vec![b; 32];
    proof {
        assert(r@ =~= rep32(b));
    }
    r
}

/// Byte-wise slice equality.
pub fn eq_bytes(a: &[u8], b: &[u8]) -> (r: bool)
    ensures
        r == (a@ == b@),
{
    if a.len() != b.len() {
        return false;
    }
    let mut i: usize = 0;
    while i < a.len()
        invariant
            a@.len() == b@.len(),
            i <= a@.len(),
            forall|k: int| 0 <= k < i ==> a@[k] == b@[k],
        decreases a@.len() - i,
    {
        if a[i] != b[i] {
            return false;
        }
        i = i + 1;
    }
    proof {
        assert(a@ =~= b@);
    }
    true
}

/// A window holding two different byte values matches none of the four
/// constant false-positive patterns.
pub proof fn lemma_two_values_not_false_positive(s: Seq<u8>, i: int, j: int)
    requires
        0 <= i < s.len(),
        0 <= j < s.len(),
        s[i] != s[j],
    ensures
        !is_known_fp(s),
{
    if s == rep32(0x00) {
        assert(s[i] == 0x00 && s[j] == 0x00);
    }
    if s == rep32(0xFF) {
        assert(s[i] == 0xFF && s[j] == 0xFF);
    }
    if s == rep32(0xCC) {
        assert(s[i] == 0xCC && s[j] == 0xCC);
    }
    if s == rep32(0xCD) {
        assert(s[i] == 0xCD && s[j] == 0xCD);
    }
}

} // verus!
