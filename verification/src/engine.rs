//! The scan engine: slides a 32-byte window over the buffer, evaluates the
//! four classification rules at each admissible alignment, gates candidates
//! by entropy and by the known false-positive patterns, and ranks the
//! survivors by descending entropy with duplicate keys removed.

use vstd::prelude::*;

verus! {

use crate::aggregate::dedup_candidates;
use crate::aggregate::dedup_keys;
use crate::aggregate::key_seen;
use crate::aggregate::lemma_dedup_keyset;
use crate::aggregate::lemma_dedup_membership;
use crate::aggregate::lemma_dedup_sorted;
use crate::aggregate::lemma_dedup_unique_keys;
use crate::aggregate::lemma_sort_desc_contains_all;
use crate::aggregate::lemma_sort_desc_membership;
use crate::aggregate::lemma_sort_desc_sorted;
use crate::aggregate::sort_candidates;
use crate::aggregate::sort_desc;
use crate::aggregate::sorted_desc;
use crate::candidate::AesKeyCandidate;
use crate::candidate::CandidateModel;
use crate::candidate::KeyType;
use crate::candidate::hex_of;
use crate::candidate::to_hex_upper;
use crate::candidate::views_of;
use crate::entropy::byte_diversity;
use crate::entropy::distinct_count;
use crate::entropy::entropy_scaled_bytes;
use crate::entropy::entropy_scaled_of;
use crate::rules::eq_bytes;
use crate::rules::has_run5;
use crate::rules::has_run_of_five;
use crate::rules::has_signature_before;
use crate::rules::has_signature_near;
use crate::rules::is_known_fp;
use crate::rules::rep32;
use crate::rules::repeat32;

/// The 32-byte window starting at offset `i`.
pub open spec fn window_at(buf: Seq<u8>, i: int) -> Seq<u8> {
    buf.subrange(i, i + 32)
}

/// One classification rule: its tag and its alignment stride.
pub struct ScanRule {
    pub key_type: KeyType,
    pub alignment: usize,
}

/// The alignment stride of each rule: a rule is evaluated at offset `i`
/// only when `i` is a multiple of its stride.
pub open spec fn stride_of(kt: KeyType) -> int {
    match kt {
        KeyType::Type1 => 16,
        KeyType::Type2 => 4,
        KeyType::Type3 => 1,
        KeyType::Type4 => 1,
    }
}

/// Each rule's predicate over the buffer, the offset and the window there.
pub open spec fn rule_pred(buf: Seq<u8>, i: int, kt: KeyType) -> bool {
    match kt {
        KeyType::Type1 => true,
        KeyType::Type2 => distinct_count(window_at(buf, i)) >= 8,
        KeyType::Type3 => has_signature_before(buf, i),
        KeyType::Type4 => distinct_count(window_at(buf, i)) >= 16 && !has_run5(window_at(buf, i)),
    }
}

/// The candidate a rule emits at offset `i`.
pub open spec fn candidate_at(buf: Seq<u8>, i: int, kt: KeyType) -> CandidateModel {
    CandidateModel {
        offset: i,
        key: window_at(buf, i),
        key_type: kt,
        entropy: entropy_scaled_of(window_at(buf, i)) as int,
        hex: hex_of(window_at(buf, i)),
    }
}

/// A rule fires at offset `i` when the offset is aligned to its stride, its
/// predicate holds, the window's entropy reaches the threshold, and the
/// window is no known false positive.
pub open spec fn rule_fires(buf: Seq<u8>, min_entropy: u64, i: int, kt: KeyType) -> bool {
    &&& i % stride_of(kt) == 0
    &&& rule_pred(buf, i, kt)
    &&& entropy_scaled_of(window_at(buf, i)) >= min_entropy
    &&& !is_known_fp(window_at(buf, i))
}

/// What one rule contributes at offset `i`: one candidate or nothing.
pub open spec fn rule_emits(buf: Seq<u8>, min_entropy: u64, i: int, kt: KeyType) -> Seq<
    CandidateModel,
> {
    if rule_fires(buf, min_entropy, i, kt) {
        seq![candidate_at(buf, i, kt)]
    } else {
        Seq::empty()
    }
}

/// The rules in evaluation order.
pub open spec fn rule_order() -> Seq<KeyType> {
    seq![KeyType::Type1, KeyType::Type2, KeyType::Type3, KeyType::Type4]
}

/// Candidates emitted at offset `i` by the first `k` rules, in rule order.
pub open spec fn emitted_at_upto(buf: Seq<u8>, min_entropy: u64, i: int, k: int) -> Seq<
    CandidateModel,
>
    decreases k,
{
    if k <= 0 {
        Seq::empty()
    } else {
        emitted_at_upto(buf, min_entropy, i, k - 1) + rule_emits(
            buf,
            min_entropy,
            i,
            rule_order()[k - 1],
        )
    }
}

/// All candidates from offsets below `n`, in scan order.
pub open spec fn raw_upto(buf: Seq<u8>, min_entropy: u64, n: int) -> Seq<CandidateModel>
    decreases n,
{
    if n <= 0 {
        Seq::empty()
    } else {
        raw_upto(buf, min_entropy, n - 1) + emitted_at_upto(buf, min_entropy, n - 1, 4)
    }
}

/// How many offsets the scan visits: every offset whose 32-byte window fits
/// entirely in the buffer; a buffer shorter than 32 bytes is not scanned at
/// all.
pub open spec fn scan_offsets(buf: Seq<u8>) -> int {
    if buf.len() >= 32 {
        buf.len() - 31
    } else {
        0
    }
}

/// The raw candidate list of a scan, before ranking.
pub open spec fn raw_scan(buf: Seq<u8>, min_entropy: u64) -> Seq<CandidateModel> {
    raw_upto(buf, min_entropy, scan_offsets(buf))
}

/// The final ranked candidate list: the raw list sorted by descending
/// entropy, stably, with duplicate keys removed keeping first occurrences.
pub open spec fn scan_model(buf: Seq<u8>, min_entropy: u64) -> Seq<CandidateModel> {
    dedup_keys(sort_desc(raw_scan(buf, min_entropy)))
}

/// The scanner: an owned buffer, a fixed-point entropy threshold, and the
/// list of known false-positive patterns.
pub struct AesDumpster {
    buffer: Vec<u8>,
    min_entropy: u64,
    known_false_positives: Vec<Vec<u8>>,
}

impl AesDumpster {
    /// The scanned buffer.
    pub closed spec fn buffer_spec(&self) -> Seq<u8> {
        self.buffer@
    }

    /// The entropy threshold, in units of `1/4096` bit per byte.
    pub closed spec fn min_entropy_spec(&self) -> u64 {
        self.min_entropy
    }

    /// The false-positive list holds exactly the four known patterns.
    pub closed spec fn wf(&self) -> bool {
        &&& self.known_false_positives@.len() == 4
        &&& self.known_false_positives@[0]@ == rep32(0x00)
        &&& self.known_false_positives@[1]@ == rep32(0xFF)
        &&& self.known_false_positives@[2]@ == rep32(0xCC)
        &&& self.known_false_positives@[3]@ == rep32(0xCD)
    }

    fn initialize_false_positives() -> (r: Vec<Vec<u8>>)
        ensures
            r@.len() == 4,
            r@[0]@ == rep32(0x00),
            r@[1]@ == rep32(0xFF),
            r@[2]@ == rep32(0xCC),
            r@[3]@ == rep32(0xCD),
    {
        let mut r: Vec<Vec<u8>> = Vec::new();
        r.push(repeat32(0x00));
        r.push(repeat32(0xFF));
        r.push(repeat32(0xCC));
        r.push(repeat32(0xCD));
        r
    }

    /// A scanner over `buffer` with the given fixed-point entropy threshold.
    pub fn new(buffer: Vec<u8>, min_entropy: u64) -> (r: AesDumpster)
        ensures
            r.wf(),
            r.buffer_spec() == buffer@,
            r.min_entropy_spec() == min_entropy,
    {
        let known_false_positives = Self::initialize_false_positives();
        AesDumpster { buffer, min_entropy, known_false_positives }
    }

    /// Fixed-point Shannon entropy of `data`, between `0` and `8 * 4096`
    /// inclusive for every input.
    pub fn calculate_entropy(&self, data: &[u8]) -> (r: u64)
        ensures
            r == entropy_scaled_of(data@),
            r <= 8 * 4096,
    {
        entropy_scaled_bytes(data)
    }

    /// Whether `key` equals one of the known degenerate patterns.
    pub fn is_false_positive(&self, key: &[u8]) -> (r: bool)
        requires
            self.wf(),
        ensures
            r == is_known_fp(key@),
    {
        let mut i: usize = 0;
        while i < self.known_false_positives.len()
            invariant
                self.wf(),
                i <= 4,
                forall|j: int| 0 <= j < i ==> (#[trigger] self.known_false_positives@[j]@) != key@,
            decreases 4 - i,
        {
            if eq_bytes(self.known_false_positives[i].as_slice(), key) {
                return true;
            }
            i = i + 1;
        }
        false
    }

    /// Whether a container marker occurs in the 256 bytes before `offset`.
    pub fn has_ue_signature(&self, offset: usize) -> (r: bool)
        ensures
            r == has_signature_before(self.buffer_spec(), offset as int),
    {
        has_signature_near(&self.buffer, offset)
    }

    /// Evaluates one rule's predicate at `offset` over `window`.
    fn rule_applies(&self, kt: KeyType, offset: usize, window: &Vec<u8>) -> (r: bool)
        requires
            window@ == window_at(self.buffer_spec(), offset as int),
        ensures
            r == rule_pred(self.buffer_spec(), offset as int, kt),
    {
        match kt {
            KeyType::Type1 => true,
            KeyType::Type2 => byte_diversity(window.as_slice()) >= 8,
            KeyType::Type3 => self.has_ue_signature(offset),
            KeyType::Type4 => {
                let d = byte_diversity(window.as_slice());
                d >= 16 && !has_run_of_five(window.as_slice())
            },
        }
    }

    /// The rule set, in evaluation order.
    fn default_rules() -> (r: Vec<ScanRule>)
        ensures
            r@.len() == 4,
            forall|j: int| 0 <= j < 4 ==> (#[trigger] r@[j]).key_type == rule_order()[j],
            forall|j: int|
                0 <= j < 4 ==> (#[trigger] r@[j]).alignment == stride_of(rule_order()[j]),
    {
        let mut r: Vec<ScanRule> = Vec::new();
        r.push(ScanRule { key_type: KeyType::Type1, alignment: 16 });
        r.push(ScanRule { key_type: KeyType::Type2, alignment: 4 });
        r.push(ScanRule { key_type: KeyType::Type3, alignment: 1 });
        r.push(ScanRule { key_type: KeyType::Type4, alignment: 1 });
        r
    }

    /// Copies the 32-byte window at offset `i` out of the buffer.
    fn copy_window(&self, i: usize) -> (r: Vec<u8>)
        requires
            i + 32 <= self.buffer_spec().len(),
        ensures
            r@ == window_at(self.buffer_spec(), i as int),
    {
        let buffer_len: usize = self.buffer.len();
        let mut r: Vec<u8> = Vec::new();
        let mut k: usize = 0;
        proof {
            assert(i + 32 <= buffer_len);
            assert(r@ =~= self.buffer@.subrange(i as int, i as int));
        }
        while k < 32
            invariant
                k <= 32,
                i + 32 <= buffer_len,
                buffer_len == self.buffer@.len(),
                r@ == self.buffer@.subrange(i as int, i as int + k as int),
            decreases 32 - k,
        {
            r.push(self.buffer[i + k]);
            proof {
                assert(self.buffer@.subrange(i as int, i as int + k as int + 1)
                    =~= self.buffer@.subrange(i as int, i as int + k as int).push(
                    self.buffer@[i as int + k as int],
                ));
            }
            k = k + 1;
        }
        r
    }

    /// Scans every offset of the buffer, applies the four rules in order,
    /// and returns the ranked candidate list: sorted by descending entropy,
    /// one candidate per distinct key value.
    pub fn scan(&self) -> (r: Vec<AesKeyCandidate>)
        requires
            self.wf(),
        ensures
            views_of(r@) == scan_model(self.buffer_spec(), self.min_entropy_spec()),
    {
        let ghost buf = self.buffer_spec();
        let ghost me = self.min_entropy_spec();
        let rules = Self::default_rules();
        let mut candidates: Vec<AesKeyCandidate> = Vec::new();
        let n = self.buffer.len();
        let limit: usize = if n >= 32 {
            n - 31
        } else {
            0
        };
        proof {
            assert(limit == scan_offsets(buf));
            assert(views_of(candidates@) =~= raw_upto(buf, me, 0));
        }
        let mut i: usize = 0;
        while i < limit
            invariant
                self.wf(),
                buf == self.buffer_spec(),
                me == self.min_entropy_spec(),
                limit == scan_offsets(buf),
                i <= limit,
                rules@.len() == 4,
                forall|j: int| 0 <= j < 4 ==> (#[trigger] rules@[j]).key_type == rule_order()[j],
                forall|j: int|
                    0 <= j < 4 ==> (#[trigger] rules@[j]).alignment == stride_of(rule_order()[j]),
                views_of(candidates@) == raw_upto(buf, me, i as int),
            decreases limit - i,
        {
            proof {
                assert(i + 32 <= buf.len());
            }
            let key_bytes = self.copy_window(i);
            let mut j: usize = 0;
            while j < 4
                invariant
                    self.wf(),
                    buf == self.buffer_spec(),
                    me == self.min_entropy_spec(),
                    i + 32 <= buf.len(),
                    j <= 4,
                    rules@.len() == 4,
                    forall|j2: int|
                        0 <= j2 < 4 ==> (#[trigger] rules@[j2]).key_type == rule_order()[j2],
                    forall|j2: int|
                        0 <= j2 < 4 ==> (#[trigger] rules@[j2]).alignment == stride_of(
                            rule_order()[j2],
                        ),
                    key_bytes@ == window_at(buf, i as int),
                    views_of(candidates@) == raw_upto(buf, me, i as int) + emitted_at_upto(
                        buf,
                        me,
                        i as int,
                        j as int,
                    ),
                decreases 4 - j,
            {
                let kt = rules[j].key_type;
                let al = rules[j].alignment;
                proof {
                    assert(kt == rule_order()[j as int]);
                    assert(al == stride_of(kt));
                    assert(al >= 1);
                }
                let ghost before = views_of(candidates@);
                if i % al == 0 {
                    if self.rule_applies(kt, i, &key_bytes) {
                        let ent = self.calculate_entropy(key_bytes.as_slice());
                        if ent >= self.min_entropy && !self.is_false_positive(
                            key_bytes.as_slice(),
                        ) {
                            let key_copy = self.copy_window(i);
                            let hex_string = to_hex_upper(key_bytes.as_slice());
                            let cand = AesKeyCandidate {
                                offset: i,
                                key: key_copy,
                                key_type: kt,
                                entropy: ent,
                                hex_string,
                            };
                            proof {
                                assert(cand@ == candidate_at(buf, i as int, kt));
                                assert(rule_fires(buf, me, i as int, kt));
                            }
                            candidates.push(cand);
                            proof {
                                assert(views_of(candidates@) =~= before + seq![
                                    candidate_at(buf, i as int, kt),
                                ]);
                                assert(views_of(candidates@) =~= before + rule_emits(
                                    buf,
                                    me,
                                    i as int,
                                    kt,
                                ));
                            }
                        } else {
                            proof {
                                assert(!rule_fires(buf, me, i as int, kt));
                                assert(views_of(candidates@) =~= before + rule_emits(
                                    buf,
                                    me,
                                    i as int,
                                    kt,
                                ));
                            }
                        }
                    } else {
                        proof {
                            assert(!rule_fires(buf, me, i as int, kt));
                            assert(views_of(candidates@) =~= before + rule_emits(
                                buf,
                                me,
                                i as int,
                                kt,
                            ));
                        }
                    }
                } else {
                    proof {
                        assert(i as int % stride_of(kt) != 0);
                        assert(!rule_fires(buf, me, i as int, kt));
                        assert(views_of(candidates@) =~= before + rule_emits(buf, me, i as int, kt));
                    }
                }
                proof {
                    assert(emitted_at_upto(buf, me, i as int, j as int + 1) == emitted_at_upto(
                        buf,
                        me,
                        i as int,
                        j as int,
                    ) + rule_emits(buf, me, i as int, rule_order()[j as int]));
                    assert(views_of(candidates@) =~= raw_upto(buf, me, i as int) + emitted_at_upto(
                        buf,
                        me,
                        i as int,
                        j as int + 1,
                    ));
                }
                j = j + 1;
            }
            proof {
                assert(raw_upto(buf, me, i as int + 1) == raw_upto(buf, me, i as int)
                    + emitted_at_upto(buf, me, i as int, 4));
            }
            i = i + 1;
        }
        let sorted = sort_candidates(candidates);
        let ranked = dedup_candidates(sorted);
        proof {
            assert(views_of(ranked@) == dedup_keys(sort_desc(raw_upto(buf, me, limit as int))));
        }
        ranked
    }
}

/// The candidate `c` is a faithful record of a flagged window: its offset
/// leaves a full 32-byte window inside the buffer, the rule named by its tag
/// fires there, and its key, entropy and hex rendering are exactly those of
/// the window at its offset.
pub open spec fn is_flagged_window(buf: Seq<u8>, min_entropy: u64, c: CandidateModel) -> bool {
    &&& 0 <= c.offset
    &&& c.offset + 32 <= buf.len()
    &&& rule_fires(buf, min_entropy, c.offset, c.key_type)
    &&& c == candidate_at(buf, c.offset, c.key_type)
}

/// Every candidate emitted at one offset is a faithful record of a rule
/// firing at that offset.
proof fn lemma_emitted_membership(buf: Seq<u8>, min_entropy: u64, i: int, k: int)
    requires
        0 <= k <= 4,
    ensures
        forall|m: int|
            0 <= m < emitted_at_upto(buf, min_entropy, i, k).len() ==> {
                let c = #[trigger] emitted_at_upto(buf, min_entropy, i, k)[m];
                &&& c.offset == i
                &&& rule_fires(buf, min_entropy, i, c.key_type)
                &&& c == candidate_at(buf, i, c.key_type)
            },
    decreases k,
{
    if k <= 0 {
    } else {
        lemma_emitted_membership(buf, min_entropy, i, k - 1);
    }
}

/// Every raw candidate from the first `n` offsets is a faithful record of a
/// rule firing at some offset below `n`.
proof fn lemma_raw_membership(buf: Seq<u8>, min_entropy: u64, n: int)
    ensures
        forall|m: int|
            0 <= m < raw_upto(buf, min_entropy, n).len() ==> {
                let c = #[trigger] raw_upto(buf, min_entropy, n)[m];
                &&& 0 <= c.offset < n
                &&& rule_fires(buf, min_entropy, c.offset, c.key_type)
                &&& c == candidate_at(buf, c.offset, c.key_type)
            },
    decreases n,
{
    if n <= 0 {
    } else {
        lemma_raw_membership(buf, min_entropy, n - 1);
        lemma_emitted_membership(buf, min_entropy, n - 1, 4);
    }
}

/// Every candidate in the ranked output is a faithful record of a flagged
/// window of the buffer: its key is the 32 bytes at its offset, its entropy
/// and hex rendering are the window's, and the rule named by its tag fires
/// there.
pub proof fn lemma_scan_candidates_flagged(buf: Seq<u8>, min_entropy: u64)
    ensures
        forall|m: int|
            0 <= m < scan_model(buf, min_entropy).len() ==> is_flagged_window(
                buf,
                min_entropy,
                #[trigger] scan_model(buf, min_entropy)[m],
            ),
{
    let raw = raw_scan(buf, min_entropy);
    let sorted = sort_desc(raw);
    lemma_raw_membership(buf, min_entropy, scan_offsets(buf));
    lemma_sort_desc_membership(raw);
    lemma_dedup_membership(sorted);
    assert forall|m: int| 0 <= m < scan_model(buf, min_entropy).len() implies is_flagged_window(
        buf,
        min_entropy,
        #[trigger] scan_model(buf, min_entropy)[m],
    ) by {
        let c = scan_model(buf, min_entropy)[m];
        let j1 = choose|j1: int|
            0 <= j1 < sorted.len() && (#[trigger] dedup_keys(sorted)[m]) == sorted[j1];
        let j2 = choose|j2: int| 0 <= j2 < raw.len() && (#[trigger] sorted[j1]) == raw[j2];
        assert(c == raw[j2]);
        assert(0 <= c.offset < scan_offsets(buf));
        assert(c.offset + 32 <= buf.len());
    }
}

/// Ranking loses no key value: a key occurs in the ranked output exactly
/// when some raw candidate carries it.
pub proof fn lemma_scan_keeps_all_keys(buf: Seq<u8>, min_entropy: u64)
    ensures
        forall|k: Seq<u8>|
            key_seen(scan_model(buf, min_entropy), k) <==> key_seen(
                raw_scan(buf, min_entropy),
                k,
            ),
{
    let raw = raw_scan(buf, min_entropy);
    let sorted = sort_desc(raw);
    lemma_dedup_keyset(sorted);
    lemma_sort_desc_membership(raw);
    lemma_sort_desc_contains_all(raw);
    assert forall|k: Seq<u8>|
        key_seen(sorted, k) <==> #[trigger] key_seen(raw, k) by {
        if key_seen(sorted, k) {
            let j = choose|j: int| 0 <= j < sorted.len() && (#[trigger] sorted[j].key) == k;
            let j2 = choose|j2: int| 0 <= j2 < raw.len() && (#[trigger] sorted[j]) == raw[j2];
            assert(raw[j2].key == k);
        }
        if key_seen(raw, k) {
            let j = choose|j: int| 0 <= j < raw.len() && (#[trigger] raw[j].key) == k;
            let i = choose|i: int| 0 <= i < sorted.len() && (#[trigger] sorted[i]) == raw[j];
            assert(sorted[i].key == k);
        }
    }
}

/// Growing the rule count only appends: earlier emissions keep their place.
proof fn lemma_emitted_prefix(buf: Seq<u8>, min_entropy: u64, i: int, k1: int, k2: int)
    requires
        0 <= k1 <= k2 <= 4,
    ensures
        emitted_at_upto(buf, min_entropy, i, k1).len() <= emitted_at_upto(
            buf,
            min_entropy,
            i,
            k2,
        ).len(),
        forall|m: int|
            0 <= m < emitted_at_upto(buf, min_entropy, i, k1).len() ==> (#[trigger] emitted_at_upto(
                buf,
                min_entropy,
                i,
                k2,
            )[m]) == emitted_at_upto(buf, min_entropy, i, k1)[m],
    decreases k2 - k1,
{
    if k1 < k2 {
        lemma_emitted_prefix(buf, min_entropy, i, k1, k2 - 1);
    }
}

/// Everything emitted at a visited offset occurs in the raw list, right
/// after the raw candidates of the earlier offsets.
proof fn lemma_raw_contains_emitted(buf: Seq<u8>, min_entropy: u64, i: int, n: int)
    requires
        0 <= i < n,
    ensures
        raw_upto(buf, min_entropy, n).len() >= raw_upto(buf, min_entropy, i).len()
            + emitted_at_upto(buf, min_entropy, i, 4).len(),
        forall|m: int|
            #![trigger emitted_at_upto(buf, min_entropy, i, 4)[m]]
            0 <= m < emitted_at_upto(buf, min_entropy, i, 4).len() ==> raw_upto(
                buf,
                min_entropy,
                n,
            )[raw_upto(buf, min_entropy, i).len() + m] == emitted_at_upto(buf, min_entropy, i, 4)[m],
    decreases n,
{
    if i < n - 1 {
        lemma_raw_contains_emitted(buf, min_entropy, i, n - 1);
    }
}

/// Completeness: whenever some rule fires at a visited offset, the ranked
/// output holds a candidate with that window's key value.
pub proof fn lemma_scan_finds_fired_windows(buf: Seq<u8>, min_entropy: u64, i: int, kt: KeyType)
    requires
        0 <= i < scan_offsets(buf),
        rule_fires(buf, min_entropy, i, kt),
    ensures
        key_seen(scan_model(buf, min_entropy), window_at(buf, i)),
{
    let k: int = match kt {
        KeyType::Type1 => 0,
        KeyType::Type2 => 1,
        KeyType::Type3 => 2,
        KeyType::Type4 => 3,
    };
    assert(rule_order()[k] == kt);
    let block_k = emitted_at_upto(buf, min_entropy, i, k + 1);
    assert(block_k.last() == candidate_at(buf, i, kt));
    let m = block_k.len() - 1;
    lemma_emitted_prefix(buf, min_entropy, i, k + 1, 4);
    assert(emitted_at_upto(buf, min_entropy, i, 4)[m] == candidate_at(buf, i, kt));
    lemma_raw_contains_emitted(buf, min_entropy, i, scan_offsets(buf));
    let raw = raw_scan(buf, min_entropy);
    let m2 = raw_upto(buf, min_entropy, i).len() + m;
    assert(raw[m2] == candidate_at(buf, i, kt));
    assert(raw[m2].key == window_at(buf, i));
    assert(key_seen(raw, window_at(buf, i)));
    lemma_scan_keeps_all_keys(buf, min_entropy);
}

/// The ranked list is sorted by descending entropy.
pub proof fn lemma_scan_sorted(buf: Seq<u8>, min_entropy: u64)
    ensures
        sorted_desc(scan_model(buf, min_entropy)),
{
    lemma_sort_desc_sorted(raw_scan(buf, min_entropy));
    lemma_dedup_sorted(sort_desc(raw_scan(buf, min_entropy)));
}

/// The ranked list holds each key value at most once: byte-identical
/// windows surface as a single candidate.
pub proof fn lemma_scan_unique_keys(buf: Seq<u8>, min_entropy: u64)
    ensures
        forall|i: int, j: int|
            0 <= i < j < scan_model(buf, min_entropy).len() ==> (#[trigger] scan_model(
                buf,
                min_entropy,
            )[i]).key != (#[trigger] scan_model(buf, min_entropy)[j]).key,
{
    lemma_dedup_unique_keys(sort_desc(raw_scan(buf, min_entropy)));
}

/// Scanning the same buffer with the same threshold twice yields identical
/// ordered output: the ranked list is a function of buffer and threshold.
pub proof fn lemma_scan_deterministic(
    buf: Seq<u8>,
    min_entropy: u64,
    r1: Seq<CandidateModel>,
    r2: Seq<CandidateModel>,
)
    requires
        r1 == scan_model(buf, min_entropy),
        r2 == scan_model(buf, min_entropy),
    ensures
        r1 == r2,
{
}

} // verus!
