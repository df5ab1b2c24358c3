//! Ranking of scan candidates: a stable sort by descending entropy, then
//! removal of duplicate key values keeping the first — highest-ranked —
//! occurrence of each key.

use vstd::prelude::*;

verus! {

use crate::candidate::AesKeyCandidate;
use crate::candidate::CandidateModel;
use crate::candidate::views_of;
use crate::rules::eq_bytes;

/// Inserts `x` behind every element whose entropy is at least `x`'s, so that
/// repeated insertion sorts stably by descending entropy.
pub open spec fn insert_desc(s: Seq<CandidateModel>, x: CandidateModel) -> Seq<CandidateModel>
    decreases s.len(),
{
    if s.len() == 0 {
        seq![x]
    } else if s[0].entropy >= x.entropy {
        seq![s[0]] + insert_desc(s.drop_first(), x)
    } else {
        seq![x] + s
    }
}

/// Stable insertion sort by descending entropy.
pub open spec fn sort_desc(s: Seq<CandidateModel>) -> Seq<CandidateModel>
    decreases s.len(),
{
    if s.len() == 0 {
        Seq::empty()
    } else {
        insert_desc(sort_desc(s.drop_last()), s.last())
    }
}

/// Some element of `s` carries the key `k`.
pub open spec fn key_seen(s: Seq<CandidateModel>, k: Seq<u8>) -> bool {
    exists|j: int| 0 <= j < s.len() && (#[trigger] s[j].key) == k
}

/// Keeps the first occurrence of every key value, in order.
pub open spec fn dedup_keys(s: Seq<CandidateModel>) -> Seq<CandidateModel>
    decreases s.len(),
{
    if s.len() == 0 {
        Seq::empty()
    } else {
        let pre = dedup_keys(s.drop_last());
        if key_seen(s.drop_last(), s.last().key) {
            pre
        } else {
            pre + seq![s.last()]
        }
    }
}

/// Entropies never increase along the sequence.
pub open spec fn sorted_desc(s: Seq<CandidateModel>) -> bool {
    forall|i: int, j: int|
        0 <= i <= j < s.len() ==> (#[trigger] s[i]).entropy >= (#[trigger] s[j]).entropy
}

/// Where the insertion point is known — `k` elements with entropy at least
/// `x`'s, then one with less — `insert_desc` is a positional insertion.
proof fn lemma_insert_desc_at(s: Seq<CandidateModel>, x: CandidateModel, k: int)
    requires
        0 <= k <= s.len(),
        forall|i: int| 0 <= i < k ==> (#[trigger] s[i]).entropy >= x.entropy,
        k == s.len() || s[k].entropy < x.entropy,
    ensures
        insert_desc(s, x) == s.take(k) + seq![x] + s.skip(k),
    decreases k,
{
    if k == 0 {
        if s.len() == 0 {
            assert(insert_desc(s, x) =~= s.take(0) + seq![x] + s.skip(0));
        } else {
            assert(s[0].entropy < x.entropy);
            assert(insert_desc(s, x) =~= s.take(0) + seq![x] + s.skip(0));
        }
    } else {
        assert(s[0].entropy >= x.entropy);
        let rest = s.drop_first();
        assert(forall|i: int| 0 <= i < k - 1 ==> (#[trigger] rest[i]).entropy >= x.entropy);
        lemma_insert_desc_at(rest, x, k - 1);
        assert(seq![s[0]] + (rest.take(k - 1) + seq![x] + rest.skip(k - 1)) =~= s.take(k)
            + seq![x] + s.skip(k));
    }
}

/// Every element of `insert_desc(s, x)` is `x` or an element of `s`.
proof fn lemma_insert_desc_membership(s: Seq<CandidateModel>, x: CandidateModel)
    ensures
        insert_desc(s, x).len() == s.len() + 1,
        forall|i: int|
            0 <= i < insert_desc(s, x).len() ==> (#[trigger] insert_desc(s, x)[i]) == x || exists|
                j: int,
            | 0 <= j < s.len() && insert_desc(s, x)[i] == s[j],
    decreases s.len(),
{
    if s.len() == 0 {
    } else if s[0].entropy >= x.entropy {
        let rest = s.drop_first();
        lemma_insert_desc_membership(rest, x);
        assert forall|i: int| 0 <= i < insert_desc(s, x).len() implies (#[trigger] insert_desc(
            s,
            x,
        )[i]) == x || exists|j: int| 0 <= j < s.len() && insert_desc(s, x)[i] == s[j] by {
            if i == 0 {
                assert(insert_desc(s, x)[0] == s[0]);
            } else {
                assert(insert_desc(s, x)[i] == insert_desc(rest, x)[i - 1]);
                if insert_desc(rest, x)[i - 1] != x {
                    let j = choose|j: int|
                        0 <= j < rest.len() && insert_desc(rest, x)[i - 1] == rest[j];
                    assert(rest[j] == s[j + 1]);
                }
            }
        }
    } else {
        assert forall|i: int| 0 <= i < insert_desc(s, x).len() implies (#[trigger] insert_desc(
            s,
            x,
        )[i]) == x || exists|j: int| 0 <= j < s.len() && insert_desc(s, x)[i] == s[j] by {
            if i > 0 {
                assert(insert_desc(s, x)[i] == s[i - 1]);
            }
        }
    }
}

/// Insertion keeps a descending sequence descending.
proof fn lemma_insert_desc_sorted(s: Seq<CandidateModel>, x: CandidateModel)
    requires
        sorted_desc(s),
    ensures
        sorted_desc(insert_desc(s, x)),
    decreases s.len(),
{
    if s.len() == 0 {
    } else if s[0].entropy >= x.entropy {
        let rest = s.drop_first();
        assert(sorted_desc(rest));
        lemma_insert_desc_sorted(rest, x);
        lemma_insert_desc_membership(rest, x);
        let out = insert_desc(s, x);
        assert forall|i: int, j: int|
            0 <= i <= j < out.len() implies (#[trigger] out[i]).entropy >= (
        #[trigger] out[j]).entropy by {
            if i == 0 && j > 0 {
                assert(out[j] == insert_desc(rest, x)[j - 1]);
                if insert_desc(rest, x)[j - 1] != x {
                    let j2 = choose|j2: int|
                        0 <= j2 < rest.len() && insert_desc(rest, x)[j - 1] == rest[j2];
                    assert(rest[j2] == s[j2 + 1]);
                    assert(s[0].entropy >= s[j2 + 1].entropy);
                }
            } else if i > 0 {
                assert(out[i] == insert_desc(rest, x)[i - 1]);
                assert(out[j] == insert_desc(rest, x)[j - 1]);
            }
        }
    } else {
        let out = insert_desc(s, x);
        assert forall|i: int, j: int|
            0 <= i <= j < out.len() implies (#[trigger] out[i]).entropy >= (
        #[trigger] out[j]).entropy by {
            if i == 0 && j > 0 {
                assert(out[j] == s[j - 1]);
                assert(x.entropy > s[0].entropy);
                assert(s[0].entropy >= s[j - 1].entropy);
            } else if i > 0 {
                assert(out[i] == s[i - 1] && out[j] == s[j - 1]);
            }
        }
    }
}

/// The stable sort indeed sorts by descending entropy.
pub proof fn lemma_sort_desc_sorted(s: Seq<CandidateModel>)
    ensures
        sorted_desc(sort_desc(s)),
    decreases s.len(),
{
    if s.len() == 0 {
    } else {
        lemma_sort_desc_sorted(s.drop_last());
        lemma_insert_desc_sorted(sort_desc(s.drop_last()), s.last());
    }
}

/// Insertion loses no element: everything in `s`, and `x` itself, occurs
/// in `insert_desc(s, x)`.
proof fn lemma_insert_desc_contains_all(s: Seq<CandidateModel>, x: CandidateModel)
    ensures
        exists|i: int| 0 <= i < insert_desc(s, x).len() && (#[trigger] insert_desc(s, x)[i]) == x,
        forall|j: int|
            #![trigger s[j]]
            0 <= j < s.len() ==> exists|i: int|
                0 <= i < insert_desc(s, x).len() && (#[trigger] insert_desc(s, x)[i]) == s[j],
    decreases s.len(),
{
    let out = insert_desc(s, x);
    if s.len() == 0 {
        assert(out[0] == x);
    } else if s[0].entropy >= x.entropy {
        let rest = s.drop_first();
        lemma_insert_desc_contains_all(rest, x);
        let ix = choose|i: int|
            0 <= i < insert_desc(rest, x).len() && (#[trigger] insert_desc(rest, x)[i]) == x;
        assert(out[ix + 1] == x);
        assert forall|j: int| #![trigger s[j]] 0 <= j < s.len() implies exists|i: int|
            0 <= i < out.len() && (#[trigger] out[i]) == s[j] by {
            if j == 0 {
                assert(out[0] == s[0]);
            } else {
                assert(rest[j - 1] == s[j]);
                let i2 = choose|i2: int|
                    0 <= i2 < insert_desc(rest, x).len() && (#[trigger] insert_desc(rest, x)[i2])
                        == rest[j - 1];
                assert(out[i2 + 1] == s[j]);
            }
        }
    } else {
        assert(out[0] == x);
        assert forall|j: int| #![trigger s[j]] 0 <= j < s.len() implies exists|i: int|
            0 <= i < out.len() && (#[trigger] out[i]) == s[j] by {
            assert(out[j + 1] == s[j]);
        }
    }
}

/// The sort loses no element: everything in `s` occurs in `sort_desc(s)`.
pub proof fn lemma_sort_desc_contains_all(s: Seq<CandidateModel>)
    ensures
        forall|j: int|
            #![trigger s[j]]
            0 <= j < s.len() ==> exists|i: int|
                0 <= i < sort_desc(s).len() && (#[trigger] sort_desc(s)[i]) == s[j],
    decreases s.len(),
{
    if s.len() == 0 {
    } else {
        let pre = s.drop_last();
        lemma_sort_desc_contains_all(pre);
        lemma_insert_desc_contains_all(sort_desc(pre), s.last());
        let out = sort_desc(s);
        assert forall|j: int| #![trigger s[j]] 0 <= j < s.len() implies exists|i: int|
            0 <= i < out.len() && (#[trigger] out[i]) == s[j] by {
            if j == s.len() - 1 {
                let ix = choose|ix: int| 0 <= ix < out.len() && (#[trigger] out[ix]) == s.last();
            } else {
                assert(pre[j] == s[j]);
                let i1 = choose|i1: int|
                    0 <= i1 < sort_desc(pre).len() && (#[trigger] sort_desc(pre)[i1]) == pre[j];
                let i2 = choose|i2: int| 0 <= i2 < out.len() && (#[trigger] out[i2]) == sort_desc(
                    pre,
                )[i1];
            }
        }
    }
}

/// The sort is a rearrangement: every element of `sort_desc(s)` is an
/// element of `s`, and the length is unchanged.
pub proof fn lemma_sort_desc_membership(s: Seq<CandidateModel>)
    ensures
        sort_desc(s).len() == s.len(),
        forall|i: int|
            0 <= i < sort_desc(s).len() ==> exists|j: int|
                0 <= j < s.len() && (#[trigger] sort_desc(s)[i]) == s[j],
    decreases s.len(),
{
    if s.len() == 0 {
    } else {
        let pre = s.drop_last();
        lemma_sort_desc_membership(pre);
        lemma_insert_desc_membership(sort_desc(pre), s.last());
        assert forall|i: int| 0 <= i < sort_desc(s).len() implies exists|j: int|
            0 <= j < s.len() && (#[trigger] sort_desc(s)[i]) == s[j] by {
            if sort_desc(s)[i] == s.last() {
                assert(sort_desc(s)[i] == s[s.len() - 1]);
            } else {
                let j1 = choose|j1: int|
                    0 <= j1 < sort_desc(pre).len() && sort_desc(s)[i] == sort_desc(pre)[j1];
                let j2 = choose|j2: int|
                    0 <= j2 < pre.len() && (#[trigger] sort_desc(pre)[j1]) == pre[j2];
                assert(pre[j2] == s[j2]);
            }
        }
    }
}

/// Every element of the deduplicated sequence is an element of the input.
pub proof fn lemma_dedup_membership(s: Seq<CandidateModel>)
    ensures
        dedup_keys(s).len() <= s.len(),
        forall|i: int|
            0 <= i < dedup_keys(s).len() ==> exists|j: int|
                0 <= j < s.len() && (#[trigger] dedup_keys(s)[i]) == s[j],
    decreases s.len(),
{
    if s.len() == 0 {
    } else {
        let pre = s.drop_last();
        lemma_dedup_membership(pre);
        assert forall|i: int| 0 <= i < dedup_keys(s).len() implies exists|j: int|
            0 <= j < s.len() && (#[trigger] dedup_keys(s)[i]) == s[j] by {
            if i < dedup_keys(pre).len() {
                assert(dedup_keys(s)[i] == dedup_keys(pre)[i]);
                let j = choose|j: int| 0 <= j < pre.len() && dedup_keys(pre)[i] == pre[j];
                assert(pre[j] == s[j]);
            } else {
                assert(dedup_keys(s)[i] == s.last());
            }
        }
    }
}

/// Deduplication keeps exactly the key values of the input.
pub proof fn lemma_dedup_keyset(s: Seq<CandidateModel>)
    ensures
        forall|k: Seq<u8>| key_seen(dedup_keys(s), k) <==> key_seen(s, k),
    decreases s.len(),
{
    if s.len() == 0 {
    } else {
        let pre = s.drop_last();
        lemma_dedup_keyset(pre);
        assert forall|k: Seq<u8>| key_seen(dedup_keys(s), k) <==> key_seen(s, k) by {
            assert(forall|j: int| 0 <= j < pre.len() ==> (#[trigger] pre[j]) == s[j]);
            if key_seen(dedup_keys(s), k) {
                let i = choose|i: int|
                    0 <= i < dedup_keys(s).len() && (#[trigger] dedup_keys(s)[i].key) == k;
                if i < dedup_keys(pre).len() {
                    assert(dedup_keys(pre)[i].key == k);
                    assert(key_seen(pre, k));
                    let j = choose|j: int| 0 <= j < pre.len() && (#[trigger] pre[j].key) == k;
                    assert(s[j].key == k);
                } else {
                    assert(dedup_keys(s)[i] == s.last());
                    assert(s[s.len() - 1].key == k);
                }
            }
            if key_seen(s, k) {
                let j = choose|j: int| 0 <= j < s.len() && (#[trigger] s[j].key) == k;
                if j < s.len() - 1 {
                    assert(pre[j].key == k);
                    assert(key_seen(pre, k));
                    assert(key_seen(dedup_keys(pre), k));
                    let i = choose|i: int|
                        0 <= i < dedup_keys(pre).len() && (#[trigger] dedup_keys(pre)[i].key) == k;
                    assert(dedup_keys(s)[i].key == k);
                } else {
                    if key_seen(pre, s.last().key) {
                        assert(key_seen(dedup_keys(pre), k));
                        let i = choose|i: int|
                            0 <= i < dedup_keys(pre).len() && (#[trigger] dedup_keys(
                                pre,
                            )[i].key) == k;
                        assert(dedup_keys(s)[i].key == k);
                    } else {
                        assert(dedup_keys(s)[dedup_keys(s).len() - 1].key == k);
                    }
                }
            }
        }
    }
}

/// After deduplication all key values are pairwise distinct.
pub proof fn lemma_dedup_unique_keys(s: Seq<CandidateModel>)
    ensures
        forall|i: int, j: int|
            0 <= i < j < dedup_keys(s).len() ==> (#[trigger] dedup_keys(s)[i]).key != (
            #[trigger] dedup_keys(s)[j]).key,
    decreases s.len(),
{
    if s.len() == 0 {
    } else {
        let pre = s.drop_last();
        lemma_dedup_unique_keys(pre);
        lemma_dedup_keyset(pre);
        let out = dedup_keys(s);
        assert forall|i: int, j: int| 0 <= i < j < out.len() implies (#[trigger] out[i]).key != (
        #[trigger] out[j]).key by {
            if j < dedup_keys(pre).len() {
                assert(out[i] == dedup_keys(pre)[i] && out[j] == dedup_keys(pre)[j]);
            } else {
                assert(!key_seen(pre, s.last().key));
                assert(out[j] == s.last());
                assert(out[i] == dedup_keys(pre)[i]);
                if out[i].key == out[j].key {
                    assert(key_seen(dedup_keys(pre), s.last().key));
                }
            }
        }
    }
}

/// Deduplication keeps a descending sequence descending.
pub proof fn lemma_dedup_sorted(s: Seq<CandidateModel>)
    requires
        sorted_desc(s),
    ensures
        sorted_desc(dedup_keys(s)),
    decreases s.len(),
{
    if s.len() == 0 {
    } else {
        let pre = s.drop_last();
        assert(sorted_desc(pre));
        lemma_dedup_sorted(pre);
        lemma_dedup_membership(pre);
        let out = dedup_keys(s);
        assert forall|i: int, j: int|
            0 <= i <= j < out.len() implies (#[trigger] out[i]).entropy >= (
        #[trigger] out[j]).entropy by {
            if j < dedup_keys(pre).len() {
                assert(out[i] == dedup_keys(pre)[i] && out[j] == dedup_keys(pre)[j]);
            } else if j == dedup_keys(pre).len() && j < out.len() {
                assert(out[j] == s.last());
                if i < j {
                    assert(out[i] == dedup_keys(pre)[i]);
                    let j2 = choose|j2: int|
                        0 <= j2 < pre.len() && (#[trigger] dedup_keys(pre)[i]) == pre[j2];
                    assert(pre[j2] == s[j2]);
                    assert(s[j2].entropy >= s[s.len() - 1].entropy);
                }
            }
        }
    }
}

/// Sorts candidates by descending entropy; equal entropies keep their
/// relative order.
pub fn sort_candidates(input: Vec<AesKeyCandidate>) -> (r: Vec<AesKeyCandidate>)
    ensures
        views_of(r@) == sort_desc(views_of(input@)),
{
    let ghost orig = views_of(input@);
    let mut rest = input;
    let mut out: Vec<AesKeyCandidate> = Vec::new();
    proof {
        assert(views_of(rest@) =~= orig.skip(0));
        assert(views_of(out@) =~= sort_desc(orig.take(0)));
    }
    while rest.len() > 0
        invariant
            rest@.len() <= orig.len(),
            views_of(rest@) == orig.skip(orig.len() - rest@.len()),
            views_of(out@) == sort_desc(orig.take(orig.len() - rest@.len())),
        decreases rest@.len(),
    {
        let ghost done = orig.len() - rest@.len();
        let ghost pre_rest = rest@;
        let c = rest.remove(0);
        proof {
            assert(views_of(pre_rest)[0] == orig.skip(done)[0]);
            assert(c@ == orig[done]);
            assert forall|ii: int| 0 <= ii < rest@.len() implies views_of(rest@)[ii] == orig.skip(
                done + 1,
            )[ii] by {
                assert(rest@[ii] == pre_rest[ii + 1]);
                assert(views_of(pre_rest)[ii + 1] == orig.skip(done)[ii + 1]);
            }
            assert(views_of(rest@) =~= orig.skip(done + 1));
        }
        let mut pos: usize = 0;
        while pos < out.len() && out[pos].entropy >= c.entropy
            invariant
                pos <= out@.len(),
                forall|i: int| 0 <= i < pos ==> (#[trigger] out@[i]@).entropy >= c@.entropy,
            decreases out@.len() - pos,
        {
            pos = pos + 1;
        }
        let ghost old_out = views_of(out@);
        out.insert(pos, c);
        proof {
            assert(forall|i: int| 0 <= i < pos ==> (#[trigger] old_out[i]).entropy >= c@.entropy);
            assert(pos == old_out.len() || old_out[pos as int].entropy < c@.entropy);
            lemma_insert_desc_at(old_out, c@, pos as int);
            assert(views_of(out@) =~= old_out.take(pos as int) + seq![c@] + old_out.skip(
                pos as int,
            ));
            assert(orig.take(done + 1).drop_last() =~= orig.take(done));
            assert(orig.take(done + 1).last() == orig[done]);
            assert(views_of(out@) == insert_desc(sort_desc(orig.take(done)), orig[done]));
        }
    }
    proof {
        assert(orig.take(orig.len() as int) =~= orig);
    }
    out
}

/// Removes duplicate key values, keeping the first occurrence.
pub fn dedup_candidates(input: Vec<AesKeyCandidate>) -> (r: Vec<AesKeyCandidate>)
    ensures
        views_of(r@) == dedup_keys(views_of(input@)),
{
    let ghost orig = views_of(input@);
    let mut rest = input;
    let mut out: Vec<AesKeyCandidate> = Vec::new();
    proof {
        assert(views_of(rest@) =~= orig.skip(0));
        assert(views_of(out@) =~= dedup_keys(orig.take(0)));
    }
    while rest.len() > 0
        invariant
            rest@.len() <= orig.len(),
            views_of(rest@) == orig.skip(orig.len() - rest@.len()),
            views_of(out@) == dedup_keys(orig.take(orig.len() - rest@.len())),
        decreases rest@.len(),
    {
        let ghost done = orig.len() - rest@.len();
        let ghost pre_rest = rest@;
        let c = rest.remove(0);
        proof {
            assert(views_of(pre_rest)[0] == orig.skip(done)[0]);
            assert(c@ == orig[done]);
            assert forall|ii: int| 0 <= ii < rest@.len() implies views_of(rest@)[ii] == orig.skip(
                done + 1,
            )[ii] by {
                assert(rest@[ii] == pre_rest[ii + 1]);
                assert(views_of(pre_rest)[ii + 1] == orig.skip(done)[ii + 1]);
            }
            assert(views_of(rest@) =~= orig.skip(done + 1));
        }
        let mut found = false;
        let mut i: usize = 0;
        while i < out.len()
            invariant
                i <= out@.len(),
                found == exists|j: int| 0 <= j < i && (#[trigger] out@[j]@).key == c@.key,
            decreases out@.len() - i,
        {
            if eq_bytes(out[i].key.as_slice(), c.key.as_slice()) {
                found = true;
            }
            proof {
                if out@[i as int]@.key == c@.key {
                    assert(exists|j: int| 0 <= j < i + 1 && (#[trigger] out@[j]@).key == c@.key);
                }
            }
            i = i + 1;
        }
        let ghost old_out = views_of(out@);
        proof {
            if found {
                let j = choose|j: int| 0 <= j < out@.len() && (#[trigger] out@[j]@).key == c@.key;
                assert(old_out[j].key == c@.key);
            }
            if key_seen(old_out, c@.key) {
                let j = choose|j: int|
                    0 <= j < old_out.len() && (#[trigger] old_out[j].key) == c@.key;
                assert(out@[j]@.key == c@.key);
            }
            assert(found == key_seen(old_out, c@.key));
            lemma_dedup_keyset(orig.take(done));
            assert(found == key_seen(orig.take(done), c@.key));
            assert(orig.take(done + 1).drop_last() =~= orig.take(done));
            assert(orig.take(done + 1).last() == orig[done]);
        }
        if !found {
            out.push(c);
            proof {
                assert(views_of(out@) =~= old_out + seq![c@]);
            }
        }
    }
    proof {
        assert(orig.take(orig.len() as int) =~= orig);
    }
    out
}

} // verus!
