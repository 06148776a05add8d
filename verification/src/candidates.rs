use vstd::prelude::*;

verus! {

/// Candidate sets hold digits 1..=9 and are stored as bit masks: bit `v` of
/// the mask records whether the digit `v` is still a candidate.
pub open spec fn cand_has(m: u16, v: u8) -> bool {
    1 <= v <= 9 && (m >> (v as u16)) & 1 == 1
}

/// A well-formed mask only uses the bits of the digits 1..=9.
pub open spec fn mask_wf(m: u16) -> bool {
    m & 1 == 0 && m >> 10 == 0
}

/// How many digits from `v` upward the mask holds.
pub open spec fn mask_count_from(m: u16, v: u8) -> nat
    decreases 10 - v,
{
    if v >= 10 {
        0
    } else {
        (if cand_has(m, v) {
            1nat
        } else {
            0nat
        }) + mask_count_from(m, (v + 1) as u8)
    }
}

/// How many digits the mask holds.
pub open spec fn mask_count(m: u16) -> nat {
    mask_count_from(m, 1)
}

proof fn lemma_bv_or_bit(m: u16, v: u16, w: u16)
    requires
        v <= 15,
        w <= 15,
    ensures
        v == w ==> ((m | (1u16 << v)) >> w) & 1 == 1,
        v != w ==> ((m | (1u16 << v)) >> w) & 1 == (m >> w) & 1,
{
    assert(v == w ==> ((m | (1u16 << v)) >> w) & 1 == 1) by (bit_vector)
        requires v <= 15 && w <= 15;
    assert(v != w ==> ((m | (1u16 << v)) >> w) & 1 == (m >> w) & 1) by (bit_vector)
        requires v <= 15 && w <= 15;
}

proof fn lemma_bv_clear_bit(m: u16, v: u16, w: u16)
    requires
        v <= 15,
        w <= 15,
    ensures
        v == w ==> ((m & !(1u16 << v)) >> w) & 1 == 0,
        v != w ==> ((m & !(1u16 << v)) >> w) & 1 == (m >> w) & 1,
{
    assert(v == w ==> ((m & !(1u16 << v)) >> w) & 1 == 0) by (bit_vector)
        requires v <= 15 && w <= 15;
    assert(v != w ==> ((m & !(1u16 << v)) >> w) & 1 == (m >> w) & 1) by (bit_vector)
        requires v <= 15 && w <= 15;
}

proof fn lemma_bv_or_wf(m: u16, v: u16)
    requires
        1 <= v <= 9,
        m & 1 == 0,
        m >> 10 == 0,
    ensures
        (m | (1u16 << v)) & 1 == 0,
        (m | (1u16 << v)) >> 10 == 0,
{
    assert((m | (1u16 << v)) & 1 == 0) by (bit_vector)
        requires 1 <= v <= 9 && m & 1 == 0;
    assert((m | (1u16 << v)) >> 10 == 0) by (bit_vector)
        requires 1 <= v <= 9 && m >> 10 == 0;
}

proof fn lemma_bv_clear_wf(m: u16, v: u16)
    requires
        m & 1 == 0,
        m >> 10 == 0,
    ensures
        (m & !(1u16 << v)) & 1 == 0,
        (m & !(1u16 << v)) >> 10 == 0,
{
    assert((m & !(1u16 << v)) & 1 == 0) by (bit_vector)
        requires m & 1 == 0;
    assert((m & !(1u16 << v)) >> 10 == 0) by (bit_vector)
        requires m >> 10 == 0;
}

/// The empty candidate set.
pub fn mask_none() -> (r: u16)
    ensures
        mask_wf(r),
        forall|v: u8| !cand_has(r, v),
{
    proof {
        assert(0u16 & 1 == 0 && 0u16 >> 10 == 0) by (bit_vector);
        assert forall|v: u8| !cand_has(0u16, v) by {
            if 1 <= v <= 9 {
                assert((0u16 >> (v as u16)) & 1 == 0) by (bit_vector);
            }
        }
    }
    0
}

/// Whether digit `v` is in the mask.
pub fn mask_has(m: u16, v: u8) -> (r: bool)
    ensures
        r == cand_has(m, v),
{
    if 1 <= v && v <= 9 {
        (m >> (v as u16)) & 1 == 1
    } else {
        false
    }
}

/// Add digit `v` to the mask.
pub fn mask_add(m: u16, v: u8) -> (r: u16)
    requires
        1 <= v <= 9,
    ensures
        forall|w: u8| cand_has(r, w) == (cand_has(m, w) || w == v),
        mask_wf(m) ==> mask_wf(r),
{
    let r = m | (1u16 << (v as u16));
    proof {
        assert forall|w: u8| cand_has(r, w) == (cand_has(m, w) || w == v) by {
            if 1 <= w <= 9 {
                lemma_bv_or_bit(m, v as u16, w as u16);
            }
        }
        if mask_wf(m) {
            lemma_bv_or_wf(m, v as u16);
        }
    }
    r
}

/// Remove digit `v` from the mask.
pub fn mask_remove(m: u16, v: u8) -> (r: u16)
    requires
        1 <= v <= 9,
    ensures
        forall|w: u8| cand_has(r, w) == (cand_has(m, w) && w != v),
        mask_wf(m) ==> mask_wf(r),
        !cand_has(m, v) ==> r == m,
{
    let r = m & !(1u16 << (v as u16));
    proof {
        if !cand_has(m, v) {
            assert(m & !(1u16 << (v as u16)) == m) by (bit_vector)
                requires (m >> (v as u16)) & 1 != 1 && 1 <= v <= 9;
        }
        assert forall|w: u8| cand_has(r, w) == (cand_has(m, w) && w != v) by {
            if 1 <= w <= 9 {
                lemma_bv_clear_bit(m, v as u16, w as u16);
            }
        }
        if mask_wf(m) {
            lemma_bv_clear_wf(m, v as u16);
        }
    }
    r
}

proof fn lemma_mask_count_from_bound(m: u16, v: u8)
    requires
        v <= 10,
    ensures
        mask_count_from(m, v) <= 10 - v,
    decreases 10 - v,
{
    if v < 10 {
        lemma_mask_count_from_bound(m, (v + 1) as u8);
    }
}

/// How many digits the mask holds.
pub fn mask_size(m: u16) -> (r: usize)
    ensures
        r == mask_count(m),
{
    let mut r: usize = 0;
    let mut v: u8 = 1;
    while v <= 9
        invariant
            1 <= v <= 10,
            r <= 9,
            r + mask_count_from(m, v) == mask_count(m),
        decreases 10 - v,
    {
        proof {
            lemma_mask_count_from_bound(m, 1);
        }
        if mask_has(m, v) {
            r = r + 1;
        }
        v = v + 1;
    }
    r
}

/// The digits of the mask, in increasing order.
pub fn mask_to_vec(m: u16) -> (r: Vec<u8>)
    ensures
        forall|v: u8| r@.contains(v) == cand_has(m, v),
        forall|i: int, j: int| 0 <= i < j < r@.len() ==> r@[i] < r@[j],
        forall|i: int| 0 <= i < r@.len() ==> 1 <= #[trigger] r@[i] <= 9,
        r@.len() == mask_count(m),
{
    let mut r: Vec<u8> = Vec::new();
    let mut v: u8 = 1;
    while v <= 9
        invariant
            1 <= v <= 10,
            forall|w: u8| r@.contains(w) == (cand_has(m, w) && w < v),
            forall|i: int, j: int| 0 <= i < j < r@.len() ==> r@[i] < r@[j],
            forall|i: int| 0 <= i < r@.len() ==> 1 <= #[trigger] r@[i] < v,
            r@.len() + mask_count_from(m, v) == mask_count(m),
        decreases 10 - v,
    {
        if mask_has(m, v) {
            let ghost old_r = r@;
            r.push(v);
            proof {
                assert forall|w: u8| r@.contains(w) == (cand_has(m, w) && w < v + 1) by {
                    if old_r.contains(w) || w == v {
                        assert(r@.contains(w)) by {
                            if w == v {
                                assert(r@[r@.len() - 1] == v);
                            } else {
                                let i = choose|i: int| 0 <= i < old_r.len() && old_r[i] == w;
                                assert(r@[i] == w);
                            }
                        }
                    }
                    if r@.contains(w) {
                        let i = choose|i: int| 0 <= i < r@.len() && r@[i] == w;
                        if i < old_r.len() {
                            assert(old_r.contains(w)) by {
                                assert(old_r[i] == w);
                            }
                        }
                    }
                }
            }
        }
        v = v + 1;
    }
    r
}

/// The mask holding exactly the digits listed in `c`.
pub fn mask_from_vec(c: &Vec<u8>) -> (r: u16)
    requires
        forall|i: int| 0 <= i < c@.len() ==> 1 <= #[trigger] c@[i] <= 9,
    ensures
        mask_wf(r),
        forall|v: u8| cand_has(r, v) == c@.contains(v),
{
    let mut r: u16 = mask_none();
    let mut i: usize = 0;
    while i < c.len()
        invariant
            i <= c@.len(),
            mask_wf(r),
            forall|j: int| 0 <= j < c@.len() ==> 1 <= #[trigger] c@[j] <= 9,
            forall|v: u8| cand_has(r, v) == exists|j: int| 0 <= j < i && c@[j] == v,
        decreases c@.len() - i,
    {
        r = mask_add(r, c[i]);
        proof {
            assert forall|v: u8| cand_has(r, v) implies exists|j: int| 0 <= j < i + 1 && c@[j] == v by {
                if v == c@[i as int] {
                    assert(c@[i as int] == v);
                }
            }
        }
        i = i + 1;
    }
    r
}

} // verus!
