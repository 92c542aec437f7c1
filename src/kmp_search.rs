use vstd::prelude::*;
use vstd::string::StringSliceAdditionalSpecFns;

verus! {

/// `p` occurs in `s` starting at position `k`.
pub open spec fn occurs_at(s: Seq<u8>, p: Seq<u8>, k: int) -> bool {
    0 <= k && k + p.len() <= s.len() && s.subrange(k, k + p.len()) == p
}

/// The positions below `n` at which `p` occurs in `s`, in increasing order.
pub open spec fn occurrences(s: Seq<u8>, p: Seq<u8>, n: int) -> Seq<usize>
    decreases n,
{
    if n <= 0 {
        Seq::empty()
    } else if occurs_at(s, p, n - 1) {
        occurrences(s, p, n - 1).push((n - 1) as usize)
    } else {
        occurrences(s, p, n - 1)
    }
}

/// The first `t` bytes of `p` are also the last `t` bytes of `p[0..=q]`, with `t <= q`.
pub open spec fn is_border(p: Seq<u8>, q: int, t: int) -> bool {
    0 <= t <= q && p.subrange(0, t) == p.subrange(q + 1 - t, q + 1)
}

/// `pf[q]` is the length of the longest proper border of `p[0..=q]`, for every `q`.
pub open spec fn is_prefix_table(p: Seq<u8>, pf: Seq<usize>) -> bool {
    &&& pf.len() == p.len()
    &&& forall|q: int| 0 <= q < p.len() ==> is_border(p, q, #[trigger] pf[q] as int)
    &&& forall|q: int, t: int| 0 <= q < p.len() && pf[q] < t <= q ==> !#[trigger] is_border(p, q, t)
}

/// Adding positions at which `p` does not occur leaves the list as it was.
proof fn lemma_occurrences_skip(s: Seq<u8>, p: Seq<u8>, a: int, b: int)
    requires
        0 <= a <= b,
        forall|k: int| a <= k < b ==> !occurs_at(s, p, k),
    ensures
        occurrences(s, p, b) == occurrences(s, p, a),
    decreases b - a,
{
    if b > a {
        lemma_occurrences_skip(s, p, a, b - 1);
    }
}

/// Once `s[i-j..i]` matches `p[0..j]`, no occurrence starts strictly between
/// `i - j` and `i - j2` when `j2` is the longest proper border of `p[0..j]`.
proof fn lemma_no_occurrence_between(s: Seq<u8>, p: Seq<u8>, pf: Seq<usize>, i: int, j: int)
    requires
        is_prefix_table(p, pf),
        1 <= j <= p.len(),
        j <= i <= s.len(),
        s.subrange(i - j, i) == p.subrange(0, j),
    ensures
        forall|k: int| i - j < k < i - pf[j - 1] ==> !occurs_at(s, p, k),
{
    let j2 = pf[j - 1] as int;
    assert forall|k: int| i - j < k < i - j2 implies !occurs_at(s, p, k) by {
        if occurs_at(s, p, k) {
            let t = i - k;
            assert(p.subrange(0, t) =~= p.subrange(j - t, j)) by {
                assert forall|x: int| 0 <= x < t implies #[trigger] p[x] == p[j - t + x] by {
                    assert(s.subrange(k, k + p.len())[x] == p[x]);
                    assert(s.subrange(k, k + p.len())[x] == s[k + x]);
                    assert(s.subrange(i - j, i)[j - t + x] == p.subrange(0, j)[j - t + x]);
                    assert(s.subrange(i - j, i)[j - t + x] == s[k + x]);
                }
            }
            assert(is_border(p, j - 1, t));
        }
    }
}

/// The prefix table of `p`, filled by matching `p` against each of its suffixes.
fn prefix(p: &[u8]) -> (v: Vec<usize>)
    ensures
        is_prefix_table(p@, v@),
{
    let m = p.len();
    let mut v: Vec<usize> = Vec::new();
    let mut k: usize = 0;
    while k < m
        invariant
            k <= m,
            m == p@.len(),
            v@.len() == k,
            forall|q: int| 0 <= q < k ==> v@[q] == 0,
        decreases m - k,
    {
        v.push(0);
        k = k + 1;
    }
    let ghost pp = p@;
    proof {
        assert forall|q: int| 0 <= q < m implies is_border(pp, q, #[trigger] v@[q] as int) by {
            assert(pp.subrange(0, 0) =~= pp.subrange(q + 1, q + 1));
        }
    }
    let mut i: usize = 1;
    while i < m
        invariant
            1 <= i <= m || m == 0,
            m == pp.len(),
            pp == p@,
            v@.len() == m,
            forall|q: int| 0 <= q < m ==> is_border(pp, q, #[trigger] v@[q] as int),
            forall|q: int| 0 <= q < m ==> #[trigger] v@[q] == 0 || q + 1 - v@[q] < i,
            forall|q: int, t: int| 0 <= q < m && v@[q] < t <= q && q + 1 - t < i ==> !#[trigger] is_border(pp, q, t),
        decreases m - i,
    {
        let mut j: usize = 0;
        while i + j < m && p[j] == p[i + j]
            invariant
                1 <= i < m,
                m == pp.len(),
                pp == p@,
                i + j <= m,
                v@.len() == m,
                forall|x: int| 0 <= x < j ==> #[trigger] pp[x] == pp[i + x],
                forall|q: int| 0 <= q < m ==> is_border(pp, q, #[trigger] v@[q] as int),
                forall|q: int| 0 <= q < m ==> #[trigger] v@[q] == 0 || q + 1 - v@[q] < (if i <= q < i + j { i + 1 } else { i as int }),
                forall|q: int, t: int| 0 <= q < m && v@[q] < t <= q && q + 1 - t < (if i <= q < i + j { i + 1 } else { i as int })
                    ==> !#[trigger] is_border(pp, q, t),
            decreases m - i - j,
        {
            let q = i + j;
            let ghost old_v = v@;
            proof {
                assert(pp.subrange(0, j + 1) =~= pp.subrange(i as int, q + 1));
                assert(is_border(pp, q as int, j + 1));
            }
            if v[q] < j + 1 {
                v.set(q, j + 1);
                proof {
                    assert(old_v[q as int] == 0);
                }
            }
            proof {
                assert forall|q2: int, t: int| 0 <= q2 < m && v@[q2] < t <= q2 && q2 + 1 - t < (if i <= q2 < i + j + 1 { i + 1 } else { i as int })
                    implies !#[trigger] is_border(pp, q2, t) by {
                    if q2 != q {
                        assert(v@[q2] == old_v[q2]);
                    } else if q2 + 1 - t < i {
                        assert(old_v[q2] <= v@[q2]);
                    }
                }
            }
            j = j + 1;
        }
        proof {
            assert forall|q: int, t: int| 0 <= q < m && v@[q] < t <= q && q + 1 - t < i + 1 implies !#[trigger] is_border(pp, q, t) by {
                if q >= i + j && q + 1 - t == i {
                    assert(i + j < m);
                    assert(pp[j as int] != pp[i + j]);
                    if is_border(pp, q, t) {
                        assert(pp.subrange(0, t)[j as int] == pp.subrange(q + 1 - t, q + 1)[j as int]);
                    }
                }
            }
        }
        i = i + 1;
    }
    v
}

/// Every position of `s`, counted in bytes, at which `p` occurs, in increasing
/// order; occurrences may overlap.
pub fn kmp_search(s: &str, p: &str) -> (v: Vec<usize>)
    requires
        p.spec_bytes().len() > 0,
    ensures
        v@ == occurrences(s.spec_bytes(), p.spec_bytes(), s.spec_bytes().len() as int),
{
    let sb = s.as_bytes();
    let pb = p.as_bytes();
    let ghost ss = sb@;
    let ghost ps = pb@;
    let n = sb.len();
    let m = pb.len();
    let mut v: Vec<usize> = Vec::new();
    let pf = prefix(pb);
    let mut i: usize = 0;
    let mut j: usize = 0;
    proof {
        assert(ss.subrange(0, 0) =~= ps.subrange(0, 0));
    }
    while i < n
        invariant
            n == ss.len(),
            m == ps.len(),
            m > 0,
            ss == sb@,
            ps == pb@,
            is_prefix_table(ps, pf@),
            j < m,
            j <= i <= n,
            ss.subrange(i - j, i as int) == ps.subrange(0, j as int),
            v@ == occurrences(ss, ps, i - j),
        decreases 2 * n - 2 * i + j,
    {
        if pb[j] == sb[i] {
            proof {
                assert(ss.subrange(i - j, i + 1) =~= ps.subrange(0, j + 1)) by {
                    assert forall|x: int| 0 <= x < j implies #[trigger] ss.subrange(i - j, i + 1)[x] == ps.subrange(0, j + 1)[x] by {
                        assert(ss.subrange(i - j, i as int)[x] == ps.subrange(0, j as int)[x]);
                    }
                }
            }
            i = i + 1;
            j = j + 1;
        }
        if j == m {
            proof {
                assert(ps.subrange(0, m as int) =~= ps);
                assert(occurs_at(ss, ps, i - m));
                lemma_no_occurrence_between(ss, ps, pf@, i as int, m as int);
                lemma_occurrences_skip(ss, ps, i - m + 1, i - pf@[m - 1]);
                let j2 = pf@[m - 1] as int;
                assert(is_border(ps, m - 1, j2));
                assert(ss.subrange(i - j2, i as int) =~= ps.subrange(0, j2)) by {
                    assert forall|x: int| 0 <= x < j2 implies #[trigger] ss.subrange(i - j2, i as int)[x] == ps.subrange(0, j2)[x] by {
                        assert(ss.subrange(i - m, i as int)[m - j2 + x] == ps.subrange(0, m as int)[m - j2 + x]);
                        assert(ps.subrange(0, j2)[x] == ps.subrange(m - j2, m as int)[x]);
                    }
                }
            }
            v.push(i - j);
            j = pf[j - 1];
        } else if i < n && pb[j] != sb[i] {
            proof {
                assert(!occurs_at(ss, ps, i - j)) by {
                    if occurs_at(ss, ps, i - j) {
                        assert(ss.subrange(i - j, i - j + m)[j as int] == ps[j as int]);
                    }
                }
            }
            if j != 0 {
                proof {
                    lemma_no_occurrence_between(ss, ps, pf@, i as int, j as int);
                    lemma_occurrences_skip(ss, ps, i - j, i - pf@[j - 1]);
                    let j2 = pf@[j - 1] as int;
                    assert(is_border(ps, j - 1, j2));
                    assert(ss.subrange(i - j2, i as int) =~= ps.subrange(0, j2)) by {
                        assert forall|x: int| 0 <= x < j2 implies #[trigger] ss.subrange(i - j2, i as int)[x] == ps.subrange(0, j2)[x] by {
                            assert(ss.subrange(i - j, i as int)[j - j2 + x] == ps.subrange(0, j as int)[j - j2 + x]);
                            assert(ps.subrange(0, j2)[x] == ps.subrange(j - j2, j as int)[x]);
                        }
                    }
                }
                j = pf[j - 1];
            } else {
                proof {
                    lemma_occurrences_skip(ss, ps, i as int, i + 1);
                    assert(ss.subrange(i + 1, i + 1) =~= ps.subrange(0, 0));
                }
                i = i + 1;
            }
        }
    }
    proof {
        assert forall|k: int| i - j <= k < n implies !occurs_at(ss, ps, k) by {}
        lemma_occurrences_skip(ss, ps, i - j, n as int);
    }
    v
}

} // verus!
