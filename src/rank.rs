//! Top-K selection: positions ordered by descending key, ties broken by
//! position, cut to K.
use vstd::prelude::*;

verus! {

/// Position `a` comes before position `b`: a larger key, or an equal key and
/// an earlier position.
pub open spec fn ranks_before(keys: Seq<u64>, a: int, b: int) -> bool {
    keys[a] > keys[b] || (keys[a] == keys[b] && a < b)
}

/// `r` lists the first positions of `keys` in ranking order, at most `k` of
/// them, and all of them when fewer than `k` are listed.
pub open spec fn is_top_k(keys: Seq<u64>, k: nat, r: Seq<usize>) -> bool {
    &&& r.len() <= k
    &&& forall|i: int| 0 <= i < r.len() ==> r[i] < keys.len()
    &&& forall|i: int, j: int|
        0 <= i < j < r.len() ==> ranks_before(keys, r[i] as int, r[j] as int)
    &&& forall|p: int, i: int|
        #![trigger ranks_before(keys, r[i] as int, p)]
        0 <= p < keys.len() && !r.contains(p as usize) && 0 <= i < r.len() ==> ranks_before(
            keys,
            r[i] as int,
            p,
        )
    &&& r.len() < k ==> forall|p: int| 0 <= p < keys.len() ==> #[trigger] r.contains(p as usize)
}

/// The positions of the `k` largest keys, largest first; equal keys keep
/// their input order.
pub fn top_k(keys: &Vec<u64>, k: usize) -> (r: Vec<usize>)
    ensures
        is_top_k(keys@, k as nat, r@),
{
    let mut r: Vec<usize> = Vec::new();
    let n = keys.len();
    while r.len() < k
        invariant
            n == keys@.len(),
            r@.len() <= k,
            forall|i: int| 0 <= i < r@.len() ==> r@[i] < n,
            forall|i: int, j: int|
                0 <= i < j < r@.len() ==> ranks_before(keys@, r@[i] as int, r@[j] as int),
            forall|p: int, i: int|
                #![trigger ranks_before(keys@, r@[i] as int, p)]
                0 <= p < n && !r@.contains(p as usize) && 0 <= i < r@.len() ==> ranks_before(
                    keys@,
                    r@[i] as int,
                    p,
                ),
        decreases k - r@.len(),
    {
        let mut best: Option<usize> = None;
        let mut j: usize = 0;
        while j < n
            invariant
                n == keys@.len(),
                j <= n,
                forall|i: int| 0 <= i < r@.len() ==> r@[i] < n,
                forall|i: int, m: int|
                    0 <= i < m < r@.len() ==> ranks_before(keys@, r@[i] as int, r@[m] as int),
                forall|p: int, i: int|
                    #![trigger ranks_before(keys@, r@[i] as int, p)]
                    0 <= p < n && !r@.contains(p as usize) && 0 <= i < r@.len() ==> ranks_before(
                        keys@,
                        r@[i] as int,
                        p,
                    ),
                match best {
                    Some(b) => b < j && !r@.contains(b) && forall|p: int|
                        0 <= p < j && p != b && !r@.contains(p as usize) ==> #[trigger] ranks_before(
                            keys@,
                            b as int,
                            p,
                        ),
                    None => forall|p: int| 0 <= p < j ==> #[trigger] r@.contains(p as usize),
                },
            decreases n - j,
        {
            let fresh = !contains_pos(&r, j);
            let ghost prev = best;
            if fresh {
                match best {
                    None => {
                        best = Some(j);
                    },
                    Some(b) => {
                        if keys[j] > keys[b] {
                            best = Some(j);
                            assert forall|p: int|
                                0 <= p < j + 1 && p != j && !r@.contains(
                                    p as usize,
                                ) implies #[trigger] ranks_before(keys@, j as int, p) by {
                                if p != b {
                                    assert(ranks_before(keys@, b as int, p));
                                }
                            }
                        } else {
                            assert(ranks_before(keys@, b as int, j as int));
                        }
                    },
                }
            }
            j += 1;
        }
        match best {
            None => {
                return r;
            },
            Some(b) => {
                let ghost old_r = r@;
                r.push(b);
                proof {
                    assert forall|p: int, i: int|
                        0 <= p < n && !r@.contains(p as usize) && 0 <= i < r@.len() implies #[trigger] ranks_before(
                        keys@,
                        r@[i] as int,
                        p,
                    ) by {
                        assert(!old_r.contains(p as usize)) by {
                            if old_r.contains(p as usize) {
                                let w = choose|w: int| 0 <= w < old_r.len() && old_r[w] == p as usize;
                                assert(r@[w] == p as usize);
                            }
                        }
                        assert(p != b) by {
                            assert(r@[old_r.len() as int] == b);
                        }
                    }
                    assert forall|p: int| 0 <= p < n && !old_r.contains(p as usize) implies !(
                    #[trigger] r@.contains(p as usize)) || p == b by {
                        if r@.contains(p as usize) {
                            let w = choose|w: int| 0 <= w < r@.len() && r@[w] == p as usize;
                            if w < old_r.len() {
                                assert(old_r[w] == p as usize);
                            }
                        }
                    }
                }
            },
        }
    }
    r
}

/// Whether position `p` is already listed in `r`.
fn contains_pos(r: &Vec<usize>, p: usize) -> (b: bool)
    ensures
        b == r@.contains(p),
{
    let mut i: usize = 0;
    while i < r.len()
        invariant
            i <= r.len(),
            forall|m: int| 0 <= m < i ==> r@[m] != p,
        decreases r.len() - i,
    {
        if r[i] == p {
            assert(r@[i as int] == p);
            return true;
        }
        i += 1;
    }
    false
}

} // verus!
