//! Selection of the best-ranked entries of a table: highest key first, and
//! among equal keys the earlier position first.
use vstd::prelude::*;

verus! {

/// Entry `a` ranks before entry `b`.
pub open spec fn ranks_before(keys: Seq<int>, a: int, b: int) -> bool {
    keys[a] > keys[b] || (keys[a] == keys[b] && a < b)
}

/// `ids` are the best-ranked eligible entries, best first: at most `limit`
/// of them, and every eligible entry left out ranks after all of them
/// (and is left out only because `limit` entries were taken).
pub open spec fn is_top_selection(keys: Seq<int>, eligible: Seq<bool>, limit: int, ids: Seq<int>) -> bool {
    &&& ids.len() <= limit
    &&& forall|i: int|
        0 <= i < ids.len() ==> 0 <= #[trigger] ids[i] < keys.len() && eligible[ids[i]]
    &&& forall|i: int, j: int|
        0 <= i < j < ids.len() ==> ranks_before(keys, #[trigger] ids[i], #[trigger] ids[j])
    &&& forall|c: int|
        0 <= c < keys.len() && #[trigger] eligible[c] && !ids.contains(c) ==> ids.len() == limit
            && forall|i: int| 0 <= i < ids.len() ==> ranks_before(keys, #[trigger] ids[i], c)
}

pub open spec fn keys_view(keys: Seq<i128>) -> Seq<int> {
    keys.map_values(|k: i128| k as int)
}

pub open spec fn indices_view(ids: Seq<usize>) -> Seq<int> {
    ids.map_values(|i: usize| i as int)
}

/// Positions of the best-ranked eligible entries, best first, at most `limit`.
pub fn top_selection(keys: &Vec<i128>, eligible: &Vec<bool>, limit: usize) -> (r: Vec<usize>)
    requires
        keys@.len() == eligible@.len(),
    ensures
        is_top_selection(keys_view(keys@), eligible@, limit as int, indices_view(r@)),
{
    let ghost ks = keys_view(keys@);
    let n = keys.len();
    let mut out: Vec<usize> = Vec::new();
    while out.len() < limit
        invariant
            n == keys@.len(),
            n == eligible@.len(),
            ks == keys_view(keys@),
            out@.len() <= limit,
            forall|i: int| 0 <= i < out@.len() ==> 0 <= #[trigger] out@[i] < n && eligible@[out@[i] as int],
            forall|i: int, j: int|
                0 <= i < j < out@.len() ==> ranks_before(ks, #[trigger] out@[i] as int, #[trigger] out@[j] as int),
            forall|c: int|
                0 <= c < n && #[trigger] eligible@[c] && !indices_view(out@).contains(c) ==> forall|i: int|
                    0 <= i < out@.len() ==> ranks_before(ks, #[trigger] out@[i] as int, c),
        decreases limit - out@.len(),
    {
        let has_prev = out.len() > 0;
        let prev: usize = if has_prev {
            out[out.len() - 1]
        } else {
            0
        };
        let mut best: usize = 0;
        let mut found = false;
        let mut j: usize = 0;
        while j < n
            invariant
                n == keys@.len(),
                n == eligible@.len(),
                ks == keys_view(keys@),
                j <= n,
                has_prev == (out@.len() > 0),
                has_prev ==> prev == out@[out@.len() - 1] && prev < n,
                found ==> best < n && eligible@[best as int] && (!has_prev || ranks_before(ks, prev as int, best as int)),
                forall|c: int|
                    0 <= c < j && #[trigger] eligible@[c] && (!has_prev || ranks_before(ks, prev as int, c))
                        ==> found && (c == best || ranks_before(ks, best as int, c)),
            decreases n - j,
        {
            if eligible[j] {
                let after_prev = !has_prev || keys[prev] > keys[j] || (keys[prev] == keys[j] && prev < j);
                if after_prev && (!found || keys[j] > keys[best] || (keys[j] == keys[best] && j < best)) {
                    best = j;
                    found = true;
                }
            }
            j = j + 1;
        }
        if !found {
            proof {
                assert forall|c: int|
                    0 <= c < n && #[trigger] eligible@[c] && !indices_view(out@).contains(c) implies out@.len() == limit by {
                    if has_prev {
                        let last = out@.len() - 1;
                        assert(ranks_before(ks, out@[last] as int, c));
                    }
                }
            }
            return out;
        }
        proof {
            if has_prev {
                let last = out@.len() - 1;
                assert forall|i: int| 0 <= i < out@.len() implies out@[i] != best by {
                    if i < last {
                        assert(ranks_before(ks, out@[i] as int, out@[last] as int));
                    }
                }
                assert(!indices_view(out@).contains(best as int)) by {
                    if indices_view(out@).contains(best as int) {
                        let i = choose|i: int| 0 <= i < indices_view(out@).len() && indices_view(out@)[i] == best as int;
                        assert(out@[i] == best);
                    }
                }
            }
        }
        let ghost old_out = out@;
        out.push(best);
        proof {
            assert(indices_view(out@) =~= indices_view(old_out).push(best as int));
            assert(indices_view(out@)[out@.len() - 1] == best as int);
            assert forall|c: int|
                0 <= c < n && #[trigger] eligible@[c] && !indices_view(out@).contains(c) implies forall|i: int|
                    0 <= i < out@.len() ==> ranks_before(ks, #[trigger] out@[i] as int, c) by {
                assert(c != best);
                assert(!indices_view(old_out).contains(c)) by {
                    if indices_view(old_out).contains(c) {
                        let i = choose|i: int| 0 <= i < indices_view(old_out).len() && indices_view(old_out)[i] == c;
                        assert(indices_view(out@)[i] == c);
                    }
                }
                if has_prev {
                    let last = old_out.len() - 1;
                    assert(ranks_before(ks, old_out[last] as int, c));
                }
                assert forall|i: int| 0 <= i < out@.len() implies ranks_before(ks, #[trigger] out@[i] as int, c) by {
                    if i < old_out.len() {
                        assert(out@[i] == old_out[i]);
                    }
                }
            }
            assert forall|i: int, j: int|
                0 <= i < j < out@.len() implies ranks_before(ks, #[trigger] out@[i] as int, #[trigger] out@[j] as int) by {
                if j == out@.len() - 1 && i < old_out.len() {
                    assert(out@[i] == old_out[i]);
                    assert(!indices_view(old_out).contains(best as int));
                }
            }
        }
    }
    proof {
        assert forall|c: int|
            0 <= c < n && #[trigger] eligible@[c] && !indices_view(out@).contains(c) implies out@.len() == limit by {}
        assert(indices_view(out@).len() == out@.len());
        assert forall|i: int| 0 <= i < out@.len() implies #[trigger] indices_view(out@)[i] == out@[i] as int by {}
    }
    out
}

} // verus!
