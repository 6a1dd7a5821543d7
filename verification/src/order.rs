//! Sorted lists without repetition.
use vstd::prelude::*;

verus! {

/// The smaller of two numbers.
pub open spec fn min(a: int, b: int) -> int {
    if a <= b {
        a
    } else {
        b
    }
}

/// The larger of two numbers.
pub open spec fn max(a: int, b: int) -> int {
    if a >= b {
        a
    } else {
        b
    }
}

/// Each element is larger than the one before it.
pub open spec fn ascending(v: Seq<i64>) -> bool {
    forall|i: int, j: int| 0 <= i < j < v.len() ==> v[i] < v[j]
}

/// The values of `v`.
pub open spec fn values(v: Seq<i64>) -> Seq<int> {
    Seq::new(v.len(), |i: int| v[i] as int)
}

/// `r` holds what `v` holds, in ascending order and each value once.
pub open spec fn is_sorted_set(r: Seq<i64>, v: Seq<int>) -> bool {
    &&& ascending(r)
    &&& forall|x: int|
        #![trigger values(r).contains(x)]
        #![trigger v.contains(x)]
        values(r).contains(x) <==> v.contains(x)
}

/// The values of `v` in ascending order, each once.
pub open spec fn sorted_set(v: Seq<int>) -> Seq<i64> {
    choose|r: Seq<i64>| is_sorted_set(r, v)
}

/// There is one ascending list of given values only.
pub proof fn lemma_sorted_set(r: Seq<i64>, v: Seq<int>)
    requires
        is_sorted_set(r, v),
    ensures
        r == sorted_set(v),
{
    lemma_sorted_set_unique(r, sorted_set(v), v);
}

/// Two ascending lists of the same values are the same list.
pub proof fn lemma_sorted_set_unique(a: Seq<i64>, b: Seq<i64>, v: Seq<int>)
    requires
        is_sorted_set(a, v),
        is_sorted_set(b, v),
    ensures
        a == b,
{
    assert forall|x: i64| a.contains(x) <==> b.contains(x) by {
        lemma_values_contains(a, x);
        lemma_values_contains(b, x);
        assert(values(a).contains(x as int) <==> values(b).contains(x as int));
    }
    lemma_ascending_unique(a, b);
}

pub proof fn lemma_values_contains(a: Seq<i64>, x: i64)
    ensures
        values(a).contains(x as int) <==> a.contains(x),
{
    if a.contains(x) {
        let i = choose|i: int| 0 <= i < a.len() && a[i] == x;
        assert(values(a)[i] == x);
    }
    if values(a).contains(x as int) {
        let i = choose|i: int| 0 <= i < values(a).len() && values(a)[i] == x as int;
        assert(a[i] == x);
    }
}

proof fn lemma_ascending_unique(a: Seq<i64>, b: Seq<i64>)
    requires
        ascending(a),
        ascending(b),
        forall|x: i64| a.contains(x) <==> b.contains(x),
    ensures
        a == b,
    decreases a.len(),
{
    if a.len() == 0 {
        if b.len() > 0 {
            assert(b.contains(b[0]));
        }
        assert(a == b);
    } else {
        let x = a.last();
        assert(a.contains(x));
        assert(b.contains(x));
        let y = b.last();
        assert(b.contains(y));
        assert(a.contains(y));
        let i = choose|i: int| 0 <= i < a.len() && a[i] == y;
        let j = choose|j: int| 0 <= j < b.len() && b[j] == x;
        assert(x == y);
        let c = a.drop_last();
        let d = b.drop_last();
        assert forall|z: i64| c.contains(z) <==> d.contains(z) by {
            if c.contains(z) {
                let k = choose|k: int| 0 <= k < c.len() && c[k] == z;
                assert(a[k] == z);
                assert(b.contains(z));
                let l = choose|l: int| 0 <= l < b.len() && b[l] == z;
                assert(l < b.len() - 1);
                assert(d[l] == z);
            }
            if d.contains(z) {
                let k = choose|k: int| 0 <= k < d.len() && d[k] == z;
                assert(b[k] == z);
                assert(a.contains(z));
                let l = choose|l: int| 0 <= l < a.len() && a[l] == z;
                assert(l < a.len() - 1);
                assert(c[l] == z);
            }
        }
        lemma_ascending_unique(c, d);
        assert(a == c.push(x));
        assert(b == d.push(y));
    }
}

/// Put `x` in its place, unless it is there already.
fn insert_sorted(v: &mut Vec<i64>, x: i64)
    requires
        ascending(old(v)@),
    ensures
        ascending(final(v)@),
        forall|y: i64| final(v)@.contains(y) <==> (old(v)@.contains(y) || y == x),
{
    let ghost before = v@;
    let mut i: usize = v.len();
    while i > 0 && v[i - 1] > x
        invariant
            i <= v.len(),
            v@ == before,
            forall|k: int| i <= k < v@.len() ==> v@[k] > x,
        decreases i,
    {
        i -= 1;
    }
    if i > 0 && v[i - 1] == x {
        assert(before.contains(before[i - 1]));
        return ;
    }
    v.insert(i, x);
    proof {
        let now = before.insert(i as int, x);
        assert forall|y: i64| now.contains(y) <==> (before.contains(y) || y == x) by {
            if now.contains(y) {
                let k = choose|k: int| 0 <= k < now.len() && now[k] == y;
                if k < i {
                    assert(before[k] == y);
                } else if k > i {
                    assert(before[k - 1] == y);
                }
            }
            if before.contains(y) {
                let k = choose|k: int| 0 <= k < before.len() && before[k] == y;
                if k < i {
                    assert(now[k] == y);
                } else {
                    assert(now[k + 1] == y);
                }
            }
            assert(now[i as int] == x);
        }
        assert(ascending(now)) by {
            assert forall|a: int, b: int| 0 <= a < b < now.len() implies now[a] < now[b] by {
                if i > 0 {
                    assert(before[i - 1] < x);
                    if a < i - 1 {
                        assert(before[a] < before[i - 1]);
                    }
                }
            }
        }
    }
}

/// The values of `v` in ascending order, each once.
pub fn sort_dedup(v: &[i64]) -> (r: Vec<i64>)
    ensures
        is_sorted_set(r@, values(v@)),
{
    let mut out: Vec<i64> = Vec::new();
    let mut i: usize = 0;
    while i < v.len()
        invariant
            i <= v.len(),
            ascending(out@),
            forall|y: i64| out@.contains(y) <==> v@.take(i as int).contains(y),
        decreases v.len() - i,
    {
        let ghost before = out@;
        insert_sorted(&mut out, v[i]);
        proof {
            let now = v@.take(i + 1);
            let was = v@.take(i as int);
            assert(now == was.push(v@[i as int]));
            assert forall|y: i64| out@.contains(y) <==> now.contains(y) by {
                if was.contains(y) {
                    let k = choose|k: int| 0 <= k < was.len() && was[k] == y;
                    assert(now[k] == y);
                }
                if now.contains(y) {
                    let k = choose|k: int| 0 <= k < now.len() && now[k] == y;
                    if k < i {
                        assert(was[k] == y);
                    }
                }
                assert(now[i as int] == v@[i as int]);
            }
        }
        i += 1;
    }
    proof {
        assert(v@.take(i as int) == v@);
        assert forall|x: int| values(out@).contains(x) <==> values(v@).contains(x) by {
            if values(out@).contains(x) {
                let k = choose|k: int| 0 <= k < out@.len() && values(out@)[k] == x;
                lemma_values_contains(v@, out@[k]);
                assert(out@.contains(out@[k]));
            }
            if values(v@).contains(x) {
                let k = choose|k: int| 0 <= k < v@.len() && values(v@)[k] == x;
                assert(v@.contains(v@[k]));
                lemma_values_contains(out@, v@[k]);
            }
        }
    }
    out
}

/// A copy of the list.
pub fn copy(v: &[i64]) -> (r: Vec<i64>)
    ensures
        r@ == v@,
{
    let mut out: Vec<i64> = Vec::new();
    let mut i: usize = 0;
    while i < v.len()
        invariant
            i <= v.len(),
            out@ == v@.take(i as int),
        decreases v.len() - i,
    {
        out.push(v[i]);
        i += 1;
        assert(v@.take(i as int) == v@.take(i - 1).push(v@[i - 1]));
    }
    assert(v@.take(i as int) == v@);
    out
}

/// Whether `x` is in the list.
pub fn holds(v: &[i64], x: i64) -> (r: bool)
    ensures
        r == v@.contains(x),
{
    let mut i: usize = 0;
    while i < v.len()
        invariant
            i <= v.len(),
            forall|k: int| 0 <= k < i ==> v@[k] != x,
        decreases v.len() - i,
    {
        if v[i] == x {
            return true;
        }
        i += 1;
    }
    false
}

/// A sorted set holds the values of a list and no others, ascending and each once.
pub proof fn law_sorted_set(r: Seq<i64>, v: Seq<int>)
    requires
        is_sorted_set(r, v),
    ensures
        forall|i: int, j: int| 0 <= i < j < r.len() ==> r[i] < r[j],
        forall|x: i64| #[trigger] r.contains(x) <==> v.contains(x as int),
        forall|x: int| #[trigger] v.contains(x) ==> i64::MIN <= x <= i64::MAX,
{
    assert forall|x: i64| #[trigger] r.contains(x) <==> v.contains(x as int) by {
        lemma_values_contains(r, x);
        assert(values(r).contains(x as int) <==> v.contains(x as int));
    }
    assert forall|x: int| #[trigger] v.contains(x) implies i64::MIN <= x <= i64::MAX by {
        assert(values(r).contains(x));
        let i = choose|i: int| 0 <= i < values(r).len() && values(r)[i] == x;
        assert(r[i] == x);
    }
}

} // verus!
