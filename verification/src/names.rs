//! The order of names, by code points, and sorted lists of names.
use crate::text;
use vstd::prelude::*;
use vstd::string::*;

verus! {

/// `a` comes before `b`: at the first difference its character is smaller, or
/// it is a proper beginning of `b`.
pub open spec fn less(a: Seq<char>, b: Seq<char>) -> bool
    decreases a.len(),
{
    if b.len() == 0 {
        false
    } else if a.len() == 0 {
        true
    } else if a[0] == b[0] {
        less(a.drop_first(), b.drop_first())
    } else {
        a[0] < b[0]
    }
}

/// No name comes before itself.
pub proof fn lemma_less_irreflexive(a: Seq<char>)
    ensures
        !less(a, a),
    decreases a.len(),
{
    if a.len() > 0 {
        lemma_less_irreflexive(a.drop_first());
    }
}

/// The order of names is transitive.
pub proof fn lemma_less_transitive(a: Seq<char>, b: Seq<char>, c: Seq<char>)
    requires
        less(a, b),
        less(b, c),
    ensures
        less(a, c),
    decreases a.len(),
{
    if a.len() > 0 && a[0] == b[0] && b[0] == c[0] {
        lemma_less_transitive(a.drop_first(), b.drop_first(), c.drop_first());
    }
}

/// Of two different names one comes before the other.
pub proof fn lemma_less_total(a: Seq<char>, b: Seq<char>)
    ensures
        less(a, b) || less(b, a) || a == b,
    decreases a.len(),
{
    if a.len() > 0 && b.len() > 0 && a[0] == b[0] {
        lemma_less_total(a.drop_first(), b.drop_first());
        if a.drop_first() == b.drop_first() {
            assert(a == seq![a[0]] + a.drop_first());
            assert(b == seq![b[0]] + b.drop_first());
        }
    } else if a.len() == 0 && b.len() == 0 {
        assert(a == b);
    }
}

/// Each name comes before all that follow it.
pub open spec fn ascending(names: Seq<Seq<char>>) -> bool {
    forall|i: int, j: int| 0 <= i < j < names.len() ==> #[trigger] less(names[i], names[j])
}

/// No name comes before one that it follows.
pub open spec fn sorted(names: Seq<Seq<char>>) -> bool {
    forall|i: int, j: int| 0 <= i < j < names.len() ==> !#[trigger] less(names[j], names[i])
}

/// Whether `a` comes before `b`.
pub fn comes_before(a: &str, b: &str) -> (r: bool)
    ensures
        r == less(a@, b@),
{
    let x = text::chars_of(a);
    let y = text::chars_of(b);
    let mut i: usize = 0;
    assert(x@.skip(0) == x@);
    assert(y@.skip(0) == y@);
    while i < x.len() && i < y.len() && x[i] == y[i]
        invariant
            i <= x.len(),
            i <= y.len(),
            less(x@, y@) == less(x@.skip(i as int), y@.skip(i as int)),
        decreases x.len() - i,
    {
        assert(x@.skip(i as int).drop_first() == x@.skip(i + 1));
        assert(y@.skip(i as int).drop_first() == y@.skip(i + 1));
        i += 1;
    }
    if i == y.len() {
        false
    } else if i == x.len() {
        true
    } else {
        x[i] < y[i]
    }
}

/// Put a name in its place in a sorted list.
fn insert_name(list: &mut Vec<String>, name: String)
    requires
        sorted(text::texts(old(list)@)),
    ensures
        sorted(text::texts(final(list)@)),
        text::texts(final(list)@).to_multiset() == text::texts(old(list)@).to_multiset().insert(
            name@,
        ),
{
    let ghost before = text::texts(list@);
    let ghost x = name@;
    let mut i: usize = list.len();
    while i > 0 && comes_before(name.as_str(), list[i - 1].as_str())
        invariant
            i <= list.len(),
            x == name@,
            before == text::texts(list@),
            forall|k: int| i <= k < before.len() ==> less(x, #[trigger] before[k]),
        decreases i,
    {
        i -= 1;
    }
    list.insert(i, name);
    proof {
        let now = text::texts(list@);
        assert(now == before.insert(i as int, x));
        now.to_multiset_ensures();
        assert(now.remove(i as int) == before);
        assert(now[i as int] == x);
        assert(now.contains(x));
        assert(now.to_multiset() =~= now.to_multiset().remove(x).insert(x));
        assert forall|a: int, b: int| 0 <= a < b < now.len() implies !#[trigger] less(
            now[b],
            now[a],
        ) by {
            lemma_less_irreflexive(x);
            if a < i && b == i {
                assert(now[a] == before[a]);
                if a < i - 1 {
                    assert(!less(before[i - 1], before[a]));
                    if less(x, before[a]) {
                        lemma_less_total(before[i - 1], before[a]);
                        if before[i - 1] != before[a] {
                            lemma_less_transitive(x, before[a], before[i - 1]);
                        }
                    }
                }
            } else if a == i {
                assert(now[b] == before[b - 1]);
                assert(less(x, before[b - 1]));
                if less(before[b - 1], x) {
                    lemma_less_transitive(x, before[b - 1], x);
                }
            } else if b < i {
                assert(now[a] == before[a] && now[b] == before[b]);
            } else if a < i {
                assert(now[a] == before[a] && now[b] == before[b - 1]);
            } else {
                assert(now[a] == before[a - 1] && now[b] == before[b - 1]);
            }
        }
    }
}

/// The names in order, each as often as it is in the list.
pub fn sort_names(list: &[String]) -> (r: Vec<String>)
    ensures
        sorted(text::texts(r@)),
        text::texts(r@).to_multiset() == text::texts(list@).to_multiset(),
{
    let ghost all = text::texts(list@);
    let mut out: Vec<String> = Vec::new();
    let mut i: usize = 0;
    proof {
        assert(all.take(0) == text::texts(out@));
    }
    while i < list.len()
        invariant
            i <= list.len(),
            all == text::texts(list@),
            sorted(text::texts(out@)),
            text::texts(out@).to_multiset() == all.take(i as int).to_multiset(),
        decreases list.len() - i,
    {
        insert_name(&mut out, list[i].as_str().to_owned());
        proof {
            let was = all.take(i as int);
            assert(all.take(i + 1) == was.push(all[i as int]));
            was.to_multiset_ensures();
        }
        i += 1;
    }
    assert(all.take(i as int) == all);
    out
}

/// Names are in the order of a dictionary: one comes before another exactly when they
/// agree up to some place, and there the first one ends or has the smaller character.
pub proof fn law_dictionary_order(a: Seq<char>, b: Seq<char>)
    ensures
        less(a, b) <==> exists|k: int|
            0 <= k <= a.len() && k < b.len() && #[trigger] a.take(k) == b.take(k) && (k == a.len()
                || a[k] < b[k]),
    decreases a.len(),
{
    if b.len() > 0 && a.len() > 0 && a[0] == b[0] {
        let (c, d) = (a.drop_first(), b.drop_first());
        law_dictionary_order(c, d);
        if less(a, b) {
            let k = choose|k: int|
                0 <= k <= c.len() && k < d.len() && #[trigger] c.take(k) == d.take(k) && (k
                    == c.len() || c[k] < d[k]);
            assert forall|i: int| 0 <= i < k + 1 implies a[i] == b[i] by {
                if i > 0 {
                    assert(c.take(k)[i - 1] == d.take(k)[i - 1]);
                }
            }
            assert(a.take(k + 1) == b.take(k + 1));
        }
        if exists|k: int|
            0 <= k <= a.len() && k < b.len() && #[trigger] a.take(k) == b.take(k) && (k == a.len()
                || a[k] < b[k]) {
            let k = choose|k: int|
                0 <= k <= a.len() && k < b.len() && #[trigger] a.take(k) == b.take(k) && (k
                    == a.len() || a[k] < b[k]);
            assert(k > 0);
            assert forall|i: int| 0 <= i < k - 1 implies c[i] == d[i] by {
                assert(a.take(k)[i + 1] == b.take(k)[i + 1]);
            }
            assert(c.take(k - 1) == d.take(k - 1));
        }
    } else if b.len() > 0 {
        assert(a.take(0) == b.take(0));
        if exists|k: int|
            0 <= k <= a.len() && k < b.len() && #[trigger] a.take(k) == b.take(k) && (k == a.len()
                || a[k] < b[k]) {
            let k = choose|k: int|
                0 <= k <= a.len() && k < b.len() && #[trigger] a.take(k) == b.take(k) && (k
                    == a.len() || a[k] < b[k]);
            if k > 0 {
                assert(a.take(k)[0] == b.take(k)[0]);
            }
        }
    }
}

} // verus!
