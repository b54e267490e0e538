//! Lexicographic order on strings, by character code.

use vstd::prelude::*;

verus! {

/// `a` comes strictly before `b`: at the first position where they differ
/// `a` has the smaller character, or `a` is a proper prefix of `b`.
pub open spec fn str_lt(a: Seq<char>, b: Seq<char>) -> bool
    decreases a.len(),
{
    if a.len() == 0 {
        b.len() > 0
    } else if b.len() == 0 {
        false
    } else if a[0] != b[0] {
        a[0] < b[0]
    } else {
        str_lt(a.drop_first(), b.drop_first())
    }
}

/// Each item comes strictly before every later one.
pub open spec fn strictly_sorted(v: Seq<Seq<char>>) -> bool {
    forall|i: int, j: int| 0 <= i < j < v.len() ==> str_lt(#[trigger] v[i], #[trigger] v[j])
}

/// No string comes before itself.
pub proof fn lemma_str_lt_irreflexive(a: Seq<char>)
    ensures
        !str_lt(a, a),
    decreases a.len(),
{
    if a.len() > 0 {
        lemma_str_lt_irreflexive(a.drop_first());
    }
}

/// The order is transitive.
pub proof fn lemma_str_lt_transitive(a: Seq<char>, b: Seq<char>, c: Seq<char>)
    requires
        str_lt(a, b),
        str_lt(b, c),
    ensures
        str_lt(a, c),
    decreases a.len(),
{
    if a.len() > 0 && b.len() > 0 && c.len() > 0 && a[0] == b[0] && b[0] == c[0] {
        lemma_str_lt_transitive(a.drop_first(), b.drop_first(), c.drop_first());
    }
}

/// Of two different strings, one comes before the other.
pub proof fn lemma_str_lt_total(a: Seq<char>, b: Seq<char>)
    requires
        a != b,
    ensures
        str_lt(a, b) || str_lt(b, a),
    decreases a.len(),
{
    if a.len() > 0 && b.len() > 0 {
        if a[0] == b[0] {
            if a.drop_first() == b.drop_first() {
                assert(a =~= seq![a[0]] + a.drop_first());
                assert(b =~= seq![b[0]] + b.drop_first());
            }
            lemma_str_lt_total(a.drop_first(), b.drop_first());
        }
    } else if a.len() == 0 {
        if b.len() == 0 {
            assert(a =~= b);
        }
    }
}

/// Whether `a` comes strictly before `b`.
pub fn str_less(a: &str, b: &str) -> (r: bool)
    ensures
        r == str_lt(a@, b@),
{
    let n = a.unicode_len();
    let m = b.unicode_len();
    let mut i: usize = 0;
    assert(a@.subrange(0, n as int) =~= a@);
    assert(b@.subrange(0, m as int) =~= b@);
    while i < n && i < m && a.get_char(i) == b.get_char(i)
        invariant
            n == a@.len(),
            m == b@.len(),
            i <= n,
            i <= m,
            str_lt(a@, b@) == str_lt(a@.subrange(i as int, n as int), b@.subrange(i as int, m as int)),
        decreases n - i,
    {
        let ghost x = a@.subrange(i as int, n as int);
        let ghost y = b@.subrange(i as int, m as int);
        assert(x.drop_first() =~= a@.subrange(i + 1, n as int));
        assert(y.drop_first() =~= b@.subrange(i + 1, m as int));
        i += 1;
    }
    if i == n {
        i < m
    } else if i == m {
        false
    } else {
        a.get_char(i) < b.get_char(i)
    }
}

/// The distinct strings of `items`, in lexicographic order.
pub fn sorted_unique<'a>(items: &[&'a str]) -> (r: Vec<&'a str>)
    ensures
        strictly_sorted(r@.map_values(|x: &str| x@)),
        r@.map_values(|x: &str| x@).to_set() == items@.map_values(|x: &str| x@).to_set(),
{
    let mut out: Vec<&'a str> = Vec::new();
    let mut i: usize = 0;
    while i < items.len()
        invariant
            i <= items@.len(),
            strictly_sorted(out@.map_values(|x: &str| x@)),
            out@.map_values(|x: &str| x@).to_set() == items@.subrange(0, i as int).map_values(
                |x: &str| x@,
            ).to_set(),
        decreases items@.len() - i,
    {
        let x = items[i];
        let ghost w = out@.map_values(|x: &str| x@);
        let mut p: usize = 0;
        while p < out.len() && str_less(out[p], x)
            invariant
                p <= out@.len(),
                w == out@.map_values(|x: &str| x@),
                forall|k: int| 0 <= k < p ==> str_lt(#[trigger] w[k], x@),
            decreases out@.len() - p,
        {
            p += 1;
        }
        let ghost prev = items@.subrange(0, i as int).map_values(|x: &str| x@);
        let ghost next = items@.subrange(0, i + 1).map_values(|x: &str| x@);
        assert(next =~= prev.push(x@));
        proof {
            prev.lemma_push_to_set_commute(x@);
        }
        if p < out.len() && !str_less(x, out[p]) {
            // x equals out[p]: already present
            proof {
                if w[p as int] != x@ {
                    lemma_str_lt_total(w[p as int], x@);
                }
                assert(w.to_set().contains(x@));
                assert(next.to_set() =~= prev.to_set().insert(x@));
            }
        } else {
            out.insert(p, x);
            proof {
                let w2 = out@.map_values(|x: &str| x@);
                assert(w2 =~= w.insert(p as int, x@));
                if p < w.len() {
                    if w[p as int] == x@ {
                        assert(false);
                    }
                    lemma_str_lt_total(w[p as int], x@);
                }
                assert forall|a: int, b: int| 0 <= a < b < w2.len() implies str_lt(
                    #[trigger] w2[a],
                    #[trigger] w2[b],
                ) by {
                    if b < p {
                    } else if b == p {
                    } else if a < p {
                        assert(w2[b] == w[b - 1]);
                        if b - 1 > p {
                            assert(str_lt(w[p as int], w[b - 1]));
                            lemma_str_lt_transitive(x@, w[p as int], w[b - 1]);
                        }
                        lemma_str_lt_transitive(w[a], x@, w[b - 1]);
                    } else if a == p {
                        assert(w2[b] == w[b - 1]);
                        if b - 1 > p {
                            assert(str_lt(w[p as int], w[b - 1]));
                            lemma_str_lt_transitive(x@, w[p as int], w[b - 1]);
                        }
                    } else {
                        assert(w2[a] == w[a - 1]);
                        assert(w2[b] == w[b - 1]);
                    }
                }
                assert(w2.to_set() =~= w.to_set().insert(x@)) by {
                    assert forall|y: Seq<char>| w2.to_set().contains(y) implies w.to_set().insert(
                        x@,
                    ).contains(y) by {
                        let k = choose|k: int| 0 <= k < w2.len() && w2[k] == y;
                        if k < p {
                            assert(w[k] == y);
                        } else if k > p {
                            assert(w[k - 1] == y);
                        }
                    }
                    assert forall|y: Seq<char>| w.to_set().insert(x@).contains(y) implies w2.to_set().contains(
                        y,
                    ) by {
                        if y == x@ {
                            assert(w2[p as int] == y);
                        } else {
                            let k = choose|k: int| 0 <= k < w.len() && w[k] == y;
                            if k < p {
                                assert(w2[k] == y);
                            } else {
                                assert(w2[k + 1] == y);
                            }
                        }
                    }
                }
                assert(next.to_set() =~= prev.to_set().insert(x@));
            }
        }
        i += 1;
    }
    assert(items@.subrange(0, items@.len() as int) =~= items@);
    out
}

} // verus!
