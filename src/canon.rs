//! Canonical form of the model's sets and functions: elements sorted by the
//! value order, with repeats dropped.
use vstd::prelude::*;
use crate::json::{Json, JsonV, cmp_json, compare, items_view};
use crate::order::{lemma_cmp_json_swap, lemma_cmp_json_trans, lemma_cmp_json_zero};

verus! {

/// `s` with `x` added at its place in the order, unless an equal element is
/// already there.
pub open spec fn insert_sorted(s: Seq<JsonV>, x: JsonV) -> Seq<JsonV>
    decreases s.len(),
{
    if s.len() == 0 {
        seq![x]
    } else if cmp_json(s[0], x) < 0 {
        seq![s[0]] + insert_sorted(s.subrange(1, s.len() as int), x)
    } else if cmp_json(s[0], x) == 0 {
        s
    } else {
        seq![x] + s
    }
}

/// The canonical form of a list of elements: each one added in turn.
pub open spec fn canonical(s: Seq<JsonV>) -> Seq<JsonV>
    decreases s.len(),
{
    if s.len() == 0 {
        Seq::empty()
    } else {
        insert_sorted(canonical(s.drop_last()), s.last())
    }
}

proof fn lemma_insert_at(s: Seq<JsonV>, x: JsonV, p: int)
    requires
        0 <= p <= s.len(),
        forall|j: int| 0 <= j < p ==> cmp_json(#[trigger] s[j], x) < 0,
        p < s.len() ==> cmp_json(s[p], x) >= 0,
    ensures
        p < s.len() && cmp_json(s[p], x) == 0 ==> insert_sorted(s, x) == s,
        !(p < s.len() && cmp_json(s[p], x) == 0) ==> insert_sorted(s, x) == s.subrange(0, p) + seq![x]
            + s.subrange(p, s.len() as int),
    decreases p,
{
    if p == 0 {
        assert(s.subrange(0, 0) + seq![x] + s.subrange(0, s.len() as int) =~= seq![x] + s);
    } else {
        let t = s.subrange(1, s.len() as int);
        assert forall|j: int| 0 <= j < p - 1 implies cmp_json(#[trigger] t[j], x) < 0 by {
            assert(t[j] == s[j + 1]);
        }
        assert(cmp_json(s[0], x) < 0);
        lemma_insert_at(t, x, p - 1);
        if !(p < s.len() && cmp_json(s[p], x) == 0) {
            assert(seq![s[0]] + (t.subrange(0, p - 1) + seq![x] + t.subrange(p - 1, t.len() as int))
                =~= s.subrange(0, p) + seq![x] + s.subrange(p, s.len() as int));
        } else {
            assert(seq![s[0]] + t =~= s);
        }
    }
}

/// Sorts `items` by the value order and drops repeats.
pub fn canonical_list(items: &Vec<Json>) -> (r: Vec<Json>)
    ensures
        items_view(r@) == canonical(items_view(items@)),
{
    let mut out: Vec<Json> = Vec::new();
    let mut i: usize = 0;
    proof {
        assert(items_view(items@).subrange(0, 0) =~= Seq::<JsonV>::empty());
        assert(items_view(out@) =~= Seq::<JsonV>::empty());
    }
    while i < items.len()
        invariant
            i <= items.len(),
            items_view(out@) == canonical(items_view(items@).subrange(0, i as int)),
        decreases items.len() - i,
    {
        let ghost before = items_view(out@);
        let ghost x = items@[i as int]@;
        let mut p: usize = 0;
        while p < out.len() && compare(&out[p], &items[i]) < 0
            invariant
                p <= out.len(),
                i < items.len(),
                x == items@[i as int]@,
                before == items_view(out@),
                forall|j: int| 0 <= j < p ==> cmp_json(#[trigger] before[j], x) < 0,
            decreases out.len() - p,
        {
            p = p + 1;
        }
        let same = p < out.len() && compare(&out[p], &items[i]) == 0;
        proof {
            lemma_insert_at(before, x, p as int);
            let pre = items_view(items@).subrange(0, i as int + 1);
            assert(pre.drop_last() =~= items_view(items@).subrange(0, i as int));
        }
        if !same {
            let c = items[i].deep_clone();
            out.insert(p, c);
            proof {
                assert(items_view(out@) =~= before.subrange(0, p as int) + seq![x] + before.subrange(
                    p as int,
                    before.len() as int,
                ));
            }
        }
        i = i + 1;
    }
    proof {
        assert(items_view(items@).subrange(0, items.len() as int) =~= items_view(items@));
    }
    out
}

/// Each element comes before the next in the value order.
pub open spec fn strictly_sorted(s: Seq<JsonV>) -> bool {
    forall|i: int, j: int| 0 <= i < j < s.len() ==> cmp_json(s[i], s[j]) < 0
}

/// The two lists hold the same elements, whatever their order and repeats.
pub open spec fn same_elements(a: Seq<JsonV>, b: Seq<JsonV>) -> bool {
    forall|x: JsonV| #![trigger a.contains(x)] #![trigger b.contains(x)] a.contains(x) <==> b.contains(x)
}

proof fn lemma_insert_sorted(s: Seq<JsonV>, x: JsonV)
    requires
        strictly_sorted(s),
    ensures
        strictly_sorted(insert_sorted(s, x)),
        forall|y: JsonV|
            #![trigger insert_sorted(s, x).contains(y)]
            #![trigger s.contains(y)]
            insert_sorted(s, x).contains(y) <==> (s.contains(y) || y == x),
    decreases s.len(),
{
    let r = insert_sorted(s, x);
    if s.len() == 0 {
        assert(r[0] == x);
    } else {
        let t = s.subrange(1, s.len() as int);
        lemma_cmp_json_zero(s[0], x);
        lemma_cmp_json_swap(s[0], x);
        if cmp_json(s[0], x) < 0 {
            let u = insert_sorted(t, x);
            lemma_insert_sorted(t, x);
            assert(r == seq![s[0]] + u);
            assert forall|y: JsonV| r.contains(y) <==> (s.contains(y) || y == x) by {
                if r.contains(y) {
                    let k = choose|k: int| 0 <= k < r.len() && r[k] == y;
                    if k > 0 {
                        assert(u[k - 1] == y);
                        assert(u.contains(y));
                        if t.contains(y) {
                            let m = choose|m: int| 0 <= m < t.len() && t[m] == y;
                            assert(s[m + 1] == y);
                        }
                    } else {
                        assert(s[0] == y);
                    }
                }
                if s.contains(y) {
                    let k = choose|k: int| 0 <= k < s.len() && s[k] == y;
                    if k > 0 {
                        assert(t[k - 1] == y);
                        assert(t.contains(y));
                        let m = choose|m: int| 0 <= m < u.len() && u[m] == y;
                        assert(r[m + 1] == y);
                    } else {
                        assert(r[0] == y);
                    }
                }
                if y == x {
                    assert(u.contains(y));
                    let m = choose|m: int| 0 <= m < u.len() && u[m] == y;
                    assert(r[m + 1] == y);
                }
            }
            assert forall|i: int, j: int| 0 <= i < j < r.len() implies cmp_json(r[i], r[j]) < 0 by {
                if i > 0 {
                    assert(r[i] == u[i - 1] && r[j] == u[j - 1]);
                } else {
                    assert(r[j] == u[j - 1]);
                    assert(u.contains(r[j]));
                    if t.contains(r[j]) {
                        let m = choose|m: int| 0 <= m < t.len() && t[m] == r[j];
                        assert(s[m + 1] == r[j]);
                    }
                }
            }
        } else if cmp_json(s[0], x) == 0 {
            assert(s[0] == x);
        } else {
            assert(r == seq![x] + s);
            assert forall|y: JsonV| r.contains(y) <==> (s.contains(y) || y == x) by {
                if r.contains(y) {
                    let k = choose|k: int| 0 <= k < r.len() && r[k] == y;
                    if k > 0 {
                        assert(s[k - 1] == y);
                    }
                }
                if s.contains(y) {
                    let k = choose|k: int| 0 <= k < s.len() && s[k] == y;
                    assert(r[k + 1] == y);
                }
                if y == x {
                    assert(r[0] == y);
                }
            }
            assert forall|i: int, j: int| 0 <= i < j < r.len() implies cmp_json(r[i], r[j]) < 0 by {
                if i > 0 {
                    assert(r[i] == s[i - 1] && r[j] == s[j - 1]);
                } else {
                    assert(r[j] == s[j - 1]);
                    if j > 1 {
                        lemma_cmp_json_trans(x, s[0], s[j - 1]);
                    }
                }
            }
        }
    }
}

/// The canonical form is sorted and holds exactly the elements of the list.
pub proof fn lemma_canonical(s: Seq<JsonV>)
    ensures
        strictly_sorted(canonical(s)),
        same_elements(canonical(s), s),
    decreases s.len(),
{
    if s.len() > 0 {
        let p = s.drop_last();
        lemma_canonical(p);
        lemma_insert_sorted(canonical(p), s.last());
        assert forall|y: JsonV| canonical(s).contains(y) <==> s.contains(y) by {
            if p.contains(y) {
                let k = choose|k: int| 0 <= k < p.len() && p[k] == y;
                assert(s[k] == y);
            }
            if s.contains(y) {
                let k = choose|k: int| 0 <= k < s.len() && s[k] == y;
                if k < s.len() - 1 {
                    assert(p[k] == y);
                }
            }
        }
    }
}

proof fn lemma_sorted_unique(a: Seq<JsonV>, b: Seq<JsonV>)
    requires
        strictly_sorted(a),
        strictly_sorted(b),
        same_elements(a, b),
    ensures
        a == b,
    decreases a.len(),
{
    if a.len() == 0 {
        if b.len() > 0 {
            assert(b.contains(b[0]));
        }
        assert(a =~= b);
    } else {
        assert(a.contains(a[0]));
        assert(b.len() > 0);
        assert(b.contains(b[0]));
        let i = choose|i: int| 0 <= i < b.len() && b[i] == a[0];
        let j = choose|j: int| 0 <= j < a.len() && a[j] == b[0];
        if i > 0 && j > 0 {
            lemma_cmp_json_swap(b[0], a[0]);
        }
        if i > 0 && j == 0 {
            lemma_cmp_json_zero(b[0], b[i]);
        }
        if j > 0 && i == 0 {
            lemma_cmp_json_zero(a[0], a[j]);
        }
        assert(a[0] == b[0]);
        let ta = a.subrange(1, a.len() as int);
        let tb = b.subrange(1, b.len() as int);
        assert forall|x: JsonV| ta.contains(x) <==> tb.contains(x) by {
            if ta.contains(x) {
                let k = choose|k: int| 0 <= k < ta.len() && ta[k] == x;
                assert(a[k + 1] == x);
                assert(b.contains(x));
                let m = choose|m: int| 0 <= m < b.len() && b[m] == x;
                lemma_cmp_json_zero(a[0], a[k + 1]);
                if m == 0 {
                    assert(false);
                }
                assert(tb[m - 1] == x);
            }
            if tb.contains(x) {
                let k = choose|k: int| 0 <= k < tb.len() && tb[k] == x;
                assert(b[k + 1] == x);
                assert(a.contains(x));
                let m = choose|m: int| 0 <= m < a.len() && a[m] == x;
                lemma_cmp_json_zero(b[0], b[k + 1]);
                if m == 0 {
                    assert(false);
                }
                assert(ta[m - 1] == x);
            }
        }
        lemma_sorted_unique(ta, tb);
        assert(a =~= b) by {
            assert forall|k: int| 0 <= k < a.len() implies a[k] == b[k] by {
                if k > 0 {
                    assert(a[k] == ta[k - 1]);
                    assert(b[k] == tb[k - 1]);
                }
            }
        }
    }
}

/// Making a list canonical twice gives what making it canonical once gives.
pub proof fn lemma_canonical_idempotent(s: Seq<JsonV>)
    ensures
        canonical(canonical(s)) == canonical(s),
{
    lemma_canonical(s);
    lemma_canonical(canonical(s));
    lemma_sorted_unique(canonical(canonical(s)), canonical(s));
}

/// Lists that hold the same elements, in any order and with any repeats,
/// have one canonical form.
pub proof fn lemma_canonical_congruent(s1: Seq<JsonV>, s2: Seq<JsonV>)
    requires
        same_elements(s1, s2),
    ensures
        canonical(s1) == canonical(s2),
{
    lemma_canonical(s1);
    lemma_canonical(s2);
    lemma_sorted_unique(canonical(s1), canonical(s2));
}

} // verus!
