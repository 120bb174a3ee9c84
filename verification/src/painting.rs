//! What layering does to the pixels: the upper layer is painted over the lower one.
use vstd::prelude::*;

use crate::color::Color;
use crate::layering::{reach, reach_computable, merge_rows, layer_row, padded_row, can_layer, part_before, part_after};
use crate::screen_points::OptimisedScreenPoint;
use crate::sorting::{SortKey, stable_sort, sorted_by_key, pairwise, lemma_sort_contains, lemma_sort_sorted, lemma_sort_pairwise};

verus! {

/// The run covers column `p`.
pub open spec fn covers(a: OptimisedScreenPoint, p: int) -> bool {
    a.x <= p <= reach(a)
}

/// Some run of the row covers column `p` with colour `c`.
pub open spec fn painted(s: Seq<OptimisedScreenPoint>, p: int, c: Color) -> bool {
    exists|i: int| 0 <= i < s.len() && #[trigger] covers(s[i], p) && s[i].color == c
}

/// Some run of the row covers column `p`.
pub open spec fn covered(s: Seq<OptimisedScreenPoint>, p: int) -> bool {
    exists|i: int| 0 <= i < s.len() && #[trigger] covers(s[i], p)
}

/// Two runs share no column.
pub open spec fn apart(a: OptimisedScreenPoint, b: OptimisedScreenPoint) -> bool {
    a.occurence_length == 0 || b.occurence_length == 0 || reach(a) < b.x || reach(b) < a.x
}

/// No two runs of the row share a column, and each run's last column fits in `u32`.
pub open spec fn plain_row(s: Seq<OptimisedScreenPoint>) -> bool {
    &&& pairwise(s, |a: OptimisedScreenPoint, b: OptimisedScreenPoint| apart(a, b))
    &&& forall|i: int| 0 <= i < s.len() ==> reach_computable(#[trigger] s[i])
}

/// Each run lies left of every non-empty run after it.
pub open spec fn ordered(s: Seq<OptimisedScreenPoint>) -> bool {
    forall|i: int, j: int|
        0 <= i < j < s.len() && s[j].occurence_length > 0 ==> reach(#[trigger] s[i]) < #[trigger] s[j].x
}

/// Every non-empty run starts right of column `b`.
pub open spec fn starts_after(s: Seq<OptimisedScreenPoint>, b: int) -> bool {
    forall|i: int| 0 <= i < s.len() && s[i].occurence_length > 0 ==> #[trigger] s[i].x > b
}

pub open spec fn all_computable(s: Seq<OptimisedScreenPoint>) -> bool {
    forall|i: int| 0 <= i < s.len() ==> reach_computable(#[trigger] s[i])
}

proof fn lemma_painted_head(s: Seq<OptimisedScreenPoint>, p: int, c: Color)
    requires
        s.len() > 0,
    ensures
        painted(s, p, c) <==> (covers(s[0], p) && s[0].color == c) || painted(s.drop_first(), p, c),
        covered(s, p) <==> covers(s[0], p) || covered(s.drop_first(), p),
{
    let t = s.drop_first();
    if painted(s, p, c) {
        let i = choose|i: int| 0 <= i < s.len() && #[trigger] covers(s[i], p) && s[i].color == c;
        if i > 0 {
            assert(t[i - 1] == s[i]);
            assert(covers(t[i - 1], p));
        }
    }
    if painted(t, p, c) {
        let i = choose|i: int| 0 <= i < t.len() && #[trigger] covers(t[i], p) && t[i].color == c;
        assert(s[i + 1] == t[i]);
        assert(covers(s[i + 1], p));
    }
    if covers(s[0], p) && s[0].color == c {
        assert(covers(s[0], p));
    }
    if covered(s, p) {
        let i = choose|i: int| 0 <= i < s.len() && #[trigger] covers(s[i], p);
        if i > 0 {
            assert(t[i - 1] == s[i]);
            assert(covers(t[i - 1], p));
        }
    }
    if covered(t, p) {
        let i = choose|i: int| 0 <= i < t.len() && #[trigger] covers(t[i], p);
        assert(s[i + 1] == t[i]);
        assert(covers(s[i + 1], p));
    }
    if covers(s[0], p) {
        assert(covers(s[0], p));
    }
}

proof fn lemma_cons_head(a: OptimisedScreenPoint, s: Seq<OptimisedScreenPoint>)
    ensures
        (seq![a] + s).len() > 0,
        (seq![a] + s)[0] == a,
        (seq![a] + s).drop_first() == s,
{
    assert((seq![a] + s).drop_first() =~= s);
}

proof fn lemma_not_covered_before(s: Seq<OptimisedScreenPoint>, b: int, p: int)
    requires
        starts_after(s, b),
        p <= b,
    ensures
        !covered(s, p),
{
    if covered(s, p) {
        let i = choose|i: int| 0 <= i < s.len() && #[trigger] covers(s[i], p);
        assert(s[i].occurence_length > 0);
    }
}

proof fn lemma_ordered_tail(s: Seq<OptimisedScreenPoint>)
    requires
        s.len() > 0,
        ordered(s),
    ensures
        ordered(s.drop_first()),
        starts_after(s.drop_first(), reach(s[0])),
{
    let t = s.drop_first();
    assert forall|i: int, j: int|
        0 <= i < j < t.len() && t[j].occurence_length > 0 implies reach(#[trigger] t[i]) < #[trigger] t[j].x by {
        assert(t[i] == s[i + 1] && t[j] == s[j + 1]);
        assert(reach(s[i + 1]) < s[j + 1].x);
    }
    assert forall|i: int| 0 <= i < t.len() && t[i].occurence_length > 0 implies #[trigger] t[i].x > reach(s[0]) by {
        assert(t[i] == s[i + 1]);
        assert(reach(s[0]) < s[i + 1].x);
    }
}

proof fn lemma_ordered_cons(a: OptimisedScreenPoint, s: Seq<OptimisedScreenPoint>)
    requires
        ordered(s),
        starts_after(s, reach(a)),
    ensures
        ordered(seq![a] + s),
{
    let r = seq![a] + s;
    assert forall|i: int, j: int|
        0 <= i < j < r.len() && r[j].occurence_length > 0 implies reach(#[trigger] r[i]) < #[trigger] r[j].x by {
        assert(r[j] == s[j - 1]);
        if i > 0 {
            assert(r[i] == s[i - 1]);
            assert(reach(s[i - 1]) < s[j - 1].x);
        } else {
            assert(s[j - 1].x > reach(a));
        }
    }
}

proof fn lemma_starts_after_cons(a: OptimisedScreenPoint, s: Seq<OptimisedScreenPoint>, b: int)
    requires
        starts_after(s, b),
        a.occurence_length > 0 ==> a.x > b,
    ensures
        starts_after(seq![a] + s, b),
{
    let r = seq![a] + s;
    assert forall|i: int| 0 <= i < r.len() && r[i].occurence_length > 0 implies #[trigger] r[i].x > b by {
        if i > 0 {
            assert(r[i] == s[i - 1]);
        }
    }
}

proof fn lemma_starts_after_tail(s: Seq<OptimisedScreenPoint>, b: int)
    requires
        s.len() > 0,
        starts_after(s, b),
    ensures
        starts_after(s.drop_first(), b),
        s[0].occurence_length > 0 ==> s[0].x > b,
{
    assert forall|i: int| 0 <= i < s.drop_first().len() && s.drop_first()[i].occurence_length > 0 implies #[trigger] s.drop_first()[i].x > b by {
        assert(s.drop_first()[i] == s[i + 1]);
    }
}

proof fn lemma_all_computable_tail(s: Seq<OptimisedScreenPoint>)
    requires
        s.len() > 0,
        all_computable(s),
    ensures
        all_computable(s.drop_first()),
        reach_computable(s[0]),
{
    assert forall|i: int| 0 <= i < s.drop_first().len() implies reach_computable(#[trigger] s.drop_first()[i]) by {
        assert(s.drop_first()[i] == s[i + 1]);
    }
}

/// Sweeping two ordered rows paints the upper row over the lower one, gives an ordered row,
/// and starts no later than the rows it sweeps.
proof fn lemma_merge_paints(lower: Seq<OptimisedScreenPoint>, upper: Seq<OptimisedScreenPoint>)
    requires
        ordered(lower),
        ordered(upper),
        all_computable(lower),
        all_computable(upper),
    ensures
        merge_rows(lower, upper) is Some,
        ordered(merge_rows(lower, upper).unwrap()),
        forall|b: int|
            starts_after(lower, b) && starts_after(upper, b) ==> starts_after(
                #[trigger] merge_rows(lower, upper).unwrap(),
                b,
            ),
        forall|p: int, c: Color|
            #[trigger] painted(merge_rows(lower, upper).unwrap(), p, c) <==> painted(upper, p, c) || (
            !covered(upper, p) && painted(lower, p, c)),
    decreases lower.len() + upper.len(),
{
    let res = merge_rows(lower, upper);
    if lower.len() == 0 {
        assert forall|p: int, c: Color| !painted(lower, p, c) by {}
    } else if upper.len() == 0 {
        assert forall|p: int| !covered(upper, p) by {}
    } else {
        let l = lower[0];
        let u = upper[0];
        let lt = lower.drop_first();
        let ut = upper.drop_first();
        lemma_ordered_tail(lower);
        lemma_ordered_tail(upper);
        lemma_all_computable_tail(lower);
        lemma_all_computable_tail(upper);
        if reach(u) < l.x {
            lemma_merge_paints(lower, ut);
            let r = merge_rows(lower, ut).unwrap();
            lemma_cons_head(u, r);
            assert(starts_after(lower, reach(u))) by {
                assert forall|i: int| 0 <= i < lower.len() && lower[i].occurence_length > 0 implies #[trigger] lower[i].x > reach(u) by {
                    if i > 0 {
                        assert(lt[i - 1] == lower[i]);
                    }
                }
            }
            lemma_ordered_cons(u, r);
            assert forall|b: int| starts_after(lower, b) && starts_after(upper, b) implies starts_after(
                #[trigger] merge_rows(lower, upper).unwrap(), b) by {
                lemma_starts_after_tail(upper, b);
                lemma_starts_after_cons(u, r, b);
            }
            assert forall|p: int, c: Color|
                #[trigger] painted(merge_rows(lower, upper).unwrap(), p, c) <==> painted(upper, p, c) || (
                !covered(upper, p) && painted(lower, p, c)) by {
                lemma_painted_head(seq![u] + r, p, c);
                lemma_painted_head(upper, p, c);
                if covers(u, p) {
                    lemma_not_covered_before(lower, reach(u), p);
                    if painted(lower, p, c) {
                        let i = choose|i: int| 0 <= i < lower.len() && #[trigger] covers(lower[i], p) && lower[i].color == c;
                    }
                }
            }
        } else if reach(l) < u.x {
            lemma_merge_paints(lt, upper);
            let r = merge_rows(lt, upper).unwrap();
            lemma_cons_head(l, r);
            assert(starts_after(upper, reach(l))) by {
                assert forall|i: int| 0 <= i < upper.len() && upper[i].occurence_length > 0 implies #[trigger] upper[i].x > reach(l) by {
                    if i > 0 {
                        assert(ut[i - 1] == upper[i]);
                    }
                }
            }
            lemma_ordered_cons(l, r);
            assert forall|b: int| starts_after(lower, b) && starts_after(upper, b) implies starts_after(
                #[trigger] merge_rows(lower, upper).unwrap(), b) by {
                lemma_starts_after_tail(lower, b);
                lemma_starts_after_cons(l, r, b);
            }
            assert forall|p: int, c: Color|
                #[trigger] painted(merge_rows(lower, upper).unwrap(), p, c) <==> painted(upper, p, c) || (
                !covered(upper, p) && painted(lower, p, c)) by {
                lemma_painted_head(seq![l] + r, p, c);
                lemma_painted_head(lower, p, c);
                if covers(l, p) {
                    lemma_not_covered_before(upper, reach(l), p);
                    lemma_not_covered_before(lt, reach(l), p);
                    if painted(upper, p, c) {
                        let i = choose|i: int| 0 <= i < upper.len() && #[trigger] covers(upper[i], p) && upper[i].color == c;
                    }
                    if painted(lt, p, c) {
                        let i = choose|i: int| 0 <= i < lt.len() && #[trigger] covers(lt[i], p) && lt[i].color == c;
                    }
                }
            }
        } else if reach(l) <= reach(u) {
            lemma_merge_paints(lt, upper);
            let r = merge_rows(lt, upper).unwrap();
            if l.x >= u.x {
                assert forall|b: int| starts_after(lower, b) && starts_after(upper, b) implies starts_after(
                    #[trigger] merge_rows(lower, upper).unwrap(), b) by {
                    lemma_starts_after_tail(lower, b);
                }
                assert forall|p: int, c: Color|
                    #[trigger] painted(merge_rows(lower, upper).unwrap(), p, c) <==> painted(upper, p, c) || (
                    !covered(upper, p) && painted(lower, p, c)) by {
                    lemma_painted_head(lower, p, c);
                    lemma_painted_head(upper, p, c);
                }
            } else {
                let a = part_before(l, u);
                lemma_cons_head(a, r);
                assert(starts_after(lt, reach(a)));
                assert(starts_after(upper, reach(a))) by {
                    assert forall|i: int| 0 <= i < upper.len() && upper[i].occurence_length > 0 implies #[trigger] upper[i].x > reach(a) by {
                        if i > 0 {
                            assert(ut[i - 1] == upper[i]);
                        }
                    }
                }
                lemma_ordered_cons(a, r);
                assert forall|b: int| starts_after(lower, b) && starts_after(upper, b) implies starts_after(
                    #[trigger] merge_rows(lower, upper).unwrap(), b) by {
                    lemma_starts_after_tail(lower, b);
                    lemma_starts_after_cons(a, r, b);
                }
                assert forall|p: int, c: Color|
                    #[trigger] painted(merge_rows(lower, upper).unwrap(), p, c) <==> painted(upper, p, c) || (
                    !covered(upper, p) && painted(lower, p, c)) by {
                    lemma_painted_head(seq![a] + r, p, c);
                    lemma_painted_head(lower, p, c);
                    lemma_painted_head(upper, p, c);
                    if covers(a, p) {
                        lemma_not_covered_before(upper, reach(a), p);
                        lemma_not_covered_before(lt, reach(a), p);
                        if painted(upper, p, c) {
                            let i = choose|i: int| 0 <= i < upper.len() && #[trigger] covers(upper[i], p) && upper[i].color == c;
                        }
                        if painted(lt, p, c) {
                            let i = choose|i: int| 0 <= i < lt.len() && #[trigger] covers(lt[i], p) && lt[i].color == c;
                        }
                    }
                }
            }
        } else {
            let la = part_after(l, u);
            let lower2 = lower.update(0, la);
            assert(lower2.drop_first() =~= lt);
            assert(ordered(lower2)) by {
                assert forall|i: int, j: int|
                    0 <= i < j < lower2.len() && lower2[j].occurence_length > 0 implies reach(#[trigger] lower2[i]) < #[trigger] lower2[j].x by {
                    assert(lower2[j] == lower[j]);
                    if i > 0 {
                        assert(lower2[i] == lower[i]);
                        assert(reach(lower[i]) < lower[j].x);
                    } else {
                        assert(lower[j] == lt[j - 1]);
                    }
                }
            }
            assert(all_computable(lower2)) by {
                assert forall|i: int| 0 <= i < lower2.len() implies reach_computable(#[trigger] lower2[i]) by {
                    if i > 0 {
                        assert(lower2[i] == lower[i]);
                    }
                }
            }
            lemma_merge_paints(lower2, ut);
            let r = merge_rows(lower2, ut).unwrap();
            assert(starts_after(lower2, reach(u))) by {
                assert forall|i: int| 0 <= i < lower2.len() && lower2[i].occurence_length > 0 implies #[trigger] lower2[i].x > reach(u) by {
                    if i > 0 {
                        assert(lower2[i] == lt[i - 1]);
                    }
                }
            }
            assert(starts_after(r, reach(u)));
            if l.x >= u.x {
                lemma_cons_head(u, r);
                lemma_ordered_cons(u, r);
                assert forall|b: int| starts_after(lower, b) && starts_after(upper, b) implies starts_after(
                    #[trigger] merge_rows(lower, upper).unwrap(), b) by {
                    lemma_starts_after_tail(upper, b);
                    lemma_starts_after_tail(lower, b);
                    assert(starts_after(lower2, b)) by {
                        assert forall|i: int| 0 <= i < lower2.len() && lower2[i].occurence_length > 0 implies #[trigger] lower2[i].x > b by {
                            if i > 0 {
                                assert(lower2[i] == lt[i - 1]);
                            }
                        }
                    }
                    lemma_starts_after_cons(u, r, b);
                }
                assert forall|p: int, c: Color|
                    #[trigger] painted(merge_rows(lower, upper).unwrap(), p, c) <==> painted(upper, p, c) || (
                    !covered(upper, p) && painted(lower, p, c)) by {
                    lemma_painted_head(seq![u] + r, p, c);
                    lemma_painted_head(upper, p, c);
                    lemma_painted_head(lower, p, c);
                    lemma_painted_head(lower2, p, c);
                    if covers(u, p) {
                        lemma_not_covered_before(lower2, reach(u), p);
                        lemma_not_covered_before(ut, reach(u), p);
                        lemma_not_covered_before(lt, reach(u), p);
                        if painted(lower2, p, c) {
                            let i = choose|i: int| 0 <= i < lower2.len() && #[trigger] covers(lower2[i], p) && lower2[i].color == c;
                        }
                        if painted(ut, p, c) {
                            let i = choose|i: int| 0 <= i < ut.len() && #[trigger] covers(ut[i], p) && ut[i].color == c;
                        }
                    }
                }
            } else {
                let a = part_before(l, u);
                let r2 = seq![u] + r;
                lemma_cons_head(u, r);
                lemma_cons_head(a, r2);
                lemma_ordered_cons(u, r);
                assert(starts_after(r2, reach(a))) by {
                    lemma_starts_after_cons(u, r, reach(a));
                }
                lemma_ordered_cons(a, r2);
                assert(res == Some(seq![a] + r2));
                assert forall|b: int| starts_after(lower, b) && starts_after(upper, b) implies starts_after(
                    #[trigger] merge_rows(lower, upper).unwrap(), b) by {
                    lemma_starts_after_tail(upper, b);
                    lemma_starts_after_tail(lower, b);
                    assert(starts_after(lower2, b)) by {
                        assert forall|i: int| 0 <= i < lower2.len() && lower2[i].occurence_length > 0 implies #[trigger] lower2[i].x > b by {
                            if i > 0 {
                                assert(lower2[i] == lt[i - 1]);
                            }
                        }
                    }
                    lemma_starts_after_cons(u, r, b);
                    lemma_starts_after_cons(a, r2, b);
                }
                assert forall|p: int, c: Color|
                    #[trigger] painted(merge_rows(lower, upper).unwrap(), p, c) <==> painted(upper, p, c) || (
                    !covered(upper, p) && painted(lower, p, c)) by {
                    lemma_painted_head(seq![a] + r2, p, c);
                    lemma_painted_head(r2, p, c);
                    lemma_painted_head(upper, p, c);
                    lemma_painted_head(lower, p, c);
                    lemma_painted_head(lower2, p, c);
                    if covers(u, p) || covers(a, p) {
                        lemma_not_covered_before(lower2, reach(u), p);
                        lemma_not_covered_before(ut, reach(u), p);
                        lemma_not_covered_before(lt, reach(u), p);
                        if painted(lower2, p, c) {
                            let i = choose|i: int| 0 <= i < lower2.len() && #[trigger] covers(lower2[i], p) && lower2[i].color == c;
                        }
                        if painted(ut, p, c) {
                            let i = choose|i: int| 0 <= i < ut.len() && #[trigger] covers(ut[i], p) && ut[i].color == c;
                        }
                        if painted(r, p, c) {
                            let i = choose|i: int| 0 <= i < r.len() && #[trigger] covers(r[i], p) && r[i].color == c;
                        }
                    }
                }
            }
        }
    }
}

proof fn lemma_same_elements(s: Seq<OptimisedScreenPoint>, t: Seq<OptimisedScreenPoint>)
    requires
        forall|x: OptimisedScreenPoint| #[trigger] s.contains(x) <==> t.contains(x),
    ensures
        forall|p: int, c: Color| #[trigger] painted(s, p, c) <==> painted(t, p, c),
        forall|p: int| #[trigger] covered(s, p) <==> covered(t, p),
        all_computable(s) ==> all_computable(t),
{
    assert forall|p: int, c: Color| #[trigger] painted(s, p, c) <==> painted(t, p, c) by {
        if painted(s, p, c) {
            let i = choose|i: int| 0 <= i < s.len() && #[trigger] covers(s[i], p) && s[i].color == c;
            assert(s.contains(s[i]));
            assert(t.contains(s[i]));
            let j = choose|j: int| 0 <= j < t.len() && t[j] == s[i];
            assert(covers(t[j], p));
        }
        if painted(t, p, c) {
            let i = choose|i: int| 0 <= i < t.len() && #[trigger] covers(t[i], p) && t[i].color == c;
            assert(t.contains(t[i]));
            assert(s.contains(t[i]));
            let j = choose|j: int| 0 <= j < s.len() && s[j] == t[i];
            assert(covers(s[j], p));
        }
    }
    assert forall|p: int| #[trigger] covered(s, p) <==> covered(t, p) by {
        if covered(s, p) {
            let i = choose|i: int| 0 <= i < s.len() && #[trigger] covers(s[i], p);
            assert(s.contains(s[i]));
            assert(t.contains(s[i]));
            let j = choose|j: int| 0 <= j < t.len() && t[j] == s[i];
            assert(covers(t[j], p));
        }
        if covered(t, p) {
            let i = choose|i: int| 0 <= i < t.len() && #[trigger] covers(t[i], p);
            assert(t.contains(t[i]));
            assert(s.contains(t[i]));
            let j = choose|j: int| 0 <= j < s.len() && s[j] == t[i];
            assert(covers(s[j], p));
        }
    }
    if all_computable(s) {
        assert forall|i: int| 0 <= i < t.len() implies reach_computable(#[trigger] t[i]) by {
            assert(t.contains(t[i]));
            assert(s.contains(t[i]));
            let j = choose|j: int| 0 <= j < s.len() && s[j] == t[i];
        }
    }
}

/// A row without overlapping runs, once sorted by column, is ordered.
proof fn lemma_sorted_plain_is_ordered(s: Seq<OptimisedScreenPoint>)
    requires
        sorted_by_key(s),
        pairwise(s, |a: OptimisedScreenPoint, b: OptimisedScreenPoint| apart(a, b)),
    ensures
        ordered(s),
{
    assert forall|i: int, j: int|
        0 <= i < j < s.len() && s[j].occurence_length > 0 implies reach(#[trigger] s[i]) < #[trigger] s[j].x by {
        assert(s[i].sort_key() <= s[j].sort_key());
        assert((|a: OptimisedScreenPoint, b: OptimisedScreenPoint| apart(a, b))(s[i], s[j]));
    }
}

proof fn lemma_ordered_plain(s: Seq<OptimisedScreenPoint>)
    requires
        ordered(s),
    ensures
        pairwise(s, |a: OptimisedScreenPoint, b: OptimisedScreenPoint| apart(a, b)),
{
    assert forall|i: int, j: int| 0 <= i < s.len() && 0 <= j < s.len() && i != j implies
        (|a: OptimisedScreenPoint, b: OptimisedScreenPoint| apart(a, b))(s[i], s[j]) by {
        if i < j {
            if s[j].occurence_length > 0 {
                assert(reach(s[i]) < s[j].x);
            }
        } else {
            if s[i].occurence_length > 0 {
                assert(reach(s[j]) < s[i].x);
            }
        }
    }
}

proof fn lemma_sorted_row(s: Seq<OptimisedScreenPoint>)
    requires
        plain_row(s),
    ensures
        ordered(stable_sort(s)),
        all_computable(stable_sort(s)),
        forall|p: int, c: Color| #[trigger] painted(stable_sort(s), p, c) <==> painted(s, p, c),
        forall|p: int| #[trigger] covered(stable_sort(s), p) <==> covered(s, p),
{
    lemma_sort_contains(s);
    lemma_sort_sorted(s);
    lemma_sort_pairwise(s, |a: OptimisedScreenPoint, b: OptimisedScreenPoint| apart(a, b));
    lemma_sorted_plain_is_ordered(stable_sort(s));
    lemma_same_elements(s, stable_sort(s));
}

/// Layering paints the upper row over the lower row. For rows in which no two runs share a
/// column (and whose runs end within `u32`), the layered row exists, no two of its runs share
/// a column, and it shows colour `c` at column `p` exactly when the upper row does, or when
/// the upper row leaves `p` uncovered and the lower row shows `c` there.
pub proof fn lemma_layer_row_paints_upper_over_lower(
    lower: Seq<OptimisedScreenPoint>,
    upper: Seq<OptimisedScreenPoint>,
)
    requires
        plain_row(lower),
        plain_row(upper),
    ensures
        layer_row(lower, upper) is Some,
        pairwise(
            layer_row(lower, upper).unwrap(),
            |a: OptimisedScreenPoint, b: OptimisedScreenPoint| apart(a, b),
        ),
        forall|p: int, c: Color|
            #[trigger] painted(layer_row(lower, upper).unwrap(), p, c) <==> painted(upper, p, c) || (
            !covered(upper, p) && painted(lower, p, c)),
{
    lemma_sorted_row(lower);
    lemma_sorted_row(upper);
    lemma_merge_paints(stable_sort(lower), stable_sort(upper));
    lemma_ordered_plain(layer_row(lower, upper).unwrap());
}

/// Layering whole layers: when every row of both layers has no two runs sharing a column and
/// the lower layer is not higher than the upper one, `OptimisedScreenPoint::layer` can be
/// called, and each of its rows paints the upper row over the (padded) lower row.
pub proof fn lemma_layer_paints_upper_over_lower(
    lower: Seq<Vec<OptimisedScreenPoint>>,
    upper: Seq<Vec<OptimisedScreenPoint>>,
)
    requires
        lower.len() <= upper.len(),
        forall|i: int| 0 <= i < lower.len() ==> plain_row(#[trigger] lower[i]@),
        forall|i: int| 0 <= i < upper.len() ==> plain_row(#[trigger] upper[i]@),
    ensures
        can_layer(lower, upper),
        forall|i: int, p: int, c: Color|
            0 <= i < upper.len() ==> (#[trigger] painted(
                layer_row(padded_row(lower, i), upper[i]@).unwrap(),
                p,
                c,
            ) <==> painted(upper[i]@, p, c) || (!covered(upper[i]@, p) && painted(
                padded_row(lower, i),
                p,
                c,
            ))),
{
    assert forall|i: int| 0 <= i < upper.len() implies #[trigger] layer_row(padded_row(lower, i), upper[i]@) is Some
        && (forall|p: int, c: Color| #[trigger] painted(
                layer_row(padded_row(lower, i), upper[i]@).unwrap(),
                p,
                c,
            ) <==> painted(upper[i]@, p, c) || (!covered(upper[i]@, p) && painted(
                padded_row(lower, i),
                p,
                c,
            ))) by {
        assert(plain_row(upper[i]@));
        if i < lower.len() {
            assert(plain_row(lower[i]@));
        } else {
            assert(plain_row(padded_row(lower, i)));
        }
        lemma_layer_row_paints_upper_over_lower(padded_row(lower, i), upper[i]@);
    }
}


/// Every run of the row covers at least one column.
pub open spec fn nonempty_runs(s: Seq<OptimisedScreenPoint>) -> bool {
    forall|i: int| 0 <= i < s.len() ==> (#[trigger] s[i]).occurence_length > 0
}

proof fn lemma_nonempty_cons(a: OptimisedScreenPoint, s: Seq<OptimisedScreenPoint>)
    requires
        a.occurence_length > 0,
        nonempty_runs(s),
    ensures
        nonempty_runs(seq![a] + s),
{
    assert forall|i: int| 0 <= i < (seq![a] + s).len() implies (#[trigger] (seq![a] + s)[i]).occurence_length > 0 by {
        if i > 0 {
            assert((seq![a] + s)[i] == s[i - 1]);
        }
    }
}

/// Sweeping rows of non-empty runs gives non-empty runs.
proof fn lemma_merge_nonempty(lower: Seq<OptimisedScreenPoint>, upper: Seq<OptimisedScreenPoint>)
    requires
        merge_rows(lower, upper) is Some,
        nonempty_runs(lower),
        nonempty_runs(upper),
    ensures
        nonempty_runs(merge_rows(lower, upper).unwrap()),
    decreases lower.len() + upper.len(),
{
    if lower.len() > 0 && upper.len() > 0 {
        let l = lower[0];
        let u = upper[0];
        let lt = lower.drop_first();
        let ut = upper.drop_first();
        assert(nonempty_runs(lt)) by {
            assert forall|i: int| 0 <= i < lt.len() implies (#[trigger] lt[i]).occurence_length > 0 by {
                assert(lt[i] == lower[i + 1]);
            }
        }
        assert(nonempty_runs(ut)) by {
            assert forall|i: int| 0 <= i < ut.len() implies (#[trigger] ut[i]).occurence_length > 0 by {
                assert(ut[i] == upper[i + 1]);
            }
        }
        assert(l.occurence_length > 0 && u.occurence_length > 0);
        if reach(u) < l.x {
            lemma_merge_nonempty(lower, ut);
            lemma_nonempty_cons(u, merge_rows(lower, ut).unwrap());
        } else if reach(l) < u.x {
            lemma_merge_nonempty(lt, upper);
            lemma_nonempty_cons(l, merge_rows(lt, upper).unwrap());
        } else if reach(l) <= reach(u) {
            lemma_merge_nonempty(lt, upper);
            if l.x < u.x {
                lemma_nonempty_cons(part_before(l, u), merge_rows(lt, upper).unwrap());
            }
        } else {
            let cut = lower.update(0, part_after(l, u));
            assert(part_after(l, u).occurence_length > 0);
            assert(nonempty_runs(cut)) by {
                assert forall|i: int| 0 <= i < cut.len() implies (#[trigger] cut[i]).occurence_length > 0 by {
                    if i > 0 {
                        assert(cut[i] == lower[i]);
                    }
                }
            }
            lemma_merge_nonempty(cut, ut);
            let r = merge_rows(cut, ut).unwrap();
            lemma_nonempty_cons(u, r);
            if l.x < u.x {
                lemma_nonempty_cons(part_before(l, u), seq![u] + r);
            }
        }
    }
}

/// Layering keeps rows in order: when every row of both layers has non-empty runs of which no
/// two share a column (each ending within `u32`) and the lower layer is not higher than the
/// upper one, each row that `OptimisedScreenPoint::layer` gives has non-empty runs sorted by
/// column, each ending before the next begins.
pub proof fn lemma_layer_rows_stay_sorted(
    lower: Seq<Vec<OptimisedScreenPoint>>,
    upper: Seq<Vec<OptimisedScreenPoint>>,
)
    requires
        lower.len() <= upper.len(),
        forall|i: int| 0 <= i < lower.len() ==> plain_row(#[trigger] lower[i]@) && nonempty_runs(lower[i]@),
        forall|i: int| 0 <= i < upper.len() ==> plain_row(#[trigger] upper[i]@) && nonempty_runs(upper[i]@),
    ensures
        can_layer(lower, upper),
        forall|i: int|
            0 <= i < upper.len() ==> nonempty_runs(
                #[trigger] layer_row(padded_row(lower, i), upper[i]@).unwrap(),
            ) && forall|k: int|
                0 <= k && k + 1 < layer_row(padded_row(lower, i), upper[i]@).unwrap().len() ==> layer_row(
                    padded_row(lower, i),
                    upper[i]@,
                ).unwrap()[k].x + layer_row(padded_row(lower, i), upper[i]@).unwrap()[k].occurence_length
                    <= layer_row(padded_row(lower, i), upper[i]@).unwrap()[k + 1].x,
{
    lemma_layer_paints_upper_over_lower(lower, upper);
    assert forall|i: int| 0 <= i < upper.len() implies nonempty_runs(
        #[trigger] layer_row(padded_row(lower, i), upper[i]@).unwrap(),
    ) && forall|k: int|
        0 <= k && k + 1 < layer_row(padded_row(lower, i), upper[i]@).unwrap().len() ==> layer_row(
            padded_row(lower, i),
            upper[i]@,
        ).unwrap()[k].x + layer_row(padded_row(lower, i), upper[i]@).unwrap()[k].occurence_length
            <= layer_row(padded_row(lower, i), upper[i]@).unwrap()[k + 1].x by {
        let lo = padded_row(lower, i);
        let up = upper[i]@;
        assert(plain_row(up) && nonempty_runs(up));
        if i < lower.len() {
            assert(plain_row(lower[i]@) && nonempty_runs(lower[i]@));
        }
        assert(plain_row(lo) && nonempty_runs(lo));
        lemma_sorted_row(lo);
        lemma_sorted_row(up);
        lemma_sort_contains(lo);
        lemma_sort_contains(up);
        let sl = stable_sort(lo);
        let su = stable_sort(up);
        assert(nonempty_runs(sl)) by {
            assert forall|j: int| 0 <= j < sl.len() implies (#[trigger] sl[j]).occurence_length > 0 by {
                assert(sl.contains(sl[j]));
                assert(lo.contains(sl[j]));
            }
        }
        assert(nonempty_runs(su)) by {
            assert forall|j: int| 0 <= j < su.len() implies (#[trigger] su[j]).occurence_length > 0 by {
                assert(su.contains(su[j]));
                assert(up.contains(su[j]));
            }
        }
        lemma_merge_paints(sl, su);
        lemma_merge_nonempty(sl, su);
        let out = layer_row(lo, up).unwrap();
        assert forall|k: int| 0 <= k && k + 1 < out.len() implies out[k].x + out[k].occurence_length
            <= out[k + 1].x by {
            assert(out[k + 1].occurence_length > 0);
            assert(reach(out[k]) < out[k + 1].x);
        }
    }
}

} // verus!
