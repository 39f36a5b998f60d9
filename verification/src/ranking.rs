//! Ranking by descending score, stable on ties.
use vstd::prelude::*;

verus! {

/// `order` ranks the positions of `keys`: it holds every position once, a position with a
/// larger key before one with a smaller, and of two positions with equal keys the earlier
/// one first.
pub open spec fn is_ranking(keys: Seq<u128>, order: Seq<usize>) -> bool {
    &&& order.len() == keys.len()
    &&& forall|i: int| 0 <= i < order.len() ==> (#[trigger] order[i]) < keys.len()
    &&& forall|p: usize| p < keys.len() ==> #[trigger] order.contains(p)
    &&& forall|i: int, j: int| 0 <= i < j < order.len() ==> ranks_before(keys, #[trigger] order[i], #[trigger] order[j])
}

/// Position `a` comes before position `b` in the ranking of `keys`.
pub open spec fn ranks_before(keys: Seq<u128>, a: usize, b: usize) -> bool {
    keys[a as int] > keys[b as int] || (keys[a as int] == keys[b as int] && a < b)
}

/// The scores of a ranking never rise from one place to the next.
pub proof fn lemma_ranking_descends(keys: Seq<u128>, order: Seq<usize>, i: int, j: int)
    requires
        is_ranking(keys, order),
        0 <= i <= j < order.len(),
    ensures
        keys[order[i] as int] >= keys[order[j] as int],
{
    if i < j {
        assert(ranks_before(keys, order[i], order[j]));
    }
}

/// A ranking holds no position twice.
pub proof fn lemma_ranking_distinct(keys: Seq<u128>, order: Seq<usize>)
    requires
        is_ranking(keys, order),
    ensures
        order.no_duplicates(),
{
    assert forall|i: int, j: int| 0 <= i < order.len() && 0 <= j < order.len() && i != j implies order[i]
        != order[j] by {
        if i < j {
            assert(ranks_before(keys, order[i], order[j]));
        } else {
            assert(ranks_before(keys, order[j], order[i]));
        }
    }
}

/// The keys fix their ranking.
pub proof fn lemma_ranking_unique(keys: Seq<u128>, a: Seq<usize>, b: Seq<usize>)
    requires
        is_ranking(keys, a),
        is_ranking(keys, b),
    ensures
        a == b,
{
    assert forall|i: int| 0 <= i < a.len() implies a[i] == b[i] by {
        lemma_same_place(keys, a, b, i);
    }
    assert(a =~= b);
}

/// The places before place `i` of a ranking hold exactly the positions that rank before
/// the one at place `i`; so two rankings agree at every place.
proof fn lemma_same_place(keys: Seq<u128>, a: Seq<usize>, b: Seq<usize>, i: int)
    requires
        is_ranking(keys, a),
        is_ranking(keys, b),
        0 <= i < a.len(),
    ensures
        a[i] == b[i],
    decreases i,
{
    assert forall|k: int| 0 <= k < i implies a[k] == b[k] by {
        lemma_same_place(keys, a, b, k);
    }
    lemma_ranking_distinct(keys, a);
    lemma_ranking_distinct(keys, b);
    let x = a[i];
    let y = b[i];
    if x != y {
        assert(b.contains(x));
        let p = choose|p: int| 0 <= p < b.len() && b[p] == x;
        assert(a.contains(y));
        let q = choose|q: int| 0 <= q < a.len() && a[q] == y;
        if p < i {
            assert(a[p] == b[p]);
        }
        if q < i {
            assert(a[q] == b[q]);
        }
        assert(p > i && q > i);
        assert(ranks_before(keys, b[i], b[p]));
        assert(ranks_before(keys, a[i], a[q]));
    }
}

/// Ranks the positions of `keys` by descending key; positions with equal keys keep their
/// order.
pub fn rank_descending(keys: &Vec<u128>) -> (order: Vec<usize>)
    ensures
        is_ranking(keys@, order@),
{
    let mut order: Vec<usize> = Vec::new();
    let mut p: usize = 0;
    while p < keys.len()
        invariant
            p <= keys.len(),
            order.len() == p,
            forall|i: int| 0 <= i < order.len() ==> (#[trigger] order[i]) < p,
            forall|q: usize| q < p ==> #[trigger] order@.contains(q),
            forall|i: int, j: int|
                0 <= i < j < order.len() ==> ranks_before(keys@, #[trigger] order[i], #[trigger] order[j]),
        decreases keys.len() - p,
    {
        let mut at: usize = 0;
        while at < order.len() && keys[order[at]] >= keys[p]
            invariant
                p < keys.len(),
                order.len() == p,
                at <= order.len(),
                forall|i: int| 0 <= i < order.len() ==> (#[trigger] order[i]) < p,
                forall|i: int| 0 <= i < at ==> keys[(#[trigger] order[i]) as int] >= keys[p as int],
            decreases order.len() - at,
        {
            at += 1;
        }
        let ghost before = order@;
        order.insert(at, p);
        proof {
            assert forall|q: usize| q < p + 1 implies #[trigger] order@.contains(q) by {
                if q == p {
                    assert(order[at as int] == p);
                } else {
                    assert(before.contains(q));
                    let i = choose|i: int| 0 <= i < before.len() && before[i] == q;
                    if i < at {
                        assert(order[i] == q);
                    } else {
                        assert(order[i + 1] == q);
                    }
                }
            }
            assert forall|i: int, j: int| 0 <= i < j < order.len() implies ranks_before(
                keys@,
                #[trigger] order[i],
                #[trigger] order[j],
            ) by {
                if j < at {
                    assert(order[i] == before[i] && order[j] == before[j]);
                } else if j == at {
                    assert(order[i] == before[i]);
                    assert(before[i] < p);
                } else if i < at {
                    assert(order[i] == before[i] && order[j] == before[j - 1]);
                } else if i == at {
                    assert(order[j] == before[j - 1]);
                    if at < before.len() {
                        assert(keys[before[at as int] as int] < keys[p as int]);
                        if j - 1 > at {
                            assert(ranks_before(keys@, before[at as int], before[j - 1]));
                        }
                    }
                } else {
                    assert(order[i] == before[i - 1] && order[j] == before[j - 1]);
                }
            }
        }
        p += 1;
    }
    order
}

/// A score that is a quotient: a numerator over a denominator that is not 0.
pub type Ratio = (u128, usize);

/// The quotient `a` is less than the quotient `b`.
pub open spec fn ratio_less(a: Ratio, b: Ratio) -> bool {
    a.0 * b.1 < b.0 * a.1
}

/// Position `a` comes before position `b` in the ranking of `items`: the larger quotient
/// first where `largest_first`, else the smaller; of two equal quotients the earlier position.
pub open spec fn ratio_before(items: Seq<Ratio>, largest_first: bool, a: usize, b: usize) -> bool {
    let x = items[a as int];
    let y = items[b as int];
    (if largest_first {
        ratio_less(y, x)
    } else {
        ratio_less(x, y)
    }) || (x.0 * y.1 == y.0 * x.1 && a < b)
}

/// `order` ranks the positions of `items` by their quotients: it holds every position
/// once, in the order that `ratio_before` gives.
pub open spec fn is_ratio_ranking(items: Seq<Ratio>, largest_first: bool, order: Seq<usize>) -> bool {
    &&& order.len() == items.len()
    &&& forall|i: int| 0 <= i < order.len() ==> (#[trigger] order[i]) < items.len()
    &&& forall|p: usize| p < items.len() ==> #[trigger] order.contains(p)
    &&& forall|i: int, j: int|
        0 <= i < j < order.len() ==> ratio_before(
            items,
            largest_first,
            #[trigger] order[i],
            #[trigger] order[j],
        )
}

/// Quotients are ordered transitively: what is not above a quotient lies below whatever
/// lies above that quotient.
pub proof fn lemma_ratio_order(a: Ratio, b: Ratio, c: Ratio)
    requires
        a.1 > 0,
        b.1 > 0,
        c.1 > 0,
        !ratio_less(b, a),
        ratio_less(b, c),
    ensures
        ratio_less(a, c),
{
    let (a0, a1) = (a.0 as int, a.1 as int);
    let (b0, b1) = (b.0 as int, b.1 as int);
    let (c0, c1) = (c.0 as int, c.1 as int);
    assert(a0 * b1 * c1 <= b0 * a1 * c1) by (nonlinear_arith)
        requires
            a0 * b1 <= b0 * a1,
            c1 > 0,
    ;
    assert(b0 * c1 * a1 < c0 * b1 * a1) by (nonlinear_arith)
        requires
            b0 * c1 < c0 * b1,
            a1 > 0,
    ;
    assert(a0 * c1 < c0 * a1) by (nonlinear_arith)
        requires
            a0 * b1 * c1 <= b0 * a1 * c1,
            b0 * c1 * a1 < c0 * b1 * a1,
            b1 > 0,
    ;
}

/// The same, with the strict step first.
pub proof fn lemma_ratio_order_strict_first(a: Ratio, b: Ratio, c: Ratio)
    requires
        a.1 > 0,
        b.1 > 0,
        c.1 > 0,
        ratio_less(a, b),
        !ratio_less(c, b),
    ensures
        ratio_less(a, c),
{
    let (a0, a1) = (a.0 as int, a.1 as int);
    let (b0, b1) = (b.0 as int, b.1 as int);
    let (c0, c1) = (c.0 as int, c.1 as int);
    assert(a0 * b1 * c1 < b0 * a1 * c1) by (nonlinear_arith)
        requires
            a0 * b1 < b0 * a1,
            c1 > 0,
    ;
    assert(b0 * c1 * a1 <= c0 * b1 * a1) by (nonlinear_arith)
        requires
            b0 * c1 <= c0 * b1,
            a1 > 0,
    ;
    assert(a0 * c1 < c0 * a1) by (nonlinear_arith)
        requires
            a0 * b1 * c1 < b0 * a1 * c1,
            b0 * c1 * a1 <= c0 * b1 * a1,
            b1 > 0,
    ;
}

/// Whether the quotient `a` is less than the quotient `b`.
pub fn less_ratio(a: Ratio, b: Ratio) -> (r: bool)
    requires
        a.1 > 0,
        b.1 > 0,
    ensures
        r == ratio_less(a, b),
{
    let da: u128 = a.1 as u128;
    let db: u128 = b.1 as u128;
    let qa: u128 = a.0 / da;
    let ra: u128 = a.0 % da;
    let qb: u128 = b.0 / db;
    let rb: u128 = b.0 % db;
    proof {
        assert(a.0 == qa * da + ra && ra < da) by (nonlinear_arith)
            requires
                qa == a.0 / da,
                ra == a.0 % da,
                da > 0,
        ;
        assert(b.0 == qb * db + rb && rb < db) by (nonlinear_arith)
            requires
                qb == b.0 / db,
                rb == b.0 % db,
                db > 0,
        ;
        assert(ra * db <= 0xffff_ffff_ffff_ffff * 0xffff_ffff_ffff_ffff) by (nonlinear_arith)
            requires
                ra <= 0xffff_ffff_ffff_ffff,
                db <= 0xffff_ffff_ffff_ffff,
        ;
        assert(rb * da <= 0xffff_ffff_ffff_ffff * 0xffff_ffff_ffff_ffff) by (nonlinear_arith)
            requires
                rb <= 0xffff_ffff_ffff_ffff,
                da <= 0xffff_ffff_ffff_ffff,
        ;
        assert(ra * db < da * db && rb * da < da * db) by (nonlinear_arith)
            requires
                ra < da,
                rb < db,
                da > 0,
                db > 0,
        ;
        assert(a.0 * db == qa * (da * db) + ra * db) by (nonlinear_arith)
            requires
                a.0 == qa * da + ra,
        ;
        assert(b.0 * da == qb * (da * db) + rb * da) by (nonlinear_arith)
            requires
                b.0 == qb * db + rb,
        ;
        if qa < qb {
            assert(qa * (da * db) + da * db <= qb * (da * db)) by (nonlinear_arith)
                requires
                    qa + 1 <= qb,
                    da * db > 0,
            ;
        }
        if qb < qa {
            assert(qb * (da * db) + da * db <= qa * (da * db)) by (nonlinear_arith)
                requires
                    qb + 1 <= qa,
                    da * db > 0,
            ;
        }
    }
    if qa != qb {
        qa < qb
    } else {
        ra * db < rb * da
    }
}

/// The quotient at position `held` is no worse than the one at position `new`, so that
/// `held`, which is the earlier position, stays ahead of `new`.
pub open spec fn held_ahead(items: Seq<Ratio>, largest_first: bool, held: usize, new: usize) -> bool {
    if largest_first {
        !ratio_less(items[held as int], items[new as int])
    } else {
        !ratio_less(items[new as int], items[held as int])
    }
}

/// Whether the quotient at position `held` is no worse than the one at position `new`.
fn stays_ahead(items: &Vec<Ratio>, largest_first: bool, held: usize, new: usize) -> (r: bool)
    requires
        held < items.len(),
        new < items.len(),
        items[held as int].1 > 0,
        items[new as int].1 > 0,
    ensures
        r == held_ahead(items@, largest_first, held, new),
{
    if largest_first {
        !less_ratio(items[held], items[new])
    } else {
        !less_ratio(items[new], items[held])
    }
}

/// Ranks the positions of `items` by their quotients, the largest first where
/// `largest_first`, else the smallest first; positions with equal quotients keep their
/// order.
pub fn rank_ratios(items: &Vec<Ratio>, largest_first: bool) -> (order: Vec<usize>)
    requires
        forall|i: int| 0 <= i < items.len() ==> (#[trigger] items[i]).1 > 0,
    ensures
        is_ratio_ranking(items@, largest_first, order@),
{
    let mut order: Vec<usize> = Vec::new();
    let mut p: usize = 0;
    while p < items.len()
        invariant
            p <= items.len(),
            order.len() == p,
            forall|i: int| 0 <= i < items.len() ==> (#[trigger] items[i]).1 > 0,
            forall|i: int| 0 <= i < order.len() ==> (#[trigger] order[i]) < p,
            forall|q: usize| q < p ==> #[trigger] order@.contains(q),
            forall|i: int, j: int|
                0 <= i < j < order.len() ==> ratio_before(
                    items@,
                    largest_first,
                    #[trigger] order[i],
                    #[trigger] order[j],
                ),
        decreases items.len() - p,
    {
        let mut at: usize = 0;
        while at < order.len() && stays_ahead(items, largest_first, order[at], p)
            invariant
                p < items.len(),
                order.len() == p,
                at <= order.len(),
                forall|i: int| 0 <= i < items.len() ==> (#[trigger] items[i]).1 > 0,
                forall|i: int| 0 <= i < order.len() ==> (#[trigger] order[i]) < p,
                forall|i: int|
                    0 <= i < at ==> held_ahead(items@, largest_first, #[trigger] order[i], p),
            decreases order.len() - at,
        {
            at += 1;
        }
        let ghost before = order@;
        order.insert(at, p);
        proof {
            assert forall|q: usize| q < p + 1 implies #[trigger] order@.contains(q) by {
                if q == p {
                    assert(order[at as int] == p);
                } else {
                    assert(before.contains(q));
                    let i = choose|i: int| 0 <= i < before.len() && before[i] == q;
                    if i < at {
                        assert(order[i] == q);
                    } else {
                        assert(order[i + 1] == q);
                    }
                }
            }
            assert forall|i: int, j: int| 0 <= i < j < order.len() implies ratio_before(
                items@,
                largest_first,
                #[trigger] order[i],
                #[trigger] order[j],
            ) by {
                let new = items[p as int];
                if j < at {
                    assert(order[i] == before[i] && order[j] == before[j]);
                } else if j == at {
                    assert(order[i] == before[i]);
                    assert(before[i] < p);
                    assert(held_ahead(items@, largest_first, before[i], p));
                } else if i < at {
                    assert(order[i] == before[i] && order[j] == before[j - 1]);
                } else if i == at {
                    assert(order[j] == before[j - 1]);
                    let first = items[before[at as int] as int];
                    let y = items[before[j - 1] as int];
                    assert(!held_ahead(items@, largest_first, before[at as int], p));
                    if j - 1 > at {
                        assert(ratio_before(items@, largest_first, before[at as int], before[j - 1]));
                        if largest_first {
                            lemma_ratio_order(y, first, new);
                        } else {
                            lemma_ratio_order_strict_first(new, first, y);
                        }
                    }
                } else {
                    assert(order[i] == before[i - 1] && order[j] == before[j - 1]);
                }
            }
        }
        p += 1;
    }
    order
}

} // verus!
