use vstd::prelude::*;

verus! {

/// The geometric kind of a body's shape, without its dimensions.
#[derive(Clone, Copy, Debug, PartialEq, Eq, Structural)]
pub enum ShapeKind {
    Circle,
    Rectangle,
}

/// Which narrow-phase test applies to an ordered pair of shapes.
#[derive(Clone, Copy, Debug, PartialEq, Eq, Structural)]
pub enum PairTest {
    CircleCircle,
    RectangleRectangle,
    /// A circle against a rectangle, in either order: no test exists, so
    /// such a pair never produces a contact.
    Unhandled,
}

/// Circles meet circles and rectangles meet rectangles; mixed pairs have no test.
pub open spec fn spec_pair_test(a: ShapeKind, b: ShapeKind) -> PairTest {
    match (a, b) {
        (ShapeKind::Circle, ShapeKind::Circle) => PairTest::CircleCircle,
        (ShapeKind::Rectangle, ShapeKind::Rectangle) => PairTest::RectangleRectangle,
        _ => PairTest::Unhandled,
    }
}

/// Chooses the narrow-phase test for two shapes: only same-kind pairs have one.
pub fn pair_test(a: ShapeKind, b: ShapeKind) -> (r: PairTest)
    ensures
        r == spec_pair_test(a, b),
{
    match (a, b) {
        (ShapeKind::Circle, ShapeKind::Circle) => PairTest::CircleCircle,
        (ShapeKind::Rectangle, ShapeKind::Rectangle) => PairTest::RectangleRectangle,
        _ => PairTest::Unhandled,
    }
}

/// The pairs `(i, j)` with `j` running over `i < j < n`, in increasing `j`.
pub open spec fn row(i: nat, n: nat) -> Seq<(usize, usize)> {
    Seq::new((n - i - 1) as nat, |t: int| (i as usize, (i + 1 + t) as usize))
}

/// The rows `0 .. k` of the unordered index pairs over `n` bodies, one after another.
pub open spec fn pairs_upto(k: nat, n: nat) -> Seq<(usize, usize)>
    decreases k,
{
    if k == 0 {
        Seq::empty()
    } else {
        pairs_upto((k - 1) as nat, n) + row((k - 1) as nat, n)
    }
}

/// Every unordered pair of indices `i < j < n` over a collection of `n` bodies,
/// ordered by `i`, then by `j`: the order in which contacts are detected and
/// later resolved.
pub fn collision_pairs(n: usize) -> (r: Vec<(usize, usize)>)
    ensures
        r@ == pairs_upto(n as nat, n as nat),
{
    let mut r: Vec<(usize, usize)> = Vec::new();
    let mut i: usize = 0;
    while i < n
        invariant
            i <= n,
            r@ == pairs_upto(i as nat, n as nat),
        decreases n - i,
    {
        let mut j: usize = i + 1;
        while j < n
            invariant
                i < n,
                i + 1 <= j <= n,
                r@ == pairs_upto(i as nat, n as nat) + row(i as nat, n as nat).take(j - i - 1),
            decreases n - j,
        {
            proof {
                assert(row(i as nat, n as nat).take(j - i) =~= row(i as nat, n as nat).take(j - i - 1).push((i, j)));
            }
            r.push((i, j));
            j = j + 1;
        }
        proof {
            assert(row(i as nat, n as nat).take(j - i - 1) =~= row(i as nat, n as nat));
        }
        i = i + 1;
    }
    r
}

/// The first `k` rows hold exactly the pairs `(i, j)` with `i < k` and `i < j < n`.
pub proof fn lemma_pairs_upto_members(k: nat, n: nat, i: usize, j: usize)
    requires
        k <= n,
        n <= usize::MAX,
    ensures
        pairs_upto(k, n).contains((i, j)) <==> (i < k && i < j < n),
    decreases k,
{
    if k > 0 {
        lemma_pairs_upto_members((k - 1) as nat, n, i, j);
        let prev = pairs_upto((k - 1) as nat, n);
        let last = row((k - 1) as nat, n);
        if i == k - 1 && i < j < n {
            assert((prev + last)[prev.len() + j - i - 1] == (i, j));
        }
        if (prev + last).contains((i, j)) {
            let t = choose|t: int| 0 <= t < (prev + last).len() && (prev + last)[t] == (i, j);
            if t >= prev.len() {
                assert(last[t - prev.len()] == (i, j));
            } else {
                assert(prev[t] == (i, j));
            }
        }
        if prev.contains((i, j)) {
            let t = choose|t: int| 0 <= t < prev.len() && prev[t] == (i, j);
            assert((prev + last)[t] == (i, j));
        }
    }
}

/// `(a0, a1)` comes strictly before `(b0, b1)`: by first index, then by second.
pub open spec fn pair_before(a: (usize, usize), b: (usize, usize)) -> bool {
    a.0 < b.0 || (a.0 == b.0 && a.1 < b.1)
}

/// The first `k` rows are strictly increasing, first by `i`, then by `j`,
/// and each of their pairs `(i, j)` has `i < k` and `i < j < n`.
pub proof fn lemma_pairs_upto_sorted(k: nat, n: nat)
    requires
        k <= n,
        n <= usize::MAX,
    ensures
        forall|t: int| 0 <= t < pairs_upto(k, n).len() ==>
            (#[trigger] pairs_upto(k, n)[t]).0 < k && pairs_upto(k, n)[t].0 < pairs_upto(k, n)[t].1 < n,
        forall|a: int, b: int| 0 <= a < b < pairs_upto(k, n).len() ==>
            pair_before(#[trigger] pairs_upto(k, n)[a], #[trigger] pairs_upto(k, n)[b]),
    decreases k,
{
    if k > 0 {
        lemma_pairs_upto_sorted((k - 1) as nat, n);
        let prev = pairs_upto((k - 1) as nat, n);
        let last = row((k - 1) as nat, n);
        assert forall|t: int| 0 <= t < (prev + last).len() implies
            (#[trigger] (prev + last)[t]).0 < k && (prev + last)[t].0 < (prev + last)[t].1 < n by {
            if t >= prev.len() {
                assert((prev + last)[t] == last[t - prev.len()]);
            } else {
                assert((prev + last)[t] == prev[t]);
            }
        }
        assert forall|a: int, b: int| 0 <= a < b < (prev + last).len() implies
            pair_before(#[trigger] (prev + last)[a], #[trigger] (prev + last)[b]) by {
            if a >= prev.len() {
                assert((prev + last)[a] == last[a - prev.len()]);
                assert((prev + last)[b] == last[b - prev.len()]);
            } else if b >= prev.len() {
                assert((prev + last)[a] == prev[a]);
                assert((prev + last)[b] == last[b - prev.len()]);
            } else {
                assert((prev + last)[a] == prev[a]);
                assert((prev + last)[b] == prev[b]);
            }
        }
    }
}

/// `collision_pairs(n)` lists each unordered pair of distinct indices below
/// `n` once, in increasing order, first by the lower index, then by the
/// higher: a pair is listed exactly when its first index is below its second,
/// and the second below `n`.
pub proof fn lemma_collision_pairs_members(n: usize, i: usize, j: usize)
    ensures
        pairs_upto(n as nat, n as nat).contains((i, j)) <==> i < j < n,
        forall|a: int, b: int| 0 <= a < b < pairs_upto(n as nat, n as nat).len() ==>
            pair_before(#[trigger] pairs_upto(n as nat, n as nat)[a], #[trigger] pairs_upto(n as nat, n as nat)[b]),
{
    lemma_pairs_upto_members(n as nat, n as nat, i, j);
    lemma_pairs_upto_sorted(n as nat, n as nat);
}

} // verus!
