use vstd::prelude::*;

verus! {

/// A mutable borrow of element `i` of `items`; when it ends, `items` holds the
/// element's last value at `i`.
fn element_mut<T>(items: &mut [T], i: usize) -> (r: &mut T)
    requires
        i < old(items)@.len(),
    ensures
        *r == old(items)@[i as int],
        final(items)@ == old(items)@.update(i as int, *final(r)),
{
    let (front, back) = items.split_at_mut(i);
    let r = back.first_mut().unwrap();
    r
}

/// Mutable borrows of two distinct elements `a` and `b` of `items` at once,
/// taken from disjoint halves of the slice so that they never alias. When
/// both borrows end, `items` holds their last values at `a` and `b` and is
/// unchanged elsewhere.
pub fn two_mut<T>(items: &mut [T], a: usize, b: usize) -> (r: (&mut T, &mut T))
    requires
        a != b,
        a < old(items)@.len(),
        b < old(items)@.len(),
    ensures
        *r.0 == old(items)@[a as int],
        *r.1 == old(items)@[b as int],
        final(items)@ == old(items)@.update(a as int, *final(r.0)).update(b as int, *final(r.1)),
{
    if a < b {
        let (left, right) = items.split_at_mut(b);
        let ra = element_mut(left, a);
        let rb = right.first_mut().unwrap();
        (ra, rb)
    } else {
        let (left, right) = items.split_at_mut(a);
        let rb = element_mut(left, b);
        let ra = right.first_mut().unwrap();
        (ra, rb)
    }
}

} // verus!
