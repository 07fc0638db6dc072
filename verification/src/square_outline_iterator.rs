use vstd::prelude::*;

verus! {

/// The `k`-th point of the outline of the square with top-left corner `(x, y)`
/// and sides of `side` steps: along the top edge to the right, down the right
/// edge, back along the bottom edge, up the left edge; each corner once.
pub open spec fn outline_point(x: int, y: int, side: int, k: int) -> (int, int) {
    if k < side {
        (x + k, y)
    } else if k < 2 * side {
        (x + side, y + (k - side))
    } else if k < 3 * side {
        (x + side - (k - 2 * side), y + side)
    } else {
        (x, y + side - (k - 3 * side))
    }
}

pub open spec fn spec_outline(x: int, y: int, side: int) -> Seq<(int, int)> {
    Seq::new((4 * side) as nat, |k: int| outline_point(x, y, side, k))
}

/// Each point of the outline lies on an edge of the square.
pub proof fn lemma_outline_on_border(x: int, y: int, side: int, k: int)
    requires
        side > 0,
        0 <= k < 4 * side,
    ensures
        ({
            let p = spec_outline(x, y, side)[k];
            &&& x <= p.0 <= x + side
            &&& y <= p.1 <= y + side
            &&& (p.0 == x || p.0 == x + side || p.1 == y || p.1 == y + side)
        }),
{
}

/// The points of the outline of the square with top-left corner `(x, y)` and
/// sides of `side_length` steps, in the order of `spec_outline`.
pub fn square_outline(x: isize, y: isize, side_length: usize) -> (v: Vec<(isize, isize)>)
    requires
        -1000 <= x <= 1000,
        -1000 <= y <= 1000,
        side_length <= 1000,
    ensures
        v@.len() == 4 * side_length,
        forall|k: int| 0 <= k < v@.len() ==> (#[trigger] v@[k]).0 == outline_point(x as int, y as int, side_length as int, k).0
            && v@[k].1 == outline_point(x as int, y as int, side_length as int, k).1,
{
    let s = side_length as isize;
    let mut v: Vec<(isize, isize)> = Vec::new();
    let mut k: isize = 0;
    while k < 4 * s
        invariant
            s == side_length,
            side_length <= 1000,
            -1000 <= x <= 1000,
            -1000 <= y <= 1000,
            0 <= k <= 4 * s,
            v@.len() == k,
            forall|i: int| 0 <= i < k ==> (#[trigger] v@[i]).0 == outline_point(x as int, y as int, s as int, i).0
                && v@[i].1 == outline_point(x as int, y as int, s as int, i).1,
        decreases 4 * s - k,
    {
        let p = if k < s {
            (x + k, y)
        } else if k < 2 * s {
            (x + s, y + (k - s))
        } else if k < 3 * s {
            (x + s - (k - 2 * s), y + s)
        } else {
            (x, y + s - (k - 3 * s))
        };
        v.push(p);
        k += 1;
    }
    v
}

} // verus!
