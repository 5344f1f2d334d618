use vstd::prelude::*;

use crate::chain::Location;

verus! {

/// `a` comes strictly before `b` in the chain: by height, then by offset.
pub open spec fn before(a: Location, b: Location) -> bool {
    a.height < b.height || (a.height == b.height && a.offset < b.offset)
}

/// Strictly ascending by (height, offset), hence free of repeats.
pub open spec fn ascending(s: Seq<Location>) -> bool {
    forall|i: int, j: int| 0 <= i < j < s.len() ==> before(#[trigger] s[i], #[trigger] s[j])
}

/// Both name the same transaction.
pub open spec fn same_key(a: Location, b: Location) -> bool {
    a.height == b.height && a.offset == b.offset
}

/// Some entry of `s` names the same transaction as `x`.
pub open spec fn has_key(s: Seq<Location>, x: Location) -> bool {
    exists|j: int| 0 <= j < s.len() && same_key(#[trigger] s[j], x)
}

/// `x` is one of the locations found for some watched script.
pub open spec fn found_in(found: Seq<Vec<Location>>, x: Location) -> bool {
    exists|a: int, b: int| 0 <= a < found.len() && 0 <= b < found[a]@.len() && found[a]@[b] == x
}

/// Adds `x` to the ascending `v` unless a location with its key is there.
fn insert_sorted(v: &mut Vec<Location>, x: Location)
    requires
        ascending(old(v)@),
    ensures
        ascending(final(v)@),
        has_key(final(v)@, x),
        forall|y: Location| has_key(old(v)@, y) ==> has_key(final(v)@, y),
        forall|j: int|
            0 <= j < final(v)@.len() ==> #[trigger] final(v)@[j] == x || old(v)@.contains(
                final(v)@[j],
            ),
{
    let mut i: usize = 0;
    while i < v.len()
        invariant
            i <= v@.len(),
            forall|j: int| 0 <= j < i ==> before(#[trigger] v@[j], x),
        ensures
            i <= v@.len(),
            forall|j: int| 0 <= j < i ==> before(#[trigger] v@[j], x),
            i < v@.len() ==> !before(v@[i as int], x),
        decreases v@.len() - i,
    {
        if !(v[i].height < x.height || (v[i].height == x.height && v[i].offset < x.offset)) {
            break;
        }
        i = i + 1;
    }
    if i < v.len() && v[i].height == x.height && v[i].offset == x.offset {
        assert(same_key(v@[i as int], x));
        assert forall|j: int| 0 <= j < v@.len() implies #[trigger] v@[j] == x || v@.contains(
            v@[j],
        ) by {
            assert(v@.contains(v@[j]));
        }
        return;
    }
    let ghost old_v = v@;
    v.insert(i, x);
    proof {
        let nv = v@;
        assert(nv[i as int] == x);
        assert forall|j: int| 0 <= j < nv.len() implies #[trigger] nv[j] == x || old_v.contains(nv[j]) by {
            if j < i {
                assert(nv[j] == old_v[j]);
            } else if j > i {
                assert(nv[j] == old_v[j - 1]);
            }
        }
        assert forall|y: Location| has_key(old_v, y) implies has_key(nv, y) by {
            let j = choose|j: int| 0 <= j < old_v.len() && same_key(#[trigger] old_v[j], y);
            if j < i {
                assert(nv[j] == old_v[j]);
            } else {
                assert(nv[j + 1] == old_v[j]);
            }
        }
        assert forall|a: int, b: int| 0 <= a < b < nv.len() implies before(
            #[trigger] nv[a],
            #[trigger] nv[b],
        ) by {
            if i < old_v.len() {
                assert(!before(old_v[i as int], x));
            }
            if a < i && b < i {
                assert(nv[a] == old_v[a] && nv[b] == old_v[b]);
            } else if a < i && b == i {
            } else if a < i && b > i {
                assert(nv[a] == old_v[a] && nv[b] == old_v[b - 1]);
            } else if a == i {
                assert(nv[b] == old_v[b - 1]);
                if b - 1 > i {
                    assert(before(old_v[i as int], old_v[b - 1]));
                }
            } else {
                assert(nv[a] == old_v[a - 1] && nv[b] == old_v[b - 1]);
            }
        }
    }
}

/// Merges the locations found for each watched script into one ascending
/// sequence in which each transaction appears once.
pub fn gather(found: &Vec<Vec<Location>>) -> (r: Vec<Location>)
    ensures
        ascending(r@),
        forall|a: int, b: int|
            0 <= a < found@.len() && 0 <= b < found@[a]@.len() ==> has_key(
                r@,
                #[trigger] found@[a]@[b],
            ),
        forall|j: int| 0 <= j < r@.len() ==> found_in(found@, #[trigger] r@[j]),
{
    let mut r: Vec<Location> = Vec::new();
    let mut a: usize = 0;
    while a < found.len()
        invariant
            a <= found@.len(),
            ascending(r@),
            forall|a2: int, b2: int|
                0 <= a2 < a && 0 <= b2 < found@[a2]@.len() ==> has_key(
                    r@,
                    #[trigger] found@[a2]@[b2],
                ),
            forall|j: int| 0 <= j < r@.len() ==> found_in(found@, #[trigger] r@[j]),
        decreases found@.len() - a,
    {
        let list = &found[a];
        let mut b: usize = 0;
        while b < list.len()
            invariant
                a < found@.len(),
                list == found@[a as int],
                b <= list@.len(),
                ascending(r@),
                forall|a2: int, b2: int|
                    0 <= a2 < a && 0 <= b2 < found@[a2]@.len() ==> has_key(
                        r@,
                        #[trigger] found@[a2]@[b2],
                    ),
                forall|b2: int| 0 <= b2 < b ==> has_key(r@, #[trigger] list@[b2]),
                forall|j: int| 0 <= j < r@.len() ==> found_in(found@, #[trigger] r@[j]),
            decreases list@.len() - b,
        {
            let ghost prev = r@;
            let x = list[b];
            insert_sorted(&mut r, x);
            proof {
                assert(found@[a as int]@[b as int] == x);
                assert forall|j: int| 0 <= j < r@.len() implies found_in(found@, #[trigger] r@[j]) by {
                    if r@[j] != x {
                        let k = choose|k: int| 0 <= k < prev.len() && prev[k] == r@[j];
                        assert(found_in(found@, prev[k]));
                    }
                }
            }
            b = b + 1;
        }
        a = a + 1;
    }
    r
}

} // verus!
