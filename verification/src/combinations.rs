use vstd::prelude::*;

verus! {

/// Every sequence of the list with `x` put in front.
pub open spec fn prepend_all(x: i32, s: Seq<Seq<i32>>) -> Seq<Seq<i32>> {
    s.map_values(|v: Seq<i32>| seq![x] + v)
}

/// Every way to pick `k` elements of `elems` in order: the
/// combinations that take the first element, then those that skip it.
pub open spec fn spec_combinations(elems: Seq<i32>, k: nat) -> Seq<Seq<i32>>
    decreases elems.len(),
{
    if k == 0 {
        seq![Seq::<i32>::empty()]
    } else if elems.len() < k {
        Seq::empty()
    } else {
        prepend_all(elems[0], spec_combinations(elems.drop_first(), (k - 1) as nat))
            + spec_combinations(elems.drop_first(), k)
    }
}

/// Builds the combinations of the elements from `start` on.
fn combinations_recurse(elems: &[i32], start: usize, k: usize) -> (r: Vec<Vec<i32>>)
    requires
        start <= elems@.len(),
    ensures
        r@.len() == spec_combinations(elems@.skip(start as int), k as nat).len(),
        forall|i: int|
            0 <= i < r@.len() ==> (#[trigger] r@[i])@ == spec_combinations(
                elems@.skip(start as int),
                k as nat,
            )[i],
    decreases elems@.len() - start,
{
    let ghost tail = elems@.skip(start as int);
    if k == 0 {
        let mut out: Vec<Vec<i32>> = Vec::new();
        out.push(Vec::new());
        return out;
    }
    if elems.len() - start < k {
        return Vec::new();
    }
    let head = elems[start];
    proof {
        assert(tail[0] == head);
        assert(tail.drop_first() =~= elems@.skip(start + 1));
    }
    let with_head = combinations_recurse(elems, start + 1, k - 1);
    let without_head = combinations_recurse(elems, start + 1, k);
    let ghost spec_with = spec_combinations(elems@.skip(start + 1), (k - 1) as nat);
    let ghost spec_without = spec_combinations(elems@.skip(start + 1), k as nat);
    let mut out: Vec<Vec<i32>> = Vec::new();
    let mut i: usize = 0;
    while i < with_head.len()
        invariant
            i <= with_head@.len(),
            with_head@.len() == spec_with.len(),
            forall|t: int| 0 <= t < with_head@.len() ==> (#[trigger] with_head@[t])@
                == spec_with[t],
            out@.len() == i,
            forall|t: int|
                0 <= t < i ==> (#[trigger] out@[t])@ == prepend_all(head, spec_with)[t],
        decreases with_head@.len() - i,
    {
        let mut one: Vec<i32> = Vec::new();
        one.push(head);
        let mut j: usize = 0;
        while j < with_head[i].len()
            invariant
                i < with_head@.len(),
                j <= with_head@[i as int]@.len(),
                one@ == seq![head] + with_head@[i as int]@.take(j as int),
            decreases with_head@[i as int]@.len() - j,
        {
            one.push(with_head[i][j]);
            proof {
                let wv = with_head@[i as int]@;
                assert(seq![head] + wv.take(j as int) + seq![wv[j as int]] =~= seq![head]
                    + wv.take(j + 1));
            }
            j = j + 1;
        }
        proof {
            let wv = with_head@[i as int]@;
            assert(wv.take(wv.len() as int) =~= wv);
        }
        out.push(one);
        i = i + 1;
    }
    let mut i2: usize = 0;
    while i2 < without_head.len()
        invariant
            i2 <= without_head@.len(),
            without_head@.len() == spec_without.len(),
            forall|t: int| 0 <= t < without_head@.len() ==> (#[trigger] without_head@[t])@
                == spec_without[t],
            out@.len() == spec_with.len() + i2,
            forall|t: int|
                0 <= t < spec_with.len() ==> (#[trigger] out@[t])@ == prepend_all(
                    head,
                    spec_with,
                )[t],
            forall|t: int|
                spec_with.len() <= t < out@.len() ==> (#[trigger] out@[t])@ == spec_without[t
                    - spec_with.len()],
        decreases without_head@.len() - i2,
    {
        let mut copy: Vec<i32> = Vec::new();
        let mut j2: usize = 0;
        while j2 < without_head[i2].len()
            invariant
                i2 < without_head@.len(),
                j2 <= without_head@[i2 as int]@.len(),
                copy@ == without_head@[i2 as int]@.take(j2 as int),
            decreases without_head@[i2 as int]@.len() - j2,
        {
            copy.push(without_head[i2][j2]);
            proof {
                let wv = without_head@[i2 as int]@;
                assert(wv.take(j2 as int).push(wv[j2 as int]) =~= wv.take(j2 + 1));
            }
            j2 = j2 + 1;
        }
        proof {
            assert(without_head@[i2 as int]@.take(without_head@[i2 as int]@.len() as int)
                =~= without_head@[i2 as int]@);
        }
        out.push(copy);
        i2 = i2 + 1;
    }
    proof {
        assert(spec_combinations(tail, k as nat) == prepend_all(head, spec_with)
            + spec_without);
    }
    out
}

/// Every way to pick `k` of the given elements, keeping their order;
/// no combinations when `k` exceeds the element count.
pub fn combinations(arr: &[i32], k: usize) -> (r: Vec<Vec<i32>>)
    ensures
        r@.len() == spec_combinations(arr@, k as nat).len(),
        forall|i: int|
            0 <= i < r@.len() ==> (#[trigger] r@[i])@ == spec_combinations(arr@, k as nat)[i],
    {
    if k > arr.len() {
        return Vec::new();
    }
    let r = combinations_recurse(arr, 0, k);
    proof {
        assert(arr@.skip(0) =~= arr@);
    }
    r
}

} // verus!
