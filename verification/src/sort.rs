//! A stable sort of numbers by a comparison.

use vstd::prelude::*;

verus! {

/// `x` put into a sorted list: behind every element it is not less than.
pub open spec fn placed(s: Seq<usize>, x: usize, less: spec_fn(usize, usize) -> bool) -> Seq<usize>
    decreases s.len(),
{
    if s.len() == 0 || !less(x, s.last()) {
        s.push(x)
    } else {
        placed(s.drop_last(), x, less).push(s.last())
    }
}

/// The list sorted, elements that compare alike in the order they had.
pub open spec fn arranged(s: Seq<usize>, less: spec_fn(usize, usize) -> bool) -> Seq<usize>
    decreases s.len(),
{
    if s.len() == 0 {
        s
    } else {
        placed(arranged(s.drop_last(), less), s.last(), less)
    }
}

/// The comparison can be asked of any two elements of the list.
pub open spec fn compares<F: Fn(usize, usize) -> bool>(f: F, s: Seq<usize>) -> bool {
    forall|a: usize, b: usize| s.contains(a) && s.contains(b) ==> #[trigger] f.requires((a, b))
}

/// The comparison's answers are those of a rule.
pub open spec fn orders<F: Fn(usize, usize) -> bool>(
    f: F,
    less: spec_fn(usize, usize) -> bool,
) -> bool {
    forall|a: usize, b: usize, r: bool| #[trigger] f.ensures((a, b), r) ==> r == less(a, b)
}

/// What a longer list holds: the element and what was there.
pub proof fn lemma_placed(s: Seq<usize>, x: usize, less: spec_fn(usize, usize) -> bool)
    ensures
        placed(s, x, less).len() == s.len() + 1,
        forall|y: usize| #[trigger] placed(s, x, less).contains(y) <==> s.contains(y) || y == x,
    decreases s.len(),
{
    if s.len() == 0 || !less(x, s.last()) {
        assert forall|y: usize| #[trigger] s.push(x).contains(y) <==> s.contains(y) || y == x by {
            crate::lists::lemma_push_contains(s, x, y);
        }
    } else {
        let head = s.drop_last();
        lemma_placed(head, x, less);
        assert(s =~= head.push(s.last()));
        assert forall|y: usize| #[trigger] placed(s, x, less).contains(y) <==> s.contains(y) || y
            == x by {
            crate::lists::lemma_push_contains(placed(head, x, less), s.last(), y);
            crate::lists::lemma_push_contains(head, s.last(), y);
            assert(placed(head, x, less).contains(y) <==> head.contains(y) || y == x);
        }
    }
}

/// Sorting keeps the elements.
pub proof fn law_arranged_same(s: Seq<usize>, less: spec_fn(usize, usize) -> bool)
    ensures
        arranged(s, less).len() == s.len(),
        forall|y: usize| #[trigger] arranged(s, less).contains(y) <==> s.contains(y),
    decreases s.len(),
{
    if s.len() > 0 {
        let head = s.drop_last();
        law_arranged_same(head, less);
        lemma_placed(arranged(head, less), s.last(), less);
        assert(s =~= head.push(s.last()));
        assert forall|y: usize| #[trigger] arranged(s, less).contains(y) <==> s.contains(y) by {
            crate::lists::lemma_push_contains(head, s.last(), y);
            assert(arranged(head, less).contains(y) <==> head.contains(y));
        }
    }
}

/// The rule is a strict weak order: nothing is less than itself, and being no less carries over.
pub open spec fn weak_order(less: spec_fn(usize, usize) -> bool) -> bool {
    &&& forall|a: usize, b: usize| #[trigger] less(a, b) ==> !less(b, a)
    &&& forall|a: usize, b: usize, c: usize|
        !(#[trigger] less(a, b)) && !(#[trigger] less(b, c)) ==> !less(a, c)
}

/// No element is less than one before it.
pub open spec fn in_order(s: Seq<usize>, less: spec_fn(usize, usize) -> bool) -> bool {
    forall|i: int, j: int| 0 <= i < j < s.len() ==> !less(#[trigger] s[j], #[trigger] s[i])
}

/// Elements that compare alike stand in ascending order.
pub open spec fn steady(s: Seq<usize>, less: spec_fn(usize, usize) -> bool) -> bool {
    forall|i: int, j: int|
        0 <= i < j < s.len() && !less(#[trigger] s[i], #[trigger] s[j]) ==> s[i] < s[j]
}

/// Under a strict weak order, sorting puts the list in order.
pub proof fn law_arranged_in_order(s: Seq<usize>, less: spec_fn(usize, usize) -> bool)
    requires
        weak_order(less),
    ensures
        in_order(arranged(s, less), less),
    decreases s.len(),
{
    if s.len() > 0 {
        law_arranged_in_order(s.drop_last(), less);
        lemma_placed_in_order(arranged(s.drop_last(), less), s.last(), less);
    }
}

proof fn lemma_placed_in_order(s: Seq<usize>, x: usize, less: spec_fn(usize, usize) -> bool)
    requires
        weak_order(less),
        in_order(s, less),
    ensures
        in_order(placed(s, x, less), less),
    decreases s.len(),
{
    if s.len() == 0 || !less(x, s.last()) {
        let t = s.push(x);
        assert forall|i: int, j: int| 0 <= i < j < t.len() implies !less(
            #[trigger] t[j],
            #[trigger] t[i],
        ) by {
            if j == s.len() {
                let l = s.len() - 1;
                assert(i == l || !less(s[l], s[i]));
            }
        }
    } else {
        let head = s.drop_last();
        lemma_placed_in_order(head, x, less);
        lemma_placed(head, x, less);
        let mid = placed(head, x, less);
        let t = mid.push(s.last());
        assert forall|i: int, j: int| 0 <= i < j < t.len() implies !less(
            #[trigger] t[j],
            #[trigger] t[i],
        ) by {
            if j == mid.len() {
                assert(mid.contains(mid[i]));
                if mid[i] == x {
                    assert(!less(s.last(), x));
                } else {
                    let k = choose|k: int| 0 <= k < head.len() && head[k] == mid[i];
                    assert(!less(s[s.len() - 1], s[k]));
                }
            }
        }
    }
}

/// Sorting an ascending list keeps elements that compare alike ascending.
pub proof fn law_arranged_steady(s: Seq<usize>, less: spec_fn(usize, usize) -> bool)
    requires
        weak_order(less),
        crate::lists::increasing(s),
    ensures
        steady(arranged(s, less), less),
    decreases s.len(),
{
    if s.len() > 0 {
        let head = s.drop_last();
        law_arranged_steady(head, less);
        law_arranged_same(head, less);
        let r = arranged(head, less);
        assert forall|i: int| 0 <= i < r.len() implies #[trigger] r[i] < s.last() by {
            assert(r.contains(r[i]));
            let k = choose|k: int| 0 <= k < head.len() && head[k] == r[i];
            assert(s[k] < s[s.len() - 1]);
        }
        lemma_placed_steady(r, s.last(), less);
    }
}

proof fn lemma_placed_steady(s: Seq<usize>, x: usize, less: spec_fn(usize, usize) -> bool)
    requires
        weak_order(less),
        steady(s, less),
        forall|i: int| 0 <= i < s.len() ==> #[trigger] s[i] < x,
    ensures
        steady(placed(s, x, less), less),
    decreases s.len(),
{
    if s.len() == 0 || !less(x, s.last()) {
    } else {
        let head = s.drop_last();
        lemma_placed_steady(head, x, less);
        lemma_placed(head, x, less);
        let mid = placed(head, x, less);
        let t = mid.push(s.last());
        assert forall|i: int, j: int|
            0 <= i < j < t.len() && !less(#[trigger] t[i], #[trigger] t[j]) implies t[i] < t[j] by {
            if j == mid.len() {
                assert(mid.contains(mid[i]));
                if mid[i] != x {
                    let k = choose|k: int| 0 <= k < head.len() && head[k] == mid[i];
                    assert(!less(s[k], s[s.len() - 1]) ==> s[k] < s[s.len() - 1]);
                }
            }
        }
    }
}

/// Sort a list by a comparison, stably.
pub fn arrange<F: Fn(usize, usize) -> bool>(list: &Vec<usize>, less: &F) -> (out: Vec<usize>)
    requires
        compares(*less, list@),
    ensures
        forall|rule: spec_fn(usize, usize) -> bool| #[trigger]
            orders(*less, rule) ==> out@ == arranged(list@, rule),
        out.len() == list.len(),
        forall|y: usize| #[trigger] out@.contains(y) <==> list@.contains(y),
{
    let mut out: Vec<usize> = Vec::new();
    let mut i: usize = 0;
    assert(list@.take(0) =~= Seq::<usize>::empty());
    while i < list.len()
        invariant
            i <= list.len(),
            compares(*less, list@),
            out.len() == i,
            forall|y: usize| #[trigger] out@.contains(y) <==> list@.take(i as int).contains(y),
            forall|rule: spec_fn(usize, usize) -> bool| #[trigger]
                orders(*less, rule) ==> out@ == arranged(list@.take(i as int), rule),
        decreases list.len() - i,
    {
        let x: usize = list[i];
        let ghost before = out@;
        let ghost part = list@.take(i as int);
        assert(list@.take(i + 1) =~= part.push(x));
        assert(list@.take(i + 1).drop_last() =~= part);
        assert(list@[i as int] == x);
        let mut k: usize = out.len();
        assert(before.take(before.len() as int) =~= before);
        assert(before.skip(before.len() as int) =~= Seq::<usize>::empty());
        loop
            invariant
                k <= out.len(),
                out@ == before,
                i < list.len(),
                part == list@.take(i as int),
                list@[i as int] == x,
                compares(*less, list@),
                forall|y: usize| #[trigger] before.contains(y) <==> part.contains(y),
                forall|rule: spec_fn(usize, usize) -> bool| #[trigger]
                    orders(*less, rule) ==> placed(before, x, rule) == placed(
                        before.take(k as int),
                        x,
                        rule,
                    ) + before.skip(k as int),
            ensures
                k <= out.len(),
                forall|rule: spec_fn(usize, usize) -> bool| #[trigger]
                    orders(*less, rule) ==> placed(before, x, rule) == before.take(k as int).push(x)
                        + before.skip(k as int),
            decreases k,
        {
            if k == 0 {
                break;
            }
            let y: usize = out[k - 1];
            proof {
                assert(list@.contains(x));
                assert(before.contains(y));
                assert(part.contains(y));
                let j = choose|j: int| 0 <= j < part.len() && part[j] == y;
                assert(list@[j] == y);
                assert(before.take(k as int).last() == y);
                assert(before.take(k as int).drop_last() =~= before.take(k - 1));
            }
            if !less(x, y) {
                break;
            }
            assert forall|rule: spec_fn(usize, usize) -> bool| #[trigger]
                orders(*less, rule) implies placed(before, x, rule) == placed(
                before.take(k - 1),
                x,
                rule,
            ) + before.skip(k - 1) by {
                let head = placed(before.take(k - 1), x, rule);
                assert(head.push(y) + before.skip(k as int) =~= head + before.skip(k - 1));
            }
            k -= 1;
        }
        out.insert(k, x);
        proof {
            assert(out@ =~= before.take(k as int).push(x) + before.skip(k as int));
            assert forall|y: usize| #[trigger] out@.contains(y) <==> list@.take(i + 1).contains(
                y,
            ) by {
                lemma_inserted(before, k as int, x, y);
                crate::lists::lemma_push_contains(part, x, y);
                assert(before.contains(y) <==> part.contains(y));
            }
        }
        i += 1;
    }
    assert(list@.take(list@.len() as int) =~= list@);
    out
}

proof fn lemma_inserted(s: Seq<usize>, k: int, x: usize, y: usize)
    requires
        0 <= k <= s.len(),
    ensures
        (s.take(k).push(x) + s.skip(k)).contains(y) <==> s.contains(y) || y == x,
{
    let t = s.take(k).push(x) + s.skip(k);
    assert(t[k] == x);
    if s.contains(y) {
        let j = choose|j: int| 0 <= j < s.len() && s[j] == y;
        if j < k {
            assert(t[j] == y);
        } else {
            assert(t[j + 1] == y);
        }
    }
    if t.contains(y) && y != x {
        let j = choose|j: int| 0 <= j < t.len() && t[j] == y;
        if j < k {
            assert(s[j] == y);
        } else {
            assert(s[j - 1] == y);
        }
    }
}

/// Rules that agree on a list sort it alike.
pub proof fn lemma_arranged_agree(
    s: Seq<usize>,
    f: spec_fn(usize, usize) -> bool,
    g: spec_fn(usize, usize) -> bool,
)
    requires
        forall|a: usize, b: usize| s.contains(a) && s.contains(b) ==> #[trigger] f(a, b) == g(a, b),
    ensures
        arranged(s, f) == arranged(s, g),
    decreases s.len(),
{
    if s.len() > 0 {
        let head = s.drop_last();
        assert(s.contains(s[s.len() - 1]));
        assert forall|a: usize, b: usize| head.contains(a) && head.contains(b) implies #[trigger] f(
            a,
            b,
        ) == g(a, b) by {
            crate::lists::lemma_push_contains(head, s.last(), a);
            crate::lists::lemma_push_contains(head, s.last(), b);
            assert(s =~= head.push(s.last()));
        }
        lemma_arranged_agree(head, f, g);
        law_arranged_same(head, f);
        let r = arranged(head, f);
        assert forall|i: int| 0 <= i < r.len() implies f(s.last(), #[trigger] r[i]) == g(
            s.last(),
            r[i],
        ) by {
            assert(r.contains(r[i]));
            crate::lists::lemma_push_contains(head, s.last(), r[i]);
            assert(s =~= head.push(s.last()));
        }
        lemma_placed_agree(r, s.last(), f, g);
    }
}

proof fn lemma_placed_agree(
    s: Seq<usize>,
    x: usize,
    f: spec_fn(usize, usize) -> bool,
    g: spec_fn(usize, usize) -> bool,
)
    requires
        forall|i: int| 0 <= i < s.len() ==> f(x, #[trigger] s[i]) == g(x, s[i]),
    ensures
        placed(s, x, f) == placed(s, x, g),
    decreases s.len(),
{
    if s.len() > 0 {
        let head = s.drop_last();
        assert forall|i: int| 0 <= i < head.len() implies f(x, #[trigger] head[i]) == g(
            x,
            head[i],
        ) by {
            assert(s[i] == head[i]);
        }
        assert(s[s.len() - 1] == s.last());
        lemma_placed_agree(head, x, f, g);
    }
}

} // verus!
