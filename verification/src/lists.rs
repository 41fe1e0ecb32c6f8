//! Facts about sequences.

use vstd::prelude::*;

verus! {

/// Filtering one element more.
pub proof fn lemma_filter_step<A>(s: Seq<A>, i: int, keep: spec_fn(A) -> bool)
    requires
        0 <= i < s.len(),
    ensures
        s.take(i + 1).filter(keep) == if keep(s[i]) {
            s.take(i).filter(keep).push(s[i])
        } else {
            s.take(i).filter(keep)
        },
        s.take(0).filter(keep) == Seq::<A>::empty(),
{
    reveal(Seq::filter);
    assert(s.take(i + 1).drop_last() =~= s.take(i));
    assert(s.take(0) =~= Seq::<A>::empty());
}

/// What a longer list holds.
pub proof fn lemma_push_contains<A>(s: Seq<A>, x: A, q: A)
    ensures
        s.push(x).contains(q) <==> s.contains(q) || q == x,
{
    let more = s.push(x);
    assert(more[s.len() as int] == x);
    if s.contains(q) {
        let k = choose|k: int| 0 <= k < s.len() && s[k] == q;
        assert(more[k] == q);
    }
    if more.contains(q) && q != x {
        let k = choose|k: int| 0 <= k < more.len() && more[k] == q;
        assert(s[k] == q);
    }
}

/// The numbers below `n` for which a condition holds, in ascending order.
pub open spec fn those(n: nat, cond: spec_fn(usize) -> bool) -> Seq<usize>
    decreases n,
{
    if n == 0 {
        Seq::empty()
    } else {
        let k = (n - 1) as usize;
        let rest = those((n - 1) as nat, cond);
        if cond(k) {
            rest.push(k)
        } else {
            rest
        }
    }
}

/// The numbers stand in strictly ascending order.
pub open spec fn increasing(s: Seq<usize>) -> bool {
    forall|i: int, j: int| 0 <= i < j < s.len() ==> #[trigger] s[i] < #[trigger] s[j]
}

/// What [`those`] holds, and that it is in order.
pub proof fn lemma_those(n: nat, cond: spec_fn(usize) -> bool)
    requires
        n <= usize::MAX,
    ensures
        increasing(those(n, cond)),
        forall|b: usize| #[trigger] those(n, cond).contains(b) <==> b < n && cond(b),
        forall|i: int|
            0 <= i < those(n, cond).len() ==> (#[trigger] those(n, cond)[i]) < n && cond(
                those(n, cond)[i],
            ),
    decreases n,
{
    if n > 0 {
        let m = (n - 1) as nat;
        lemma_those(m, cond);
        let rest = those(m, cond);
        assert forall|b: usize| #[trigger] those(n, cond).contains(b) <==> b < n && cond(b) by {
            lemma_push_contains(rest, m as usize, b);
            assert(rest.contains(b) <==> b < m && cond(b));
        }
    }
}

/// Numbers in ascending order are told by which they are.
pub proof fn lemma_increasing_unique(s: Seq<usize>, t: Seq<usize>)
    requires
        increasing(s),
        increasing(t),
        forall|b: usize| #[trigger] s.contains(b) <==> t.contains(b),
    ensures
        s == t,
    decreases s.len(),
{
    if s.len() == 0 {
        if t.len() > 0 {
            assert(t.contains(t[0]));
            assert(s.contains(t[0]));
        }
        assert(s =~= t);
    } else {
        let x = s.last();
        assert(s[s.len() - 1] == x);
        assert(s.contains(x));
        assert(t.contains(x));
        let k = choose|k: int| 0 <= k < t.len() && t[k] == x;
        let y = t.last();
        assert(t[t.len() - 1] == y);
        assert(t.contains(y));
        assert(s.contains(y));
        let m = choose|m: int| 0 <= m < s.len() && s[m] == y;
        assert(x <= y && y <= x);
        let (a, b) = (s.drop_last(), t.drop_last());
        assert(s =~= a.push(x));
        assert(t =~= b.push(x));
        assert forall|q: usize| #[trigger] a.contains(q) <==> b.contains(q) by {
            lemma_push_contains(a, x, q);
            lemma_push_contains(b, x, q);
            if a.contains(q) && q == x {
                let i = choose|i: int| 0 <= i < a.len() && a[i] == q;
                assert(s[i] < s[s.len() - 1]);
            }
            if b.contains(q) && q == x {
                let i = choose|i: int| 0 <= i < b.len() && b[i] == q;
                assert(t[i] < t[t.len() - 1]);
            }
            assert(s.contains(q) <==> t.contains(q));
        }
        lemma_increasing_unique(a, b);
    }
}

/// Put a number in its place among numbers in ascending order, once.
pub fn insert_number(out: &mut Vec<usize>, p: usize)
    requires
        increasing(old(out)@),
    ensures
        increasing(final(out)@),
        forall|q: usize| #[trigger]
            final(out)@.contains(q) <==> old(out)@.contains(q) || q == p,
{
    let mut i: usize = out.len();
    while i > 0 && out[i - 1] > p
        invariant
            i <= out.len(),
            increasing(out@),
            forall|k: int| i <= k < out.len() ==> #[trigger] out@[k] > p,
        decreases i,
    {
        i -= 1;
    }
    let ghost before = out@;
    if i > 0 && out[i - 1] == p {
        assert(before[i - 1] == p);
        return;
    }
    out.insert(i, p);
    assert(out@[i as int] == p);
    assert forall|q: usize| #[trigger] out@.contains(q) <==> before.contains(q) || q == p by {
        if before.contains(q) {
            let k = choose|k: int| 0 <= k < before.len() && before[k] == q;
            if k < i {
                assert(out@[k] == q);
            } else {
                assert(out@[k + 1] == q);
            }
        }
        if out@.contains(q) && q != p {
            let k = choose|k: int| 0 <= k < out@.len() && out@[k] == q;
            if k < i {
                assert(before[k] == q);
            } else {
                assert(before[k - 1] == q);
            }
        }
    }
    assert forall|a: int, b: int| 0 <= a < b < out@.len() implies #[trigger] out@[a]
        < #[trigger] out@[b] by {
        if i > 0 {
            assert(before[i - 1] < p);
        }
        if a < i && b > i {
            assert(before[a] < before[b - 1]);
        } else if a > i {
            assert(before[a - 1] < before[b - 1]);
        } else if b < i {
            assert(before[a] < before[b]);
        } else if a < i {
            assert(a == i - 1 || before[a] < before[i - 1]);
        }
    }
}

/// The numbers below `n`, in order.
pub open spec fn upto(n: nat) -> Seq<usize> {
    Seq::new(n, |i: int| i as usize)
}

/// The numbers below `n`, in order.
pub fn count_to(n: usize) -> (out: Vec<usize>)
    ensures
        out@ == upto(n as nat),
{
    let mut out: Vec<usize> = Vec::new();
    let mut i: usize = 0;
    while i < n
        invariant
            i <= n,
            out@ == upto(i as nat),
        decreases n - i,
    {
        out.push(i);
        assert(out@ =~= upto((i + 1) as nat));
        i += 1;
    }
    out
}

/// The same elements again.
pub fn copy_list<T: Copy>(list: &Vec<T>) -> (copy: Vec<T>)
    ensures
        copy@ == list@,
{
    let mut copy: Vec<T> = Vec::new();
    let mut i: usize = 0;
    while i < list.len()
        invariant
            i <= list.len(),
            copy@ == list@.take(i as int),
        decreases list.len() - i,
    {
        copy.push(list[i]);
        assert(copy@ =~= list@.take(i + 1));
        i += 1;
    }
    assert(copy@ =~= list@);
    copy
}

/// The same names again.
pub fn copy_names(list: &Vec<String>) -> (copy: Vec<String>)
    ensures
        copy@ == list@,
{
    let mut copy: Vec<String> = Vec::new();
    let mut i: usize = 0;
    while i < list.len()
        invariant
            i <= list.len(),
            copy@ == list@.take(i as int),
        decreases list.len() - i,
    {
        copy.push(list[i].clone());
        assert(copy@ =~= list@.take(i + 1));
        i += 1;
    }
    assert(copy@ =~= list@);
    copy
}

} // verus!
