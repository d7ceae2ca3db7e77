//! The mathematical model of end operations on a sequence of elements, and
//! the laws that relate them: pushing at an end, what a pop at either end
//! returns, and how chains of pushes compose.

use vstd::prelude::*;

verus! {

/// The contents after a value is pushed at the front.
pub open spec fn pushed_front<T>(s: Seq<T>, v: T) -> Seq<T> {
    seq![v] + s
}

/// The contents after a value is pushed at the back.
pub open spec fn pushed_back<T>(s: Seq<T>, v: T) -> Seq<T> {
    s.push(v)
}

/// The contents after every value of `vs`, in order, is pushed at the front.
pub open spec fn pushed_front_all<T>(s: Seq<T>, vs: Seq<T>) -> Seq<T>
    decreases vs.len(),
{
    if vs.len() == 0 {
        s
    } else {
        pushed_front_all(pushed_front(s, vs[0]), vs.drop_first())
    }
}

/// The contents after every value of `vs`, in order, is pushed at the back.
pub open spec fn pushed_back_all<T>(s: Seq<T>, vs: Seq<T>) -> Seq<T>
    decreases vs.len(),
{
    if vs.len() == 0 {
        s
    } else {
        pushed_back_all(pushed_back(s, vs[0]), vs.drop_first())
    }
}

/// Pushing a run of values at the front lays them down in reverse order,
/// ahead of what was already there.
pub proof fn lemma_front_pushes_reverse<T>(s: Seq<T>, vs: Seq<T>)
    ensures
        pushed_front_all(s, vs) == vs.reverse() + s,
    decreases vs.len(),
{
    if vs.len() == 0 {
        assert(pushed_front_all(s, vs) =~= vs.reverse() + s);
    } else {
        lemma_front_pushes_reverse(pushed_front(s, vs[0]), vs.drop_first());
        assert(vs.drop_first().reverse() + (seq![vs[0]] + s) =~= vs.reverse() + s);
    }
}

/// Pushing a run of values at the back appends them in order, after what was
/// already there.
pub proof fn lemma_back_pushes_append<T>(s: Seq<T>, vs: Seq<T>)
    ensures
        pushed_back_all(s, vs) == s + vs,
    decreases vs.len(),
{
    if vs.len() == 0 {
        assert(pushed_back_all(s, vs) =~= s + vs);
    } else {
        lemma_back_pushes_append(pushed_back(s, vs[0]), vs.drop_first());
        assert(s.push(vs[0]) + vs.drop_first() =~= s + vs);
    }
}

/// Front pushes followed by front pops act as a stack: after pushing `vs` at
/// the front, the first `vs.len()` front pops return exactly `vs` reversed,
/// and what remains is the original contents. A front pop returns element 0
/// and drops it, so successive pops walk the prefix in order.
pub proof fn lemma_front_stack_round_trip<T>(s: Seq<T>, vs: Seq<T>)
    ensures
        pushed_front_all(s, vs).take(vs.len() as int) == vs.reverse(),
        pushed_front_all(s, vs).skip(vs.len() as int) == s,
{
    lemma_front_pushes_reverse(s, vs);
    assert(pushed_front_all(s, vs).take(vs.len() as int) =~= vs.reverse());
    assert(pushed_front_all(s, vs).skip(vs.len() as int) =~= s);
}

/// Back pushes followed by front pops act as a queue: after pushing `vs` at
/// the back, front pops return first the pre-existing contents and then `vs`
/// itself in insertion order.
pub proof fn lemma_queue_round_trip<T>(s: Seq<T>, vs: Seq<T>)
    ensures
        pushed_back_all(s, vs).take(s.len() as int) == s,
        pushed_back_all(s, vs).skip(s.len() as int) == vs,
{
    lemma_back_pushes_append(s, vs);
    assert(pushed_back_all(s, vs).take(s.len() as int) =~= s);
    assert(pushed_back_all(s, vs).skip(s.len() as int) =~= vs);
}

/// One push and one pop at the same end are inverse, at either end: the pop
/// returns the value just pushed and restores the previous contents.
pub proof fn lemma_same_end_inverse<T>(s: Seq<T>, v: T)
    ensures
        pushed_front(s, v).len() == s.len() + 1,
        pushed_front(s, v)[0] == v,
        pushed_front(s, v).drop_first() == s,
        pushed_back(s, v).len() == s.len() + 1,
        pushed_back(s, v).last() == v,
        pushed_back(s, v).drop_last() == s,
{
    assert(pushed_front(s, v).drop_first() =~= s);
    assert(pushed_back(s, v).drop_last() =~= s);
}

/// A push at one end and a pop at the other act as a queue: on a non-empty
/// container the pop still returns the element that was oldest at its end,
/// untouched by the push, and the push survives in what remains.
pub proof fn lemma_cross_end_queue<T>(s: Seq<T>, v: T)
    requires
        s.len() > 0,
    ensures
        pushed_back(s, v)[0] == s[0],
        pushed_back(s, v).drop_first() == pushed_back(s.drop_first(), v),
        pushed_front(s, v).last() == s.last(),
        pushed_front(s, v).drop_last() == pushed_front(s.drop_last(), v),
{
    assert(pushed_back(s, v).drop_first() =~= pushed_back(s.drop_first(), v));
    assert(pushed_front(s, v).drop_last() =~= pushed_front(s.drop_last(), v));
}

} // verus!
