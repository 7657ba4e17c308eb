//! Operations at the two ends of a sequence, as the list and its iterators
//! perform them, and the laws that runs of them obey.
use vstd::prelude::*;

verus! {

/// One change at an end of a list, as a push or pop method makes it.
pub enum Edit<T> {
    PushBack(T),
    PushFront(T),
    PopBack,
    PopFront,
}

/// The contents after `e`, as the method that makes it states; a pop leaves an
/// empty sequence as it is.
pub open spec fn after_edit<T>(s: Seq<T>, e: Edit<T>) -> Seq<T> {
    match e {
        Edit::PushBack(x) => s.push(x),
        Edit::PushFront(x) => seq![x] + s,
        Edit::PopBack => if s.len() == 0 { s } else { s.drop_last() },
        Edit::PopFront => if s.len() == 0 { s } else { s.drop_first() },
    }
}

/// The contents after each of `edits` in turn.
pub open spec fn after_edits<T>(s: Seq<T>, edits: Seq<Edit<T>>) -> Seq<T>
    decreases edits.len(),
{
    if edits.len() == 0 {
        s
    } else {
        after_edits(after_edit(s, edits[0]), edits.drop_first())
    }
}

/// The count of elements held after `edits`, starting from `n`: one more for
/// each push, one fewer for each pop that finds an element.
pub open spec fn net_count<T>(n: nat, edits: Seq<Edit<T>>) -> nat
    decreases edits.len(),
{
    if edits.len() == 0 {
        n
    } else {
        let m: nat = match edits[0] {
            Edit::PushBack(_) => n + 1,
            Edit::PushFront(_) => n + 1,
            _ => if n > 0 { (n - 1) as nat } else { 0 },
        };
        net_count(m, edits.drop_first())
    }
}

/// `s` after pushing each of `xs` at the back, in turn.
pub open spec fn pushed_back<T>(s: Seq<T>, xs: Seq<T>) -> Seq<T>
    decreases xs.len(),
{
    if xs.len() == 0 {
        s
    } else {
        pushed_back(s.push(xs[0]), xs.drop_first())
    }
}

/// `s` after pushing each of `xs` at the front, in turn.
pub open spec fn pushed_front<T>(s: Seq<T>, xs: Seq<T>) -> Seq<T>
    decreases xs.len(),
{
    if xs.len() == 0 {
        s
    } else {
        pushed_front(seq![xs[0]] + s, xs.drop_first())
    }
}

/// Takes one element per entry of `from_front` off `s`, from the front where
/// the entry is true and from the back where it is false, as `pop_front` and
/// `pop_back`, or `next` and `next_back`, do. Gives the elements taken from the
/// front and those taken from the back, each in the order taken, and what is
/// left. Once nothing is left, further steps take nothing.
pub open spec fn take_ends<T>(s: Seq<T>, from_front: Seq<bool>) -> (Seq<T>, Seq<T>, Seq<T>)
    decreases from_front.len(),
{
    if from_front.len() == 0 {
        (seq![], seq![], s)
    } else {
        let (f, b, rest) = take_ends(s, from_front.drop_last());
        if rest.len() == 0 {
            (f, b, rest)
        } else if from_front.last() {
            (f.push(rest[0]), b, rest.drop_first())
        } else {
            (f, b.push(rest.last()), rest.drop_last())
        }
    }
}

/// `n` steps, all from the same end.
pub open spec fn steps(n: nat, from_front: bool) -> Seq<bool> {
    Seq::new(n, |i: int| from_front)
}

/// After any run of pushes and pops, the list holds exactly the net count of
/// elements: one more per push, one fewer per pop of a non-empty list.
pub proof fn lemma_length_is_net_count<T>(s: Seq<T>, edits: Seq<Edit<T>>)
    ensures
        after_edits(s, edits).len() == net_count(s.len(), edits),
    decreases edits.len(),
{
    if edits.len() > 0 {
        lemma_length_is_net_count(after_edit(s, edits[0]), edits.drop_first());
    }
}

/// Pushing at the back appends.
proof fn lemma_pushed_back<T>(s: Seq<T>, xs: Seq<T>)
    ensures
        pushed_back(s, xs) == s + xs,
    decreases xs.len(),
{
    if xs.len() > 0 {
        lemma_pushed_back(s.push(xs[0]), xs.drop_first());
        assert(s.push(xs[0]) + xs.drop_first() =~= s + xs);
    }
}

/// Pushing at the front prepends in reverse.
proof fn lemma_pushed_front<T>(s: Seq<T>, xs: Seq<T>)
    ensures
        pushed_front(s, xs) == xs.reverse() + s,
    decreases xs.len(),
{
    if xs.len() > 0 {
        lemma_pushed_front(seq![xs[0]] + s, xs.drop_first());
        assert(xs.drop_first().reverse() + (seq![xs[0]] + s) =~= xs.reverse() + s);
    }
}

/// Taking `k` times from the front yields the first `k` elements.
proof fn lemma_take_front<T>(s: Seq<T>, k: nat)
    requires
        k <= s.len(),
    ensures
        take_ends(s, steps(k, true)) == (s.take(k as int), Seq::<T>::empty(), s.skip(k as int)),
    decreases k,
{
    if k > 0 {
        assert(steps(k, true).drop_last() =~= steps((k - 1) as nat, true));
        lemma_take_front(s, (k - 1) as nat);
        assert(s.take(k - 1).push(s.skip(k - 1)[0]) =~= s.take(k as int));
        assert(s.skip(k - 1).drop_first() =~= s.skip(k as int));
    } else {
        assert(s.take(0) =~= Seq::<T>::empty());
        assert(s.skip(0) =~= s);
    }
}

/// Taking `k` times from the back yields the last `k` elements, last first.
proof fn lemma_take_back<T>(s: Seq<T>, k: nat)
    requires
        k <= s.len(),
    ensures
        take_ends(s, steps(k, false)) == (
            Seq::<T>::empty(),
            s.skip(s.len() - k).reverse(),
            s.take(s.len() - k),
        ),
    decreases k,
{
    let n = s.len() as int;
    if k > 0 {
        assert(steps(k, false).drop_last() =~= steps((k - 1) as nat, false));
        lemma_take_back(s, (k - 1) as nat);
        assert(s.skip(n - (k - 1)).reverse().push(s.take(n - (k - 1)).last()) =~= s.skip(
            n - k,
        ).reverse());
        assert(s.take(n - (k - 1)).drop_last() =~= s.take(n - k));
    } else {
        assert(s.skip(n).reverse() =~= Seq::<T>::empty());
        assert(s.take(n) =~= s);
    }
}

/// Pushing elements at one end and popping as many from that end gives them
/// back in reverse order, at either end.
pub proof fn lemma_same_end_is_lifo<T>(s: Seq<T>, xs: Seq<T>)
    ensures
        take_ends(pushed_back(s, xs), steps(xs.len(), false)).1 == xs.reverse(),
        take_ends(pushed_back(s, xs), steps(xs.len(), false)).2 == s,
        take_ends(pushed_front(s, xs), steps(xs.len(), true)).0 == xs.reverse(),
        take_ends(pushed_front(s, xs), steps(xs.len(), true)).2 == s,
{
    lemma_pushed_back(s, xs);
    lemma_take_back(s + xs, xs.len());
    assert((s + xs).skip(s.len() as int) =~= xs);
    assert((s + xs).take(s.len() as int) =~= s);
    lemma_pushed_front(s, xs);
    lemma_take_front(xs.reverse() + s, xs.len());
    assert((xs.reverse() + s).take(xs.len() as int) =~= xs.reverse());
    assert((xs.reverse() + s).skip(xs.len() as int) =~= s);
}

/// Pushing at the back and popping everything from the front gives the
/// elements in the order they went in, after those already held.
pub proof fn lemma_back_to_front_is_fifo<T>(s: Seq<T>, xs: Seq<T>)
    ensures
        take_ends(pushed_back(s, xs), steps(s.len() + xs.len(), true)).0 == s + xs,
        take_ends(pushed_back(s, xs), steps(s.len() + xs.len(), true)).2.len() == 0,
{
    lemma_pushed_back(s, xs);
    lemma_take_front(s + xs, s.len() + xs.len());
    assert((s + xs).take((s.len() + xs.len()) as int) =~= s + xs);
}

/// However the two ends are mixed, every element is handed out at most once
/// and none is skipped: the front part, what is left and the back part, taken
/// back in reverse, make up the sequence; once there have been as many steps
/// as elements, nothing is left.
pub proof fn lemma_take_ends_partitions<T>(s: Seq<T>, from_front: Seq<bool>)
    ensures
        ({
            let (f, b, rest) = take_ends(s, from_front);
            &&& f + rest + b.reverse() == s
            &&& rest.len() == (if from_front.len() >= s.len() {
                0
            } else {
                s.len() - from_front.len()
            })
        }),
    decreases from_front.len(),
{
    if from_front.len() == 0 {
        assert(Seq::<T>::empty() + s + Seq::<T>::empty().reverse() =~= s);
    } else {
        lemma_take_ends_partitions(s, from_front.drop_last());
        let (f, b, rest) = take_ends(s, from_front.drop_last());
        if rest.len() > 0 {
            if from_front.last() {
                assert(f.push(rest[0]) + rest.drop_first() + b.reverse() =~= f + rest
                    + b.reverse());
            } else {
                assert(f + rest.drop_last() + b.push(rest.last()).reverse() =~= f + rest
                    + b.reverse());
            }
        }
    }
}

/// Driven from the front to the end, a traversal yields the sequence as it is
/// and leaves nothing; driven from the back, it yields the exact reverse.
pub proof fn lemma_full_traversals<T>(s: Seq<T>)
    ensures
        take_ends(s, steps(s.len(), true)) == (s, Seq::<T>::empty(), Seq::<T>::empty()),
        take_ends(s, steps(s.len(), false)) == (Seq::<T>::empty(), s.reverse(), Seq::<T>::empty()),
{
    lemma_take_front(s, s.len());
    assert(s.take(s.len() as int) =~= s);
    assert(s.skip(s.len() as int) =~= Seq::<T>::empty());
    lemma_take_back(s, s.len());
    assert(s.skip(0) =~= s);
    assert(s.take(0) =~= Seq::<T>::empty());
}

} // verus!
