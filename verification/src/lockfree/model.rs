//! The containers as sequences of values, runs of pushes and pops on them,
//! and what holds of every run.

use vstd::prelude::*;
use vstd::seq_lib::{lemma_multiset_commutative, to_multiset_build};

verus! {

/// Whether a copy of a value of `T` is that value: so it is for the
/// integers, and for every type whose `clone` says so.
pub open spec fn clone_keeps<T: Clone>() -> bool {
    forall|a: T, b: T| #[trigger] cloned(a, b) ==> a == b
}

/// One call on a container.
pub enum Op<T> {
    Push(T),
    Pop,
}

/// The values of a queue after `op`; the oldest value is the first.
pub open spec fn queue_after<T>(queue: Seq<T>, op: Op<T>) -> Seq<T> {
    match op {
        Op::Push(v) => queue.push(v),
        Op::Pop => if queue.len() > 0 {
            queue.skip(1)
        } else {
            queue
        },
    }
}

/// The value that `op` takes out of a queue.
pub open spec fn queue_out<T>(queue: Seq<T>, op: Op<T>) -> Option<T> {
    match op {
        Op::Push(_) => None,
        Op::Pop => if queue.len() > 0 {
            Some(queue[0])
        } else {
            None
        },
    }
}

/// The values of a stack after `op`; the top is the last.
pub open spec fn stack_after<T>(stack: Seq<T>, op: Op<T>) -> Seq<T> {
    match op {
        Op::Push(v) => stack.push(v),
        Op::Pop => if stack.len() > 0 {
            stack.drop_last()
        } else {
            stack
        },
    }
}

/// The value that `op` takes off a stack.
pub open spec fn stack_out<T>(stack: Seq<T>, op: Op<T>) -> Option<T> {
    match op {
        Op::Push(_) => None,
        Op::Pop => if stack.len() > 0 {
            Some(stack.last())
        } else {
            None
        },
    }
}

/// The values of a queue after the calls `ops`, made one after the other.
pub open spec fn queue_run<T>(queue: Seq<T>, ops: Seq<Op<T>>) -> Seq<T>
    decreases ops.len(),
{
    if ops.len() == 0 {
        queue
    } else {
        queue_after(queue_run(queue, ops.drop_last()), ops.last())
    }
}

/// The values that the calls `ops` take out of a queue, in the order in
/// which they come out.
pub open spec fn queue_outs<T>(queue: Seq<T>, ops: Seq<Op<T>>) -> Seq<T>
    decreases ops.len(),
{
    if ops.len() == 0 {
        Seq::empty()
    } else {
        let sooner = queue_outs(queue, ops.drop_last());
        match queue_out(queue_run(queue, ops.drop_last()), ops.last()) {
            Some(v) => sooner.push(v),
            None => sooner,
        }
    }
}

/// The values of a stack after the calls `ops`, made one after the other.
pub open spec fn stack_run<T>(stack: Seq<T>, ops: Seq<Op<T>>) -> Seq<T>
    decreases ops.len(),
{
    if ops.len() == 0 {
        stack
    } else {
        stack_after(stack_run(stack, ops.drop_last()), ops.last())
    }
}

/// The values that the calls `ops` take off a stack, in the order in which
/// they come off.
pub open spec fn stack_outs<T>(stack: Seq<T>, ops: Seq<Op<T>>) -> Seq<T>
    decreases ops.len(),
{
    if ops.len() == 0 {
        Seq::empty()
    } else {
        let sooner = stack_outs(stack, ops.drop_last());
        match stack_out(stack_run(stack, ops.drop_last()), ops.last()) {
            Some(v) => sooner.push(v),
            None => sooner,
        }
    }
}

/// The values that the calls `ops` push, in the order of the calls.
pub open spec fn pushed<T>(ops: Seq<Op<T>>) -> Seq<T>
    decreases ops.len(),
{
    if ops.len() == 0 {
        Seq::empty()
    } else {
        match ops.last() {
            Op::Push(v) => pushed(ops.drop_last()).push(v),
            Op::Pop => pushed(ops.drop_last()),
        }
    }
}

/// One push for each of `values`, in their order.
pub open spec fn pushes<T>(values: Seq<T>) -> Seq<Op<T>> {
    Seq::new(values.len(), |i: int| Op::Push(values[i]))
}

/// `count` pops.
pub open spec fn pops<T>(count: nat) -> Seq<Op<T>> {
    Seq::new(count, |i: int| Op::Pop)
}

/// A queue hands its values out in the order in which they went in: what
/// came out, followed by what is left, is what was there, followed by what
/// was pushed. So the values of any one producer come out in the order in
/// which it pushed them, whatever other producers pushed in between.
pub proof fn lemma_queue_keeps_order<T>(queue: Seq<T>, ops: Seq<Op<T>>)
    ensures
        queue_outs(queue, ops) + queue_run(queue, ops) == queue + pushed(ops),
    decreases ops.len(),
{
    if ops.len() == 0 {
        assert(queue_outs(queue, ops) + queue_run(queue, ops) =~= queue + pushed(ops));
    } else {
        let before = ops.drop_last();
        lemma_queue_keeps_order(queue, before);
        let outs = queue_outs(queue, before);
        let left = queue_run(queue, before);
        assert(outs + left == queue + pushed(before));
        match ops.last() {
            Op::Push(v) => {
                assert(outs + left.push(v) =~= (outs + left).push(v));
                assert(queue + pushed(before).push(v) =~= (queue + pushed(before)).push(v));
            },
            Op::Pop => {
                if left.len() > 0 {
                    assert(outs.push(left[0]) + left.skip(1) =~= outs + left);
                }
            },
        }
    }
}

/// First in, first out for each producer: of the values that one producer
/// pushed on an empty queue, marked by `own`, those that came out came out
/// in the order in which it pushed them, and before those that are left.
pub proof fn lemma_queue_keeps_order_of_each_producer<T>(
    ops: Seq<Op<T>>,
    own: spec_fn(T) -> bool,
)
    ensures
        queue_outs(Seq::empty(), ops).filter(own) + queue_run(Seq::empty(), ops).filter(own)
            == pushed(ops).filter(own),
        queue_outs(Seq::empty(), ops).filter(own).is_prefix_of(pushed(ops).filter(own)),
{
    let outs = queue_outs(Seq::<T>::empty(), ops);
    let left = queue_run(Seq::<T>::empty(), ops);
    lemma_queue_keeps_order(Seq::<T>::empty(), ops);
    assert(Seq::<T>::empty() + pushed(ops) =~= pushed(ops));
    Seq::filter_distributes_over_add(outs, left, own);
    let mine = outs.filter(own);
    let all = pushed(ops).filter(own);
    assert(all == mine + left.filter(own));
    assert(mine =~= all.subrange(0, mine.len() as int));
}

/// A queue loses no value and makes none up: the values that came out and
/// those that are left are, counted with their number, the values that were
/// there and those that were pushed.
pub proof fn lemma_queue_conserves<T>(queue: Seq<T>, ops: Seq<Op<T>>)
    ensures
        queue_outs(queue, ops).to_multiset().add(queue_run(queue, ops).to_multiset())
            == queue.to_multiset().add(pushed(ops).to_multiset()),
{
    lemma_queue_keeps_order(queue, ops);
    lemma_multiset_commutative(queue_outs(queue, ops), queue_run(queue, ops));
    lemma_multiset_commutative(queue, pushed(ops));
}

/// A stack loses no value and makes none up: the values that came off and
/// those that are left are, counted with their number, the values that were
/// there and those that were pushed.
pub proof fn lemma_stack_conserves<T>(stack: Seq<T>, ops: Seq<Op<T>>)
    ensures
        stack_outs(stack, ops).to_multiset().add(stack_run(stack, ops).to_multiset())
            == stack.to_multiset().add(pushed(ops).to_multiset()),
    decreases ops.len(),
{
    if ops.len() == 0 {
        assert(stack_outs(stack, ops).to_multiset().add(stack_run(stack, ops).to_multiset())
            =~= stack.to_multiset().add(pushed(ops).to_multiset()));
    } else {
        let before = ops.drop_last();
        lemma_stack_conserves(stack, before);
        let outs = stack_outs(stack, before);
        let left = stack_run(stack, before);
        match ops.last() {
            Op::Push(v) => {
                to_multiset_build(left, v);
                to_multiset_build(pushed(before), v);
                assert(outs.to_multiset().add(left.to_multiset().insert(v))
                    =~= outs.to_multiset().add(left.to_multiset()).insert(v));
                assert(stack.to_multiset().add(pushed(before).to_multiset().insert(v))
                    =~= stack.to_multiset().add(pushed(before).to_multiset()).insert(v));
            },
            Op::Pop => {
                if left.len() > 0 {
                    assert(left.drop_last().push(left.last()) =~= left);
                    to_multiset_build(left.drop_last(), left.last());
                    to_multiset_build(outs, left.last());
                    assert(outs.to_multiset().insert(left.last()).add(
                        left.drop_last().to_multiset(),
                    ) =~= outs.to_multiset().add(left.drop_last().to_multiset().insert(left.last())));
                }
            },
        }
    }
}

/// Where each value that was there or was pushed occurs once, no value
/// comes out twice, whichever consumer made the pop, and none that came out
/// is still in the container.
pub proof fn lemma_no_duplication<T>(start: Seq<T>, ops: Seq<Op<T>>)
    requires
        (start + pushed(ops)).no_duplicates(),
    ensures
        (queue_outs(start, ops) + queue_run(start, ops)).no_duplicates(),
        (stack_outs(start, ops) + stack_run(start, ops)).no_duplicates(),
        queue_outs(start, ops).no_duplicates(),
        stack_outs(start, ops).no_duplicates(),
{
    let all = start + pushed(ops);
    all.lemma_multiset_has_no_duplicates();
    lemma_multiset_commutative(start, pushed(ops));
    lemma_queue_conserves(start, ops);
    lemma_stack_conserves(start, ops);
    let q = queue_outs(start, ops) + queue_run(start, ops);
    let s = stack_outs(start, ops) + stack_run(start, ops);
    lemma_multiset_commutative(queue_outs(start, ops), queue_run(start, ops));
    lemma_multiset_commutative(stack_outs(start, ops), stack_run(start, ops));
    assert(q.to_multiset() == all.to_multiset());
    assert(s.to_multiset() == all.to_multiset());
    q.lemma_multiset_has_no_duplicates_conv();
    s.lemma_multiset_has_no_duplicates_conv();
    assert forall|i: int, j: int|
        0 <= i < queue_outs(start, ops).len() && 0 <= j < queue_outs(start, ops).len() && i
            != j implies queue_outs(start, ops)[i] != queue_outs(start, ops)[j] by {
        assert(q[i] == queue_outs(start, ops)[i] && q[j] == queue_outs(start, ops)[j]);
    }
    assert forall|i: int, j: int|
        0 <= i < stack_outs(start, ops).len() && 0 <= j < stack_outs(start, ops).len() && i
            != j implies stack_outs(start, ops)[i] != stack_outs(start, ops)[j] by {
        assert(s[i] == stack_outs(start, ops)[i] && s[j] == stack_outs(start, ops)[j]);
    }
}

/// Pushes alone put their values behind what was there, on a queue and on a
/// stack alike, and take nothing out.
pub proof fn lemma_pushes_append<T>(start: Seq<T>, values: Seq<T>)
    ensures
        pushed(pushes(values)) == values,
        queue_run(start, pushes(values)) == start + values,
        stack_run(start, pushes(values)) == start + values,
        queue_outs(start, pushes(values)) == Seq::<T>::empty(),
        stack_outs(start, pushes(values)) == Seq::<T>::empty(),
    decreases values.len(),
{
    let ops = pushes(values);
    if values.len() == 0 {
        assert(pushed(ops) =~= values);
        assert(start + values =~= start);
    } else {
        let fewer = values.drop_last();
        assert(ops.drop_last() =~= pushes(fewer));
        assert(ops.last() == Op::Push(values.last()));
        lemma_pushes_append(start, fewer);
        assert(fewer.push(values.last()) =~= values);
        assert((start + fewer).push(values.last()) =~= start + values);
    }
}

/// After pushes and before any pop, the first pop takes the value that was
/// pushed last off the stack.
pub proof fn lemma_stack_last_in_first_out<T>(stack: Seq<T>, values: Seq<T>)
    requires
        values.len() > 0,
    ensures
        stack_out(stack_run(stack, pushes(values)), Op::Pop) == Some(values.last()),
{
    lemma_pushes_append(stack, values);
}

/// As many pops as there are values take all of them off a stack, the last
/// one first.
pub proof fn lemma_stack_pops_reverse<T>(stack: Seq<T>, count: nat)
    requires
        count <= stack.len(),
    ensures
        stack_run(stack, pops(count)) == stack.take(stack.len() - count),
        stack_outs(stack, pops(count)) == stack.skip(stack.len() - count).reverse(),
    decreases count,
{
    let ops = pops::<T>(count);
    if count == 0 {
        assert(stack.take(stack.len() as int) =~= stack);
        assert(stack.skip(stack.len() as int).reverse() =~= Seq::<T>::empty());
    } else {
        let fewer = (count - 1) as nat;
        assert(ops.drop_last() =~= pops::<T>(fewer));
        assert(ops.last() == Op::<T>::Pop);
        lemma_stack_pops_reverse(stack, fewer);
        let left = stack.take(stack.len() - fewer);
        let n = stack.len() as int;
        assert(left.drop_last() =~= stack.take(n - count));
        assert(left.last() == stack[n - count]);
        assert(stack.skip(n - fewer).reverse().push(stack[n - count]) =~= stack.skip(
            n - count,
        ).reverse());
    }
}

/// As many pops as there are values take all of them out of a queue, the
/// first one first.
pub proof fn lemma_queue_pops_in_order<T>(queue: Seq<T>, count: nat)
    requires
        count <= queue.len(),
    ensures
        queue_run(queue, pops(count)) == queue.skip(count as int),
        queue_outs(queue, pops(count)) == queue.take(count as int),
    decreases count,
{
    let ops = pops::<T>(count);
    if count == 0 {
        assert(queue.skip(0) =~= queue);
        assert(queue.take(0) =~= Seq::<T>::empty());
    } else {
        let fewer = (count - 1) as nat;
        assert(ops.drop_last() =~= pops::<T>(fewer));
        assert(ops.last() == Op::<T>::Pop);
        lemma_queue_pops_in_order(queue, fewer);
        assert(queue.skip(fewer as int).skip(1) =~= queue.skip(count as int));
        assert(queue.take(fewer as int).push(queue[fewer as int]) =~= queue.take(count as int));
    }
}

/// A run goes on from where the run before it ended.
pub proof fn lemma_run_then_run<T>(start: Seq<T>, first: Seq<Op<T>>, second: Seq<Op<T>>)
    ensures
        queue_run(start, first + second) == queue_run(queue_run(start, first), second),
        stack_run(start, first + second) == stack_run(stack_run(start, first), second),
        queue_outs(start, first + second) == queue_outs(start, first) + queue_outs(
            queue_run(start, first),
            second,
        ),
        stack_outs(start, first + second) == stack_outs(start, first) + stack_outs(
            stack_run(start, first),
            second,
        ),
        pushed(first + second) == pushed(first) + pushed(second),
    decreases second.len(),
{
    let ops = first + second;
    if second.len() == 0 {
        assert(ops =~= first);
        assert(queue_outs(start, first) + Seq::<T>::empty() =~= queue_outs(start, first));
        assert(stack_outs(start, first) + Seq::<T>::empty() =~= stack_outs(start, first));
        assert(pushed(first) + Seq::<T>::empty() =~= pushed(first));
    } else {
        let fewer = second.drop_last();
        assert(ops.drop_last() =~= first + fewer);
        assert(ops.last() == second.last());
        lemma_run_then_run(start, first, fewer);
        let q1 = queue_outs(start, first);
        let q2 = queue_outs(queue_run(start, first), fewer);
        let s1 = stack_outs(start, first);
        let s2 = stack_outs(stack_run(start, first), fewer);
        match queue_out(queue_run(start, first + fewer), second.last()) {
            Some(v) => {
                assert((q1 + q2).push(v) =~= q1 + q2.push(v));
            },
            None => {},
        }
        match stack_out(stack_run(start, first + fewer), second.last()) {
            Some(v) => {
                assert((s1 + s2).push(v) =~= s1 + s2.push(v));
            },
            None => {},
        }
        match second.last() {
            Op::Push(v) => {
                assert((pushed(first) + pushed(fewer)).push(v) =~= pushed(first) + pushed(
                    fewer,
                ).push(v));
            },
            Op::Pop => {},
        }
    }
}

/// No loss: after pushes on an empty container and as many pops, the values
/// that came out are, counted with their number, the values that were
/// pushed; a queue gives them in the order of the pushes and a stack in the
/// opposite order. Nothing is left, and one more pop finds nothing.
pub proof fn lemma_no_loss<T>(values: Seq<T>)
    ensures
        ({
            let ops = pushes(values) + pops(values.len());
            &&& queue_outs(Seq::empty(), ops) == values
            &&& stack_outs(Seq::empty(), ops) == values.reverse()
            &&& queue_outs(Seq::empty(), ops).to_multiset() == values.to_multiset()
            &&& stack_outs(Seq::empty(), ops).to_multiset() == values.to_multiset()
            &&& queue_run(Seq::empty(), ops) == Seq::<T>::empty()
            &&& stack_run(Seq::empty(), ops) == Seq::<T>::empty()
            &&& queue_out(queue_run(Seq::empty(), ops), Op::Pop) is None
            &&& stack_out(stack_run(Seq::empty(), ops), Op::Pop) is None
        }),
{
    let none = Seq::<T>::empty();
    let n = values.len();
    lemma_pushes_append(none, values);
    assert(none + values =~= values);
    lemma_run_then_run(none, pushes(values), pops(n));
    lemma_queue_pops_in_order(values, n);
    lemma_stack_pops_reverse(values, n);
    assert(values.take(n as int) =~= values);
    assert(values.skip(n as int) =~= none);
    assert(values.skip(0) =~= values);
    assert(values.take(0) =~= none);
    assert(none + values.reverse() =~= values.reverse());
    values.lemma_reverse_to_multiset();
}

/// Emptiness: once as many values came out as were pushed on an empty
/// container, nothing is left, and a pop finds nothing.
pub proof fn lemma_drained_is_empty<T>(ops: Seq<Op<T>>)
    ensures
        queue_outs(Seq::empty(), ops).len() == pushed(ops).len() ==> {
            &&& queue_run(Seq::empty(), ops).len() == 0
            &&& queue_out(queue_run(Seq::empty(), ops), Op::Pop) is None
        },
        stack_outs(Seq::empty(), ops).len() == pushed(ops).len() ==> {
            &&& stack_run(Seq::empty(), ops).len() == 0
            &&& stack_out(stack_run(Seq::empty(), ops), Op::Pop) is None
        },
{
    let none = Seq::<T>::empty();
    lemma_queue_keeps_order(none, ops);
    assert((queue_outs(none, ops) + queue_run(none, ops)).len() == (none + pushed(ops)).len());
    lemma_stack_conserves(none, ops);
    let m = stack_outs(none, ops).to_multiset().add(stack_run(none, ops).to_multiset());
    stack_outs(none, ops).to_multiset_ensures();
    stack_run(none, ops).to_multiset_ensures();
    pushed(ops).to_multiset_ensures();
    none.to_multiset_ensures();
    assert(m.len() == stack_outs(none, ops).len() + stack_run(none, ops).len());
    assert(none.to_multiset().add(pushed(ops).to_multiset()).len() == pushed(ops).len());
}

/// Whether `copies` holds, place by place, what `clone` may give for the
/// values in `values`: a queue hands out copies of its values.
pub open spec fn copies_of<T: Clone>(values: Seq<T>, copies: Seq<T>) -> bool {
    &&& copies.len() == values.len()
    &&& forall|i: int| 0 <= i < values.len() ==> cloned(#[trigger] values[i], copies[i])
}

/// No loss and no duplication in what a queue hands out, where a copy of a
/// value is that value: the copies that the pops of a run hand out are the
/// values that came out, so after pushes on an empty queue and as many pops
/// they are the pushed values in their order, and where no value was there
/// or pushed twice, none is handed out twice.
pub proof fn lemma_queue_copies<T: Clone>(start: Seq<T>, ops: Seq<Op<T>>, copies: Seq<T>)
    requires
        clone_keeps::<T>(),
        copies_of(queue_outs(start, ops), copies),
    ensures
        copies == queue_outs(start, ops),
        copies.to_multiset().add(queue_run(start, ops).to_multiset()) == start.to_multiset().add(
            pushed(ops).to_multiset(),
        ),
        (start + pushed(ops)).no_duplicates() ==> copies.no_duplicates(),
        forall|values: Seq<T>|
            start.len() == 0 && ops == #[trigger] pushes(values) + pops(values.len()) ==> copies
                == values,
{
    let outs = queue_outs(start, ops);
    assert forall|i: int| 0 <= i < outs.len() implies copies[i] == outs[i] by {
        assert(cloned(outs[i], copies[i]));
    }
    assert(copies =~= outs);
    lemma_queue_conserves(start, ops);
    if (start + pushed(ops)).no_duplicates() {
        lemma_no_duplication(start, ops);
    }
    assert forall|values: Seq<T>|
        start.len() == 0 && ops == #[trigger] pushes(values) + pops(values.len()) implies copies
        == values by {
        assert(start =~= Seq::<T>::empty());
        lemma_no_loss(values);
    }
}

/// How many empty nodes wait for reuse after `op`, in a container that held
/// `held` values and had `free` empty nodes: a push takes one if there is
/// one, and a pop that finds a value gives one back.
pub open spec fn free_after<T>(held: nat, free: nat, op: Op<T>) -> nat {
    match op {
        Op::Push(_) => if free > 0 {
            (free - 1) as nat
        } else {
            0
        },
        Op::Pop => if held > 0 {
            free + 1
        } else {
            free
        },
    }
}

/// How many empty nodes wait for reuse after the calls `ops`, on a container
/// that held the values `start` and had `free` empty nodes.
pub open spec fn free_run<T>(start: Seq<T>, free: nat, ops: Seq<Op<T>>) -> nat
    decreases ops.len(),
{
    if ops.len() == 0 {
        free
    } else {
        free_after(
            stack_run(start, ops.drop_last()).len(),
            free_run(start, free, ops.drop_last()),
            ops.last(),
        )
    }
}

/// The largest number of values that the container holds at any moment of
/// the calls `ops`, the moment before the first call included.
pub open spec fn peak<T>(start: Seq<T>, ops: Seq<Op<T>>) -> nat
    decreases ops.len(),
{
    if ops.len() == 0 {
        start.len()
    } else {
        let sooner = peak(start, ops.drop_last());
        let now = stack_run(start, ops).len();
        if now > sooner {
            now
        } else {
            sooner
        }
    }
}

/// A stack and a queue hold the same number of values after the same calls.
pub proof fn lemma_same_length<T>(start: Seq<T>, ops: Seq<Op<T>>)
    ensures
        queue_run(start, ops).len() == stack_run(start, ops).len(),
    decreases ops.len(),
{
    if ops.len() > 0 {
        lemma_same_length(start, ops.drop_last());
    }
}

/// Node conservation: the nodes of a container, those that hold its values
/// and the empty ones, are never more than it had at the start or than the
/// values it held at its fullest. So a run allocates at most as many nodes
/// as the container held values at its fullest, however many pushes it
/// makes.
pub proof fn lemma_nodes_bounded<T>(start: Seq<T>, free: nat, ops: Seq<Op<T>>)
    ensures
        stack_run(start, ops).len() <= peak(start, ops),
        stack_run(start, ops).len() + free_run(start, free, ops) <= (if start.len() + free > peak(
            start,
            ops,
        ) {
            start.len() + free
        } else {
            peak(start, ops)
        }),
        stack_run(start, ops).len() + free_run(start, free, ops) <= start.len() + free + peak(
            start,
            ops,
        ),
    decreases ops.len(),
{
    if ops.len() > 0 {
        lemma_nodes_bounded(start, free, ops.drop_last());
    }
}

} // verus!
