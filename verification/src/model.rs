//! The sequence model that both containers share: what a push and a pop do
//! to the sequence of elements that a container stands for.

use vstd::prelude::*;

verus! {

/// What a pop leaves of the elements `s`: all but the first, and `s` itself
/// where there is none.
pub open spec fn popped<T>(s: Seq<T>) -> Seq<T> {
    if s.len() == 0 {
        s
    } else {
        s.drop_first()
    }
}

/// What a pop on the elements `s` hands out: the first, if there is one.
pub open spec fn front<T>(s: Seq<T>) -> Option<T> {
    if s.len() == 0 {
        None
    } else {
        Some(s[0])
    }
}

/// What a push of `data` on a stack makes of its elements `s`: `data` comes
/// first.
pub open spec fn stack_pushed<T>(s: Seq<T>, data: T) -> Seq<T> {
    seq![data] + s
}

/// What a push of `data` on a queue makes of its elements `s`: `data` comes
/// last.
pub open spec fn queue_pushed<T>(s: Seq<T>, data: T) -> Seq<T> {
    s.push(data)
}

/// The two orders in which a container hands its elements back.
pub enum Discipline {
    /// First in, first out: the queue.
    Fifo,
    /// Last in, first out: the stack.
    Lifo,
}

/// One call on a container.
pub enum Op<T> {
    /// A push of the given element.
    Push(T),
    /// A pop.
    Pop,
}

/// What a push of `data` makes of the elements `s` under discipline `d`.
pub open spec fn pushed<T>(d: Discipline, s: Seq<T>, data: T) -> Seq<T> {
    match d {
        Discipline::Fifo => queue_pushed(s, data),
        Discipline::Lifo => stack_pushed(s, data),
    }
}

/// The elements after the `items` are pushed, one by one from the first, on
/// a container that holds `s`.
pub open spec fn push_all<T>(d: Discipline, s: Seq<T>, items: Seq<T>) -> Seq<T>
    decreases items.len(),
{
    if items.len() == 0 {
        s
    } else {
        pushed(d, push_all(d, s, items.drop_last()), items.last())
    }
}

/// What `n` pops in a row hand out, starting on a container that holds `s`.
pub open spec fn pop_outputs<T>(s: Seq<T>, n: nat) -> Seq<Option<T>>
    decreases n,
{
    if n == 0 {
        Seq::empty()
    } else {
        seq![front(s)] + pop_outputs(popped(s), (n - 1) as nat)
    }
}

/// What `n` pops in a row leave of the elements `s`.
pub open spec fn pop_rest<T>(s: Seq<T>, n: nat) -> Seq<T>
    decreases n,
{
    if n == 0 {
        s
    } else {
        pop_rest(popped(s), (n - 1) as nat)
    }
}

/// What the call `op` makes of the elements `s` under discipline `d`.
pub open spec fn step<T>(d: Discipline, s: Seq<T>, op: Op<T>) -> Seq<T> {
    match op {
        Op::Push(data) => pushed(d, s, data),
        Op::Pop => popped(s),
    }
}

/// The elements after the calls `ops` are made in turn on a container that
/// holds `s`.
pub open spec fn run<T>(d: Discipline, s: Seq<T>, ops: Seq<Op<T>>) -> Seq<T>
    decreases ops.len(),
{
    if ops.len() == 0 {
        s
    } else {
        step(d, run(d, s, ops.drop_last()), ops.last())
    }
}

/// The number of pushes among `ops`.
pub open spec fn pushes<T>(ops: Seq<Op<T>>) -> nat
    decreases ops.len(),
{
    if ops.len() == 0 {
        0
    } else {
        pushes(ops.drop_last()) + (if ops.last() is Push {
            1nat
        } else {
            0nat
        })
    }
}

/// The number of pops among `ops` that hand out an element, when the calls
/// are made in turn on a container that holds `s`.
pub open spec fn served_pops<T>(d: Discipline, s: Seq<T>, ops: Seq<Op<T>>) -> nat
    decreases ops.len(),
{
    if ops.len() == 0 {
        0
    } else {
        served_pops(d, s, ops.drop_last()) + (if ops.last() is Pop && front(
            run(d, s, ops.drop_last()),
        ) is Some {
            1nat
        } else {
            0nat
        })
    }
}

/// Pushing `items` on a queue that holds `s` puts them behind `s`, in the
/// order given.
pub proof fn lemma_push_all_fifo<T>(s: Seq<T>, items: Seq<T>)
    ensures
        push_all(Discipline::Fifo, s, items) == s + items,
    decreases items.len(),
{
    if items.len() > 0 {
        lemma_push_all_fifo(s, items.drop_last());
        assert(items == items.drop_last().push(items.last()));
    }
    assert(push_all(Discipline::Fifo, s, items) =~= s + items);
}

/// Pushing `items` on a stack that holds `s` puts them above `s`, the last
/// one given on top.
pub proof fn lemma_push_all_lifo<T>(s: Seq<T>, items: Seq<T>)
    ensures
        push_all(Discipline::Lifo, s, items).len() == items.len() + s.len(),
        forall|k: int|
            0 <= k < items.len() ==> #[trigger] push_all(Discipline::Lifo, s, items)[k]
                == items[items.len() - 1 - k],
        forall|k: int|
            items.len() <= k < items.len() + s.len() ==> #[trigger] push_all(
                Discipline::Lifo,
                s,
                items,
            )[k] == s[k - items.len()],
    decreases items.len(),
{
    if items.len() > 0 {
        lemma_push_all_lifo(s, items.drop_last());
    }
}

/// Pops in a row hand out the elements from the first on, each once, and
/// nothing once they are all out; what they leave is what they did not
/// reach.
pub proof fn lemma_pops<T>(s: Seq<T>, n: nat)
    ensures
        pop_outputs(s, n).len() == n,
        forall|k: int|
            0 <= k < n ==> #[trigger] pop_outputs(s, n)[k] == (if k < s.len() {
                Some(s[k])
            } else {
                None
            }),
        n <= s.len() ==> pop_rest(s, n) == s.skip(n as int),
        n >= s.len() ==> pop_rest(s, n) == Seq::<T>::empty(),
    decreases n,
{
    if n > 0 {
        lemma_pops(popped(s), (n - 1) as nat);
        let rest = pop_outputs(popped(s), (n - 1) as nat);
        assert forall|k: int| 0 <= k < n implies #[trigger] pop_outputs(s, n)[k] == (if k
            < s.len() {
            Some(s[k])
        } else {
            None
        }) by {
            if k > 0 {
                assert(pop_outputs(s, n)[k] == rest[k - 1]);
            }
        }
        if n <= s.len() {
            assert(popped(s).skip(n - 1) =~= s.skip(n as int));
        }
        if s.len() == 0 {
            assert(popped(s) =~= Seq::<T>::empty());
        }
    } else {
        assert(s.skip(0) =~= s);
    }
}

/// A queue hands back what was pushed on it in the order of the pushes:
/// after the `items` are pushed on an empty queue, the pop of number `k`
/// hands out `items[k]`, every pop after the last of them hands out nothing,
/// and once as many pops as pushes are made the queue is empty.
pub proof fn lemma_queue_first_in_first_out<T>(items: Seq<T>, n: nat)
    ensures
        pop_outputs(push_all(Discipline::Fifo, Seq::empty(), items), n).len() == n,
        forall|k: int|
            0 <= k < n ==> #[trigger] pop_outputs(
                push_all(Discipline::Fifo, Seq::empty(), items),
                n,
            )[k] == (if k < items.len() {
                Some(items[k])
            } else {
                None
            }),
        n >= items.len() ==> pop_rest(push_all(Discipline::Fifo, Seq::empty(), items), n).len()
            == 0,
{
    lemma_push_all_fifo(Seq::empty(), items);
    assert(Seq::<T>::empty() + items =~= items);
    lemma_pops(items, n);
}

/// A stack hands back what was pushed on it in the reverse order of the
/// pushes: after the `items` are pushed on an empty stack, the pop of number
/// `k` hands out the item that was pushed `k` pushes before the last, every
/// pop after the last of them hands out nothing, and once as many pops as
/// pushes are made the stack is empty.
pub proof fn lemma_stack_last_in_first_out<T>(items: Seq<T>, n: nat)
    ensures
        pop_outputs(push_all(Discipline::Lifo, Seq::empty(), items), n).len() == n,
        forall|k: int|
            0 <= k < n ==> #[trigger] pop_outputs(
                push_all(Discipline::Lifo, Seq::empty(), items),
                n,
            )[k] == (if k < items.len() {
                Some(items[items.len() - 1 - k])
            } else {
                None
            }),
        n >= items.len() ==> pop_rest(push_all(Discipline::Lifo, Seq::empty(), items), n).len()
            == 0,
{
    lemma_push_all_lifo(Seq::empty(), items);
    lemma_pops(push_all(Discipline::Lifo, Seq::empty(), items), n);
}

/// Whatever calls are made on an empty container, in whatever order, the
/// number of its elements afterwards is the number of pushes less the number
/// of pops that handed out an element.
pub proof fn lemma_size_is_pushes_less_served_pops<T>(d: Discipline, ops: Seq<Op<T>>)
    ensures
        run(d, Seq::empty(), ops).len() == pushes(ops) - served_pops(d, Seq::empty(), ops),
    decreases ops.len(),
{
    if ops.len() > 0 {
        lemma_size_is_pushes_less_served_pops(d, ops.drop_last());
    }
}

/// A pop on an empty container hands out nothing and leaves it empty,
/// however often it is made.
pub proof fn lemma_pop_on_empty<T>(n: nat)
    ensures
        front(Seq::<T>::empty()) is None,
        popped(Seq::<T>::empty()) == Seq::<T>::empty(),
        pop_rest(Seq::<T>::empty(), n) == Seq::<T>::empty(),
        forall|k: int| 0 <= k < n ==> #[trigger] pop_outputs(Seq::<T>::empty(), n)[k] is None,
{
    lemma_pops(Seq::<T>::empty(), n);
}

/// Where every link of `chain` is the element `written[k]` followed by the
/// next link, and the last link is empty, the link `k` is what `written`
/// holds from `k` on.
proof fn lemma_chain_from<T>(chain: Seq<Seq<T>>, written: Seq<T>, k: int)
    requires
        chain.len() == written.len() + 1,
        forall|j: int|
            0 <= j < written.len() ==> chain[j] == seq![#[trigger] written[j]] + chain[j + 1],
        chain[written.len() as int].len() == 0,
        0 <= k <= written.len(),
    ensures
        chain[k] == written.skip(k),
    decreases written.len() - k,
{
    if k < written.len() {
        lemma_chain_from(chain, written, k + 1);
        assert(chain[k] == seq![written[k]] + chain[k + 1]);
    }
    assert(chain[k] =~= written.skip(k));
}

/// A traversal that writes to every element it visits leaves the written
/// values in the order of the visits, and pops then hand them out in that
/// order. Here `chain[k]` stands for what the traversal leaves from its
/// visit of number `k` on: the value `written[k]`, followed by `chain[k + 1]`;
/// after the last visit nothing is left. Then the container holds `written`
/// when the traversal ends, the pop of number `k` hands out `written[k]`,
/// and every pop after the last of them hands out nothing.
pub proof fn lemma_written_values_come_out_in_order<T>(
    chain: Seq<Seq<T>>,
    written: Seq<T>,
    n: nat,
)
    requires
        chain.len() == written.len() + 1,
        forall|k: int|
            0 <= k < written.len() ==> chain[k] == seq![#[trigger] written[k]] + chain[k + 1],
        chain[written.len() as int].len() == 0,
    ensures
        chain[0] == written,
        pop_outputs(chain[0], n).len() == n,
        forall|k: int|
            0 <= k < n ==> #[trigger] pop_outputs(chain[0], n)[k] == (if k < written.len() {
                Some(written[k])
            } else {
                None
            }),
        n >= written.len() ==> pop_rest(chain[0], n).len() == 0,
{
    lemma_chain_from(chain, written, 0);
    assert(written.skip(0) =~= written);
    lemma_pops(written, n);
}

} // verus!
