//! Moving the items of a vector out in order.

use vstd::prelude::*;

verus! {

/// The items in opposite order. Popping from the result hands the items
/// out front to back.
pub fn reversed<T>(v: Vec<T>) -> (r: Vec<T>)
    ensures
        r@ == v@.reverse(),
        r@ == remaining(v@, 0),
        r@.len() == v@.len(),
{
    let mut v = v;
    let ghost all = v@;
    let mut r: Vec<T> = Vec::new();
    while v.len() > 0
        invariant
            v@.len() + r@.len() == all.len(),
            v@ == all.take(v@.len() as int),
            r@ == all.reverse().take(r@.len() as int),
        decreases v.len(),
    {
        let item = v.pop().unwrap();
        r.push(item);
        assert(r@ =~= all.reverse().take(r@.len() as int));
        assert(v@ =~= all.take(v@.len() as int));
    }
    assert(r@ =~= all.reverse());
    assert(r@ =~= remaining(all, 0));
    r
}

/// What remains to be handed out, when the first `done` items of `all`
/// have been.
pub open spec fn remaining<T>(all: Seq<T>, done: int) -> Seq<T> {
    all.reverse().take(all.len() - done)
}

/// The next item handed out is `all[done]`, and then one more is done.
pub proof fn lemma_remaining<T>(all: Seq<T>, done: int)
    requires
        0 <= done < all.len(),
    ensures
        remaining(all, done).len() == all.len() - done,
        remaining(all, done).last() == all[done],
        remaining(all, done).drop_last() == remaining(all, done + 1),
        all.take(done + 1).drop_last() == all.take(done),
        all.take(done + 1).last() == all[done],
{
    assert(remaining(all, done).drop_last() =~= remaining(all, done + 1));
    assert(all.take(done + 1).drop_last() =~= all.take(done));
}

} // verus!
