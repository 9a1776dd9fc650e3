//! The toast queue's one decision that is not a clock: a toast already
//! queued with the same title and body is not queued twice — the one
//! standing is shown afresh instead.

use vstd::prelude::*;
use crate::text::chars_of;

verus! {

/// The first toast of `queue` with this title and body, if any.
pub open spec fn duplicate_in(queue: Seq<(Seq<char>, Seq<char>)>, title: Seq<char>, body: Seq<char>) -> Option<
    int,
>
    decreases queue.len(),
{
    if queue.len() == 0 {
        None
    } else if queue[0].0 == title && queue[0].1 == body {
        Some(0)
    } else {
        match duplicate_in(queue.drop_first(), title, body) {
            Some(i) => Some(i + 1),
            None => None,
        }
    }
}

/// The texts of a queue of (title, body) pairs.
pub open spec fn texts_of(queue: Seq<(String, String)>) -> Seq<(Seq<char>, Seq<char>)> {
    queue.map_values(|t: (String, String)| (t.0@, t.1@))
}

fn same(a: &String, b: &str) -> (r: bool)
    ensures
        r == (a@ == b@),
{
    let sa = a.as_str();
    assert(sa@ == a@);
    let x = chars_of(sa);
    let y = chars_of(b);
    if x.len() != y.len() {
        return false;
    }
    let mut i: usize = 0;
    while i < x.len()
        invariant
            x@ == a@,
            y@ == b@,
            x@.len() == y@.len(),
            i <= x@.len(),
            forall|j: int| 0 <= j < i ==> x@[j] == y@[j],
        decreases x.len() - i,
    {
        if x[i] != y[i] {
            assert(x@[i as int] != y@[i as int]);
            assert(x@ != y@);
            return false;
        }
        i += 1;
    }
    assert(x@ =~= y@);
    true
}

/// Where a toast with this title and body already stands in the queue,
/// given as its (title, body) pairs in order: the first such, if any. A
/// toast pushed while one like it stands is not queued again.
pub fn duplicate(queue: &Vec<(String, String)>, title: &str, body: &str) -> (r: Option<usize>)
    ensures
        match r {
            Some(i) => duplicate_in(texts_of(queue@), title@, body@) == Some(i as int),
            None => duplicate_in(texts_of(queue@), title@, body@) is None,
        },
{
    let ghost q = texts_of(queue@);
    let mut i: usize = 0;
    assert(q.skip(0) =~= q);
    while i < queue.len()
        invariant
            i <= queue@.len(),
            q == texts_of(queue@),
            duplicate_in(q, title@, body@) == match duplicate_in(q.skip(i as int), title@, body@) {
                Some(j) => Some(j + i),
                None => None,
            },
        decreases queue.len() - i,
    {
        let ghost rest = q.skip(i as int);
        assert(rest[0] == (queue@[i as int].0@, queue@[i as int].1@));
        if same(&queue[i].0, title) && same(&queue[i].1, body) {
            return Some(i);
        }
        assert(rest.drop_first() =~= q.skip(i + 1));
        i += 1;
    }
    assert(q.skip(queue@.len() as int) =~= Seq::<(Seq<char>, Seq<char>)>::empty());
    None
}

} // verus!
