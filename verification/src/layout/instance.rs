//! The layout as a LIST OF INSTANCES.
//!
//! Every entry is an INSTANCE: which widget it runs, which board it stands
//! on, where it sits, and a stable identity of its own. The same widget
//! may appear as many times as the user drags it out, and two instances
//! are two separate things because they carry two identities.
//!
//! The identity is NOT the position in the list: removing the middle
//! entry of a vector renumbers everything after it, and every reference
//! held elsewhere would then quietly point at its neighbour.
//!
//! Where an instance sits is the caller's business, carried here as an
//! opaque `R` (a rectangle in vw/vh for the desktop): nothing in this
//! module reads it.

use vstd::prelude::*;
use crate::base::Panel;
use crate::seqs::{first_index, lemma_first_index, lemma_first_index_bound};
use super::def::{same_board, BoardId};

verus! {

/// Where the GENERATED range of identities starts. The default
/// arrangement is composed from the registry on every load, so its
/// placements take identities no file ever hands out: the widget's
/// registry position in this range.
pub const GENERATED: u32 = 0x8000_0000;

/// The stable identity of one placed widget inside one layout.
///
/// Handed out in ascending order by [`InstanceList::add`] and never
/// handed out a second time: a layout that has lost instance 3 still has
/// 4 and 5, and gives the next one 6.
#[derive(Clone, Copy, PartialEq, Eq, PartialOrd, Ord, Hash, Debug, Default, Structural)]
pub struct InstanceId(u32);

impl InstanceId {
    /// The number this identity carries.
    pub closed spec fn num(self) -> u32 {
        self.0
    }

    /// The id with number `n`, in specifications.
    pub closed spec fn spec_new(n: u32) -> InstanceId {
        InstanceId(n)
    }

    /// The id no instance ever has: what a caller with nothing selected
    /// holds, and what an unreadable id in a file degrades to.
    pub fn none() -> (r: InstanceId)
        ensures
            r.num() == 0,
    {
        InstanceId(0)
    }

    /// Whether this identity was composed rather than saved.
    pub fn is_generated(self) -> (b: bool)
        ensures
            b == (self.num() >= GENERATED),
    {
        self.0 >= GENERATED
    }

    /// The id with this number. Only the file reader and tests mint ids
    /// by hand — everything else is handed one by [`InstanceList::add`].
    pub fn new(n: u32) -> (r: Self)
        ensures
            r.num() == n,
            r == InstanceId::spec_new(n),
    {
        InstanceId(n)
    }

    pub fn get(self) -> (n: u32)
        ensures
            n == self.num(),
    {
        self.0
    }

    pub fn is_some(self) -> (b: bool)
        ensures
            b == (self.num() != 0),
    {
        self.0 != 0
    }

    pub proof fn lemma_spec_new(n: u32)
        ensures
            InstanceId::spec_new(n).num() == n,
    {
    }

    pub proof fn lemma_num_injective(a: InstanceId, b: InstanceId)
        ensures
            a.num() == b.num() <==> a == b,
    {
    }
}

/// One placed widget: what it is, where it stands, who it is.
#[derive(Debug)]
pub struct Instance<R> {
    pub id: InstanceId,
    /// Which widget runs here.
    pub widget: Panel,
    /// Which board it stands on: home is (0, 0).
    pub board: BoardId,
    /// Where it sits when its board places by rectangle. None = it FLOWS:
    /// the board's columns decide its box every frame.
    pub rect: Option<R>,
}

impl<R: Copy> Clone for Instance<R> {
    fn clone(&self) -> (r: Self)
        ensures
            r == *self,
    {
        *self
    }
}

impl<R: Copy> Copy for Instance<R> {
}

impl<R> Instance<R> {
    /// A flowing instance: on a board, in no rectangle of its own.
    pub fn flowing(id: InstanceId, widget: Panel, board: BoardId) -> (r: Self)
        ensures
            r.id == id,
            r.widget == widget,
            r.board == board,
            r.rect is None,
    {
        Instance { id, widget, board, rect: None }
    }
}

/// Every widget a layout places, across all of its boards. The list owns
/// the identities: `add` is the only way to get one, and it never repeats
/// itself, not even after `remove` has emptied the list.
#[derive(Debug)]
pub struct InstanceList<R> {
    items: Vec<Instance<R>>,
    /// The next id to hand out. Only ever grows.
    next: u32,
}

/// The larger of a counter and 1: the id `add` hands out next.
pub open spec fn free_from(next: u32) -> u32 {
    if next == 0 {
        1
    } else {
        next
    }
}

impl<R> InstanceList<R> {
    /// The instances, in placement order.
    pub closed spec fn items(&self) -> Seq<Instance<R>> {
        self.items@
    }

    /// The counter `add` draws from.
    pub closed spec fn counter(&self) -> u32 {
        self.next
    }

    /// The identities, in placement order.
    pub open spec fn ids(&self) -> Seq<InstanceId> {
        ids_of(self.items())
    }

    /// Whether some instance carries `id`.
    pub open spec fn holds(&self, id: InstanceId) -> bool {
        exists|i: int| 0 <= i < self.items().len() && #[trigger] self.items()[i].id == id
    }

    /// The list is well formed: see [`list_wf`].
    pub open spec fn wf(&self) -> bool {
        list_wf(self.items(), self.counter())
    }
}

impl<R: Copy> InstanceList<R> {
    pub fn new() -> (l: Self)
        ensures
            l.wf(),
            l.items().len() == 0,
            l.counter() == 0,
    {
        InstanceList { items: Vec::new(), next: 0 }
    }

    /// Places a widget and returns its brand-new identity: the counter's
    /// next value. A counter dragged to the generated range by a file's
    /// id goes on counting there; only its last value is out of reach.
    pub fn add(&mut self, widget: Panel, board: BoardId, rect: Option<R>) -> (id: InstanceId)
        requires
            old(self).wf(),
            free_from(old(self).counter()) < u32::MAX,
        ensures
            add_post(*old(self), *final(self), widget, board, id),
            final(self).items().last().rect == rect,
    {
        let n = if self.next == 0 {
            1
        } else {
            self.next
        };
        let id = InstanceId(n);
        self.next = n + 1;
        self.items.push(Instance { id, widget, board, rect });
        proof {
            let s0 = old(self).items@;
            let s1 = self.items@;
            assert(s1.drop_last() == s0);
            assert forall|i: int| 0 <= i < s0.len() && saved(s0[i]) implies s0[i].id != id by {
                if saved(s0[i]) {
                    assert(s0[i].id.num() < free_from(old(self).next));
                }
            }
            assert forall|i: int| 0 <= i < s1.len() implies (#[trigger] s1[i]).id.num() != 0 by {
                if i < s0.len() {
                    assert(s1[i] == s0[i]);
                }
            }
            assert forall|i: int| 0 <= i < s1.len() && saved(#[trigger] s1[i]) implies s1[i].id.num()
                < free_from(self.next) by {
                if i < s0.len() {
                    assert(s1[i] == s0[i]);
                }
            }
            assert forall|i: int, j: int|
                0 <= i < j < s1.len() && saved(s1[i]) implies #[trigger] s1[i].id != #[trigger] s1[j].id by {
                assert(s1[i] == s0[i]);
                if j < s0.len() {
                    assert(s1[j] == s0[j]);
                } else {
                    assert(s0[i].id.num() < free_from(old(self).next));
                }
            }
            if n < GENERATED {
                assert forall|i: int| 0 <= i < s0.len() implies s0[i].id != id by {
                    if saved(s0[i]) {
                        assert(s0[i].id.num() < free_from(old(self).next));
                    }
                }
            }
        }
        id
    }

    /// Places a widget the layout composes rather than saves: its
    /// identity is `nth` in the reserved range, so composing the default
    /// arrangement on every start neither collides with a saved id nor
    /// moves the counter.
    pub fn add_generated(&mut self, widget: Panel, board: BoardId, nth: u32) -> (id: InstanceId)
        requires
            old(self).wf(),
        ensures
            final(self).wf(),
            id.num() == (if GENERATED + nth > u32::MAX {
                u32::MAX as int
            } else {
                GENERATED + nth
            }),
            final(self).counter() == old(self).counter(),
            final(self).items() == old(self).items().push(Instance::<R> { id, widget, board, rect: None }),
    {
        let id = InstanceId(GENERATED.saturating_add(nth));
        self.items.push(Instance { id, widget, board, rect: None });
        proof {
            let n = old(self).items@.len();
            assert forall|i: int, j: int|
                0 <= i < j < self.items@.len() && self.items@[i].id.num() < GENERATED implies #[trigger] self.items@[i].id
                != #[trigger] self.items@[j].id by {
                assert(self.items@[i] == old(self).items@[i]);
                if j < n {
                    assert(self.items@[j] == old(self).items@[j]);
                }
            }
            assert forall|i: int| 0 <= i < self.items@.len() implies (#[trigger] self.items@[i]).id.num() != 0 by {
                if i < n {
                    assert(self.items@[i] == old(self).items@[i]);
                }
            }
            assert forall|i: int|
                0 <= i < self.items@.len() && (#[trigger] self.items@[i]).id.num() < GENERATED implies self.items@[i].id.num()
                < free_from(self.next) by {
                assert(self.items@[i] == old(self).items@[i]);
            }
        }
        id
    }

    /// The position of the first instance carrying `id`.
    fn position(&self, id: InstanceId) -> (k: usize)
        ensures
            k == first_index(self.ids(), id),
            k <= self.items@.len(),
    {
        let mut k: usize = 0;
        while k < self.items.len() && self.items[k].id != id
            invariant
                k <= self.items@.len(),
                forall|i: int| 0 <= i < k ==> self.items@[i].id != id,
            decreases self.items.len() - k,
        {
            k += 1;
        }
        proof {
            assert forall|i: int| 0 <= i < k implies self.ids()[i] != id by {}
            lemma_first_index(self.ids(), id, k as int);
        }
        k
    }

    /// Puts back an instance that already has an identity — the file
    /// reader's door in. The counter is dragged past it, so the ids a file
    /// carries can never be handed out again by `add`. An id already in
    /// the list, the reserved 0, or one in the generated range is refused:
    /// a duplicate identity is exactly the bug this module exists to make
    /// impossible.
    pub fn restore(&mut self, inst: Instance<R>) -> (r: bool)
        requires
            old(self).wf(),
        ensures
            restore_post(*old(self), *final(self), inst, r),
    {
        if inst.id.0 == 0 || inst.id.0 >= GENERATED {
            return false;
        }
        let k = self.position(inst.id);
        proof {
            lemma_first_index_bound(self.ids(), inst.id);
        }
        if k < self.items.len() {
            assert(self.items()[k as int].id == inst.id);
            return false;
        }
        assert forall|i: int| 0 <= i < self.items().len() implies self.items()[i].id != inst.id by {
            assert(self.ids()[i] == self.items()[i].id);
        }
        let n = inst.id.0 + 1;
        if n > self.next {
            self.next = n;
        }
        self.items.push(inst);
        proof {
            let m = old(self).items@.len();
            assert forall|i: int| 0 <= i < self.items@.len() implies (#[trigger] self.items@[i]).id.num() != 0 by {
                if i < m {
                    assert(self.items@[i] == old(self).items@[i]);
                }
            }
            assert forall|i: int|
                0 <= i < self.items@.len() && (#[trigger] self.items@[i]).id.num() < GENERATED implies self.items@[i].id.num()
                < free_from(self.next) by {
                if i < m {
                    assert(self.items@[i] == old(self).items@[i]);
                }
            }
            assert forall|i: int, j: int|
                0 <= i < j < self.items@.len() && self.items@[i].id.num() < GENERATED implies #[trigger] self.items@[i].id
                != #[trigger] self.items@[j].id by {
                assert(self.items@[i] == old(self).items@[i]);
                if j < m {
                    assert(self.items@[j] == old(self).items@[j]);
                }
            }
        }
        true
    }

    /// Drops one instance. The others keep their identities — that is the
    /// property the whole design is for — and the id is retired.
    pub fn remove(&mut self, id: InstanceId) -> (r: bool)
        requires
            old(self).wf(),
        ensures
            remove_post(*old(self), *final(self), id, r),
    {
        let mut kept: Vec<Instance<R>> = Vec::new();
        let mut found = false;
        let mut i: usize = 0;
        while i < self.items.len()
            invariant
                i <= self.items@.len(),
                kept@ == self.items@.take(i as int).filter(|x: Instance<R>| x.id != id),
                found == exists|j: int| 0 <= j < i && #[trigger] self.items@[j].id == id,
            decreases self.items.len() - i,
        {
            let x = &self.items[i];
            assert(self.items@.take(i + 1).drop_last() == self.items@.take(i as int));
            assert(self.items@.take(i + 1).last() == *x);
            reveal_with_fuel(Seq::<_>::filter, 1);
            if x.id == id {
                found = true;
            } else {
                kept.push(*x);
            }
            i += 1;
        }
        assert(self.items@.take(self.items@.len() as int) == self.items@);
        proof {
            lemma_filter_wf(self.items@, |x: Instance<R>| x.id != id, self.next);
        }
        self.items = kept;
        found
    }

    /// Drops every instance of a board — what removing a board does.
    pub fn remove_board(&mut self, k: BoardId)
        requires
            old(self).wf(),
        ensures
            final(self).wf(),
            final(self).counter() == old(self).counter(),
            final(self).items() == old(self).items().filter(|x: Instance<R>| x.board != k),
    {
        let mut kept: Vec<Instance<R>> = Vec::new();
        let mut i: usize = 0;
        while i < self.items.len()
            invariant
                i <= self.items@.len(),
                kept@ == self.items@.take(i as int).filter(|x: Instance<R>| x.board != k),
            decreases self.items.len() - i,
        {
            let x = &self.items[i];
            assert(self.items@.take(i + 1).drop_last() == self.items@.take(i as int));
            assert(self.items@.take(i + 1).last() == *x);
            reveal_with_fuel(Seq::<_>::filter, 1);
            if !same_board(x.board, k) {
                kept.push(*x);
            }
            i += 1;
        }
        assert(self.items@.take(self.items@.len() as int) == self.items@);
        proof {
            lemma_filter_wf(self.items@, |x: Instance<R>| x.board != k, self.next);
        }
        self.items = kept;
    }

    /// The first instance carrying `id`.
    pub fn get(&self, id: InstanceId) -> (r: Option<&Instance<R>>)
        ensures
            match r {
                Some(x) => first_index(self.ids(), id) < self.items().len() && *x
                    == self.items()[first_index(self.ids(), id) as int] && x.id == id,
                None => !self.holds(id),
            },
    {
        let k = self.position(id);
        proof {
            lemma_first_index_bound(self.ids(), id);
        }
        if k < self.items.len() {
            Some(&self.items[k])
        } else {
            assert forall|i: int| 0 <= i < self.items().len() implies self.items()[i].id != id by {
                assert(self.ids()[i] == self.items()[i].id);
            }
            None
        }
    }

    /// Moves one instance's rectangle; false when it is not here.
    pub fn set_rect(&mut self, id: InstanceId, rect: Option<R>) -> (r: bool)
        requires
            old(self).wf(),
        ensures
            final(self).wf(),
            final(self).counter() == old(self).counter(),
            r == old(self).holds(id),
            r ==> final(self).items() == old(self).items().update(
                first_index(old(self).ids(), id) as int,
                Instance::<R> { rect, ..old(self).items()[first_index(old(self).ids(), id) as int] },
            ),
            !r ==> final(self).items() == old(self).items(),
    {
        let k = self.position(id);
        proof {
            lemma_first_index_bound(self.ids(), id);
        }
        if k < self.items.len() {
            let x = self.items.remove(k);
            let y = Instance { id: x.id, widget: x.widget, board: x.board, rect };
            self.items.insert(k, y);
            proof {
                assert(self.items@ =~= old(self).items@.update(k as int, y));
                lemma_update_keeps_wf(old(self).items@, k as int, y, self.next);
            }
            true
        } else {
            assert forall|i: int| 0 <= i < self.items().len() implies self.items()[i].id != id by {
                assert(self.ids()[i] == self.items()[i].id);
            }
            false
        }
    }

    /// Moves one instance to another board, identity and all; false when
    /// it is not here.
    pub fn set_board(&mut self, id: InstanceId, board: BoardId) -> (r: bool)
        requires
            old(self).wf(),
        ensures
            final(self).wf(),
            final(self).counter() == old(self).counter(),
            r == old(self).holds(id),
            r ==> final(self).items() == old(self).items().update(
                first_index(old(self).ids(), id) as int,
                Instance::<R> { board, ..old(self).items()[first_index(old(self).ids(), id) as int] },
            ),
            !r ==> final(self).items() == old(self).items(),
    {
        let k = self.position(id);
        proof {
            lemma_first_index_bound(self.ids(), id);
        }
        if k < self.items.len() {
            let x = self.items.remove(k);
            let y = Instance { id: x.id, widget: x.widget, board, rect: x.rect };
            self.items.insert(k, y);
            proof {
                assert(self.items@ =~= old(self).items@.update(k as int, y));
                lemma_update_keeps_wf(old(self).items@, k as int, y, self.next);
            }
            true
        } else {
            assert forall|i: int| 0 <= i < self.items().len() implies self.items()[i].id != id by {
                assert(self.ids()[i] == self.items()[i].id);
            }
            false
        }
    }

    pub fn all(&self) -> (r: &[Instance<R>])
        ensures
            r@ == self.items(),
    {
        self.items.as_slice()
    }

    pub fn len(&self) -> (n: usize)
        ensures
            n == self.items().len(),
    {
        self.items.len()
    }

    pub fn is_empty(&self) -> (b: bool)
        ensures
            b == (self.items().len() == 0),
    {
        self.items.len() == 0
    }

    /// The next id this list will hand out — written into the file, so
    /// that reloading a layout whose highest instance was deleted does
    /// not start reusing that id.
    pub fn next_free(&self) -> (n: u32)
        ensures
            n == free_from(self.counter()),
    {
        if self.next == 0 {
            1
        } else {
            self.next
        }
    }

    /// Raises the counter to what a file recorded. Lowering it is refused:
    /// nothing may ever make `add` repeat an id. A value from the
    /// generated range is not a promise a file can make and is ignored.
    pub fn reserve_up_to(&mut self, next: u32)
        requires
            old(self).wf(),
        ensures
            final(self).wf(),
            final(self).items() == old(self).items(),
            final(self).counter() == (if next < GENERATED && next > old(self).counter() {
                next
            } else {
                old(self).counter()
            }),
    {
        if next < GENERATED && next > self.next {
            self.next = next;
        }
    }
}

impl<R: Copy> InstanceList<R> {
    /// The instances standing on board `k`, in placement order.
    pub fn on_board(&self, k: BoardId) -> (v: Vec<Instance<R>>)
        ensures
            v@ == self.items().filter(|x: Instance<R>| x.board == k),
    {
        let mut v: Vec<Instance<R>> = Vec::new();
        let mut i: usize = 0;
        while i < self.items.len()
            invariant
                i <= self.items@.len(),
                v@ == self.items@.take(i as int).filter(|x: Instance<R>| x.board == k),
            decreases self.items.len() - i,
        {
            let x = self.items[i];
            assert(self.items@.take(i + 1).drop_last() == self.items@.take(i as int));
            assert(self.items@.take(i + 1).last() == x);
            reveal_with_fuel(Seq::<_>::filter, 1);
            if same_board(x.board, k) {
                v.push(x);
            }
            i += 1;
        }
        assert(self.items@.take(self.items@.len() as int) == self.items@);
        v
    }

    /// Every instance running the given widget.
    pub fn of_widget(&self, w: Panel) -> (v: Vec<Instance<R>>)
        ensures
            v@ == self.items().filter(|x: Instance<R>| x.widget == w),
    {
        let mut v: Vec<Instance<R>> = Vec::new();
        let mut i: usize = 0;
        while i < self.items.len()
            invariant
                i <= self.items@.len(),
                v@ == self.items@.take(i as int).filter(|x: Instance<R>| x.widget == w),
            decreases self.items.len() - i,
        {
            let x = self.items[i];
            assert(self.items@.take(i + 1).drop_last() == self.items@.take(i as int));
            assert(self.items@.take(i + 1).last() == x);
            reveal_with_fuel(Seq::<_>::filter, 1);
            if x.widget == w {
                v.push(x);
            }
            i += 1;
        }
        assert(self.items@.take(self.items@.len() as int) == self.items@);
        v
    }
}

impl<R: Copy> InstanceList<R> {
    /// The first instance of a widget, for the callers that genuinely mean
    /// "the one".
    pub fn first_of(&self, w: Panel) -> (r: Option<InstanceId>)
        ensures
            match r {
                Some(id) => exists|k: int|
                    0 <= k < self.items().len() && self.items()[k].widget == w && id
                        == self.items()[k].id && forall|j: int|
                        0 <= j < k ==> (#[trigger] self.items()[j]).widget != w,
                None => forall|j: int|
                    0 <= j < self.items().len() ==> (#[trigger] self.items()[j]).widget != w,
            },
    {
        let mut i: usize = 0;
        while i < self.items.len()
            invariant
                i <= self.items@.len(),
                forall|j: int| 0 <= j < i ==> (#[trigger] self.items@[j]).widget != w,
            decreases self.items.len() - i,
        {
            if self.items[i].widget == w {
                return Some(self.items[i].id);
            }
            i += 1;
        }
        None
    }

    /// How many instances run the given widget.
    pub fn count_of(&self, w: Panel) -> (n: usize)
        ensures
            n == self.items().filter(|x: Instance<R>| x.widget == w).len(),
    {
        let mut n: usize = 0;
        let mut i: usize = 0;
        while i < self.items.len()
            invariant
                i <= self.items@.len(),
                n == self.items@.take(i as int).filter(|x: Instance<R>| x.widget == w).len(),
                n <= i,
            decreases self.items.len() - i,
        {
            assert(self.items@.take(i + 1).drop_last() == self.items@.take(i as int));
            assert(self.items@.take(i + 1).last() == self.items@[i as int]);
            reveal_with_fuel(Seq::<_>::filter, 1);
            if self.items[i].widget == w {
                n += 1;
            }
            i += 1;
        }
        assert(self.items@.take(self.items@.len() as int) == self.items@);
        n
    }
}

/// What `add` does: the new identity is the counter's next free value,
/// beyond every saved identity the list has ever held, and the instance
/// is placed last; the counter moves past it.
pub open spec fn add_post<R>(
    before: InstanceList<R>,
    after: InstanceList<R>,
    widget: Panel,
    board: BoardId,
    id: InstanceId,
) -> bool {
    &&& after.wf()
    &&& id.num() == free_from(before.counter())
    &&& id.num() != 0
    &&& id.num() < GENERATED ==> !before.holds(id)
    &&& after.items().len() == before.items().len() + 1
    &&& after.items().drop_last() == before.items()
    &&& after.items().last().id == id
    &&& after.items().last().widget == widget
    &&& after.items().last().board == board
    &&& after.counter() == id.num() + 1
}

/// What `restore` does: it accepts exactly a saved-range id no instance
/// carries, places the instance last and drags the counter past it; a
/// refusal changes nothing.
pub open spec fn restore_post<R>(
    before: InstanceList<R>,
    after: InstanceList<R>,
    inst: Instance<R>,
    r: bool,
) -> bool {
    &&& after.wf()
    &&& r == (inst.id.num() != 0 && inst.id.num() < GENERATED && !before.holds(inst.id))
    &&& r ==> after.items() == before.items().push(inst) && after.counter() == (if inst.id.num()
        + 1 > before.counter() {
        (inst.id.num() + 1) as u32
    } else {
        before.counter()
    })
    &&& !r ==> after.items() == before.items() && after.counter() == before.counter()
}

/// What `remove` does: every instance carrying `id` leaves, every other
/// stays in order with its identity, and the counter does not move.
pub open spec fn remove_post<R>(
    before: InstanceList<R>,
    after: InstanceList<R>,
    id: InstanceId,
    r: bool,
) -> bool {
    &&& after.wf()
    &&& r == before.holds(id)
    &&& after.items() == before.items().filter(|x: Instance<R>| x.id != id)
    &&& after.counter() == before.counter()
}

/// Whether an instance carries a SAVED identity: one a file may hold.
pub open spec fn saved<R>(x: Instance<R>) -> bool {
    x.id.num() < GENERATED
}

/// A well-formed list: no instance has the reserved id 0, no two SAVED
/// instances share an identity, and every saved identity is below the id
/// `add` hands out next.
pub open spec fn list_wf<R>(s: Seq<Instance<R>>, next: u32) -> bool {
    &&& forall|i: int| 0 <= i < s.len() ==> (#[trigger] s[i]).id.num() != 0
    &&& forall|i: int| 0 <= i < s.len() && saved(#[trigger] s[i]) ==> s[i].id.num() < free_from(next)
    &&& forall|i: int, j: int|
        0 <= i < j < s.len() && saved(s[i]) ==> #[trigger] s[i].id != #[trigger] s[j].id
}

/// Keeping some of the instances of a well-formed list, in order, keeps it
/// well formed.
proof fn lemma_filter_wf<R>(s: Seq<Instance<R>>, f: spec_fn(Instance<R>) -> bool, next: u32)
    requires
        list_wf(s, next),
    ensures
        list_wf(s.filter(f), next),
    decreases s.len(),
{
    reveal_with_fuel(Seq::<_>::filter, 1);
    if s.len() > 0 {
        let t = s.drop_last();
        let x = s.last();
        assert forall|i: int, j: int|
            0 <= i < j < t.len() && saved(t[i]) implies #[trigger] t[i].id != #[trigger] t[j].id by {
            assert(t[i] == s[i] && t[j] == s[j]);
        }
        assert forall|i: int| 0 <= i < t.len() implies (#[trigger] t[i]).id.num() != 0 by {
            assert(t[i] == s[i]);
        }
        assert forall|i: int| 0 <= i < t.len() && saved(#[trigger] t[i]) implies t[i].id.num()
            < free_from(next) by {
            assert(t[i] == s[i]);
        }
        lemma_filter_wf(t, f, next);
        let ft = t.filter(f);
        if f(x) {
            let fs = ft.push(x);
            assert(s.filter(f) == fs);
            assert forall|k: int| 0 <= k < ft.len() implies exists|p: int|
                0 <= p < t.len() && t[p] == #[trigger] ft[k] by {
                assert(ft.contains(ft[k]));
                t.lemma_filter_contains_rev(f, ft[k]);
            }
            assert forall|i: int, j: int|
                0 <= i < j < fs.len() && saved(fs[i]) implies #[trigger] fs[i].id != #[trigger] fs[j].id by {
                if j < ft.len() {
                    assert(fs[i] == ft[i] && fs[j] == ft[j]);
                } else {
                    assert(fs[i] == ft[i]);
                    let p = choose|p: int| 0 <= p < t.len() && t[p] == ft[i];
                    assert(s[p] == t[p]);
                    assert(s[s.len() - 1] == x);
                    assert(fs[j] == x);
                }
            }
            assert forall|i: int| 0 <= i < fs.len() implies (#[trigger] fs[i]).id.num() != 0 by {
                if i < ft.len() {
                    assert(fs[i] == ft[i]);
                }
            }
            assert forall|i: int| 0 <= i < fs.len() && saved(#[trigger] fs[i]) implies fs[i].id.num()
                < free_from(next) by {
                if i < ft.len() {
                    assert(fs[i] == ft[i]);
                }
            }
        } else {
            assert(s.filter(f) == ft);
        }
    }
}

/// Changing an instance in place, identity kept, keeps a list well
/// formed.
proof fn lemma_update_keeps_wf<R>(s: Seq<Instance<R>>, k: int, y: Instance<R>, next: u32)
    requires
        list_wf(s, next),
        0 <= k < s.len(),
        y.id == s[k].id,
    ensures
        list_wf(s.update(k, y), next),
{
    let u = s.update(k, y);
    assert forall|i: int| 0 <= i < u.len() implies u[i].id == s[i].id by {}
    assert forall|i: int, j: int|
        0 <= i < j < u.len() && saved(u[i]) implies #[trigger] u[i].id != #[trigger] u[j].id by {
        assert(u[i].id == s[i].id && u[j].id == s[j].id);
    }
    assert forall|i: int| 0 <= i < u.len() implies (#[trigger] u[i]).id.num() != 0 by {
        assert(u[i].id == s[i].id);
    }
    assert forall|i: int| 0 <= i < u.len() && saved(#[trigger] u[i]) implies u[i].id.num()
        < free_from(next) by {
        assert(u[i].id == s[i].id);
    }
}

/// Removing one instance leaves every other identity exactly where it
/// was: whatever else the list held, it still holds, and it gains nothing.
pub proof fn law_removing_moves_nobody<R>(
    l0: InstanceList<R>,
    l1: InstanceList<R>,
    id: InstanceId,
    r: bool,
    other: InstanceId,
)
    requires
        remove_post(l0, l1, id, r),
        other != id,
    ensures
        l1.holds(other) == l0.holds(other),
        !l1.holds(id),
{
    let f = |x: Instance<R>| x.id != id;
    let s0 = l0.items();
    let s1 = l1.items();
    if l0.holds(other) {
        let k = choose|k: int| 0 <= k < s0.len() && #[trigger] s0[k].id == other;
        s0.lemma_filter_contains(f, k);
        let j = choose|j: int| 0 <= j < s1.len() && s1[j] == s0[k];
        assert(s1[j].id == other);
    }
    if l1.holds(other) {
        let k = choose|k: int| 0 <= k < s1.len() && #[trigger] s1[k].id == other;
        assert(s1.contains(s1[k]));
        s0.lemma_filter_contains_rev(f, s1[k]);
    }
    if l1.holds(id) {
        let k = choose|k: int| 0 <= k < s1.len() && #[trigger] s1[k].id == id;
        s0.lemma_filter_pred(f, k);
    }
}

/// An identity is never handed out twice: whatever saved identity a list
/// held — even one removed since — the next `add` answers a larger one.
pub proof fn law_a_retired_id_is_never_reissued<R>(
    l0: InstanceList<R>,
    l1: InstanceList<R>,
    l2: InstanceList<R>,
    id: InstanceId,
    widget: Panel,
    board: BoardId,
    fresh: InstanceId,
)
    requires
        l0.wf(),
        l0.holds(id),
        id.num() < GENERATED,
        remove_post(l0, l1, id, true),
        add_post(l1, l2, widget, board, fresh),
    ensures
        fresh != id,
        fresh.num() > id.num(),
{
    let k = choose|k: int| 0 <= k < l0.items().len() && #[trigger] l0.items()[k].id == id;
    assert(saved(l0.items()[k]));
}

/// An identity a file carried is kept as given and drags the counter past
/// it, so `add` never issues it again.
pub proof fn law_restored_ids_are_never_reissued<R>(
    l0: InstanceList<R>,
    l1: InstanceList<R>,
    l2: InstanceList<R>,
    inst: Instance<R>,
    widget: Panel,
    board: BoardId,
    fresh: InstanceId,
)
    requires
        restore_post(l0, l1, inst, true),
        add_post(l1, l2, widget, board, fresh),
    ensures
        fresh.num() > inst.id.num(),
        l1.holds(inst.id),
{
    assert(l1.items()[l1.items().len() - 1] == inst);
}

/// The same widget may stand on one board twice: two `add`s give two
/// different identities, and both instances are held.
pub proof fn law_one_widget_many_instances<R>(
    l0: InstanceList<R>,
    l1: InstanceList<R>,
    l2: InstanceList<R>,
    widget: Panel,
    board: BoardId,
    a: InstanceId,
    b: InstanceId,
)
    requires
        add_post(l0, l1, widget, board, a),
        add_post(l1, l2, widget, board, b),
    ensures
        a != b,
        l2.holds(a),
        l2.holds(b),
{
    assert(l1.items()[l1.items().len() - 1].id == a);
    assert(l2.items()[l1.items().len() - 1] == l1.items()[l1.items().len() - 1]);
    assert(l2.items()[l2.items().len() - 1].id == b);
}

/// Board positions in the order `boards` lists them: by column, then by
/// row.
pub open spec fn board_lt(a: BoardId, b: BoardId) -> bool {
    a.0 < b.0 || (a.0 == b.0 && a.1 < b.1)
}

/// Strictly ascending: so no position appears twice.
pub open spec fn ascending(s: Seq<BoardId>) -> bool {
    forall|i: int, j: int| 0 <= i < j < s.len() ==> board_lt(s[i], s[j])
}

/// Whether some instance of `items` stands on board `b`.
pub open spec fn stands<R>(items: Seq<Instance<R>>, b: BoardId) -> bool {
    exists|k: int| 0 <= k < items.len() && #[trigger] items[k].board == b
}

proof fn lemma_stands_step<R>(items: Seq<Instance<R>>, i: int)
    requires
        0 <= i < items.len(),
    ensures
        forall|b: BoardId|
            stands(items.take(i + 1), b) <==> stands(items.take(i), b) || b == items[i].board,
{
    let t = items.take(i + 1);
    let p = items.take(i);
    assert forall|b: BoardId| stands(t, b) <==> stands(p, b) || b == items[i].board by {
        if stands(t, b) {
            let k = choose|k: int| 0 <= k < t.len() && #[trigger] t[k].board == b;
            if k < i {
                assert(p[k] == t[k]);
            }
        }
        if stands(p, b) {
            let k = choose|k: int| 0 <= k < p.len() && #[trigger] p[k].board == b;
            assert(t[k] == p[k]);
        }
        if b == items[i].board {
            assert(t[i] == items[i]);
        }
    }
}

fn board_before(a: BoardId, b: BoardId) -> (r: bool)
    ensures
        r == board_lt(a, b),
{
    a.0 < b.0 || (a.0 == b.0 && a.1 < b.1)
}

impl<R: Copy> InstanceList<R> {
    /// Every board some instance stands on, each once, in ascending order.
    #[verifier::spinoff_prover]
    pub fn boards(&self) -> (out: Vec<BoardId>)
        ensures
            ascending(out@),
            forall|b: BoardId| out@.contains(b) <==> stands(self.items(), b),
    {
        let mut out: Vec<BoardId> = Vec::new();
        let mut i: usize = 0;
        while i < self.items.len()
            invariant
                i <= self.items@.len(),
                ascending(out@),
                forall|b: BoardId| out@.contains(b) <==> stands(self.items@.take(i as int), b),
            decreases self.items.len() - i,
        {
            let b = self.items[i].board;
            let mut p: usize = 0;
            while p < out.len() && board_before(out[p], b)
                invariant
                    p <= out@.len(),
                    forall|q: int| 0 <= q < p ==> board_lt(out@[q], b),
                decreases out.len() - p,
            {
                p += 1;
            }
            let ghost before = out@;
            if p < out.len() && same_board(out[p], b) {
                assert(out@.contains(b));
                assert(out@ == before);
                assert forall|c: BoardId| out@.contains(c) <==> before.contains(c) || c == b by {}
            } else {
                out.insert(p, b);
                proof {
                    assert forall|x: int, y: int| 0 <= x < y < out@.len() implies board_lt(
                        out@[x],
                        out@[y],
                    ) by {
                        if y < p {
                        } else if y == p {
                            assert(out@[x] == before[x]);
                        } else if x < p {
                            assert(out@[x] == before[x]);
                            assert(out@[y] == before[y - 1]);
                            assert(board_lt(before[x], before[y - 1]) || x == y - 1);
                        } else if x == p {
                            assert(out@[y] == before[y - 1]);
                            if y - 1 > p {
                                assert(board_lt(before[p as int], before[y - 1]));
                            }
                            assert(!board_lt(before[p as int], b));
                        } else {
                            assert(out@[x] == before[x - 1] && out@[y] == before[y - 1]);
                        }
                    }
                    assert forall|c: BoardId| out@.contains(c) <==> before.contains(c) || c == b by {
                        if out@.contains(c) {
                            let q = choose|q: int| 0 <= q < out@.len() && out@[q] == c;
                            if q < p {
                                assert(before[q] == c);
                            } else if q > p {
                                assert(before[q - 1] == c);
                            }
                        }
                        if before.contains(c) {
                            let q = choose|q: int| 0 <= q < before.len() && before[q] == c;
                            if q < p {
                                assert(out@[q] == c);
                            } else {
                                assert(out@[q + 1] == c);
                            }
                        }
                        if c == b {
                            assert(out@[p as int] == b);
                        }
                    }
                }
            }
            assert(forall|c: BoardId| out@.contains(c) <==> before.contains(c) || c == b);
            proof {
                lemma_stands_step(self.items@, i as int);
                assert forall|c: BoardId| out@.contains(c) <==> stands(
                    self.items@.take(i + 1),
                    c,
                ) by {
                    assert(before.contains(c) <==> stands(self.items@.take(i as int), c));
                }
            }
            i += 1;
        }
        assert(self.items@.take(self.items@.len() as int) == self.items@);
        out
    }
}

/// The identities of `items`, in order.
pub open spec fn ids_of<R>(items: Seq<Instance<R>>) -> Seq<InstanceId> {
    items.map_values(|i: Instance<R>| i.id)
}

/// The composed instances of `items` standing on one of `boards`, by
/// identity, in list order.
pub open spec fn composed_on<R>(items: Seq<Instance<R>>, boards: Seq<BoardId>) -> Seq<InstanceId>
    decreases items.len(),
{
    if items.len() == 0 {
        Seq::empty()
    } else {
        let r = composed_on(items.drop_last(), boards);
        let x = items.last();
        if !saved(x) && boards.contains(x.board) {
            r.push(x.id)
        } else {
            r
        }
    }
}

/// `items` with the first instance carrying `was` given identity `id`.
pub open spec fn retag<R>(items: Seq<Instance<R>>, was: InstanceId, id: InstanceId) -> Seq<
    Instance<R>,
> {
    let k = first_index(ids_of(items), was);
    if k < items.len() {
        items.update(k as int, Instance::<R> { id, ..items[k as int] })
    } else {
        items
    }
}

/// Each of `olds` retagged in turn, the `n`-th with identity `first + n`.
pub open spec fn retag_all<R>(items: Seq<Instance<R>>, olds: Seq<InstanceId>, first: nat) -> Seq<
    Instance<R>,
>
    decreases olds.len(),
{
    if olds.len() == 0 {
        items
    } else {
        retag(
            retag_all(items, olds.drop_last(), first),
            olds.last(),
            InstanceId::spec_new((first + olds.len() - 1) as u32),
        )
    }
}

proof fn lemma_retag_keeps_wf<R>(s: Seq<Instance<R>>, was: InstanceId, c: u32)
    requires
        list_wf(s, c),
        was.num() >= GENERATED,
        free_from(c) < GENERATED,
    ensures
        list_wf(retag(s, was, InstanceId::spec_new(free_from(c))), (free_from(c) + 1) as u32),
{
    let f = free_from(c);
    let id = InstanceId::spec_new(f);
    InstanceId::lemma_spec_new(f);
    let u = retag(s, was, id);
    let n = (f + 1) as u32;
    lemma_first_index_bound(ids_of(s), was);
    let k = first_index(ids_of(s), was);
    if k < s.len() {
        assert(ids_of(s)[k as int] == s[k as int].id);
        assert(!saved(s[k as int]));
        assert forall|i: int| 0 <= i < u.len() implies (#[trigger] u[i]).id.num() != 0 by {
            if i != k {
                assert(u[i] == s[i]);
            }
        }
        assert forall|i: int| 0 <= i < u.len() && saved(#[trigger] u[i]) implies u[i].id.num()
            < free_from(n) by {
            if i != k {
                assert(u[i] == s[i]);
            }
        }
        assert forall|i: int, j: int|
            0 <= i < j < u.len() && saved(u[i]) implies #[trigger] u[i].id != #[trigger] u[j].id by {
            if i == k {
                assert(u[j] == s[j]);
                if saved(s[j]) {
                    assert(s[j].id.num() < f);
                }
            } else if j == k {
                assert(u[i] == s[i]);
                assert(s[i].id.num() < f);
            } else {
                assert(u[i] == s[i] && u[j] == s[j]);
            }
        }
    } else {
        assert forall|i: int| 0 <= i < u.len() && saved(#[trigger] u[i]) implies u[i].id.num()
            < free_from(n) by {
            assert(u[i] == s[i]);
        }
    }
}

proof fn lemma_composed_generated<R>(items: Seq<Instance<R>>, boards: Seq<BoardId>)
    ensures
        forall|q: int|
            0 <= q < composed_on(items, boards).len() ==> (#[trigger] composed_on(items, boards)[q]).num()
                >= GENERATED,
    decreases items.len(),
{
    if items.len() > 0 {
        let r = composed_on(items.drop_last(), boards);
        lemma_composed_generated(items.drop_last(), boards);
        let c = composed_on(items, boards);
        assert forall|q: int| 0 <= q < c.len() implies (#[trigger] c[q]).num() >= GENERATED by {
            if q < r.len() {
                assert(c[q] == r[q]);
            }
        }
    }
}

fn holds_board(v: &Vec<BoardId>, b: BoardId) -> (r: bool)
    ensures
        r == v@.contains(b),
{
    let mut i: usize = 0;
    while i < v.len()
        invariant
            i <= v@.len(),
            forall|k: int| 0 <= k < i ==> v@[k] != b,
        decreases v.len() - i,
    {
        if same_board(v[i], b) {
            return true;
        }
        i += 1;
    }
    false
}

impl<R: Copy> InstanceList<R> {
    /// Gives every COMPOSED instance standing on one of `boards` a saved
    /// identity of its own, in list order, and answers which identity
    /// became which. This is what writing a board down means: the moment
    /// the user arranges it himself, its placements stop being composed
    /// from the registry and become his.
    #[verifier::spinoff_prover]
    #[verifier::rlimit(40)]
    pub fn materialize_on(&mut self, boards: &Vec<BoardId>) -> (map: Vec<(InstanceId, InstanceId)>)
        requires
            old(self).wf(),
            free_from(old(self).counter()) + composed_on(old(self).items(), boards@).len()
                <= GENERATED,
        ensures
            final(self).wf(),
            map@.len() == composed_on(old(self).items(), boards@).len(),
            forall|k: int|
                0 <= k < map@.len() ==> (#[trigger] map@[k]).0 == composed_on(
                    old(self).items(),
                    boards@,
                )[k] && map@[k].1 == InstanceId::spec_new(
                    (free_from(old(self).counter()) + k) as u32,
                ),
            final(self).items() == retag_all(
                old(self).items(),
                composed_on(old(self).items(), boards@),
                free_from(old(self).counter()) as nat,
            ),
            final(self).counter() == (if composed_on(old(self).items(), boards@).len() == 0 {
                old(self).counter()
            } else {
                (free_from(old(self).counter()) + composed_on(old(self).items(), boards@).len()) as u32
            }),
    {
        let ghost items0 = self.items@;
        let ghost c0 = self.next;
        let ghost f = free_from(c0);
        let mut olds: Vec<InstanceId> = Vec::new();
        let mut i: usize = 0;
        while i < self.items.len()
            invariant
                i <= self.items@.len(),
                self.items@ == items0,
                olds@ == composed_on(items0.take(i as int), boards@),
            decreases self.items.len() - i,
        {
            let x = self.items[i];
            proof {
                let t = items0.take(i + 1);
                assert(t.drop_last() == items0.take(i as int));
                assert(t.last() == x);
            }
            if x.id.0 >= GENERATED && holds_board(boards, x.board) {
                olds.push(x.id);
            }
            i += 1;
        }
        assert(items0.take(items0.len() as int) == items0);
        let ghost all = olds@;
        proof {
            lemma_composed_generated(items0, boards@);
        }
        let mut map: Vec<(InstanceId, InstanceId)> = Vec::new();
        let mut k: usize = 0;
        while k < olds.len()
            invariant
                k <= olds@.len(),
                olds@ == all,
                all == composed_on(items0, boards@),
                f == free_from(c0),
                f + all.len() <= GENERATED,
                forall|q: int| 0 <= q < all.len() ==> (#[trigger] all[q]).num() >= GENERATED,
                self.wf(),
                self.items@ == retag_all(items0, all.take(k as int), f as nat),
                self.next == (if k == 0 {
                    c0
                } else {
                    (f + k) as u32
                }),
                map@.len() == k,
                forall|q: int|
                    0 <= q < k ==> (#[trigger] map@[q]).0 == all[q] && map@[q].1
                        == InstanceId::spec_new((f + q) as u32),
            decreases olds.len() - k,
        {
            let was = olds[k];
            let n = if self.next == 0 {
                1
            } else {
                self.next
            };
            assert(n == f + k);
            let id = InstanceId(n);
            let ghost s = self.items@;
            let ghost c = self.next;
            proof {
                lemma_retag_keeps_wf(s, was, self.next);
            }
            self.next = n + 1;
            let p = self.position(was);
            proof {
                lemma_first_index_bound(self.ids(), was);
            }
            if p < self.items.len() {
                let y0 = self.items.remove(p);
                let y = Instance { id, widget: y0.widget, board: y0.board, rect: y0.rect };
                self.items.insert(p, y);
                assert(self.items@ =~= s.update(p as int, y));
            }
            proof {
                let t = all.take(k + 1);
                assert(t.drop_last() == all.take(k as int));
                assert(t.last() == was);
                assert(id == InstanceId::spec_new((f + k) as u32));
                assert(free_from(c) == f + k);
                assert(self.items@ == retag(s, was, InstanceId::spec_new(free_from(c))));
            }
            map.push((was, id));
            k += 1;
        }
        assert(all.take(all.len() as int) == all);
        map
    }
}

/// The identities a board's composed placements are given were never
/// handed out before: each is beyond every identity the list held, and
/// each is a saved identity, neither 0 nor in the composed range.
pub proof fn law_materialized_ids_are_fresh<R>(l: InstanceList<R>, n: nat)
    requires
        l.wf(),
        free_from(l.counter()) + n <= GENERATED,
    ensures
        forall|k: int|
            0 <= k < n ==> !l.holds(#[trigger] InstanceId::spec_new((free_from(l.counter()) + k) as u32))
                && 0 < InstanceId::spec_new((free_from(l.counter()) + k) as u32).num() < GENERATED,
{
    let f = free_from(l.counter());
    assert forall|k: int| 0 <= k < n implies !l.holds(
        #[trigger] InstanceId::spec_new((f + k) as u32),
    ) && 0 < InstanceId::spec_new((f + k) as u32).num() < GENERATED by {
        let id = InstanceId::spec_new((f + k) as u32);
        InstanceId::lemma_spec_new((f + k) as u32);
        if l.holds(id) {
            let i = choose|i: int| 0 <= i < l.items().len() && #[trigger] l.items()[i].id == id;
            assert(saved(l.items()[i]));
        }
    }
}

/// The boards a renumbering moves: the first of each pair.
pub open spec fn kept_of(m: Seq<(BoardId, BoardId)>) -> Seq<BoardId> {
    m.map_values(|p: (BoardId, BoardId)| p.0)
}

/// Where the instances of board `b` land when the boards move as `m`
/// says: the new position of their board when it moves (the first pair
/// naming it decides), where they stood otherwise.
pub open spec fn landing(m: Seq<(BoardId, BoardId)>, b: BoardId) -> BoardId {
    let i = first_index(kept_of(m), b);
    if i < m.len() {
        m[i as int].1
    } else {
        b
    }
}

impl<R: Copy> InstanceList<R> {
    /// Keeps the instances standing on `home` or on one of `kept`, and
    /// drops every other: the instances of boards that no longer exist.
    pub fn keep_boards(&mut self, home: BoardId, kept: &Vec<BoardId>)
        requires
            old(self).wf(),
        ensures
            final(self).wf(),
            final(self).counter() == old(self).counter(),
            final(self).items() == old(self).items().filter(
                |x: Instance<R>| x.board == home || kept@.contains(x.board),
            ),
    {
        let mut out: Vec<Instance<R>> = Vec::new();
        let mut i: usize = 0;
        while i < self.items.len()
            invariant
                i <= self.items@.len(),
                out@ == self.items@.take(i as int).filter(
                    |x: Instance<R>| x.board == home || kept@.contains(x.board),
                ),
            decreases self.items.len() - i,
        {
            let x = self.items[i];
            assert(self.items@.take(i + 1).drop_last() == self.items@.take(i as int));
            assert(self.items@.take(i + 1).last() == x);
            reveal_with_fuel(Seq::<_>::filter, 1);
            if same_board(x.board, home) || holds_board(kept, x.board) {
                out.push(x);
            }
            i += 1;
        }
        assert(self.items@.take(self.items@.len() as int) == self.items@);
        proof {
            lemma_filter_wf(
                self.items@,
                |x: Instance<R>| x.board == home || kept@.contains(x.board),
                self.next,
            );
        }
        self.items = out;
    }

    /// Moves every instance to where its board lands under `m`, identity
    /// and all: what renumbering the boards does to what stands on them.
    /// One pass, so a board moving onto a position another board is
    /// leaving never mixes the two.
    pub fn land_boards(&mut self, m: &Vec<(BoardId, BoardId)>)
        requires
            old(self).wf(),
        ensures
            final(self).wf(),
            final(self).counter() == old(self).counter(),
            final(self).items() == old(self).items().map_values(
                |x: Instance<R>| Instance::<R> { board: landing(m@, x.board), ..x },
            ),
    {
        let ghost s0 = self.items@;
        let mut i: usize = 0;
        while i < self.items.len()
            invariant
                i <= self.items@.len(),
                self.items@.len() == s0.len(),
                list_wf(self.items@, self.next),
                self.next == old(self).next,
                forall|j: int| 0 <= j < i ==> self.items@[j] == (Instance::<R> { board: landing(m@, s0[j].board), ..s0[j] }),
                forall|j: int| i <= j < s0.len() ==> self.items@[j] == s0[j],
            decreases self.items.len() - i,
        {
            let x = self.items[i];
            let to = landing_of(m, x.board);
            let ghost before = self.items@;
            let y = Instance { id: x.id, widget: x.widget, board: to, rect: x.rect };
            let _ = self.items.remove(i);
            self.items.insert(i, y);
            proof {
                assert(self.items@ =~= before.update(i as int, y));
                lemma_update_keeps_wf(before, i as int, y, self.next);
            }
            i += 1;
        }
        assert(self.items@ =~= s0.map_values(
            |x: Instance<R>| Instance::<R> { board: landing(m@, x.board), ..x },
        ));
    }
}

/// Where board `b` lands under `m`.
fn landing_of(m: &Vec<(BoardId, BoardId)>, b: BoardId) -> (r: BoardId)
    ensures
        r == landing(m@, b),
{
    let mut j: usize = 0;
    while j < m.len() && !same_board(m[j].0, b)
        invariant
            j <= m@.len(),
            forall|i: int| 0 <= i < j ==> kept_of(m@)[i] != b,
        decreases m.len() - j,
    {
        j += 1;
    }
    proof {
        if j < m.len() {
            assert(kept_of(m@)[j as int] == m@[j as int].0);
        }
        lemma_first_index(kept_of(m@), b, j as int);
    }
    if j < m.len() {
        m[j].1
    } else {
        b
    }
}

} // verus!
