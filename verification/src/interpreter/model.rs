//! The mathematical model of the scope store, and what each operation does to it.
//!
//! A store holds every scope that was opened, each with a link to its parent and with its
//! bindings, and every slot that was made. A binding is a name and the index of a slot; a
//! reference is the index of the slot it borrows. Nothing is ever taken out of the store: a
//! scope that ends gives up its bindings, and a slot that is destroyed gives back the
//! reference it holds.

use vstd::prelude::*;
use crate::interpreter::data::{DataView, SlotView};

verus! {

/// One scope: the index of its parent, and its bindings in the order they were declared.
pub struct FrameView {
    pub parent: Option<nat>,
    pub locals: Seq<(Seq<char>, nat)>,
}

/// The whole store, seen from the scope `current`.
pub struct ScopeView {
    pub frames: Seq<FrameView>,
    pub slots: Seq<SlotView>,
    pub current: nat,
}

/// The index of the first binding of `name` in `locals` at or after `from`.
pub open spec fn position_from(locals: Seq<(Seq<char>, nat)>, name: Seq<char>, from: int)
    -> Option<int>
    decreases locals.len() - from,
{
    if from < 0 || from >= locals.len() {
        None
    } else if locals[from].0 == name {
        Some(from)
    } else {
        position_from(locals, name, from + 1)
    }
}

/// The index of the binding of `name` in `locals`.
pub open spec fn position(locals: Seq<(Seq<char>, nat)>, name: Seq<char>) -> Option<int> {
    position_from(locals, name, 0)
}

/// The slots after a reference to `target` was given back: its count goes down by one, and
/// stays at zero where it was zero.
pub open spec fn returned(slots: Seq<SlotView>, target: nat) -> Seq<SlotView> {
    if target < slots.len() {
        slots.update(
            target as int,
            SlotView {
                borrow_count: if slots[target as int].borrow_count > 0 {
                    (slots[target as int].borrow_count - 1) as nat
                } else {
                    0
                },
                ..slots[target as int]
            },
        )
    } else {
        slots
    }
}

/// The slots after slot `id` was destroyed: a reference that it held is given back, and the
/// slot is left as moved. A slot that holds no reference stays as it is.
pub open spec fn destroyed(slots: Seq<SlotView>, id: nat) -> Seq<SlotView> {
    if id < slots.len() {
        match slots[id as int].value {
            DataView::Reference(target) => {
                let after = returned(slots, target);
                after.update(id as int, SlotView { value: DataView::Moved, ..after[id as int] })
            },
            _ => slots,
        }
    } else {
        slots
    }
}

/// The slots after the slots of the first `count` bindings of `locals` were destroyed, in
/// order.
pub open spec fn destroyed_all(slots: Seq<SlotView>, locals: Seq<(Seq<char>, nat)>, count: int)
    -> Seq<SlotView>
    decreases count,
{
    if count <= 0 || count > locals.len() {
        slots
    } else {
        destroyed(destroyed_all(slots, locals, count - 1), locals[count - 1].1)
    }
}

/// The message for a name that no scope binds.
pub open spec fn unresolved(name: Seq<char>) -> Seq<char> {
    "Unable to resolve "@ + name
}

/// The message for a read of a name that is exclusively borrowed.
pub open spec fn use_of_mutably_borrowed(name: Seq<char>) -> Seq<char> {
    "Unable to use '"@ + name + "' because it is mutably borrowed"@
}

/// The message for a read of a name whose value was moved out.
pub open spec fn use_of_moved(name: Seq<char>) -> Seq<char> {
    "Unable to use '"@ + name + "' because it is moved"@
}

/// The message for a move out of a name that is borrowed.
pub open spec fn move_of_borrowed(name: Seq<char>) -> Seq<char> {
    "Unable to move '"@ + name + "' because it is borrowed"@
}

/// The message for a borrow of a name whose value was moved out.
pub open spec fn borrow_of_moved(name: Seq<char>) -> Seq<char> {
    "Unable to borrow '"@ + name + "' because it is moved"@
}

/// The message for a borrow of a name that is exclusively borrowed.
pub open spec fn borrow_of_mutably_borrowed(name: Seq<char>) -> Seq<char> {
    "Unable to borrow '"@ + name + "' because it is mutably borrowed"@
}

/// The message for a borrow of a name whose borrow count cannot grow.
pub open spec fn too_many_borrows(name: Seq<char>) -> Seq<char> {
    "Unable to borrow '"@ + name + "' because it is borrowed too often"@
}

impl ScopeView {
    /// The store with one scope, the global one, and no slot.
    pub open spec fn root() -> ScopeView {
        ScopeView {
            frames: seq![FrameView { parent: None, locals: Seq::empty() }],
            slots: Seq::empty(),
            current: 0,
        }
    }

    /// Whether some scope binds a name to the slot `id`.
    pub open spec fn binds(self, id: nat) -> bool {
        exists|f: int, k: int|
            0 <= f < self.frames.len() && 0 <= k < self.frames[f].locals.len() && (
            #[trigger] self.frames[f].locals[k]).1 == id
    }

    /// Every index in the store points to something older than what holds it: a parent comes
    /// before its child, a binding names a slot that exists, a reference in a slot borrows a
    /// slot that was made before it, and a function's definition scope exists. The bindings
    /// of a scope are a map: no name occurs twice among them. And a slot that holds a
    /// reference is bound in some scope: the reference is given back when that scope ends,
    /// if not before.
    pub open spec fn wf(self) -> bool {
        &&& self.current < self.frames.len()
        &&& forall|f: int, i: int, j: int|
            0 <= f < self.frames.len() && 0 <= i < j < self.frames[f].locals.len() ==> (
            #[trigger] self.frames[f].locals[i]).0 != (#[trigger] self.frames[f].locals[j]).0
        &&& forall|f: int|
            0 <= f < self.frames.len() ==> match (#[trigger] self.frames[f]).parent {
                Some(p) => p < f,
                None => true,
            }
        &&& forall|f: int, k: int|
            0 <= f < self.frames.len() && 0 <= k < self.frames[f].locals.len()
                ==> (#[trigger] self.frames[f].locals[k]).1 < self.slots.len()
        &&& forall|id: int|
            0 <= id < self.slots.len() ==> (#[trigger] self.slots[id]).value.fits(
                id as nat,
                self.frames.len(),
            )
        &&& forall|id: int|
            0 <= id < self.slots.len() && (#[trigger] self.slots[id]).value is Reference
                ==> self.binds(id as nat)
    }

    /// Whether the handles in `data` belong to this store.
    pub open spec fn holds(self, data: DataView) -> bool {
        data.fits(self.slots.len(), self.frames.len())
    }

    /// The slot that `name` is bound to, seen from the scope `frame`: that of the first scope
    /// that binds the name, going from `frame` up through the parents.
    pub open spec fn find_slot(self, frame: nat, name: Seq<char>) -> Option<nat>
        decreases frame,
    {
        if frame >= self.frames.len() {
            None
        } else {
            match position(self.frames[frame as int].locals, name) {
                Some(k) => Some(self.frames[frame as int].locals[k].1),
                None => match self.frames[frame as int].parent {
                    Some(p) => if p < frame {
                        self.find_slot(p, name)
                    } else {
                        None
                    },
                    None => None,
                },
            }
        }
    }

    /// The store with `slots` in place of its slots.
    pub open spec fn with_slots(self, slots: Seq<SlotView>) -> ScopeView {
        ScopeView { slots, ..self }
    }

    /// The store with a fresh slot that holds `data`, bound to `name` in the current scope.
    /// Where the current scope already binds the name, the slot it was bound to is destroyed.
    pub open spec fn declare(self, name: Seq<char>, data: DataView) -> ScopeView {
        let frame = self.frames[self.current as int];
        let id = self.slots.len();
        let fresh = SlotView { value: data, borrow_count: 0, is_mutably_borrowed: false };
        match position(frame.locals, name) {
            Some(k) => ScopeView {
                frames: self.frames.update(
                    self.current as int,
                    FrameView { locals: frame.locals.update(k, (name, id)), ..frame },
                ),
                slots: destroyed(self.slots, frame.locals[k].1).push(fresh),
                current: self.current,
            },
            None => ScopeView {
                frames: self.frames.update(
                    self.current as int,
                    FrameView { locals: frame.locals.push((name, id)), ..frame },
                ),
                slots: self.slots.push(fresh),
                current: self.current,
            },
        }
    }

    /// Reading `name`: the store afterwards, and the value or the message of the failure.
    ///
    /// A number or a boolean is copied and the store stays as it is. Any other value is moved
    /// out, which leaves the slot as moved, unless a reference to the slot is outstanding.
    pub open spec fn resolve(self, name: Seq<char>) -> (ScopeView, Result<DataView, Seq<char>>) {
        match self.find_slot(self.current, name) {
            None => (self, Err(unresolved(name))),
            Some(id) => {
                let slot = self.slots[id as int];
                if slot.is_mutably_borrowed {
                    (self, Err(use_of_mutably_borrowed(name)))
                } else if slot.value.is_copyable() {
                    (self, Ok(slot.value))
                } else if slot.value is Moved {
                    (self, Err(use_of_moved(name)))
                } else if slot.borrow_count > 0 {
                    (self, Err(move_of_borrowed(name)))
                } else {
                    (
                        self.with_slots(
                            self.slots.update(
                                id as int,
                                SlotView { value: DataView::Moved, ..slot },
                            ),
                        ),
                        Ok(slot.value),
                    )
                }
            },
        }
    }

    /// Borrowing `name`: the store afterwards, and the reference or the message of the
    /// failure. A borrow adds one to the count of the slot.
    pub open spec fn borrow(self, name: Seq<char>) -> (ScopeView, Result<DataView, Seq<char>>) {
        match self.find_slot(self.current, name) {
            None => (self, Err(unresolved(name))),
            Some(id) => {
                let slot = self.slots[id as int];
                if slot.value is Moved {
                    (self, Err(borrow_of_moved(name)))
                } else if slot.is_mutably_borrowed {
                    (self, Err(borrow_of_mutably_borrowed(name)))
                } else if slot.borrow_count >= usize::MAX {
                    (self, Err(too_many_borrows(name)))
                } else {
                    (
                        self.with_slots(
                            self.slots.update(
                                id as int,
                                SlotView { borrow_count: slot.borrow_count + 1, ..slot },
                            ),
                        ),
                        Ok(DataView::Reference(id)),
                    )
                }
            },
        }
    }

    /// The store after the value `data` was dropped: a reference is given back.
    pub open spec fn release(self, data: DataView) -> ScopeView {
        match data {
            DataView::Reference(target) => self.with_slots(returned(self.slots, target)),
            _ => self,
        }
    }

    /// The store with a fresh empty scope under `parent`, which stays the current scope where
    /// `enter` is false and hands over to the new scope where it is true.
    pub open spec fn open(self, parent: nat, enter: bool) -> ScopeView {
        ScopeView {
            frames: self.frames.push(FrameView { parent: Some(parent), locals: Seq::empty() }),
            slots: self.slots,
            current: if enter {
                self.frames.len()
            } else {
                self.current
            },
        }
    }

    /// The store after the scope `frame` ended: its slots are destroyed in the order they
    /// were declared, it holds no binding any more, and `restore` is the current scope.
    pub open spec fn close(self, frame: nat, restore: nat) -> ScopeView {
        let locals = self.frames[frame as int].locals;
        ScopeView {
            frames: self.frames.update(
                frame as int,
                FrameView { locals: Seq::empty(), ..self.frames[frame as int] },
            ),
            slots: destroyed_all(self.slots, locals, locals.len() as int),
            current: restore,
        }
    }
}

/// Whether every slot of `before` holds in `after` the value that it held, or is left as
/// moved where that value was an owned one, and is as little exclusively borrowed as it was.
pub open spec fn keeps_values(before: Seq<SlotView>, after: Seq<SlotView>) -> bool {
    &&& after.len() >= before.len()
    &&& forall|id: int|
        0 <= id < before.len() ==> {
            &&& (#[trigger] after[id]).is_mutably_borrowed == before[id].is_mutably_borrowed
            &&& {
                ||| after[id].value == before[id].value
                ||| after[id].value is Moved && !before[id].value.is_copyable()
            }
        }
}

/// Giving a reference back keeps the length of the store and every value in it.
pub proof fn lemma_returned(slots: Seq<SlotView>, target: nat)
    ensures
        returned(slots, target).len() == slots.len(),
        forall|id: int|
            0 <= id < slots.len() ==> (#[trigger] returned(slots, target)[id]).value
                == slots[id].value,
        keeps_values(slots, returned(slots, target)),
{
}

/// Destroying a slot keeps the length of the store, and every value in it that it does not
/// leave as moved.
pub proof fn lemma_destroyed(slots: Seq<SlotView>, id: nat)
    ensures
        destroyed(slots, id).len() == slots.len(),
        forall|i: int|
            0 <= i < slots.len() ==> {
                ||| (#[trigger] destroyed(slots, id)[i]).value == slots[i].value
                ||| destroyed(slots, id)[i].value is Moved
            },
        keeps_values(slots, destroyed(slots, id)),
{
}

/// Destroying the slots of a scope keeps the length of the store, and every value in it that
/// it does not leave as moved.
pub proof fn lemma_destroyed_all(slots: Seq<SlotView>, locals: Seq<(Seq<char>, nat)>, count: int)
    ensures
        destroyed_all(slots, locals, count).len() == slots.len(),
        forall|i: int|
            0 <= i < slots.len() ==> {
                ||| (#[trigger] destroyed_all(slots, locals, count)[i]).value == slots[i].value
                ||| destroyed_all(slots, locals, count)[i].value is Moved
            },
    decreases count,
{
    if count <= 0 || count > locals.len() {
    } else {
        lemma_destroyed_all(slots, locals, count - 1);
        lemma_destroyed(destroyed_all(slots, locals, count - 1), locals[count - 1].1);
    }
}

/// After the slots of a scope were destroyed, none of them holds a reference.
pub proof fn lemma_destroyed_all_releases(
    slots: Seq<SlotView>,
    locals: Seq<(Seq<char>, nat)>,
    count: int,
    j: int,
)
    requires
        0 <= j < count <= locals.len(),
        locals[j].1 < slots.len(),
    ensures
        !(destroyed_all(slots, locals, count)[locals[j].1 as int].value is Reference),
    decreases count,
{
    let before = destroyed_all(slots, locals, count - 1);
    lemma_destroyed_all(slots, locals, count - 1);
    lemma_destroyed(before, locals[count - 1].1);
    if j < count - 1 {
        lemma_destroyed_all_releases(slots, locals, count - 1, j);
    }
}

impl ScopeView {
    /// A binding of before that is still there binds the same slot.
    pub proof fn lemma_still_binds(self, after: ScopeView, id: nat, f: int, k: int)
        requires
            0 <= f < after.frames.len(),
            0 <= k < after.frames[f].locals.len(),
            after.frames[f].locals[k].1 == id,
        ensures
            after.binds(id),
    {
    }

    /// A store stays well formed when its slots are replaced by as many slots whose values
    /// are those of before or moved.
    pub proof fn lemma_with_slots_wf(self, slots: Seq<SlotView>)
        requires
            self.wf(),
            slots.len() == self.slots.len(),
            forall|id: int|
                0 <= id < slots.len() ==> {
                    ||| (#[trigger] slots[id]).value == self.slots[id].value
                    ||| slots[id].value is Moved
                },
        ensures
            self.with_slots(slots).wf(),
    {
        let after = self.with_slots(slots);
        assert forall|id: int| 0 <= id < after.slots.len() implies (#[trigger] after.slots[id]).value.fits(
            id as nat,
            after.frames.len(),
        ) by {
            assert(self.slots[id].value.fits(id as nat, self.frames.len()));
        }
    }

    /// The slot that a name resolves to exists.
    pub proof fn lemma_find_slot(self, frame: nat, name: Seq<char>)
        requires
            self.wf(),
        ensures
            match self.find_slot(frame, name) {
                Some(id) => id < self.slots.len(),
                None => true,
            },
        decreases frame,
    {
        if frame < self.frames.len() {
            let locals = self.frames[frame as int].locals;
            lemma_position(locals, name, 0);
            match position(locals, name) {
                Some(k) => {
                    assert(self.frames[frame as int].locals[k].1 < self.slots.len());
                },
                None => match self.frames[frame as int].parent {
                    Some(p) => {
                        if p < frame {
                            self.lemma_find_slot(p, name);
                        }
                    },
                    None => {},
                },
            }
        }
    }

    /// Declaring keeps the store well formed, and only adds to it.
    pub proof fn lemma_declare(self, name: Seq<char>, data: DataView)
        requires
            self.wf(),
            self.holds(data),
        ensures
            self.declare(name, data).wf(),
            self.declare(name, data).slots.len() == self.slots.len() + 1,
            self.declare(name, data).frames.len() == self.frames.len(),
            self.declare(name, data).current == self.current,
            forall|f: int|
                0 <= f < self.frames.len() && f != self.current ==> #[trigger] self.declare(
                    name,
                    data,
                ).frames[f] == self.frames[f],
            self.declare(name, data).frames[self.current as int].parent
                == self.frames[self.current as int].parent,
            keeps_values(self.slots, self.declare(name, data).slots),
    {
        let after = self.declare(name, data);
        let frame = self.frames[self.current as int];
        lemma_position(frame.locals, name, 0);
        match position(frame.locals, name) {
            Some(k) => {
                let prior = frame.locals[k].1;
                lemma_destroyed(self.slots, prior);
                self.lemma_with_slots_wf(destroyed(self.slots, prior));
            },
            None => {},
        }
        assert forall|f: int, k: int|
            0 <= f < after.frames.len() && 0 <= k < after.frames[f].locals.len() implies (
        #[trigger] after.frames[f].locals[k]).1 < after.slots.len() by {
            if f == self.current {
                if k < frame.locals.len() && after.frames[f].locals[k] == frame.locals[k] {
                    assert(self.frames[f].locals[k].1 < self.slots.len());
                }
            } else {
                assert(self.frames[f].locals[k].1 < self.slots.len());
            }
        }
        assert forall|id: int| 0 <= id < after.slots.len() implies (#[trigger] after.slots[id]).value.fits(
            id as nat,
            after.frames.len(),
        ) by {
            if id < self.slots.len() {
                assert(self.slots[id].value.fits(id as nat, self.frames.len()));
            }
        }
        assert forall|f: int| 0 <= f < after.frames.len() implies match (
        #[trigger] after.frames[f]).parent {
            Some(p) => p < f,
            None => true,
        } by {
            assert(self.frames[f].parent == after.frames[f].parent);
        }
        assert forall|f: int, i: int, j: int|
            0 <= f < after.frames.len() && 0 <= i < j < after.frames[f].locals.len() implies (
        #[trigger] after.frames[f].locals[i]).0 != (#[trigger] after.frames[f].locals[j]).0 by {
            if f == self.current {
                match position(frame.locals, name) {
                    Some(k) => {
                        assert(frame.locals[i].0 != frame.locals[j].0);
                    },
                    None => {
                        lemma_position_none(frame.locals, name, 0);
                        if j < frame.locals.len() {
                            assert(frame.locals[i].0 != frame.locals[j].0);
                        } else {
                            assert(frame.locals[i].0 != name);
                        }
                    },
                }
            } else {
                assert(self.frames[f].locals[i].0 != self.frames[f].locals[j].0);
            }
        }
        assert forall|id: int|
            0 <= id < after.slots.len() && (#[trigger] after.slots[id]).value is Reference implies after.binds(
            id as nat,
        ) by {
            let at = match position(frame.locals, name) {
                Some(k) => k,
                None => frame.locals.len() as int,
            };
            if id == self.slots.len() {
                self.lemma_still_binds(after, id as nat, self.current as int, at);
            } else {
                assert(self.slots[id].value is Reference);
                assert(self.binds(id as nat));
                let (f, k) = choose|f: int, k: int|
                    0 <= f < self.frames.len() && 0 <= k < self.frames[f].locals.len() && (
                    #[trigger] self.frames[f].locals[k]).1 == id;
                if f == self.current && k == at {
                    assert(after.slots[id].value is Moved);
                } else {
                    self.lemma_still_binds(after, id as nat, f, k);
                }
            }
        }
    }

    /// Reading keeps the store well formed and its size, and the value that is read belongs
    /// to the store.
    pub proof fn lemma_resolve(self, name: Seq<char>)
        requires
            self.wf(),
        ensures
            self.resolve(name).0.wf(),
            self.resolve(name).0.frames == self.frames,
            self.resolve(name).0.current == self.current,
            self.resolve(name).0.slots.len() == self.slots.len(),
            match self.resolve(name).1 {
                Ok(data) => self.holds(data) && !(data is Moved),
                Err(_) => true,
            },
            keeps_values(self.slots, self.resolve(name).0.slots),
    {
        self.lemma_find_slot(self.current, name);
        match self.find_slot(self.current, name) {
            None => {},
            Some(id) => {
                let slot = self.slots[id as int];
                assert(slot.value.fits(id, self.frames.len()));
                let slots = self.slots.update(
                    id as int,
                    SlotView { value: DataView::Moved, ..slot },
                );
                self.lemma_with_slots_wf(slots);
            },
        }
    }

    /// Borrowing keeps the store well formed and its size, and the reference belongs to the
    /// store.
    pub proof fn lemma_borrow(self, name: Seq<char>)
        requires
            self.wf(),
        ensures
            self.borrow(name).0.wf(),
            self.borrow(name).0.frames == self.frames,
            self.borrow(name).0.current == self.current,
            self.borrow(name).0.slots.len() == self.slots.len(),
            match self.borrow(name).1 {
                Ok(data) => self.holds(data) && data is Reference,
                Err(_) => true,
            },
            keeps_values(self.slots, self.borrow(name).0.slots),
    {
        self.lemma_find_slot(self.current, name);
        match self.find_slot(self.current, name) {
            None => {},
            Some(id) => {
                let slot = self.slots[id as int];
                let slots = self.slots.update(
                    id as int,
                    SlotView { borrow_count: slot.borrow_count + 1, ..slot },
                );
                self.lemma_with_slots_wf(slots);
            },
        }
    }

    /// Dropping a value keeps the store well formed and its size.
    pub proof fn lemma_release(self, data: DataView)
        requires
            self.wf(),
        ensures
            self.release(data).wf(),
            self.release(data).frames == self.frames,
            self.release(data).current == self.current,
            self.release(data).slots.len() == self.slots.len(),
            keeps_values(self.slots, self.release(data).slots),
    {
        match data {
            DataView::Reference(target) => {
                lemma_returned(self.slots, target);
                self.lemma_with_slots_wf(returned(self.slots, target));
            },
            _ => {},
        }
    }

    /// Opening a scope keeps the store well formed.
    pub proof fn lemma_open(self, parent: nat, enter: bool)
        requires
            self.wf(),
            parent < self.frames.len(),
        ensures
            self.open(parent, enter).wf(),
    {
        let after = self.open(parent, enter);
        assert forall|f: int| 0 <= f < after.frames.len() implies match (
        #[trigger] after.frames[f]).parent {
            Some(p) => p < f,
            None => true,
        } by {
            if f < self.frames.len() {
                assert(self.frames[f].parent == after.frames[f].parent);
            }
        }
        assert forall|f: int, k: int|
            0 <= f < after.frames.len() && 0 <= k < after.frames[f].locals.len() implies (
        #[trigger] after.frames[f].locals[k]).1 < after.slots.len() by {
            assert(self.frames[f].locals[k].1 < self.slots.len());
        }
        assert forall|id: int| 0 <= id < after.slots.len() implies (#[trigger] after.slots[id]).value.fits(
            id as nat,
            after.frames.len(),
        ) by {
            assert(self.slots[id].value.fits(id as nat, self.frames.len()));
        }
        assert forall|id: int|
            0 <= id < after.slots.len() && (#[trigger] after.slots[id]).value is Reference implies after.binds(
            id as nat,
        ) by {
            assert(self.binds(id as nat));
            let (f, k) = choose|f: int, k: int|
                0 <= f < self.frames.len() && 0 <= k < self.frames[f].locals.len() && (
                #[trigger] self.frames[f].locals[k]).1 == id;
            self.lemma_still_binds(after, id as nat, f, k);
        }
    }

    /// Closing a scope keeps the store well formed and its size.
    pub proof fn lemma_close(self, frame: nat, restore: nat)
        requires
            self.wf(),
            frame < self.frames.len(),
            restore < self.frames.len(),
        ensures
            self.close(frame, restore).wf(),
            self.close(frame, restore).slots.len() == self.slots.len(),
    {
        let after = self.close(frame, restore);
        let locals = self.frames[frame as int].locals;
        lemma_destroyed_all(self.slots, locals, locals.len() as int);
        self.lemma_with_slots_wf(after.slots);
        assert forall|f: int| 0 <= f < after.frames.len() implies match (
        #[trigger] after.frames[f]).parent {
            Some(p) => p < f,
            None => true,
        } by {
            assert(self.frames[f].parent == after.frames[f].parent);
        }
        assert forall|f: int, k: int|
            0 <= f < after.frames.len() && 0 <= k < after.frames[f].locals.len() implies (
        #[trigger] after.frames[f].locals[k]).1 < after.slots.len() by {
            assert(self.frames[f].locals[k].1 < self.slots.len());
        }
        assert forall|id: int|
            0 <= id < after.slots.len() && (#[trigger] after.slots[id]).value is Reference implies after.binds(
            id as nat,
        ) by {
            assert(self.slots[id].value is Reference);
            assert(self.binds(id as nat));
            let (f, k) = choose|f: int, k: int|
                0 <= f < self.frames.len() && 0 <= k < self.frames[f].locals.len() && (
                #[trigger] self.frames[f].locals[k]).1 == id;
            if f == frame {
                lemma_destroyed_all_releases(self.slots, locals, locals.len() as int, k);
            } else {
                self.lemma_still_binds(after, id as nat, f, k);
            }
        }
    }
}

/// A name that is bound at index `k`, and nowhere from `from` up to `k`, is found at `k`.
pub proof fn lemma_position_found(locals: Seq<(Seq<char>, nat)>, name: Seq<char>, from: int, k: int)
    requires
        0 <= from <= k < locals.len(),
        locals[k].0 == name,
        forall|j: int| from <= j < k ==> (#[trigger] locals[j]).0 != name,
    ensures
        position_from(locals, name, from) == Some(k),
    decreases k - from,
{
    if from < k {
        lemma_position_found(locals, name, from + 1, k);
    }
}

/// A name that is not found from `from` on is bound nowhere from there on.
pub proof fn lemma_position_none(locals: Seq<(Seq<char>, nat)>, name: Seq<char>, from: int)
    requires
        0 <= from,
        position_from(locals, name, from) is None,
    ensures
        forall|j: int| from <= j < locals.len() ==> (#[trigger] locals[j]).0 != name,
    decreases locals.len() - from,
{
    if from < locals.len() {
        lemma_position_none(locals, name, from + 1);
    }
}

/// A name that is found at index `k` is bound nowhere before `k`.
pub proof fn lemma_position_first(locals: Seq<(Seq<char>, nat)>, name: Seq<char>, from: int)
    requires
        0 <= from,
    ensures
        match position_from(locals, name, from) {
            Some(k) => forall|j: int| from <= j < k ==> (#[trigger] locals[j]).0 != name,
            None => true,
        },
    decreases locals.len() - from,
{
    if from < locals.len() && locals[from].0 != name {
        lemma_position_first(locals, name, from + 1);
    }
}

impl ScopeView {
    /// Which slot a name resolves to depends on the scopes alone, not on what the slots
    /// hold.
    pub proof fn lemma_find_slot_by_frames(self, other: ScopeView, frame: nat, name: Seq<char>)
        requires
            self.frames == other.frames,
        ensures
            self.find_slot(frame, name) == other.find_slot(frame, name),
        decreases frame,
    {
        if frame < self.frames.len() {
            match self.frames[frame as int].parent {
                Some(p) => {
                    if p < frame {
                        self.lemma_find_slot_by_frames(other, p, name);
                    }
                },
                None => {},
            }
        }
    }

    /// A binding that holds a number or a boolean can be read as often as wanted: a read
    /// leaves the store as it is, so the next read yields the same value.
    pub proof fn lemma_copyable_is_read_again(self, name: Seq<char>, data: DataView)
        requires
            self.resolve(name).1 == Ok::<DataView, Seq<char>>(data),
            data.is_copyable(),
        ensures
            self.resolve(name).0 == self,
            self.resolve(name).0.resolve(name).1 == Ok::<DataView, Seq<char>>(data),
    {
    }

    /// A binding that holds any other value can be read once: the read moves the value out,
    /// and the next read fails.
    pub proof fn lemma_affine_is_read_once(self, name: Seq<char>, data: DataView)
        requires
            self.wf(),
            self.resolve(name).1 == Ok::<DataView, Seq<char>>(data),
            !data.is_copyable(),
        ensures
            self.resolve(name).0.resolve(name).1 == Err::<DataView, Seq<char>>(use_of_moved(name)),
    {
        self.lemma_find_slot(self.current, name);
        self.lemma_find_slot_by_frames(self.resolve(name).0, self.current, name);
    }

    /// A name that is declared in the current scope resolves to its fresh slot.
    pub proof fn lemma_declared_is_found(self, name: Seq<char>, data: DataView)
        requires
            self.wf(),
        ensures
            self.declare(name, data).find_slot(self.current, name) == Some(self.slots.len()),
    {
        let locals = self.frames[self.current as int].locals;
        let after = self.declare(name, data).frames[self.current as int].locals;
        lemma_position(locals, name, 0);
        lemma_position_first(locals, name, 0);
        match position(locals, name) {
            Some(k) => {
                assert(after =~= locals.update(k, (name, self.slots.len())));
                assert forall|j: int| 0 <= j < k implies (#[trigger] after[j]).0 != name by {
                    assert(locals[j].0 != name);
                }
                lemma_position_found(after, name, 0, k);
            },
            None => {
                lemma_position_none(locals, name, 0);
                assert(after =~= locals.push((name, self.slots.len())));
                assert forall|j: int| 0 <= j < locals.len() implies (#[trigger] after[j]).0
                    != name by {
                    assert(locals[j].0 != name);
                }
                lemma_position_found(after, name, 0, locals.len() as int);
            },
        }
    }

    /// Declaring a name again makes it readable again, whatever became of the value that it
    /// was bound to before.
    pub proof fn lemma_rebound_is_read(self, name: Seq<char>, data: DataView)
        requires
            self.wf(),
            !(data is Moved),
        ensures
            self.declare(name, data).resolve(name).1 == Ok::<DataView, Seq<char>>(data),
    {
        self.lemma_declared_is_found(name, data);
    }
}

/// Where a name is bound in `locals`, it is bound at the index that `position_from` gives.
pub proof fn lemma_position(locals: Seq<(Seq<char>, nat)>, name: Seq<char>, from: int)
    requires
        0 <= from,
    ensures
        match position_from(locals, name, from) {
            Some(k) => from <= k < locals.len() && locals[k].0 == name,
            None => true,
        },
    decreases locals.len() - from,
{
    if from < locals.len() && locals[from].0 != name {
        lemma_position(locals, name, from + 1);
    }
}

} // verus!
