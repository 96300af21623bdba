//! The scope store: declaring, reading and borrowing names.

use vstd::prelude::*;
use std::rc::Rc;
use crate::error::{ErrorView, MovaError};
use crate::interpreter::data::{share, BorrowableData, Data, DataView, Reference, Slot, SlotView};
use crate::interpreter::model::{
    destroyed, destroyed_all, lemma_destroyed, lemma_position, lemma_returned, position,
    position_from, returned, unresolved, FrameView, ScopeView,
};
use crate::text::same_text;

verus! {

/// The number of nested calls that a scope allows where no other limit is set: as many as
/// the machine can count. No program comes near it, since none calls deeper than it defines
/// functions.
pub const DEFAULT_CALL_DEPTH: usize = usize::MAX;

struct Binding {
    name: String,
    slot: usize,
}

struct Frame {
    parent: Option<usize>,
    locals: Vec<Binding>,
}

/// A scope: a place in the tree of scopes, together with the store that holds the tree.
///
/// Scopes that share a store are indices into it, so a `Scope` owns the store and names the
/// scope that is current. Names are declared in the current scope and looked up from it
/// through its parents. A handle to a slot or to a scope is an index into the store that
/// made it, and nothing is taken out of a store, so a handle stays good for as long as the
/// store lives.
pub struct Scope {
    frames: Vec<Frame>,
    slots: Vec<BorrowableData>,
    current: usize,
    depth: usize,
}

/// Whether `error` is the runtime error with `message`.
pub open spec fn is_runtime(error: MovaError, message: Seq<char>) -> bool {
    error@ == ErrorView::Runtime(message)
}

/// Whether `result` is the value or the failure `expected`.
pub open spec fn data_result(result: Result<Data, MovaError>, expected: Result<DataView, Seq<char>>)
    -> bool {
    match result {
        Ok(data) => expected == Ok::<DataView, Seq<char>>(data@),
        Err(error) => match expected {
            Err(message) => is_runtime(error, message),
            Ok(_) => false,
        },
    }
}

/// The runtime error with the given message.
pub fn runtime_error(message: String) -> (error: MovaError)
    ensures
        is_runtime(error, message@),
{
    MovaError::Runtime(message)
}

impl Binding {
    spec fn view(&self) -> (Seq<char>, nat) {
        (self.name@, self.slot as nat)
    }
}

impl Frame {
    spec fn view(&self) -> FrameView {
        FrameView {
            parent: match self.parent {
                Some(p) => Some(p as nat),
                None => None,
            },
            locals: self.locals@.map_values(|b: Binding| b@),
        }
    }
}

spec fn slot_views(slots: Seq<BorrowableData>) -> Seq<SlotView> {
    slots.map_values(|s: BorrowableData| s@)
}

spec fn frame_views(frames: Seq<Frame>) -> Seq<FrameView> {
    frames.map_values(|f: Frame| f@)
}

impl Scope {
    /// The store as a mathematical value.
    pub closed spec fn view(&self) -> ScopeView {
        ScopeView {
            frames: frame_views(self.frames@),
            slots: slot_views(self.slots@),
            current: self.current as nat,
        }
    }

    /// The invariant of the store: see [`ScopeView::wf`].
    pub open spec fn wf(&self) -> bool {
        self@.wf()
    }

    /// The number of nested calls that evaluation in this scope may make.
    pub closed spec fn call_depth(&self) -> nat {
        self.depth as nat
    }

    /// A scope under `parent`, or the global scope of a fresh store where there is none.
    ///
    /// The new scope lives in the store of its parent, so the parent is taken over.
    pub fn new(parent: Option<Scope>) -> (scope: Scope)
        requires
            match parent {
                Some(p) => p.wf(),
                None => true,
            },
        ensures
            scope.wf(),
            match parent {
                Some(p) => scope@ == p@.open(p@.current, true) && scope.call_depth()
                    == p.call_depth(),
                None => scope@ == ScopeView::root() && scope.call_depth() == DEFAULT_CALL_DEPTH,
            },
    {
        match parent {
            Some(p) => {
                let mut scope = p;
                let current = scope.current;
                scope.open(current, true);
                scope
            },
            None => {
                let mut frames: Vec<Frame> = Vec::new();
                frames.push(Frame { parent: None, locals: Vec::new() });
                let scope = Scope {
                    frames,
                    slots: Vec::new(),
                    current: 0,
                    depth: DEFAULT_CALL_DEPTH,
                };
                assert(scope@.frames =~= ScopeView::root().frames) by {
                    assert(scope.frames@[0]@.locals =~= Seq::empty());
                }
                assert(scope@.slots =~= ScopeView::root().slots);
                scope
            },
        }
    }

    /// The scope with `depth` as the number of nested calls that it allows.
    pub fn with_call_depth(self, depth: usize) -> (scope: Scope)
        ensures
            scope@ == self@,
            scope.call_depth() == depth,
    {
        Scope { frames: self.frames, slots: self.slots, current: self.current, depth }
    }

    /// The number of nested calls that evaluation in this scope may make.
    pub fn remaining_depth(&self) -> (depth: usize)
        ensures
            depth == self.call_depth(),
    {
        self.depth
    }

    /// Sets the number of nested calls that evaluation in this scope may make.
    pub(crate) fn set_depth(&mut self, depth: usize)
        ensures
            final(self)@ == old(self)@,
            final(self).call_depth() == depth,
    {
        self.depth = depth;
    }

    /// The index of the current scope in the store.
    pub fn current(&self) -> (frame: usize)
        ensures
            frame == self@.current,
    {
        self.current
    }

    /// The slot with the handle `id`.
    pub fn slot(&self, id: Slot) -> (slot: &BorrowableData)
        requires
            id < self@.slots.len(),
        ensures
            slot@ == self@.slots[id as int],
    {
        &self.slots[id]
    }

    /// The index of the binding of `name` in the scope `frame`.
    fn position_of(&self, frame: usize, name: &str) -> (found: Option<usize>)
        requires
            frame < self.frames.len(),
        ensures
            match found {
                Some(k) => position(self@.frames[frame as int].locals, name@) == Some(k as int)
                    && k < self.frames[frame as int].locals.len(),
                None => position(self@.frames[frame as int].locals, name@) is None,
            },
    {
        let locals = &self.frames[frame].locals;
        let ghost views = self@.frames[frame as int].locals;
        let mut k: usize = 0;
        while k < locals.len()
            invariant
                k <= locals.len(),
                frame < self.frames.len(),
                *locals == self.frames[frame as int].locals,
                views == self@.frames[frame as int].locals,
                views == locals@.map_values(|b: Binding| b@),
                position(views, name@) == position_from(views, name@, k as int),
            decreases locals.len() - k,
        {
            if same_text(locals[k].name.as_str(), name) {
                return Some(k);
            }
            k = k + 1;
        }
        None
    }

    /// The slot that `name` is bound to, seen from the current scope.
    ///
    /// Fails with a runtime error where no scope from the current one up to the global one
    /// binds the name.
    pub fn find_slot(&self, name: &str) -> (result: Result<Slot, MovaError>)
        requires
            self.wf(),
        ensures
            match result {
                Ok(id) => self@.find_slot(self@.current, name@) == Some(id as nat) && id
                    < self@.slots.len(),
                Err(error) => self@.find_slot(self@.current, name@) is None && is_runtime(
                    error,
                    unresolved(name@),
                ),
            },
    {
        let mut frame = self.current;
        loop
            invariant
                self.wf(),
                frame < self.frames.len(),
                self@.find_slot(self@.current, name@) == self@.find_slot(frame as nat, name@),
            decreases frame,
        {
            match self.position_of(frame, name) {
                Some(k) => {
                    proof {
                        self@.lemma_find_slot(frame as nat, name@);
                    }
                    return Ok(self.frames[frame].locals[k].slot);
                },
                None => match self.frames[frame].parent {
                    Some(p) => {
                        assert(self@.frames[frame as int].parent == Some(p as nat));
                        frame = p;
                    },
                    None => {
                        return Err(
                            runtime_error(String::from_str("Unable to resolve ").concat(name)),
                        );
                    },
                },
            }
        }
    }

    /// Gives back a reference to the slot `target`.
    fn give_back(&mut self, target: usize)
        requires
            old(self).wf(),
        ensures
            final(self).wf(),
            final(self)@ == old(self)@.with_slots(returned(old(self)@.slots, target as nat)),
            final(self).call_depth() == old(self).call_depth(),
    {
        if target < self.slots.len() {
            if self.slots[target].borrow_count > 0 {
                self.slots[target].borrow_count = self.slots[target].borrow_count - 1;
            }
        }
        proof {
            assert(self@.slots =~= returned(old(self)@.slots, target as nat));
            lemma_returned(old(self)@.slots, target as nat);
            old(self)@.lemma_with_slots_wf(returned(old(self)@.slots, target as nat));
        }
    }

    /// Destroys the slot `id`: gives back the reference it holds, if any.
    fn destroy(&mut self, id: usize)
        requires
            old(self).wf(),
        ensures
            final(self).wf(),
            final(self)@ == old(self)@.with_slots(destroyed(old(self)@.slots, id as nat)),
            final(self).call_depth() == old(self).call_depth(),
    {
        if id < self.slots.len() {
            let held: Option<usize> = match &self.slots[id].value {
                Data::Reference(reference) => Some(reference.source),
                _ => None,
            };
            if let Some(target) = held {
                self.give_back(target);
                self.slots[id].value = Data::Moved;
                proof {
                    assert(self@.slots =~= destroyed(old(self)@.slots, id as nat));
                }
            }
        }
        proof {
            lemma_destroyed(old(self)@.slots, id as nat);
            old(self)@.lemma_with_slots_wf(destroyed(old(self)@.slots, id as nat));
        }
    }

    /// Binds `name` in the current scope to a fresh slot that holds `data`.
    ///
    /// Only the current scope is looked at: a binding of the same name further up is
    /// shadowed, one in the current scope is replaced and its slot destroyed.
    pub fn declare(&mut self, name: &str, data: Data)
        requires
            old(self).wf(),
            old(self)@.holds(data@),
        ensures
            final(self).wf(),
            final(self)@ == old(self)@.declare(name@, data@),
            final(self).call_depth() == old(self).call_depth(),
    {
        let id = self.slots.len();
        let current = self.current;
        let ghost before = self@;
        match self.position_of(current, name) {
            Some(k) => {
                let prior = self.frames[current].locals[k].slot;
                proof {
                    lemma_position(before.frames[current as int].locals, name@, 0);
                }
                self.destroy(prior);
                self.frames[current].locals[k].slot = id;
                assert(self@.frames[current as int].locals
                    =~= before.frames[current as int].locals.update(
                    k as int,
                    (name@, id as nat),
                ));
            },
            None => {
                self.frames[current].locals.push(Binding { name: String::from_str(name), slot: id });
                assert(self@.frames[current as int].locals
                    =~= before.frames[current as int].locals.push((name@, id as nat)));
            },
        }
        self.slots.push(BorrowableData { value: data, borrow_count: 0, is_mutably_borrowed: false });
        proof {
            assert(self@.frames =~= before.declare(name@, data@).frames);
            assert(self@.slots =~= before.declare(name@, data@).slots);
            before.lemma_declare(name@, data@);
        }
    }

    /// Reads `name`.
    ///
    /// A number or a boolean is copied. Any other value is moved out of its slot, which is
    /// left as moved; this fails while a reference to the slot is outstanding. Reading a
    /// name that is unbound, moved or exclusively borrowed fails.
    pub fn resolve(&mut self, name: &str) -> (result: Result<Data, MovaError>)
        requires
            old(self).wf(),
        ensures
            final(self).wf(),
            final(self)@ == old(self)@.resolve(name@).0,
            data_result(result, old(self)@.resolve(name@).1),
            final(self).call_depth() == old(self).call_depth(),
    {
        proof {
            self@.lemma_resolve(name@);
        }
        let id = match self.find_slot(name) {
            Ok(id) => id,
            Err(error) => {
                return Err(error);
            },
        };
        if self.slots[id].is_mutably_borrowed {
            return Err(
                runtime_error(
                    String::from_str("Unable to use '").concat(name).concat(
                        "' because it is mutably borrowed",
                    ),
                ),
            );
        }
        let copied: Option<Data> = match &self.slots[id].value {
            Data::Number(n) => Some(Data::Number(*n)),
            Data::Boolean(b) => Some(Data::Boolean(*b)),
            _ => None,
        };
        if let Some(data) = copied {
            return Ok(data);
        }
        let moved = match &self.slots[id].value {
            Data::Moved => true,
            _ => false,
        };
        if moved {
            return Err(
                runtime_error(
                    String::from_str("Unable to use '").concat(name).concat(
                        "' because it is moved",
                    ),
                ),
            );
        }
        if self.slots[id].borrow_count > 0 {
            return Err(
                runtime_error(
                    String::from_str("Unable to move '").concat(name).concat(
                        "' because it is borrowed",
                    ),
                ),
            );
        }
        let mut data = Data::Moved;
        core::mem::swap(&mut self.slots[id].value, &mut data);
        proof {
            assert(self@.slots =~= old(self)@.resolve(name@).0.slots);
        }
        Ok(data)
    }

    /// Borrows `name`: counts one more reference to its slot and returns the reference.
    ///
    /// Fails where the name is unbound, moved or exclusively borrowed.
    pub fn borrow(&mut self, name: &str) -> (result: Result<Data, MovaError>)
        requires
            old(self).wf(),
        ensures
            final(self).wf(),
            final(self)@ == old(self)@.borrow(name@).0,
            data_result(result, old(self)@.borrow(name@).1),
            final(self).call_depth() == old(self).call_depth(),
    {
        proof {
            self@.lemma_borrow(name@);
        }
        let id = match self.find_slot(name) {
            Ok(id) => id,
            Err(error) => {
                return Err(error);
            },
        };
        let moved = match &self.slots[id].value {
            Data::Moved => true,
            _ => false,
        };
        if moved {
            return Err(
                runtime_error(
                    String::from_str("Unable to borrow '").concat(name).concat(
                        "' because it is moved",
                    ),
                ),
            );
        }
        if self.slots[id].is_mutably_borrowed {
            return Err(
                runtime_error(
                    String::from_str("Unable to borrow '").concat(name).concat(
                        "' because it is mutably borrowed",
                    ),
                ),
            );
        }
        if self.slots[id].borrow_count == usize::MAX {
            return Err(
                runtime_error(
                    String::from_str("Unable to borrow '").concat(name).concat(
                        "' because it is borrowed too often",
                    ),
                ),
            );
        }
        self.slots[id].borrow_count = self.slots[id].borrow_count + 1;
        proof {
            assert(self@.slots =~= old(self)@.borrow(name@).0.slots);
        }
        Ok(Data::Reference(Rc::new(Reference { source: id })))
    }

    /// Drops the value `data`: a reference is given back to its slot.
    pub fn release(&mut self, data: Data)
        requires
            old(self).wf(),
        ensures
            final(self).wf(),
            final(self)@ == old(self)@.release(data@),
            final(self).call_depth() == old(self).call_depth(),
    {
        proof {
            self@.lemma_release(data@);
        }
        match data {
            Data::Reference(reference) => {
                self.give_back(reference.source);
            },
            _ => {},
        }
    }

    /// Leaves the current scope: the scope ends, which destroys its slots and gives back the
    /// references that they hold, and its parent becomes the current scope.
    ///
    /// The global scope has no parent and does not end: the store stays as it is, and the
    /// result is `false`.
    pub fn leave(&mut self) -> (left: bool)
        requires
            old(self).wf(),
        ensures
            final(self).wf(),
            final(self).call_depth() == old(self).call_depth(),
            match old(self)@.frames[old(self)@.current as int].parent {
                Some(parent) => left && final(self)@ == old(self)@.close(
                    old(self)@.current,
                    parent,
                ),
                None => !left && final(self)@ == old(self)@,
            },
    {
        let current = self.current;
        match self.frames[current].parent {
            Some(parent) => {
                assert(self@.frames[current as int].parent == Some(parent as nat));
                self.close(current, parent);
                true
            },
            None => {
                assert(self@.frames[current as int].parent is None);
                false
            },
        }
    }

    /// Opens a fresh scope under `parent` and returns its index. It becomes the current
    /// scope where `enter` is set.
    pub(crate) fn open(&mut self, parent: usize, enter: bool) -> (frame: usize)
        requires
            old(self).wf(),
            parent < old(self)@.frames.len(),
        ensures
            final(self).wf(),
            final(self)@ == old(self)@.open(parent as nat, enter),
            frame == old(self)@.frames.len(),
            final(self).call_depth() == old(self).call_depth(),
    {
        let frame = self.frames.len();
        self.frames.push(Frame { parent: Some(parent), locals: Vec::new() });
        if enter {
            self.current = frame;
        }
        proof {
            assert(self.frames@[frame as int]@.locals =~= Seq::empty());
            assert(self@.frames =~= old(self)@.open(parent as nat, enter).frames);
            old(self)@.lemma_open(parent as nat, enter);
        }
        frame
    }

    /// Ends the scope `frame` and makes `restore` the current scope.
    pub(crate) fn close(&mut self, frame: usize, restore: usize)
        requires
            old(self).wf(),
            frame < old(self)@.frames.len(),
            restore < old(self)@.frames.len(),
        ensures
            final(self).wf(),
            final(self)@ == old(self)@.close(frame as nat, restore as nat),
            final(self).call_depth() == old(self).call_depth(),
    {
        let count = self.frames[frame].locals.len();
        let ghost locals = self@.frames[frame as int].locals;
        let mut k: usize = 0;
        while k < count
            invariant
                k <= count,
                frame < self.frames.len(),
                self.wf(),
                self@.frames == old(self)@.frames,
                self@.current == old(self)@.current,
                self.call_depth() == old(self).call_depth(),
                locals == old(self)@.frames[frame as int].locals,
                count == locals.len(),
                count == self.frames[frame as int].locals.len(),
                self@.slots == destroyed_all(old(self)@.slots, locals, k as int),
            decreases count - k,
        {
            let id = self.frames[frame].locals[k].slot;
            assert(self@.frames[frame as int].locals[k as int].1 == id);
            self.destroy(id);
            k = k + 1;
        }
        self.frames[frame].locals = Vec::new();
        self.current = restore;
        proof {
            assert(self.frames@[frame as int]@.locals =~= Seq::empty());
            assert(self@.frames =~= old(self)@.close(frame as nat, restore as nat).frames);
            old(self)@.lemma_close(frame as nat, restore as nat);
        }
    }
}

impl Reference {
    /// A copy of the value in the slot that the reference borrows.
    pub fn value(&self, scope: &Scope) -> (data: Data)
        requires
            scope.wf(),
            self.source < scope@.slots.len(),
        ensures
            data@ == scope@.slots[self.source as int].value,
    {
        match &scope.slots[self.source].value {
            Data::Number(n) => Data::Number(*n),
            Data::Boolean(b) => Data::Boolean(*b),
            Data::Function { parameters, body, definition_scope } => Data::Function {
                parameters: share(parameters),
                body: share(body),
                definition_scope: *definition_scope,
            },
            Data::Reference(reference) => Data::Reference(share(reference)),
            Data::Moved => Data::Moved,
        }
    }
}

} // verus!
