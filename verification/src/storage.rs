//! Pluggable storage backends for a state channel's current and next value.

use vstd::prelude::*;

verus! {

/// Mathematical model of a storage backend: the committed current value plus
/// the pending shape, either a single slot or a stack whose top is pending.
#[verifier::ext_equal]
pub enum StorageModel {
    Slot { current: Option<u64>, next: Option<u64> },
    Stack { current: Option<u64>, stack: Seq<u64> },
}

/// The committed current value held by a storage model.
pub open spec fn cur_of(s: StorageModel) -> Option<u64> {
    match s {
        StorageModel::Slot { current, next: _ } => current,
        StorageModel::Stack { current, stack: _ } => current,
    }
}

/// The pending next value held by a storage model: the slot's next value, or
/// the top of the stack.
pub open spec fn next_of(s: StorageModel) -> Option<u64> {
    match s {
        StorageModel::Slot { current: _, next } => next,
        StorageModel::Stack { current: _, stack } => if stack.len() == 0 {
            None
        } else {
            Some(stack.last())
        },
    }
}

/// Whether the model is stack backed.
pub open spec fn is_stack(s: StorageModel) -> bool {
    match s {
        StorageModel::Slot { current: _, next: _ } => false,
        StorageModel::Stack { current: _, stack: _ } => true,
    }
}

/// Writing a pending value. A slot simply replaces its next value. A stack
/// replaces its top with a present value (pushing onto an empty stack), and
/// pops on disable, so that the pending value falls back to the value below.
pub open spec fn set_next_spec(s: StorageModel, v: Option<u64>) -> StorageModel {
    match s {
        StorageModel::Slot { current, next: _ } => StorageModel::Slot { current, next: v },
        StorageModel::Stack { current, stack } => StorageModel::Stack {
            current,
            stack: match v {
                Some(x) => if stack.len() == 0 {
                    stack.push(x)
                } else {
                    stack.update(stack.len() - 1, x)
                },
                None => if stack.len() == 0 {
                    stack
                } else {
                    stack.drop_last()
                },
            },
        },
    }
}

/// Committing: the pending value becomes the current value. The pending side
/// keeps mirroring the committed value, so an unchanged channel stays
/// quiescent under change detection.
pub open spec fn commit_spec(s: StorageModel) -> StorageModel {
    match s {
        StorageModel::Slot { current: _, next } => StorageModel::Slot { current: next, next },
        StorageModel::Stack { current: _, stack } => StorageModel::Stack {
            current: if stack.len() == 0 {
                None
            } else {
                Some(stack.last())
            },
            stack,
        },
    }
}

/// Pushing a value onto a stack backend.
pub open spec fn push_spec(s: StorageModel, x: u64) -> StorageModel {
    match s {
        StorageModel::Slot { current, next: _ } => StorageModel::Slot { current, next: Some(x) },
        StorageModel::Stack { current, stack } => StorageModel::Stack {
            current,
            stack: stack.push(x),
        },
    }
}

/// Popping the top of a stack backend; an empty stack is unchanged.
pub open spec fn pop_spec(s: StorageModel) -> StorageModel {
    match s {
        StorageModel::Slot { current, next: _ } => StorageModel::Slot { current, next: None },
        StorageModel::Stack { current, stack } => StorageModel::Stack {
            current,
            stack: if stack.len() == 0 {
                stack
            } else {
                stack.drop_last()
            },
        },
    }
}

/// A storage backend holding one channel's values. A `Slot` moves its pending
/// value into place on commit; a `Stack` keeps a history of values, commits
/// its top, pops on disable and additionally exposes explicit push and pop.
/// No backend validates transitions: that is the trigger phase's concern.
pub enum StateStorage {
    Slot { current: Option<u64>, next: Option<u64> },
    Stack { current: Option<u64>, stack: Vec<u64> },
}

impl View for StateStorage {
    type V = StorageModel;

    open spec fn view(&self) -> StorageModel {
        match self {
            StateStorage::Slot { current, next } => StorageModel::Slot {
                current: *current,
                next: *next,
            },
            StateStorage::Stack { current, stack } => StorageModel::Stack {
                current: *current,
                stack: stack@,
            },
        }
    }
}

impl StateStorage {
    /// An empty slot backend: the state type starts disabled.
    pub fn slot_empty() -> (r: StateStorage)
        ensures
            r@ == (StorageModel::Slot { current: None, next: None }),
    {
        StateStorage::Slot { current: None, next: None }
    }

    /// A slot backend with a pending initial value: the first tick flushes
    /// the state type in.
    pub fn slot_init(v: u64) -> (r: StateStorage)
        ensures
            r@ == (StorageModel::Slot { current: None, next: Some(v) }),
    {
        StateStorage::Slot { current: None, next: Some(v) }
    }

    /// Read the committed current value.
    pub fn get_current(&self) -> (r: Option<u64>)
        ensures
            r == cur_of(self@),
    {
        match self {
            StateStorage::Slot { current, next: _ } => *current,
            StateStorage::Stack { current, stack: _ } => *current,
        }
    }

    /// Read the pending next value.
    pub fn get_next(&self) -> (r: Option<u64>)
        ensures
            r == next_of(self@),
    {
        match self {
            StateStorage::Slot { current: _, next } => *next,
            StateStorage::Stack { current: _, stack } => if stack.len() == 0 {
                None
            } else {
                Some(stack[stack.len() - 1])
            },
        }
    }

    /// Write the pending next value.
    pub fn set_next(&mut self, v: Option<u64>)
        ensures
            final(self)@ == set_next_spec(old(self)@, v),
    {
        match self {
            StateStorage::Slot { current: _, next } => {
                *next = v;
            },
            StateStorage::Stack { current: _, stack } => {
                match v {
                    Some(x) => {
                        if stack.len() == 0 {
                            stack.push(x);
                        } else {
                            let _popped = stack.pop();
                            stack.push(x);
                        }
                    },
                    None => {
                        if stack.len() > 0 {
                            let _popped = stack.pop();
                        }
                    },
                }
            },
        }
        proof {
            assert(self@ =~= set_next_spec(old(self)@, v));
        }
    }

    /// Commit the pending value as the current value.
    pub fn commit(&mut self)
        ensures
            final(self)@ == commit_spec(old(self)@),
    {
        match self {
            StateStorage::Slot { current, next } => {
                *current = *next;
            },
            StateStorage::Stack { current, stack } => {
                *current = if stack.len() == 0 {
                    None
                } else {
                    Some(stack[stack.len() - 1])
                };
            },
        }
        proof {
            assert(self@ =~= commit_spec(old(self)@));
        }
    }

    /// Push a value; on a stack backend it becomes the new pending top.
    pub fn push(&mut self, x: u64)
        ensures
            final(self)@ == push_spec(old(self)@, x),
    {
        match self {
            StateStorage::Slot { current: _, next } => {
                *next = Some(x);
            },
            StateStorage::Stack { current: _, stack } => {
                stack.push(x);
            },
        }
        proof {
            assert(self@ =~= push_spec(old(self)@, x));
        }
    }

    /// Pop the pending top of a stack backend; on a slot it clears the
    /// pending value.
    pub fn pop(&mut self)
        ensures
            final(self)@ == pop_spec(old(self)@),
    {
        match self {
            StateStorage::Slot { current: _, next } => {
                *next = None;
            },
            StateStorage::Stack { current: _, stack } => {
                if stack.len() > 0 {
                    let _popped = stack.pop();
                }
            },
        }
        proof {
            assert(self@ =~= pop_spec(old(self)@));
        }
    }
}

} // verus!
