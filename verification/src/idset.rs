//! Sets and indexes of messages: a dialog and a message of it.

use std::collections::{HashMap, HashSet};
use vstd::prelude::*;

verus! {

broadcast use vstd::std_specs::hash::group_hash_axioms;

/// One number for a dialog and a message of it.
spec fn code_of(dialog_id: i64, msg_id: i32) -> int {
    dialog_id * 0x1_0000_0000 + (msg_id + 0x8000_0000)
}

fn code(dialog_id: i64, msg_id: i32) -> (r: i128)
    ensures
        r == code_of(dialog_id, msg_id),
{
    (dialog_id as i128) * 0x1_0000_0000 + ((msg_id as i128) + 0x8000_0000)
}

proof fn lemma_code_unique(a: i64, b: i32, c: i64, d: i32)
    requires
        code_of(a, b) == code_of(c, d),
    ensures
        a == c,
        b == d,
{
    assert(a == c && b == d) by (nonlinear_arith)
        requires
            a * 0x1_0000_0000 + (b + 0x8000_0000) == c * 0x1_0000_0000 + (d + 0x8000_0000),
            -0x8000_0000 <= b < 0x8000_0000,
            -0x8000_0000 <= d < 0x8000_0000,
    ;
}

/// A set of messages.
#[derive(Debug)]
pub struct IdSet {
    codes: HashSet<i128>,
}

impl View for IdSet {
    type V = Set<(i64, i32)>;

    closed spec fn view(&self) -> Set<(i64, i32)> {
        Set::new(|p: (i64, i32)| self.codes@.contains(code_of(p.0, p.1) as i128))
    }
}

impl IdSet {
    /// No messages.
    pub fn new() -> (r: IdSet)
        ensures
            r@ == Set::<(i64, i32)>::empty(),
    {
        let r: IdSet = IdSet { codes: HashSet::new() };
        assert(r@ =~= Set::<(i64, i32)>::empty());
        r
    }

    /// Add a message.
    pub fn insert(&mut self, dialog_id: i64, msg_id: i32)
        ensures
            final(self)@ == old(self)@.insert((dialog_id, msg_id)),
    {
        let c: i128 = code(dialog_id, msg_id);
        self.codes.insert(c);
        proof {
            assert forall|p: (i64, i32)| #[trigger] self@.contains(p) <==> old(self)@.insert(
                (dialog_id, msg_id),
            ).contains(p) by {
                if code_of(p.0, p.1) == code_of(dialog_id, msg_id) {
                    lemma_code_unique(p.0, p.1, dialog_id, msg_id);
                }
            }
            assert(self@ =~= old(self)@.insert((dialog_id, msg_id)));
        }
    }

    /// Whether a message is in the set.
    pub fn contains(&self, dialog_id: i64, msg_id: i32) -> (r: bool)
        ensures
            r == self@.contains((dialog_id, msg_id)),
    {
        self.codes.contains(&code(dialog_id, msg_id))
    }
}

/// An index from messages to places.
#[derive(Debug)]
pub struct IdIndex {
    codes: HashMap<i128, usize>,
}

impl View for IdIndex {
    type V = Map<(i64, i32), usize>;

    closed spec fn view(&self) -> Map<(i64, i32), usize> {
        Map::new(
            |p: (i64, i32)| self.codes@.contains_key(code_of(p.0, p.1) as i128),
            |p: (i64, i32)| self.codes@[code_of(p.0, p.1) as i128],
        )
    }
}

impl IdIndex {
    /// No messages.
    pub fn new() -> (r: IdIndex)
        ensures
            r@ == Map::<(i64, i32), usize>::empty(),
    {
        let r: IdIndex = IdIndex { codes: HashMap::new() };
        assert(r@ =~= Map::<(i64, i32), usize>::empty());
        r
    }

    /// Put a message at a place.
    pub fn insert(&mut self, dialog_id: i64, msg_id: i32, place: usize)
        ensures
            final(self)@ == old(self)@.insert((dialog_id, msg_id), place),
    {
        let c: i128 = code(dialog_id, msg_id);
        self.codes.insert(c, place);
        proof {
            let goal = old(self)@.insert((dialog_id, msg_id), place);
            assert forall|p: (i64, i32)|
                #![trigger self@.contains_key(p)]
                self@.contains_key(p) == goal.contains_key(p) && (goal.contains_key(p) ==> self@[p]
                    == goal[p]) by {
                if code_of(p.0, p.1) == code_of(dialog_id, msg_id) {
                    lemma_code_unique(p.0, p.1, dialog_id, msg_id);
                }
            }
            assert(self@ =~= goal);
        }
    }

    /// The place of a message, if it has one.
    pub fn get(&self, dialog_id: i64, msg_id: i32) -> (r: Option<usize>)
        ensures
            r == (if self@.contains_key((dialog_id, msg_id)) {
                Some(self@[(dialog_id, msg_id)])
            } else {
                None
            }),
    {
        match self.codes.get(&code(dialog_id, msg_id)) {
            Some(p) => Some(*p),
            None => None,
        }
    }
}

} // verus!
