//! Normalized pointer events and the set-valued attributes they carry.
//!
//! An event records which button changed state, whether it was pressed or
//! released, which screen edges or corners the pointer was touching, which
//! keyboard modifiers were held, and the shape traced while the button was
//! held, sampled upstream as an ordered sequence of direction angles.
//! Angles are stored in thousandths of a degree; a full circle is
//! `360_000` units.  Edge and modifier collections compare as sets: the
//! order in which they were recorded never matters.

use vstd::prelude::*;

verus! {

/// A physical pointer button.
#[derive(Clone, Copy, Debug, PartialEq, Eq, Structural)]
pub enum Button {
    Left,
    Right,
    Middle,
    Side,
    Extra,
    Forward,
    Back,
    Task,
}

/// The half of a click cycle an event or a binding speaks of.
///
/// `Click` is a wildcard on the binding side: it is satisfied by either the
/// `Press` or the `Release` of the matching button.
#[derive(Clone, Copy, Debug, PartialEq, Eq, Structural)]
pub enum PressState {
    Press,
    Release,
    Click,
}

/// A screen edge or corner the pointer can touch.
#[derive(Clone, Copy, Debug, PartialEq, Eq, Structural)]
pub enum Edge {
    Top,
    Bottom,
    Left,
    Right,
    TopLeft,
    TopRight,
    BottomLeft,
    BottomRight,
}

/// A keyboard modifier that can be held during an event.
#[derive(Clone, Copy, Debug, PartialEq, Eq, Structural)]
pub enum Modifier {
    ShiftLeft,
    ShiftRight,
    ControlLeft,
    ControlRight,
    Alt,
    AltGr,
    MetaLeft,
    MetaRight,
}

/// One normalized pointer event, or the event pattern of a binding.
///
/// `shape` is the ordered angle sequence sampled along the pointer path; it
/// is empty when no shape was traced.  On the binding side the same type
/// holds the configured gesture pattern.
#[derive(Clone, Debug)]
pub struct ClickEvent {
    pub button: Button,
    pub event_type: PressState,
    pub edges: Vec<Edge>,
    pub modifiers: Vec<Modifier>,
    pub shape: Vec<u64>,
}

/// Two edge collections are equal when they hold the same set of edges.
pub open spec fn edge_sets_equal(a: Seq<Edge>, b: Seq<Edge>) -> bool {
    a.to_set() == b.to_set()
}

/// Two modifier collections are equal when they hold the same set of
/// modifiers.
pub open spec fn modifier_sets_equal(a: Seq<Modifier>, b: Seq<Modifier>) -> bool {
    a.to_set() == b.to_set()
}

fn edges_contain(v: &Vec<Edge>, x: Edge) -> (r: bool)
    ensures
        r == v@.contains(x),
{
    let mut i: usize = 0;
    while i < v.len()
        invariant
            i <= v.len(),
            forall|k: int| 0 <= k < i ==> v@[k] != x,
        decreases v.len() - i,
    {
        if v[i] == x {
            return true;
        }
        i = i + 1;
    }
    false
}

fn modifiers_contain(v: &Vec<Modifier>, x: Modifier) -> (r: bool)
    ensures
        r == v@.contains(x),
{
    let mut i: usize = 0;
    while i < v.len()
        invariant
            i <= v.len(),
            forall|k: int| 0 <= k < i ==> v@[k] != x,
        decreases v.len() - i,
    {
        if v[i] == x {
            return true;
        }
        i = i + 1;
    }
    false
}

/// Set equality of two edge collections, ignoring order and duplicates.
pub fn edges_are_equals(a: &Vec<Edge>, b: &Vec<Edge>) -> (r: bool)
    ensures
        r == edge_sets_equal(a@, b@),
{
    let mut i: usize = 0;
    while i < a.len()
        invariant
            i <= a.len(),
            forall|k: int| 0 <= k < i ==> b@.contains(a@[k]),
        decreases a.len() - i,
    {
        if !edges_contain(b, a[i]) {
            proof {
                assert(a@.to_set().contains(a@[i as int]));
                assert(!b@.to_set().contains(a@[i as int]));
            }
            return false;
        }
        i = i + 1;
    }
    let mut j: usize = 0;
    while j < b.len()
        invariant
            j <= b.len(),
            forall|k: int| 0 <= k < a@.len() ==> b@.contains(a@[k]),
            forall|k: int| 0 <= k < j ==> a@.contains(b@[k]),
        decreases b.len() - j,
    {
        if !edges_contain(a, b[j]) {
            proof {
                assert(b@.to_set().contains(b@[j as int]));
                assert(!a@.to_set().contains(b@[j as int]));
            }
            return false;
        }
        j = j + 1;
    }
    proof {
        assert(a@.to_set() =~= b@.to_set());
    }
    true
}

/// Set equality of two modifier collections, ignoring order and duplicates.
pub fn modifiers_are_equals(a: &Vec<Modifier>, b: &Vec<Modifier>) -> (r: bool)
    ensures
        r == modifier_sets_equal(a@, b@),
{
    let mut i: usize = 0;
    while i < a.len()
        invariant
            i <= a.len(),
            forall|k: int| 0 <= k < i ==> b@.contains(a@[k]),
        decreases a.len() - i,
    {
        if !modifiers_contain(b, a[i]) {
            proof {
                assert(a@.to_set().contains(a@[i as int]));
                assert(!b@.to_set().contains(a@[i as int]));
            }
            return false;
        }
        i = i + 1;
    }
    let mut j: usize = 0;
    while j < b.len()
        invariant
            j <= b.len(),
            forall|k: int| 0 <= k < a@.len() ==> b@.contains(a@[k]),
            forall|k: int| 0 <= k < j ==> a@.contains(b@[k]),
        decreases b.len() - j,
    {
        if !modifiers_contain(a, b[j]) {
            proof {
                assert(b@.to_set().contains(b@[j as int]));
                assert(!a@.to_set().contains(b@[j as int]));
            }
            return false;
        }
        j = j + 1;
    }
    proof {
        assert(a@.to_set() =~= b@.to_set());
    }
    true
}

} // verus!
