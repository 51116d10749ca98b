use vstd::prelude::*;

verus! {

/// How prominently an object is shown.
#[derive(Copy, Clone, PartialEq, Eq, Structural)]
pub enum ObjectActivity {
    Active,
    DeEmphasized,
    Hidden,
}

/// A link as shown: it carries no data of its own.
#[derive(Clone, Copy)]
pub struct UiLink {}

/// The shape drawn for a link: it carries no data of its own.
#[derive(Clone, Copy)]
pub struct LinkShape {}

/// One third of the screen along an axis.
#[derive(Clone, Copy, Debug, PartialEq, Eq, Structural)]
pub enum Third {
    First,
    Second,
    Third,
}

/// One of the nine regions of the screen.
#[derive(Clone, Copy, Debug, PartialEq, Eq, Structural)]
pub struct Nineslice {
    pub x: Third,
    pub y: Third,
}

/// The middle region of the screen.
pub open spec fn center_spec() -> Nineslice {
    Nineslice { x: Third::Second, y: Third::Second }
}

impl Nineslice {
    /// The middle region of the screen.
    pub fn center() -> (c: Nineslice)
        ensures
            c == center_spec(),
    {
        Nineslice { x: Third::Second, y: Third::Second }
    }

    pub open spec fn may_connect_spec(self, rhs: Nineslice) -> bool {
        self == center_spec() || rhs == center_spec() || (self.x != rhs.x && self.y != rhs.y)
    }

    /// Whether an edge between objects in these regions may cross the visible middle:
    /// when one of them is in the middle, or they differ along both axes.
    pub fn may_connect_to(self, rhs: Nineslice) -> (b: bool)
        ensures
            b == self.may_connect_spec(rhs),
    {
        self == Nineslice::center() || rhs == Nineslice::center() || (self.x != rhs.x && self.y
            != rhs.y)
    }
}

impl Nineslice {
    /// The region of an object from where the bottom-right corner of its bounding box lies:
    /// left of the screen or not, above it or not. Only the top-left four regions arise.
    pub fn of_corner(left: bool, above: bool) -> (n: Nineslice)
        ensures
            n.x == (if left {
                Third::First
            } else {
                Third::Second
            }),
            n.y == (if above {
                Third::First
            } else {
                Third::Second
            }),
    {
        match (left, above) {
            (true, true) => Nineslice { x: Third::First, y: Third::First },
            (true, false) => Nineslice { x: Third::First, y: Third::Second },
            (false, true) => Nineslice { x: Third::Second, y: Third::First },
            (false, false) => Nineslice { x: Third::Second, y: Third::Second },
        }
    }
}

/// Whether an object is drawn: it is not hidden and lies in the middle region.
pub fn shows_object(activity: ObjectActivity, slice: Nineslice) -> (b: bool)
    ensures
        b == (activity != ObjectActivity::Hidden && slice == center_spec()),
{
    activity != ObjectActivity::Hidden && slice == Nineslice::center()
}

/// Whether a link is drawn: both its ends are active, and their regions may be connected.
pub fn shows_link(
    start: ObjectActivity,
    end: ObjectActivity,
    start_slice: Nineslice,
    end_slice: Nineslice,
) -> (b: bool)
    ensures
        b == (start == ObjectActivity::Active && end == ObjectActivity::Active
            && start_slice.may_connect_spec(end_slice)),
{
    start == ObjectActivity::Active && end == ObjectActivity::Active && start_slice.may_connect_to(
        end_slice,
    )
}

/// Two objects that are both drawn lie in regions that may be connected, so a link
/// between them is drawn when both are active.
pub proof fn lemma_shown_objects_may_connect(start_slice: Nineslice, end_slice: Nineslice)
    requires
        start_slice == center_spec(),
        end_slice == center_spec(),
    ensures
        start_slice.may_connect_spec(end_slice),
{
}

/// Whether two regions may be connected does not depend on the order they are named in.
pub proof fn lemma_may_connect_symmetric(a: Nineslice, b: Nineslice)
    ensures
        a.may_connect_spec(b) == b.may_connect_spec(a),
{
}

/// The middle region may be connected to every region.
pub proof fn lemma_center_connects_to_all(a: Nineslice)
    ensures
        center_spec().may_connect_spec(a),
        a.may_connect_spec(center_spec()),
{
}

} // verus!
