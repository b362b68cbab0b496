use vstd::prelude::*;

verus! {

/// A participating medium. The library tells media apart by their identity
/// and reads nothing else of them.
pub trait Medium {
    /// The identity of the medium; two media are the same one exactly when
    /// their identities are equal.
    spec fn ident(&self) -> u64;

    fn id(&self) -> (r: u64)
        ensures
            r == self.ident(),
    ;
}

/// The media on the two sides of a surface, each by its identity.
#[derive(Clone, Copy, PartialEq, Eq, Structural, Debug)]
pub struct MediumInterface {
    pub inside: Option<u64>,
    pub outside: Option<u64>,
}

impl MediumInterface {
    /// Both sides are present and name the same medium.
    pub open spec fn same_both_sides(&self) -> bool {
        self.inside is Some && self.outside is Some && self.inside == self.outside
    }

    /// An interface with no medium on either side.
    pub fn new() -> (m: Self)
        ensures
            m == (Self { inside: None, outside: None }),
    {
        Self { inside: None, outside: None }
    }

    /// The interface between the medium `inside` and the medium `outside`.
    pub fn init<M: Medium, N: Medium>(inside: &M, outside: &N) -> (m: Self)
        ensures
            m == (Self { inside: Some(inside.ident()), outside: Some(outside.ident()) }),
    {
        Self { inside: Some(inside.id()), outside: Some(outside.id()) }
    }

    /// The interface of a surface that lies wholly inside `medium`.
    pub fn init_one<M: Medium>(medium: &M) -> (m: Self)
        ensures
            m == (Self { inside: Some(medium.ident()), outside: Some(medium.ident()) }),
            m.same_both_sides(),
    {
        let id = medium.id();
        Self { inside: Some(id), outside: Some(id) }
    }

    /// The interface of a surface that lies wholly inside the medium `id`.
    pub fn init_id(id: u64) -> (m: Self)
        ensures
            m == (Self { inside: Some(id), outside: Some(id) }),
            m.same_both_sides(),
    {
        Self { inside: Some(id), outside: Some(id) }
    }

    /// Whether both sides are present and name the same medium.
    pub fn inside_outside_same(&self) -> (r: bool)
        ensures
            r == self.same_both_sides(),
    {
        if let Some(inside) = self.inside {
            if let Some(outside) = self.outside {
                return inside == outside;
            }
        }
        false
    }

    /// Whether the surface parts two media, or has a side without one.
    pub fn is_medium_transition(&self) -> (r: bool)
        ensures
            r == !self.same_both_sides(),
    {
        !self.inside_outside_same()
    }
}

} // verus!
