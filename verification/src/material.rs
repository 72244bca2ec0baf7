use vstd::prelude::*;

verus! {

/// How a pixel of some material moves.
#[derive(Clone, Copy, PartialEq, Eq, Structural, Debug)]
pub enum PhysicsType {
    Air,
    Solid,
    Sand,
    Liquid,
    Gas,
    Object,
}

/// A kind of material, with its numeric id and display name.
pub struct Material<'a> {
    pub id: u16,
    pub name: &'a str,
}

/// The material of empty space.
pub fn air_material() -> (m: Material<'static>)
    ensures
        m.id == 0,
{
    Material { id: 0, name: "Air" }
}

/// The material that the test generator fills the world with.
pub fn test_material() -> (m: Material<'static>)
    ensures
        m.id == 1,
{
    Material { id: 1, name: "Test Material" }
}

/// An RGBA color, one byte per channel.
#[derive(Clone, Copy, PartialEq, Eq, Structural, Debug)]
pub struct Color {
    pub r: u8,
    pub g: u8,
    pub b: u8,
    pub a: u8,
}

impl Color {
    pub fn rgba(r: u8, g: u8, b: u8, a: u8) -> (c: Color)
        ensures
            c == (Color { r, g, b, a }),
    {
        Color { r, g, b, a }
    }

    pub fn rgb(r: u8, g: u8, b: u8) -> (c: Color)
        ensures
            c == (Color { r, g, b, a: 255 }),
    {
        Color { r, g, b, a: 255 }
    }
}

/// Where a flying particle is with respect to objects: just spawned, inside
/// one, or out of all of them.
#[derive(Clone, Copy, Debug, PartialEq, Eq, Structural)]
pub enum InObjectState {
    FirstFrame,
    Inside,
    Outside,
}

/// The state of a particle after touching a non-air pixel of the given kind:
/// a particle spawned inside an object stays "inside" while it only touches
/// objects; anything else puts it outside for good.
pub open spec fn spec_after_touching(s: InObjectState, physics: PhysicsType) -> InObjectState {
    if physics == PhysicsType::Air {
        InObjectState::Outside
    } else {
        match s {
            InObjectState::FirstFrame => if physics == PhysicsType::Object {
                InObjectState::Inside
            } else {
                InObjectState::Outside
            },
            InObjectState::Inside => if physics != PhysicsType::Object {
                InObjectState::Outside
            } else {
                InObjectState::Inside
            },
            InObjectState::Outside => InObjectState::Outside,
        }
    }
}

impl InObjectState {
    /// The state of a particle after it moves onto a pixel of the given kind.
    pub fn after_touching(self, physics: PhysicsType) -> (r: Self)
        ensures
            r == spec_after_touching(self, physics),
    {
        if physics == PhysicsType::Air {
            InObjectState::Outside
        } else {
            let is_object = physics == PhysicsType::Object;
            match self {
                InObjectState::FirstFrame => if is_object {
                    InObjectState::Inside
                } else {
                    InObjectState::Outside
                },
                InObjectState::Inside => if !is_object {
                    InObjectState::Outside
                } else {
                    InObjectState::Inside
                },
                InObjectState::Outside => InObjectState::Outside,
            }
        }
    }

    /// Whether a particle in this state, having touched a non-air pixel of
    /// the given kind, comes to rest there (it passes through objects it
    /// spawned inside).
    pub fn settles_on(self, physics: PhysicsType) -> (r: bool)
        ensures
            r == (physics != PhysicsType::Object || self == InObjectState::Outside),
    {
        physics != PhysicsType::Object || self == InObjectState::Outside
    }
}

/// Once outside, a particle stays outside.
pub proof fn lemma_outside_is_final(physics: PhysicsType)
    ensures
        spec_after_touching(InObjectState::Outside, physics) == InObjectState::Outside,
{
}

/// One pixel of the world: which material it is, how it moves, and its color.
#[derive(Clone, Copy, PartialEq, Eq, Structural, Debug)]
pub struct MaterialInstance {
    pub material_id: u16,
    pub physics: PhysicsType,
    pub color: Color,
}

/// The empty pixel.
pub open spec fn spec_air() -> MaterialInstance {
    MaterialInstance {
        material_id: 0,
        physics: PhysicsType::Air,
        color: Color { r: 0, g: 0, b: 0, a: 0 },
    }
}

impl MaterialInstance {
    pub fn new(material_id: u16, physics: PhysicsType, color: Color) -> (m: Self)
        ensures
            m == (MaterialInstance { material_id, physics, color }),
    {
        MaterialInstance { material_id, physics, color }
    }

    /// An empty pixel: the air material, fully transparent.
    pub fn air() -> (m: Self)
        ensures
            m == spec_air(),
    {
        MaterialInstance {
            material_id: air_material().id,
            physics: PhysicsType::Air,
            color: Color::rgba(0, 0, 0, 0),
        }
    }
}

impl Default for MaterialInstance {
    fn default() -> (m: Self)
        ensures
            m == spec_air(),
    {
        Self::air()
    }
}

} // verus!
