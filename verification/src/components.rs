//! Components attached to entities: grid position, render data, and the tag
//! and colour components that classify entities for movement and goal checks.

use vstd::prelude::*;

verus! {

/// A grid position. `x` and `y` are grid coordinates; `z` is the render depth
/// layer, used only for draw ordering.
#[derive(Debug, Clone, Copy, PartialEq, Eq, Structural)]
pub struct Position {
    pub x: u8,
    pub y: u8,
    pub z: u8,
}

/// The images an entity is drawn with: one path means a static sprite,
/// two or more mean an animated sprite cycling through the paths over time.
///
/// A `Renderable` with no paths is a construction-time error, ruled out by the
/// constructors' preconditions; `wf` records that every properly constructed
/// value is non-empty.
#[derive(Debug, Clone)]
pub struct Renderable {
    pub paths: Vec<String>,
}

/// Whether a renderable holds a single fixed image or an animated cycle.
#[derive(Debug, Clone, Copy, PartialEq, Eq, Structural)]
pub enum RenderableKind {
    Static,
    Animated,
}

impl Renderable {
    /// A renderable is well formed when it has at least one image path.
    pub open spec fn wf(self) -> bool {
        self.paths@.len() >= 1
    }

    pub fn new_static(path: String) -> (r: Self)
        ensures
            r.wf(),
            r.paths@.len() == 1,
            r.paths@[0]@ == path@,
    {
        Self { paths: vec![path] }
    }

    pub fn new_animated(paths: Vec<String>) -> (r: Self)
        requires
            paths@.len() >= 1,
        ensures
            r.wf(),
            r.paths@ == paths@,
    {
        Self { paths }
    }

    pub fn kind(&self) -> (r: RenderableKind)
        requires
            self.wf(),
        ensures
            r == (if self.paths@.len() == 1 {
                RenderableKind::Static
            } else {
                RenderableKind::Animated
            }),
    {
        if self.paths.len() == 1 {
            RenderableKind::Static
        } else {
            RenderableKind::Animated
        }
    }

    pub fn path(&self, path_index: usize) -> (r: String)
        requires
            self.wf(),
        ensures
            r@ == self.paths@[path_index as int % self.paths@.len() as int]@,
    {
        let i = path_index % self.paths.len();
        self.paths[i].clone()
    }
}

/// Tag: the entity blocks every push attempting to enter its cell.
#[derive(Debug, Clone, Copy)]
pub struct Wall {}

/// Tag: the entity originates all movement attempts; exactly one entity
/// carries it in a well-formed world.
#[derive(Debug, Clone, Copy)]
pub struct Player {}

/// Colour of a box or of a goal spot; goal checking compares them by value.
#[derive(Debug, Clone, Copy, PartialEq, Eq, Structural)]
pub enum BoxColour {
    Red,
    Blue,
    Grey,
}

impl BoxColour {
    /// The colour's lower-case display name.
    pub fn name(&self) -> (r: String)
        ensures
            self == BoxColour::Red ==> r@ == "red"@,
            self == BoxColour::Blue ==> r@ == "blue"@,
            self == BoxColour::Grey ==> r@ == "grey"@,
    {
        match self {
            BoxColour::Red => "red".to_string(),
            BoxColour::Blue => "blue".to_string(),
            BoxColour::Grey => "grey".to_string(),
        }
    }
}

/// A pushable box; an entity carrying `Box` is also `Movable`.
#[derive(Debug, Clone, Copy)]
pub struct Box {
    pub colour: BoxColour,
}

/// A goal spot; a box of the matching colour placed on it satisfies the goal.
#[derive(Debug, Clone, Copy)]
pub struct BoxSpot {
    pub colour: BoxColour,
}

/// Tag: the entity can be pushed.
#[derive(Debug, Clone, Copy, Default)]
pub struct Movable;

/// Tag: the entity blocks pushes; never combined with `Movable`.
#[derive(Debug, Clone, Copy, Default)]
pub struct Immovable;

} // verus!
