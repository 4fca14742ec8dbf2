//! The items of a diagram.

use vstd::prelude::*;

verus! {

/// A process of a diagram: what it controls and what it senses.
pub struct Process<I> {
    pub name: I,
    pub controls: Vec<Path<I>>,
    pub senses: Vec<Path<I>>,
}

/// A path between two processes, with the action sent along it and the
/// percept that comes back.
pub struct Path<I> {
    pub name: I,
    pub action: I,
    pub percept: I,
}

/// A request to draw the drawing of a given name.
pub struct Draw<I> {
    pub name: I,
}

/// A drawing: the names of what it shows.
pub struct Drawing<I> {
    pub names: Vec<I>,
}

/// An item of a diagram.
pub enum Item<I> {
    Process(Process<I>),
    Path(Path<I>),
    Draw(Draw<I>),
    Drawing(Drawing<I>),
}

} // verus!
