//! The annotations the analysis produces.

use vstd::prelude::*;

verus! {

/// Where an annotation is shown.
#[derive(Clone, Copy, PartialEq, Eq, Structural, Debug)]
pub struct HintPosition {
    pub line: u32,
    pub character: u32,
}

/// What an annotation describes.
#[derive(Clone, Copy, PartialEq, Eq, Structural, Debug)]
pub enum HintKind {
    /// The type of an expression.
    Type,
    /// The name of the parameter that an argument is passed for.
    Parameter,
}

/// One annotation: a label shown at a position.
#[derive(Clone, PartialEq, Eq, Debug)]
pub struct Hint {
    pub position: HintPosition,
    pub label: String,
    pub kind: HintKind,
}

/// What contracts say of a [`Hint`].
pub struct HintView {
    pub position: HintPosition,
    pub label: Seq<char>,
    pub kind: HintKind,
}

impl View for Hint {
    type V = HintView;

    open spec fn view(&self) -> HintView {
        HintView { position: self.position, label: self.label@, kind: self.kind }
    }
}

/// The views of a list of hints, in order.
pub open spec fn hint_views(hints: Seq<Hint>) -> Seq<HintView> {
    hints.map_values(|h: Hint| h@)
}

} // verus!
