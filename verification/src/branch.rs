//! Branches as they are listed, and branches as the graph shows them.

use crate::oid::Oid;
use vstd::prelude::*;

verus! {

/// Whether a branch belongs to the repository itself or to a remote.
#[derive(Clone, Copy, Debug, PartialEq, Eq, Structural)]
pub enum BranchType {
    Local,
    Remote,
}

/// A branch reference, as a repository lists it.
///
/// `name` is the full name of the reference, `None` where it is not valid UTF-8. `target` is
/// `None` for a symbolic reference.
pub struct Branch {
    pub name: Option<String>,
    pub target: Option<Oid>,
    pub kind: BranchType,
}

/// Branch properties for visualization.
pub struct BranchVis {
    pub order_group: usize,
    pub term_color: u8,
    pub svg_color: String,
    pub column: Option<usize>,
}

/// What a [`BranchVis`] holds.
#[verifier::ext_equal]
pub struct VisState {
    pub order_group: usize,
    pub term_color: u8,
    pub svg_color: Seq<char>,
    pub column: Option<usize>,
}

impl View for BranchVis {
    type V = VisState;

    open spec fn view(&self) -> VisState {
        VisState {
            order_group: self.order_group,
            term_color: self.term_color,
            svg_color: self.svg_color@,
            column: self.column,
        }
    }
}

impl BranchVis {
    /// Properties of a branch that has no column yet.
    pub fn new(order_group: usize, term_color: u8, svg_color: String) -> (vis: Self)
        ensures
            vis.order_group == order_group,
            vis.term_color == term_color,
            vis.svg_color == svg_color,
            vis.column is None,
    {
        BranchVis { order_group, term_color, svg_color, column: None }
    }
}

/// Represents a branch (real or derived from merge summary).
///
/// `range` holds the first and the last position of the branch in the list of commits.
pub struct BranchInfo {
    pub target: Oid,
    pub merge_target: Option<Oid>,
    pub name: String,
    pub persistence: u8,
    pub is_remote: bool,
    pub is_merged: bool,
    pub visual: BranchVis,
    pub deleted: bool,
    pub range: (Option<usize>, Option<usize>),
}

/// What a [`BranchInfo`] holds.
#[verifier::ext_equal]
pub struct BranchState {
    pub target: Oid,
    pub merge_target: Option<Oid>,
    pub name: Seq<char>,
    pub persistence: u8,
    pub is_remote: bool,
    pub is_merged: bool,
    pub visual: VisState,
    pub deleted: bool,
    pub range: (Option<usize>, Option<usize>),
}

impl View for BranchInfo {
    type V = BranchState;

    open spec fn view(&self) -> BranchState {
        BranchState {
            target: self.target,
            merge_target: self.merge_target,
            name: self.name@,
            persistence: self.persistence,
            is_remote: self.is_remote,
            is_merged: self.is_merged,
            visual: self.visual@,
            deleted: self.deleted,
            range: self.range,
        }
    }
}

impl BranchInfo {
    /// A branch that starts at `end_index` and whose last position is not known yet.
    #[allow(clippy::too_many_arguments)]
    pub fn new(
        target: Oid,
        merge_target: Option<Oid>,
        name: String,
        persistence: u8,
        is_remote: bool,
        is_merged: bool,
        visual: BranchVis,
        deleted: bool,
        end_index: Option<usize>,
    ) -> (info: Self)
        ensures
            info == (BranchInfo {
                target,
                merge_target,
                name,
                persistence,
                is_remote,
                is_merged,
                visual,
                deleted,
                range: (end_index, None),
            }),
    {
        BranchInfo {
            target,
            merge_target,
            name,
            persistence,
            is_remote,
            is_merged,
            visual,
            deleted,
            range: (end_index, None),
        }
    }
}

/// What the branches of a list hold, in order.
pub open spec fn branch_states(branches: Seq<BranchInfo>) -> Seq<BranchState> {
    branches.map_values(|branch: BranchInfo| branch@)
}

impl BranchState {
    /// The branch, shown in another column.
    pub open spec fn in_column(self, column: Option<usize>) -> BranchState {
        BranchState { visual: VisState { column, ..self.visual }, ..self }
    }

    /// The branch, spanning other positions.
    pub open spec fn spanning(self, range: (Option<usize>, Option<usize>)) -> BranchState {
        BranchState { range, ..self }
    }
}

} // verus!
