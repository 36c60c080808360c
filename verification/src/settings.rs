//! The settings that shape a graph.

use crate::branch::BranchType;
use regex::Regex;
use vstd::prelude::*;

verus! {

/// In which order branches are given columns. The flag says whether positions are taken from the
/// first commit to the last.
#[derive(Clone, Copy, Debug, PartialEq, Eq, Structural)]
pub enum BranchOrder {
    ShortestFirst(bool),
    LongestFirst(bool),
    FirstComeFirstServed(bool),
}

/// How branches are ranked, grouped and coloured.
///
/// A terminal colour stands here as the code that its name resolves to, or as the message that
/// says why it resolves to none.
pub struct BranchSettings {
    pub persistence: Vec<Regex>,
    pub order: Vec<Regex>,
    pub terminal_colors: Vec<(Regex, Vec<Result<u8, String>>)>,
    pub terminal_colors_unknown: Vec<Result<u8, String>>,
    pub svg_colors: Vec<(Regex, Vec<String>)>,
    pub svg_colors_unknown: Vec<String>,
}

/// The settings of a graph.
pub struct Settings {
    pub include_remote: bool,
    pub branch_order: BranchOrder,
    pub branches: BranchSettings,
}

impl Settings {
    /// The type of branches to list, `None` for all.
    pub fn branch_filter(&self) -> (filter: Option<BranchType>)
        ensures
            filter == (if self.include_remote {
                None
            } else {
                Some(BranchType::Local)
            }),
    {
        if self.include_remote {
            None
        } else {
            Some(BranchType::Local)
        }
    }
}

} // verus!
