//! Timewarps: transactions that reference an older transaction of the same
//! issuer across a time gap, and the messages exchanged about them.
use vstd::prelude::*;

verus! {

/// What a web request asks of the selecting component.
#[derive(Clone, Copy, Debug, PartialEq, Eq, Structural)]
pub enum WebRequestType {
    PickedTimewarp,
    UnpinnedLifelife,
}

/// One observed timewarp step: `source_hash` references, through its trunk
/// or its branch, a transaction `distance` seconds older.
pub struct Timewarp {
    pub source_hash: String,
    pub source_branch: String,
    pub source_trunk: String,
    pub source_timestamp: i64,
    /// Tag of the source transaction.
    pub source_tag: String,
    /// Timestamp difference to the referenced transaction.
    pub distance: i64,
    /// `true` when the trunk is the referenced transaction.
    pub trunk_or_branch: bool,
}

impl Timewarp {
    /// The referenced transaction: the trunk or the branch, as the timewarp says.
    pub open spec fn target_spec(&self) -> Seq<char> {
        if self.trunk_or_branch {
            self.source_trunk@
        } else {
            self.source_branch@
        }
    }

    pub fn target_hash(&self) -> (r: &String)
        ensures
            r@ == self.target_spec(),
    {
        if self.trunk_or_branch {
            &self.source_trunk
        } else {
            &self.source_branch
        }
    }

    /// A field-for-field copy.
    pub fn duplicate(&self) -> (r: Timewarp)
        ensures
            r.source_hash@ == self.source_hash@,
            r.source_branch@ == self.source_branch@,
            r.source_trunk@ == self.source_trunk@,
            r.source_timestamp == self.source_timestamp,
            r.source_tag@ == self.source_tag@,
            r.distance == self.distance,
            r.trunk_or_branch == self.trunk_or_branch,
    {
        Timewarp {
            source_hash: self.source_hash.clone(),
            source_branch: self.source_branch.clone(),
            source_trunk: self.source_trunk.clone(),
            source_timestamp: self.source_timestamp,
            source_tag: self.source_tag.clone(),
            distance: self.distance,
            trunk_or_branch: self.trunk_or_branch,
        }
    }
}

} // verus!
