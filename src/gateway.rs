//! Resolving the roles of a query's channels into the helpers that play them.
use crate::helpers::{ChannelId, HelperIdentity, Role, RoleAssignment};
use vstd::prelude::*;

verus! {

/// A transport endpoint for one query: the helper it runs on and who plays which role.
#[derive(Clone, Debug)]
pub struct RoleResolvingTransport {
    pub query_id: u64,
    pub roles: RoleAssignment,
    pub identity: HelperIdentity,
}

impl RoleResolvingTransport {
    pub open spec fn wf(&self) -> bool {
        self.roles.wf() && self.identity.wf()
    }

    /// The role this helper plays in the query.
    pub fn role(&self) -> (r: Role)
        requires
            self.wf(),
        ensures
            self.roles.spec_identity(r) == self.identity,
    {
        self.roles.role(self.identity)
    }

    /// The helper at the other end of `channel_id`, which must be another helper's role.
    pub fn peer(&self, channel_id: &ChannelId) -> (r: HelperIdentity)
        requires
            self.wf(),
            self.roles.spec_identity(channel_id.role) != self.identity,
        ensures
            r == self.roles.spec_identity(channel_id.role),
            r != self.identity,
    {
        self.roles.identity(channel_id.role)
    }
}

} // verus!
