//! Helper identities, protocol roles and the bookkeeping that pairs them.
use crate::context::Gate;
use vstd::prelude::*;

verus! {

/// Opaque identifier of a helper instance (1, 2 or 3), fixed at startup.
#[derive(Copy, Clone, PartialEq, Eq, Structural, Hash, Debug)]
pub struct HelperIdentity {
    id: u8,
}

impl HelperIdentity {
    pub open spec fn wf(&self) -> bool {
        1 <= self.spec_id() <= 3
    }

    pub closed spec fn spec_id(&self) -> u8 {
        self.id
    }

    /// The identity numbered `value`, which must lie in `1..=3`.
    pub fn try_from_usize(value: usize) -> (r: Result<HelperIdentity, String>)
        ensures
            match r {
                Ok(h) => 1 <= value <= 3 && h.spec_id() == value && h.wf(),
                Err(_) => value == 0 || value > 3,
            },
    {
        if value == 0 || value > 3 {
            Err("helper identity must be within [1, 3] range".to_owned())
        } else {
            Ok(HelperIdentity { id: value as u8 })
        }
    }

    /// The position of this identity in an array indexed by helper: `id - 1`.
    pub fn index(&self) -> (r: usize)
        requires
            self.wf(),
        ensures
            r == self.spec_id() - 1,
    {
        (self.id - 1) as usize
    }

    /// The identity's short name: A, B or C.
    pub fn as_letter(&self) -> (r: &'static str)
        requires
            self.wf(),
        ensures
            self.spec_id() == 1 ==> r@ == "A"@,
            self.spec_id() == 2 ==> r@ == "B"@,
            self.spec_id() == 3 ==> r@ == "C"@,
    {
        if self.id == 1 {
            "A"
        } else if self.id == 2 {
            "B"
        } else {
            "C"
        }
    }

    /// The number of this identity.
    pub fn id(&self) -> (r: u8)
        ensures
            r == self.spec_id(),
    {
        self.id
    }

    /// The identities of the other two helpers, in cyclic order after this one.
    pub fn others(&self) -> (r: [HelperIdentity; 2])
        requires
            self.wf(),
        ensures
            r[0].wf() && r[1].wf(),
            r[0].spec_id() == (self.spec_id() % 3) + 1,
            r[1].spec_id() == ((self.spec_id() + 1) % 3) + 1,
    {
        if self.id == 1 {
            [HelperIdentity { id: 2 }, HelperIdentity { id: 3 }]
        } else if self.id == 2 {
            [HelperIdentity { id: 3 }, HelperIdentity { id: 1 }]
        } else {
            [HelperIdentity { id: 1 }, HelperIdentity { id: 2 }]
        }
    }

    /// The three identities, in order.
    pub fn make_three() -> (r: [HelperIdentity; 3])
        ensures
            r[0].spec_id() == 1 && r[1].spec_id() == 2 && r[2].spec_id() == 3,
            r[0].wf() && r[1].wf() && r[2].wf(),
    {
        [HelperIdentity { id: 1 }, HelperIdentity { id: 2 }, HelperIdentity { id: 3 }]
    }
}

/// The position a helper takes inside one query's circuit.
#[derive(Copy, Clone, PartialEq, Eq, Structural, Hash, Debug)]
pub enum Role {
    H1,
    H2,
    H3,
}

/// Which neighbour a message goes to or comes from.
#[derive(Copy, Clone, PartialEq, Eq, Structural, Debug)]
pub enum Direction {
    Left,
    Right,
}

/// Position of a role in `0..3`.
pub open spec fn role_index(r: Role) -> int {
    match r {
        Role::H1 => 0,
        Role::H2 => 1,
        Role::H3 => 2,
    }
}

/// The role at position `i` (taken modulo 3).
pub open spec fn role_at(i: int) -> Role {
    let j = i % 3;
    if j == 0 {
        Role::H1
    } else if j == 1 {
        Role::H2
    } else {
        Role::H3
    }
}

pub open spec fn role_name(r: Role) -> Seq<char> {
    match r {
        Role::H1 => "H1"@,
        Role::H2 => "H2"@,
        Role::H3 => "H3"@,
    }
}

impl AsRef<str> for Role {
    fn as_ref(&self) -> &str {
        self.as_static_str()
    }
}

impl Role {
    /// All roles, in circuit order.
    pub fn all() -> (r: [Role; 3])
        ensures
            r[0] == Role::H1 && r[1] == Role::H2 && r[2] == Role::H3,
    {
        [Role::H1, Role::H2, Role::H3]
    }

    /// Position of this role in `0..3`.
    pub fn index(&self) -> (r: usize)
        ensures
            r == role_index(*self),
    {
        match self {
            Role::H1 => 0,
            Role::H2 => 1,
            Role::H3 => 2,
        }
    }

    /// The role of the peer found in `direction`: right is the next role, left the previous.
    pub fn peer(&self, direction: Direction) -> (r: Role)
        ensures
            direction == Direction::Right ==> r == role_at(role_index(*self) + 1int),
            direction == Direction::Left ==> r == role_at(role_index(*self) + 2int),
    {
        match (self, direction) {
            (Role::H1, Direction::Left) | (Role::H2, Direction::Right) => Role::H3,
            (Role::H1, Direction::Right) | (Role::H3, Direction::Left) => Role::H2,
            (Role::H3, Direction::Right) | (Role::H2, Direction::Left) => Role::H1,
        }
    }

    /// The role's wire name.
    pub fn as_static_str(&self) -> (r: &'static str)
        ensures
            r@ == role_name(*self),
    {
        match self {
            Role::H1 => "H1",
            Role::H2 => "H2",
            Role::H3 => "H3",
        }
    }
}

} // verus!

verus! {

/// Which helper identity plays each role in one query: `helper_roles[i]` plays role `i`.
#[derive(Clone, Debug, PartialEq, Eq)]
pub struct RoleAssignment {
    helper_roles: [HelperIdentity; 3],
}

impl RoleAssignment {
    pub closed spec fn spec_identity(&self, r: Role) -> HelperIdentity {
        self.helper_roles[role_index(r)]
    }

    /// Each identity appears exactly once.
    pub open spec fn wf(&self) -> bool {
        &&& forall|r: Role| #[trigger] self.spec_identity(r).wf()
        &&& forall|r: Role, s: Role|
            #[trigger] self.spec_identity(r) == #[trigger] self.spec_identity(s) ==> r == s
        &&& forall|id: HelperIdentity|
            id.wf() ==> exists|r: Role| #[trigger] self.spec_identity(r) == id
    }

    pub fn new(helper_roles: [HelperIdentity; 3]) -> (r: RoleAssignment)
        ensures
            r.spec_identity(Role::H1) == helper_roles[0],
            r.spec_identity(Role::H2) == helper_roles[1],
            r.spec_identity(Role::H3) == helper_roles[2],
    {
        RoleAssignment { helper_roles }
    }

    /// The role assigned to helper `id`.
    pub fn role(&self, id: HelperIdentity) -> (r: Role)
        requires
            exists|x: Role| #[trigger] self.spec_identity(x) == id,
        ensures
            self.spec_identity(r) == id,
            self.spec_identity(Role::H1) == id ==> r == Role::H1,
            self.spec_identity(Role::H1) != id && self.spec_identity(Role::H2) == id ==> r
                == Role::H2,
            self.spec_identity(Role::H1) != id && self.spec_identity(Role::H2) != id ==> r
                == Role::H3,
    {
        if self.helper_roles[0] == id {
            Role::H1
        } else if self.helper_roles[1] == id {
            Role::H2
        } else {
            proof {
                let x = choose|x: Role| #[trigger] self.spec_identity(x) == id;
                assert(self.spec_identity(x) == id);
            }
            Role::H3
        }
    }

    /// The helper that plays `role`.
    pub fn identity(&self, role: Role) -> (r: HelperIdentity)
        ensures
            r == self.spec_identity(role),
    {
        self.helper_roles[role.index()]
    }

    /// Assigns each pair's role to its helper; a role given twice is refused, naming the first
    /// role found to repeat.
    pub fn try_from_pairs(pairs: [(HelperIdentity, Role); 3]) -> (r: Result<RoleAssignment, String>)
        ensures
            match r {
                Ok(a) => {
                    &&& pairs[0].1 != pairs[1].1 && pairs[1].1 != pairs[2].1 && pairs[0].1 != pairs[2].1
                    &&& a.spec_identity(pairs[0].1) == pairs[0].0
                    &&& a.spec_identity(pairs[1].1) == pairs[1].0
                    &&& a.spec_identity(pairs[2].1) == pairs[2].0
                },
                Err(msg) => {
                    let dup = if pairs[0].1 == pairs[1].1 || pairs[0].1 == pairs[2].1 {
                        pairs[0].1
                    } else {
                        pairs[1].1
                    };
                    &&& (pairs[0].1 == pairs[1].1 || pairs[1].1 == pairs[2].1 || pairs[0].1 == pairs[2].1)
                    &&& msg@ == "Role "@ + role_name(dup) + " has been assigned twice"@
                },
            },
    {
        let (r0, r1, r2) = (pairs[0].1, pairs[1].1, pairs[2].1);
        let dup = if r0 == r1 || r0 == r2 {
            Some(r0)
        } else if r1 == r2 {
            Some(r1)
        } else {
            None
        };
        match dup {
            Some(role) => {
                let msg = match role {
                    Role::H1 => "Role H1 has been assigned twice".to_owned(),
                    Role::H2 => "Role H2 has been assigned twice".to_owned(),
                    Role::H3 => "Role H3 has been assigned twice".to_owned(),
                };
                proof {
                    reveal_strlit("Role H1 has been assigned twice");
                    reveal_strlit("Role H2 has been assigned twice");
                    reveal_strlit("Role H3 has been assigned twice");
                    reveal_strlit("Role ");
                    reveal_strlit(" has been assigned twice");
                    reveal_strlit("H1");
                    reveal_strlit("H2");
                    reveal_strlit("H3");
                    assert(msg@ =~= "Role "@ + role_name(role) + " has been assigned twice"@);
                }
                Err(msg)
            },
            None => {
                let mut ids = [pairs[0].0, pairs[0].0, pairs[0].0];
                ids[r0.index()] = pairs[0].0;
                ids[r1.index()] = pairs[1].0;
                ids[r2.index()] = pairs[2].0;
                Ok(RoleAssignment { helper_roles: ids })
            },
        }
    }

    /// Assigns role `roles[i]` to helper `i + 1`; a role given twice is refused.
    pub fn try_from_roles(roles: [Role; 3]) -> (r: Result<RoleAssignment, String>)
        ensures
            match r {
                Ok(a) => {
                    &&& roles[0] != roles[1] && roles[1] != roles[2] && roles[0] != roles[2]
                    &&& a.spec_identity(roles[0]).spec_id() == 1
                    &&& a.spec_identity(roles[1]).spec_id() == 2
                    &&& a.spec_identity(roles[2]).spec_id() == 3
                    &&& a.wf()
                },
                Err(msg) => {
                    let dup = if roles[0] == roles[1] || roles[0] == roles[2] {
                        roles[0]
                    } else {
                        roles[1]
                    };
                    &&& (roles[0] == roles[1] || roles[1] == roles[2] || roles[0] == roles[2])
                    &&& msg@ == "Role "@ + role_name(dup) + " has been assigned twice"@
                },
            },
    {
        let r = RoleAssignment::try_from_pairs(
            [
                (HelperIdentity { id: 1 }, roles[0]),
                (HelperIdentity { id: 2 }, roles[1]),
                (HelperIdentity { id: 3 }, roles[2]),
            ],
        );
        proof {
            if r is Ok {
                let a = r->Ok_0;
                assert forall|r: Role| #[trigger] a.spec_identity(r).wf() by {
                    assert(r == roles[0] || r == roles[1] || r == roles[2]);
                }
                assert forall|id: HelperIdentity| id.wf() implies exists|r: Role|
                    #[trigger] a.spec_identity(r) == id by {
                    if id.spec_id() == 1 {
                        assert(a.spec_identity(roles[0]) == id);
                    } else if id.spec_id() == 2 {
                        assert(a.spec_identity(roles[1]) == id);
                    } else {
                        assert(a.spec_identity(roles[2]) == id);
                    }
                }
            }
        }
        r
    }
}

/// A role and a step: one channel of communication between two helpers.
#[derive(Clone, Debug, PartialEq, Eq)]
pub struct ChannelId {
    pub role: Role,
    pub step: Gate,
}

impl ChannelId {
    pub fn new(role: Role, step: Gate) -> (r: ChannelId)
        ensures
            r.role == role,
            r.step == step,
    {
        ChannelId { role, step }
    }
}

/// Values that helpers send one another: each has a fixed-width byte form.
pub trait Message: Sized {
    /// Number of bytes of the serialized form.
    fn size() -> usize;
}

/// How many records a step will carry.
#[derive(Clone, Copy, Debug, PartialEq, Eq, Structural)]
pub enum TotalRecords {
    Unspecified,
    /// A known, positive count.
    Specified(usize),
    /// The count is not known in advance.
    Indeterminate,
}

/// The record count that `n` stands for: zero leaves it unspecified.
pub open spec fn total_records_of(n: usize) -> TotalRecords {
    if n == 0 {
        TotalRecords::Unspecified
    } else {
        TotalRecords::Specified(n)
    }
}

impl From<usize> for TotalRecords {
    fn from(value: usize) -> (r: TotalRecords) {
        TotalRecords::from_usize(value)
    }
}

impl vstd::std_specs::convert::FromSpecImpl<usize> for TotalRecords {
    open spec fn obeys_from_spec() -> bool {
        true
    }

    open spec fn from_spec(v: usize) -> TotalRecords {
        total_records_of(v)
    }
}

impl TotalRecords {
    pub open spec fn wf(&self) -> bool {
        match self {
            TotalRecords::Specified(n) => *n > 0,
            _ => true,
        }
    }

    /// `Specified(n)` for a positive `n`, `Unspecified` for zero.
    pub fn from_usize(value: usize) -> (r: TotalRecords)
        ensures
            r.wf(),
            r == total_records_of(value),
    {
        if value == 0 {
            TotalRecords::Unspecified
        } else {
            TotalRecords::Specified(value)
        }
    }

    pub fn is_unspecified(&self) -> (r: bool)
        ensures
            r == (*self == TotalRecords::Unspecified),
    {
        matches!(self, TotalRecords::Unspecified)
    }

    pub fn is_indeterminate(&self) -> (r: bool)
        ensures
            r == (*self == TotalRecords::Indeterminate),
    {
        matches!(self, TotalRecords::Indeterminate)
    }

    pub fn count(&self) -> (r: Option<usize>)
        ensures
            match *self {
                TotalRecords::Specified(n) => r == Some(n),
                _ => r.is_none(),
            },
    {
        match self {
            TotalRecords::Specified(v) => Some(*v),
            _ => None,
        }
    }

    /// Whether `record_id` is the final record of a step whose count is known.
    pub fn is_last(&self, record_id: u32) -> (r: bool)
        requires
            self.wf(),
        ensures
            r == match *self {
                TotalRecords::Specified(n) => record_id == n - 1,
                _ => false,
            },
    {
        match self {
            TotalRecords::Specified(v) => record_id as usize == *v - 1,
            _ => false,
        }
    }

    /// Whether `overwrite` accepts going from `self` to `value`.
    pub open spec fn can_overwrite(&self, value: TotalRecords) -> bool {
        match (*self, value) {
            (TotalRecords::Unspecified, _) => true,
            (TotalRecords::Specified(_), TotalRecords::Indeterminate) => true,
            _ => false,
        }
    }

    /// Any value replaces an unspecified count; a specified count may only become indeterminate.
    pub fn overwrite(&self, value: TotalRecords) -> (r: TotalRecords)
        requires
            self.can_overwrite(value),
        ensures
            r == value,
    {
        value
    }
}

} // verus!
