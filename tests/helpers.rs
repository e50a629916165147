use ipa_core::gateway::RoleResolvingTransport;
use ipa_core::helpers::Role::{H1, H2, H3};
use ipa_core::helpers::{Direction, HelperIdentity, Role, RoleAssignment, TotalRecords};

fn identity(v: usize) -> HelperIdentity {
    HelperIdentity::try_from_usize(v).unwrap()
}

#[test]
fn peer_works() {
    assert_eq!(Role::H1.peer(Direction::Left), Role::H3);
    assert_eq!(Role::H1.peer(Direction::Right), Role::H2);
    assert_eq!(Role::H3.peer(Direction::Left), Role::H2);
    assert_eq!(Role::H3.peer(Direction::Right), Role::H1);
    assert_eq!(Role::H2.peer(Direction::Left), Role::H1);
    assert_eq!(Role::H2.peer(Direction::Right), Role::H3);
}

#[test]
fn index_works() {
    let data = [3, 4, 5];
    assert_eq!(3, data[Role::H1.index()]);
    assert_eq!(4, data[Role::H2.index()]);
    assert_eq!(5, data[Role::H3.index()]);
}

#[test]
fn basic() {
    let identities = [identity(1), identity(2), identity(3)];
    let assignment = RoleAssignment::new(identities);

    assert_eq!(Role::H1, assignment.role(identity(1)));
    assert_eq!(Role::H2, assignment.role(identity(2)));
    assert_eq!(Role::H3, assignment.role(identity(3)));

    assert_eq!(identity(1), assignment.identity(Role::H1));
    assert_eq!(identity(2), assignment.identity(Role::H2));
    assert_eq!(identity(3), assignment.identity(Role::H3));
}

#[test]
fn reverse() {
    let identities = [identity(3), identity(2), identity(1)];
    let assignment = RoleAssignment::new(identities);

    assert_eq!(Role::H3, assignment.role(identity(1)));
    assert_eq!(Role::H2, assignment.role(identity(2)));
    assert_eq!(Role::H1, assignment.role(identity(3)));

    assert_eq!(identity(3), assignment.identity(Role::H1));
    assert_eq!(identity(2), assignment.identity(Role::H2));
    assert_eq!(identity(1), assignment.identity(Role::H3));
}

#[test]
fn illegal() {

    assert_eq!(
        RoleAssignment::try_from_roles([H1, H1, H3]),
        Err("Role H1 has been assigned twice".to_string()),
    );

    assert_eq!(
        RoleAssignment::try_from_roles([H3, H2, H3]),
        Err("Role H3 has been assigned twice".to_string()),
    );
}

#[test]
fn roles_from_permutation() {
    let a = RoleAssignment::try_from_roles([H2, H3, H1]).unwrap();
    assert_eq!(a.identity(H2), identity(1));
    assert_eq!(a.identity(H3), identity(2));
    assert_eq!(a.identity(H1), identity(3));
    assert_eq!(a.role(identity(3)), H1);
}

#[test]
fn helper_identity_range() {
    assert!(HelperIdentity::try_from_usize(0).is_err());
    assert!(HelperIdentity::try_from_usize(4).is_err());
    assert_eq!(identity(2).id(), 2);
    let others = identity(3).others();
    assert_eq!(others, [identity(1), identity(2)]);
    let others = identity(2).others();
    assert_eq!(others, [identity(3), identity(1)]);
    assert_eq!(HelperIdentity::make_three(), [identity(1), identity(2), identity(3)]);
}

#[test]
fn role_names() {
    assert_eq!(Role::H1.as_static_str(), "H1");
    assert_eq!(Role::H2.as_static_str(), "H2");
    assert_eq!(Role::H3.as_static_str(), "H3");
    assert_eq!(Role::all(), [Role::H1, Role::H2, Role::H3]);
}

#[test]
fn total_records() {
    assert_eq!(TotalRecords::from_usize(0), TotalRecords::Unspecified);
    let t = TotalRecords::from_usize(5);
    assert_eq!(t.count(), Some(5));
    assert!(t.is_last(4));
    assert!(!t.is_last(3));
    assert!(!t.is_unspecified());
    assert!(TotalRecords::Unspecified.is_unspecified());
    assert!(TotalRecords::Indeterminate.is_indeterminate());
    assert_eq!(TotalRecords::Indeterminate.count(), None);
    assert_eq!(t.overwrite(TotalRecords::Indeterminate), TotalRecords::Indeterminate);
    assert_eq!(TotalRecords::Unspecified.overwrite(t), t);
}

#[test]
fn transport_resolves_peers() {
    let roles = RoleAssignment::try_from_roles([H2, H3, H1]).unwrap();
    let t = RoleResolvingTransport { query_id: 7, roles, identity: identity(1) };
    assert_eq!(t.role(), H2);
    let step = ipa_core::context::Gate { path: vec![ipa_core::context::Step::Row(1)] };
    let channel = ipa_core::helpers::ChannelId::new(H1, step);
    assert_eq!(t.peer(&channel), identity(3));
}
