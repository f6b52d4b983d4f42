use cat_sim::officers::OfficerRole;

#[test]
fn all_lists_every_role_once() {
    assert_eq!(OfficerRole::ALL.len(), 5);
    for role in OfficerRole::ALL.iter() {
        assert_eq!(OfficerRole::ALL.iter().filter(|r| *r == role).count(), 1);
    }
}

#[test]
fn roles_rank_in_canonical_order() {
    for (index, role) in OfficerRole::ALL.iter().enumerate() {
        assert_eq!(role.rank() as usize, index);
    }
    assert_eq!(OfficerRole::Loremaster.debug_name(), "Loremaster");
}
