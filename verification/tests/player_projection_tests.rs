use cat_sim::player_projection::{ForbiddenExecutorField, PlayerSurface, MAX_PLAYER_FEEDBACK, PLAYER_PROJECTION_SCHEMA_VERSION};

#[test]
fn every_surface_rejects_every_executor_field() {
    for surface in PlayerSurface::ALL {
        for field in ForbiddenExecutorField::ALL {
            assert!(surface.rejects(field));
        }
    }
    assert_eq!(PlayerSurface::ALL.len(), 9);
    assert_eq!(ForbiddenExecutorField::ALL.len(), 11);
    assert_eq!(PLAYER_PROJECTION_SCHEMA_VERSION, 1);
    assert_eq!(MAX_PLAYER_FEEDBACK, 32);
}
