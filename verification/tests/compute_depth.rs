use nabla_game::math::util::{ComputeDepth, ComputeDepthGuard, MAX_COMPUTE_DEPTH};

/// how many nested levels can be entered from `depth`
fn deepest(depth: &mut ComputeDepth) -> u32 {
    match ComputeDepthGuard::enter(depth) {
        Some(mut guard) => 1 + deepest(&mut *guard.depth),
        None => 0,
    }
}

#[test]
fn test_a_guard_gives_its_level_back_when_it_goes_out_of_scope() {
    let mut depth = ComputeDepth::new();
    {
        let mut outer = ComputeDepthGuard::enter(&mut depth).unwrap();
        assert_eq!(outer.depth.get(), 1);
        {
            let inner = ComputeDepthGuard::enter(&mut *outer.depth).unwrap();
            assert_eq!(inner.depth.get(), 2);
        }
        assert_eq!(outer.depth.get(), 1);
    }
    assert_eq!(depth.get(), 0);
}

#[test]
fn test_entering_stops_at_the_maximum_depth_and_unwinds_to_zero() {
    let mut depth = ComputeDepth::new();
    assert_eq!(deepest(&mut depth), MAX_COMPUTE_DEPTH);
    assert_eq!(depth.get(), 0);
}
