use adventure::light_build::{
    light_bindings, light_buffer_sizes, LightBinding, LightBuildState, LightConfig, LIGHT_BINDINGS, POWER_SCALE_BITS,
};

#[test]
fn buffers_have_room_for_every_light() {
    let s = light_buffer_sizes();
    assert_eq!((s.lights, s.candidates, s.alias), (4096 * 32, 4096 * 32, 4096 * 8));
    assert_eq!((s.scaled, s.small, s.large), (4096 * 4, 4096 * 4, 4096 * 4));
    assert_eq!(s.config as usize, std::mem::size_of::<LightConfig>());
    assert_eq!((s.candidate_count, s.power_sum, s.count_staging), (4, 4, 4));
}

#[test]
fn the_pool_is_read_only_and_the_fifth_binding_is_the_uniform() {
    let b = light_bindings();
    assert_eq!(b.len(), LIGHT_BINDINGS);
    for (i, k) in b.iter().enumerate() {
        let want = if i == 4 {
            LightBinding::Uniform
        } else if i <= 3 {
            LightBinding::ReadOnly
        } else {
            LightBinding::ReadWrite
        };
        assert_eq!(*k, want);
    }
}

#[test]
fn passes_are_recorded_only_when_bound() {
    let mut s = LightBuildState::new();
    assert!(s.record(100).is_none());
    s.rebind();
    assert!(s.is_bound());
    let d = s.record(65).unwrap();
    assert_eq!((d.gather, d.write, d.alias), (2, 64, 1));
    assert_eq!(d.config, LightConfig { brick_count: 65, max_lights: 4096, power_scale: 1.0e6f32.to_bits(), _pad: 0 });
    assert_eq!(POWER_SCALE_BITS, 1.0e6f32.to_bits());
    assert_eq!(s.record(0).unwrap().gather, 1);
    assert_eq!(s.record(64).unwrap().gather, 1);
    assert_eq!(s.record(u32::MAX).unwrap().gather, 67_108_864);
    s.unbind();
    assert!(s.record(1).is_none());
}

#[test]
fn the_count_comes_back_a_frame_late_and_capped() {
    let mut s = LightBuildState::new();
    let written = s.staging_slot();
    s.advance_ring();
    assert_eq!(s.poll_slot(), written);
    s.poll_count(None);
    assert_eq!(s.count, 0);
    s.poll_count(Some(300u32.to_le_bytes()));
    assert_eq!(s.count, 300);
    s.poll_count(Some(70_000u32.to_le_bytes()));
    assert_eq!(s.count, 4096);
    s.advance_ring();
    assert_eq!(s.staging_slot(), written);
}
