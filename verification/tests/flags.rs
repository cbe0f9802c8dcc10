use nabla_game::game::flags::{apply_settings, GameFlags, GameSettings};
use nabla_game::render::anim::AnimAttribute;

#[test]
fn test_default_settings() {
    let settings = GameSettings::default();
    assert!(!settings.allow_linear_dependence);
    assert_eq!(settings.allow_limits_beyond_bounds, 1);
    assert_eq!(settings.inverse_trig_principal_value, 0);
    assert!(!settings.full_compute);
    assert!(!settings.display_ln_for_log);
    assert!(settings.use_fractional_exponents);
    assert!(settings.limit_field_basis);
    assert!(!settings.confirm_before_play);
}

#[test]
fn test_apply_settings_copies_every_shared_flag_and_keeps_the_move_log_preference() {
    let mut flags = GameFlags::new();
    flags.show_move_log = false;
    let settings = GameSettings {
        allow_linear_dependence: true,
        allow_limits_beyond_bounds: 2,
        inverse_trig_principal_value: 1,
        full_compute: true,
        display_ln_for_log: true,
        use_fractional_exponents: false,
        limit_field_basis: false,
        confirm_before_play: true,
    };
    apply_settings(&mut flags, &settings);
    assert!(flags.allow_linear_dependence);
    assert_eq!(flags.allow_limits_beyond_bounds, 2);
    assert_eq!(flags.inverse_trig_principal_value, 1);
    assert!(flags.full_compute);
    assert!(flags.display_ln_for_log);
    assert!(!flags.use_fractional_exponents);
    assert!(!flags.limit_field_basis);
    assert!(flags.confirm_before_play);
    assert!(!flags.show_move_log);
}

#[test]
fn test_anim_attribute_names() {
    assert_eq!(AnimAttribute::X.to_string(), "X");
    assert_eq!(AnimAttribute::Y.to_string(), "Y");
    assert_eq!(AnimAttribute::W.to_string(), "W");
    assert_eq!(AnimAttribute::H.to_string(), "H");
    assert_eq!(AnimAttribute::R.to_string(), "R");
}
