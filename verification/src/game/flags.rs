use vstd::prelude::*;

verus! {

/// the game-rule settings both peers of an online match must share
#[derive(Debug, Clone, Copy, PartialEq, Eq, Structural)]
pub struct GameSettings {
    pub allow_linear_dependence: bool,
    pub allow_limits_beyond_bounds: u8,
    pub inverse_trig_principal_value: u8,
    pub full_compute: bool,
    pub display_ln_for_log: bool,
    pub use_fractional_exponents: bool,
    pub limit_field_basis: bool,
    pub confirm_before_play: bool,
}

/// the settings a fresh game starts with
pub open spec fn spec_default_settings() -> GameSettings {
    GameSettings {
        allow_linear_dependence: false,
        allow_limits_beyond_bounds: 1,
        inverse_trig_principal_value: 0,
        full_compute: false,
        display_ln_for_log: false,
        use_fractional_exponents: true,
        limit_field_basis: true,
        confirm_before_play: false,
    }
}

impl Default for GameSettings {
    fn default() -> (settings: GameSettings)
        ensures
            settings == spec_default_settings(),
    {
        GameSettings {
            allow_linear_dependence: false,
            allow_limits_beyond_bounds: 1,
            inverse_trig_principal_value: 0,
            full_compute: false,
            display_ln_for_log: false,
            use_fractional_exponents: true,
            limit_field_basis: true,
            confirm_before_play: false,
        }
    }
}

/// every game flag: the shared game-rule settings plus the purely local
/// display preference of the live move log
#[derive(Debug, Clone, Copy, PartialEq, Eq, Structural)]
pub struct GameFlags {
    /// used in LaTeX formatting to use LN instead of LOG for the natural logarithm
    pub display_ln_for_log: bool,
    /// allow multiple field Basis with same base but different coefficients
    pub allow_linear_dependence: bool,
    /// allow limits of inverse trigonometric functions beyond the range of the
    /// function: 0 = disabled, 1 = enabled, 2 = range selection mode
    pub allow_limits_beyond_bounds: u8,
    /// principal value selection for inverse trig functions (when mode is 2)
    pub inverse_trig_principal_value: u8,
    /// fully expand all functions (ie. integrals, inverse)
    pub full_compute: bool,
    /// display fractional exponents as a rational number or with nth root notation
    pub use_fractional_exponents: bool,
    /// restrict field to maximum 3 Basis
    pub limit_field_basis: bool,
    /// preview the resulting field before committing to a move
    pub confirm_before_play: bool,
    /// show a live log of which hand card was played on which field slot -- a
    /// display preference only, not part of `GameSettings`
    pub show_move_log: bool,
}

impl GameFlags {
    /// the flags a fresh page starts with
    pub fn new() -> (flags: GameFlags)
        ensures
            flags == (GameFlags {
                display_ln_for_log: false,
                allow_linear_dependence: false,
                allow_limits_beyond_bounds: 1,
                inverse_trig_principal_value: 0,
                full_compute: false,
                use_fractional_exponents: true,
                limit_field_basis: true,
                confirm_before_play: false,
                show_move_log: true,
            }),
            flags.spec_settings() == spec_default_settings(),
    {
        GameFlags {
            display_ln_for_log: false,
            allow_linear_dependence: false,
            allow_limits_beyond_bounds: 1,
            inverse_trig_principal_value: 0,
            full_compute: false,
            use_fractional_exponents: true,
            limit_field_basis: true,
            confirm_before_play: false,
            show_move_log: true,
        }
    }

    /// the shared settings these flags hold
    pub open spec fn spec_settings(self) -> GameSettings {
        GameSettings {
            allow_linear_dependence: self.allow_linear_dependence,
            allow_limits_beyond_bounds: self.allow_limits_beyond_bounds,
            inverse_trig_principal_value: self.inverse_trig_principal_value,
            full_compute: self.full_compute,
            display_ln_for_log: self.display_ln_for_log,
            use_fractional_exponents: self.use_fractional_exponents,
            limit_field_basis: self.limit_field_basis,
            confirm_before_play: self.confirm_before_play,
        }
    }
}

/// applies the settings received for an online game; the local move-log
/// preference is kept
pub fn apply_settings(flags: &mut GameFlags, settings: &GameSettings)
    ensures
        final(flags).spec_settings() == *settings,
        final(flags).show_move_log == old(flags).show_move_log,
{
    flags.allow_linear_dependence = settings.allow_linear_dependence;
    flags.allow_limits_beyond_bounds = settings.allow_limits_beyond_bounds;
    flags.inverse_trig_principal_value = settings.inverse_trig_principal_value;
    flags.full_compute = settings.full_compute;
    flags.display_ln_for_log = settings.display_ln_for_log;
    flags.use_fractional_exponents = settings.use_fractional_exponents;
    flags.limit_field_basis = settings.limit_field_basis;
    flags.confirm_before_play = settings.confirm_before_play;
}


} // verus!
