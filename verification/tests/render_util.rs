use nabla_game::render::util::{hex_code, hit_colour, player_renders_at_bottom, random_hex_code};

#[test]
fn test_local_player_renders_at_the_bottom_online() {
    assert!(player_renders_at_bottom(1, None));
    assert!(!player_renders_at_bottom(2, None));
    assert!(player_renders_at_bottom(2, Some(2)));
    assert!(!player_renders_at_bottom(1, Some(2)));
    assert!(player_renders_at_bottom(1, Some(1)));
}

#[test]
fn test_hex_code_spells_each_nibble() {
    assert_eq!(hex_code(&vec![0, 9, 10, 15, 12, 1]), "09AFC1");
    assert_eq!(hex_code(&vec![]), "");
}

#[test]
fn test_random_hex_code_is_six_upper_case_hex_digits() {
    for _ in 0..50 {
        let code = random_hex_code();
        assert_eq!(code.len(), 6);
        assert!(code.chars().all(|c| c.is_ascii_digit() || ('A'..='F').contains(&c)));
    }
}

#[test]
fn test_hit_colour_prefixes_a_hash() {
    assert_eq!(hit_colour("00FF7A"), "#00FF7A");
}
