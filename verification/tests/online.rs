use nabla_game::game::cards::{BasisCard, Card, DerivativeCard};
use nabla_game::game::online::{decode_init, on_action_received, parse_clicks, replay_action, OnlineSession};
use nabla_game::events::mousedown_handler::{ClickRoute, ReplayStep, TurnPhase};
use nabla_game::render::util::{parse_render_id, RenderId};

#[test]
fn test_record_click_buffers_normal_clicks_in_order() {
    let mut session = OnlineSession::new(1);
    session.record_click(RenderId::Field0);
    session.record_click(RenderId::PlayerOne3);
    assert_eq!(session.take_outgoing(), vec![RenderId::Field0, RenderId::PlayerOne3]);
}

#[test]
fn test_record_click_excludes_confirm() {
    let mut session = OnlineSession::new(1);
    session.record_click(RenderId::Field0);
    session.record_click(RenderId::Confirm);
    assert_eq!(session.take_outgoing(), vec![RenderId::Field0]);
}

#[test]
fn test_record_click_cancel_discards_the_whole_buffer() {
    let mut session = OnlineSession::new(1);
    session.record_click(RenderId::Field0);
    session.record_click(RenderId::PlayerOne1);
    session.record_click(RenderId::Cancel);
    assert_eq!(session.take_outgoing(), Vec::<RenderId>::new());
}

#[test]
fn test_take_outgoing_clears_the_buffer() {
    let mut session = OnlineSession::new(1);
    session.record_click(RenderId::Field0);
    session.take_outgoing();
    assert_eq!(session.take_outgoing(), Vec::<RenderId>::new());
}

#[test]
fn test_clicks_after_a_cancel_are_buffered_again() {
    let mut session = OnlineSession::new(2);
    session.record_click(RenderId::PlayerTwo0);
    session.record_click(RenderId::Cancel);
    session.record_click(RenderId::PlayerTwo4);
    session.record_click(RenderId::Field5);
    assert_eq!(session.take_outgoing(), vec![RenderId::PlayerTwo4, RenderId::Field5]);
    assert_eq!(session.local_player_num, 2);
    assert!(!session.connected);
}

#[test]
fn test_parse_render_id_reads_back_every_id_string() {
    for id in nabla_game::render::util::all_render_ids() {
        assert_eq!(parse_render_id(id.as_str()), Some(id));
    }
    assert_eq!(parse_render_id("p1=3"), Some(RenderId::PlayerOne3));
    assert_eq!(parse_render_id("x=2"), Some(RenderId::Confirm));
}

#[test]
fn test_parse_render_id_rejects_unknown_strings() {
    assert_eq!(parse_render_id("p3=0"), None);
    assert_eq!(parse_render_id("f=6"), None);
    assert_eq!(parse_render_id(""), None);
    assert_eq!(parse_render_id("f=0 "), None);
}

#[test]
fn test_render_id_kinds_and_key_values() {
    assert!(RenderId::Field3.is_field());
    assert!(!RenderId::Field3.is_player());
    assert!(RenderId::PlayerTwo6.is_player());
    assert!(RenderId::Graveyard1.is_graveyard());
    assert!(!RenderId::Deck.is_field());
    assert_eq!(RenderId::Field3.key_val(), ("f".to_string(), 3));
    assert_eq!(RenderId::PlayerTwo6.key_val(), ("p2".to_string(), 6));
    assert_eq!(RenderId::Multidone.key_val(), ("x".to_string(), 1));
    assert_eq!(RenderId::TurnIndicator.to_string(), "t=0");
    assert_eq!(RenderId::from("g=2".to_string()), RenderId::Graveyard2);
}

#[test]
fn test_decode_init_rejects_any_malformed_part() {
    let deck = vec![0u8, 13];
    let hand = vec![2u8];
    let (d, h1, h2) = decode_init(&deck, &hand, &hand).unwrap();
    assert_eq!(d, vec![Card::BasisCard(BasisCard::Zero), Card::DerivativeCard(DerivativeCard::Integral)]);
    assert_eq!(h1, vec![Card::BasisCard(BasisCard::X)]);
    assert_eq!(h2, h1);
    assert!(decode_init(&deck, &hand, &[99]).is_none());
    assert!(decode_init(&[200], &hand, &hand).is_none());
}

#[test]
fn test_the_remote_player_is_the_other_one() {
    assert_eq!(OnlineSession::new(1).remote_player_num(), 2);
    assert_eq!(OnlineSession::new(2).remote_player_num(), 1);
}

#[test]
fn test_flush_sends_the_buffered_turn_once() {
    let mut session = OnlineSession::new(1);
    assert_eq!(session.flush_outgoing(), None);
    session.record_click(RenderId::PlayerOne2);
    session.record_click(RenderId::Field4);
    session.record_click(RenderId::Confirm);
    assert_eq!(session.flush_outgoing(), Some(vec!["p1=2".to_string(), "f=4".to_string()]));
    assert_eq!(session.flush_outgoing(), None);
}

#[test]
fn test_received_clicks_skip_unrecognised_ids() {
    let clicks = vec!["p2=1".to_string(), "bogus".to_string(), "f=0".to_string(), "x=1".to_string()];
    assert_eq!(parse_clicks(&clicks), vec![RenderId::PlayerTwo1, RenderId::Field0, RenderId::Multidone]);
    assert_eq!(parse_clicks(&vec![]), Vec::<RenderId>::new());
}

#[test]
fn test_received_actions_are_replayed_as_the_remote_players() {
    let clicks = vec!["p1=0".to_string(), "??".to_string(), "f=3".to_string()];
    assert_eq!(on_action_received(&None, &clicks), None);
    assert_eq!(
        on_action_received(&Some(OnlineSession::new(2)), &clicks),
        Some((1, vec![RenderId::PlayerOne0, RenderId::Field3]))
    );
}

#[test]
fn test_a_received_action_is_replayed_as_the_remote_players_turn() {
    let clicks = vec!["p1=2".to_string(), "nonsense".to_string()];
    assert!(replay_action(&None, &clicks).is_none());
    let mut replay = replay_action(&Some(OnlineSession::new(2)), &clicks).unwrap();
    assert_eq!(replay.player_num, 1);
    assert_eq!(replay.step(TurnPhase::IDLE), ReplayStep::Apply(RenderId::PlayerOne2, ClickRoute::PickHandCard(2)));
    assert_eq!(replay.step(TurnPhase::CONFIRM), ReplayStep::Apply(RenderId::Confirm, ClickRoute::ConfirmMove));
    assert_eq!(replay.step(TurnPhase::IDLE), ReplayStep::Done);
}
