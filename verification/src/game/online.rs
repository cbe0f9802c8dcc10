use vstd::prelude::*;

use super::card_encoding::{all_bytes_known, bytes_to_cards, spec_bytes_to_cards};
use super::cards::Card;
use super::ai::spec_opponent_of;
use crate::render::util::{parse_render_id, spec_render_id_string, RenderId};
use crate::events::mousedown_handler::Replay;

verus! {

/// online-match session state: which player this browser is, whether the peer
/// is connected, and the clicks made so far during the local player's current
/// turn, to be sent as one `action` message once the turn completes
#[derive(Debug)]
pub struct OnlineSession {
    pub local_player_num: u32,
    pub connected: bool,
    outgoing_buffer: Vec<RenderId>,
}

/// the `action` message of a finished turn: the id strings of the buffered
/// clicks, nothing when none was buffered
pub open spec fn spec_action_message(buffer: Seq<RenderId>) -> Option<Seq<Seq<char>>> {
    if buffer.len() == 0 {
        None
    } else {
        Some(buffer.map_values(|id: RenderId| spec_render_id_string(id)))
    }
}

/// what a click does to the buffer of the turn in progress: Confirm is never
/// buffered (it's a pure local commit), Cancel discards whatever was buffered
/// (nothing was actually committed), every other click is appended
pub open spec fn spec_record_click(buffer: Seq<RenderId>, id: RenderId) -> Seq<RenderId> {
    match id {
        RenderId::Confirm => buffer,
        RenderId::Cancel => Seq::empty(),
        _ => buffer.push(id),
    }
}

impl View for OnlineSession {
    /// (local player number, connected, clicks buffered so far)
    type V = (u32, bool, Seq<RenderId>);

    closed spec fn view(&self) -> (u32, bool, Seq<RenderId>) {
        (self.local_player_num, self.connected, self.outgoing_buffer@)
    }
}

impl OnlineSession {

    /// a fresh, not yet connected session playing as `local_player_num`
    pub fn new(local_player_num: u32) -> (session: OnlineSession)
        ensures
            session@ == (local_player_num, false, Seq::<RenderId>::empty()),
    {
        OnlineSession { local_player_num, connected: false, outgoing_buffer: Vec::new() }
    }

    /// records one click of the local player's turn
    pub fn record_click(&mut self, id: RenderId)
        ensures
            final(self)@ == (old(self)@.0, old(self)@.1, spec_record_click(old(self)@.2, id)),
    {
        match id {
            RenderId::Confirm => {},
            RenderId::Cancel => self.outgoing_buffer.clear(),
            _ => self.outgoing_buffer.push(id),
        }
    }

    /// the player number this browser plays as
    pub fn local_player(&self) -> (local: u32)
        ensures
            local == self@.0,
    {
        self.local_player_num
    }

    /// the player number of the peer: whoever this browser is not
    pub fn remote_player_num(&self) -> (remote: u32)
        ensures
            remote == spec_opponent_of(self@.0),
    {
        if self.local_player_num == 1 {
            2
        } else {
            1
        }
    }

    /// the `action` message for the turn that just completed: the buffered
    /// clicks as id strings, `None` when nothing was buffered (eg. the turn was
    /// the remote player's, whose clicks are never buffered locally); the
    /// buffer is emptied either way
    pub fn flush_outgoing(&mut self) -> (message: Option<Vec<String>>)
        ensures
            final(self)@ == (old(self)@.0, old(self)@.1, Seq::<RenderId>::empty()),
            match spec_action_message(old(self)@.2) {
                Some(m) => message matches Some(v) && v@.map_values(|s: String| s@) == m,
                None => message is None,
            },
    {
        let clicks = self.take_outgoing();
        if clicks.len() == 0 {
            return None;
        }
        let mut strings: Vec<String> = Vec::new();
        let mut k: usize = 0;
        while k < clicks.len()
            invariant
                k <= clicks@.len(),
                strings@.len() == k,
                strings@.map_values(|s: String| s@) == clicks@.take(k as int).map_values(
                    |id: RenderId| spec_render_id_string(id),
                ),
            decreases clicks@.len() - k,
        {
            let ghost prev = strings@;
            let text = clicks[k].to_string();
            strings.push(text);
            assert(strings@ == prev.push(text));
            assert forall|m: int| 0 <= m < k + 1 implies strings@[m]@ == spec_render_id_string(clicks@[m]) by {
                if m < k {
                    assert(prev.map_values(|s: String| s@)[m] == clicks@.take(k as int).map_values(
                        |id: RenderId| spec_render_id_string(id),
                    )[m]);
                }
            }
            assert(strings@.map_values(|s: String| s@) =~= clicks@.take(k + 1).map_values(
                |id: RenderId| spec_render_id_string(id),
            ));
            k = k + 1;
        }
        assert(clicks@.take(k as int) =~= clicks@);
        Some(strings)
    }

    /// returns the buffered clicks and empties the buffer
    pub fn take_outgoing(&mut self) -> (clicks: Vec<RenderId>)
        ensures
            clicks@ == old(self)@.2,
            final(self)@ == (old(self)@.0, old(self)@.1, Seq::<RenderId>::empty()),
    {
        let mut taken: Vec<RenderId> = Vec::new();
        std::mem::swap(&mut taken, &mut self.outgoing_buffer);
        taken
    }
}

/// the three card lists of an `init` message (deck, player 1's hand, player
/// 2's hand), decoded; `None` if any of them is malformed, so the message is
/// ignored rather than trusted
pub fn decode_init(deck: &[u8], hand1: &[u8], hand2: &[u8]) -> (parts: Option<(Vec<Card>, Vec<Card>, Vec<Card>)>)
    ensures
        parts is Some <==> (all_bytes_known(deck@) && all_bytes_known(hand1@) && all_bytes_known(
            hand2@,
        )),
        parts matches Some((d, h1, h2)) ==> spec_bytes_to_cards(deck@) == Some(d@)
            && spec_bytes_to_cards(hand1@) == Some(h1@) && spec_bytes_to_cards(hand2@) == Some(h2@),
{
    let deck = match bytes_to_cards(deck) {
        Some(cards) => cards,
        None => return None,
    };
    let player_1 = match bytes_to_cards(hand1) {
        Some(cards) => cards,
        None => return None,
    };
    let player_2 = match bytes_to_cards(hand2) {
        Some(cards) => cards,
        None => return None,
    };
    Some((deck, player_1, player_2))
}

/// whether a string is the string of some id
pub open spec fn is_id_string(s: Seq<char>) -> bool {
    exists|id: RenderId| spec_render_id_string(id) == s
}

/// the clicks of a received `action` message that this browser recognises, in
/// order; any other string is skipped rather than applied
pub fn parse_clicks(clicks: &Vec<String>) -> (ids: Vec<RenderId>)
    ensures
        ids@.map_values(|id: RenderId| spec_render_id_string(id)) == clicks@.map_values(|s: String| s@).filter(
            |s: Seq<char>| is_id_string(s),
        ),
{
    let ghost strs = clicks@.map_values(|s: String| s@);
    let ghost pred = |s: Seq<char>| is_id_string(s);
    let mut ids: Vec<RenderId> = Vec::new();
    let mut k: usize = 0;
    while k < clicks.len()
        invariant
            k <= clicks@.len(),
            strs == clicks@.map_values(|s: String| s@),
            pred == (|s: Seq<char>| is_id_string(s)),
            ids@.map_values(|id: RenderId| spec_render_id_string(id)) == strs.take(k as int).filter(pred),
        decreases clicks@.len() - k,
    {
        assert(strs.take(k + 1) =~= strs.take(k as int).push(strs[k as int]));
        proof {
            strs.take(k as int).lemma_filter_push(strs[k as int], pred);
        }
        match parse_render_id(clicks[k].as_str()) {
            Some(id) => {
                assert(pred(strs[k as int]));
                ids.push(id);
                assert(ids@.map_values(|id: RenderId| spec_render_id_string(id)) =~= strs.take(k + 1).filter(pred));
            },
            None => {
                assert(!pred(strs[k as int]));
            },
        }
        k = k + 1;
    }
    assert(strs.take(k as int) =~= strs);
    ids
}

/// the buffer of a turn holds no Confirm and no Cancel click
pub open spec fn buffer_is_replayable(buffer: Seq<RenderId>) -> bool {
    forall|k: int| 0 <= k < buffer.len() ==> #[trigger] buffer[k] != RenderId::Confirm && buffer[k] != RenderId::Cancel
}

/// Whatever clicks are recorded, the outgoing buffer never holds a Confirm or a
/// Cancel click, so every buffered click can be replayed by the peer; a
/// Cancel leaves nothing to replay.
pub proof fn lemma_record_click_keeps_buffer_replayable(buffer: Seq<RenderId>, id: RenderId)
    requires
        buffer_is_replayable(buffer),
    ensures
        buffer_is_replayable(spec_record_click(buffer, id)),
        id == RenderId::Cancel ==> spec_record_click(buffer, id).len() == 0,
        id == RenderId::Confirm ==> spec_record_click(buffer, id) == buffer,
{
    let after = spec_record_click(buffer, id);
    assert forall|k: int| 0 <= k < after.len() implies #[trigger] after[k] != RenderId::Confirm && after[k] != RenderId::Cancel by {
        if k < buffer.len() && id != RenderId::Cancel {
            assert(after[k] == buffer[k]);
        }
    }
}

/// what to do with a received `action` message: nothing outside an online
/// game, otherwise replay the recognised clicks, in order, as the remote
/// player's (unrecognised ones are skipped)
pub fn on_action_received(session: &Option<OnlineSession>, clicks: &Vec<String>) -> (replay: Option<(u32, Vec<RenderId>)>)
    ensures
        session is None ==> replay is None,
        session matches Some(s) ==> (replay matches Some((remote, ids)) && remote == spec_opponent_of(s@.0)
            && ids@.map_values(|id: RenderId| spec_render_id_string(id)) == clicks@.map_values(
            |c: String| c@,
        ).filter(|c: Seq<char>| is_id_string(c))),
{
    match session {
        Some(s) => Some((s.remote_player_num(), parse_clicks(clicks))),
        None => None,
    }
}

/// the replay of a received `action` message (see Replay): none outside an
/// online game, otherwise the recognised clicks, in order, replayed as the
/// remote player's (see on_action_received), nothing routed yet
pub fn replay_action(session: &Option<OnlineSession>, clicks: &Vec<String>) -> (replay: Option<Replay>)
    ensures
        session is None <==> replay is None,
        session matches Some(s) ==> (replay matches Some(r) && r.player_num == spec_opponent_of(s@.0)
            && r.ids@.map_values(|id: RenderId| spec_render_id_string(id)) == clicks@.map_values(
            |c: String| c@,
        ).filter(|c: Seq<char>| is_id_string(c)) && r.next == 0 && !r.finished),
{
    match on_action_received(session, clicks) {
        Some((remote, ids)) => Some(Replay::new(remote, ids)),
        None => None,
    }
}

} // verus!
