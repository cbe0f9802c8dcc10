//! The live, in-game log of which hand card(s) were played on which field
//! slot(s): one line of text per committed move, shown while the move-log
//! setting is on.

use vstd::prelude::*;
use vstd::string::StringExecFns;

verus! {

/// the decimal digit of a number below 10
pub open spec fn spec_digit(n: nat) -> char {
    if n == 0 { '0' }
    else if n == 1 { '1' }
    else if n == 2 { '2' }
    else if n == 3 { '3' }
    else if n == 4 { '4' }
    else if n == 5 { '5' }
    else if n == 6 { '6' }
    else if n == 7 { '7' }
    else if n == 8 { '8' }
    else { '9' }
}

/// the decimal representation of a number, without leading zeros
pub open spec fn spec_decimal(n: nat) -> Seq<char>
    decreases n,
{
    if n < 10 {
        seq![spec_digit(n)]
    } else {
        spec_decimal(n / 10).push(spec_digit(n % 10))
    }
}

/// the decimal digit of a number below 10, as a string
fn digit(n: u64) -> (d: &'static str)
    requires
        n < 10,
    ensures
        d@ == seq![spec_digit(n as nat)],
{
    proof {
        reveal_strlit("0");
        reveal_strlit("1");
        reveal_strlit("2");
        reveal_strlit("3");
        reveal_strlit("4");
        reveal_strlit("5");
        reveal_strlit("6");
        reveal_strlit("7");
        reveal_strlit("8");
        reveal_strlit("9");
    }
    match n {
        0 => "0",
        1 => "1",
        2 => "2",
        3 => "3",
        4 => "4",
        5 => "5",
        6 => "6",
        7 => "7",
        8 => "8",
        _ => "9",
    }
}

/// the decimal representation of a number
pub fn decimal(n: u64) -> (text: String)
    ensures
        text@ == spec_decimal(n as nat),
    decreases n,
{
    if n < 10 {
        String::from_str(digit(n))
    } else {
        let mut text = decimal(n / 10);
        text.append(digit(n % 10));
        text
    }
}

/// what the log shows for a slot: its expression's text, or "empty" for a
/// cleared slot (an empty string would read as a typo)
pub open spec fn spec_describe_slot(text: Option<Seq<char>>) -> Seq<char> {
    match text {
        Some(t) => t,
        None => seq!['e', 'm', 'p', 't', 'y'],
    }
}

/// what the log shows for a slot, given its expression's text if it holds one
pub fn describe_slot(text: &Option<String>) -> (shown: String)
    ensures
        shown@ == spec_describe_slot(
            match text {
                Some(t) => Some(t@),
                None => None,
            },
        ),
{
    proof {
        reveal_strlit("empty");
    }
    match text {
        Some(t) => t.clone(),
        None => String::from_str("empty"),
    }
}

/// one changed slot of a move: its position and what it showed before and after
pub struct SlotChange {
    pub slot: usize,
    pub before: String,
    pub after: String,
}

/// `parts` joined by `separator`
pub open spec fn spec_join(parts: Seq<Seq<char>>, separator: Seq<char>) -> Seq<char>
    decreases parts.len(),
{
    if parts.len() == 0 {
        Seq::empty()
    } else if parts.len() == 1 {
        parts[0]
    } else {
        spec_join(parts.drop_last(), separator) + separator + parts.last()
    }
}

/// the log text of one changed slot: `slot N: before → after`, counting slots
/// from 1
pub open spec fn spec_change_text(change: (nat, Seq<char>, Seq<char>)) -> Seq<char> {
    seq!['s', 'l', 'o', 't', ' '] + spec_decimal(change.0 + 1) + seq![':', ' '] + change.1 + seq![' ', '\u{2192}', ' ']
        + change.2
}

/// the mathematical value of a slot change
pub open spec fn change_model(change: SlotChange) -> (nat, Seq<char>, Seq<char>) {
    (change.slot as nat, change.before@, change.after@)
}

/// the log line of a move: `P<player>: <cards joined by " + "> on <changed
/// slots joined by ", ">`
pub open spec fn spec_move_log_entry(
    player_num: nat,
    card_names: Seq<Seq<char>>,
    changes: Seq<(nat, Seq<char>, Seq<char>)>,
) -> Seq<char> {
    seq!['P'] + spec_decimal(player_num) + seq![':', ' '] + spec_join(card_names, seq![' ', '+', ' '])
        + seq![' ', 'o', 'n', ' '] + spec_join(changes.map_values(|c: (nat, Seq<char>, Seq<char>)| spec_change_text(c)), seq![',', ' '])
}

/// `parts` joined by `separator`
fn join(parts: &Vec<String>, separator: &str) -> (text: String)
    ensures
        text@ == spec_join(parts@.map_values(|p: String| p@), separator@),
{
    let ghost views = parts@.map_values(|p: String| p@);
    let mut text = String::new();
    let mut k: usize = 0;
    while k < parts.len()
        invariant
            k <= parts@.len(),
            views == parts@.map_values(|p: String| p@),
            text@ == spec_join(views.take(k as int), separator@),
        decreases parts@.len() - k,
    {
        if k > 0 {
            text.append(separator);
        }
        text.append(parts[k].as_str());
        assert(views.take(k + 1).drop_last() =~= views.take(k as int));
        assert(views.take(k + 1).last() == parts@[k as int]@);
        k = k + 1;
    }
    assert(views.take(k as int) =~= views);
    text
}

/// the log text of one changed slot
fn change_text(change: &SlotChange) -> (text: String)
    requires
        change.slot < usize::MAX,
    ensures
        text@ == spec_change_text(change_model(*change)),
{
    proof {
        reveal_strlit("slot ");
        reveal_strlit(": ");
        reveal_strlit(" \u{2192} ");
    }
    let mut text = String::from_str("slot ");
    text.append(decimal((change.slot + 1) as u64).as_str());
    text.append(": ");
    text.append(change.before.as_str());
    text.append(" \u{2192} ");
    text.append(change.after.as_str());
    text
}

/// the log line of a move by player `player_num`, who played the cards named
/// `card_names` and so changed the slots in `changes`
pub fn move_log_entry(player_num: u32, card_names: &Vec<String>, changes: &Vec<SlotChange>) -> (entry: String)
    requires
        forall|k: int| 0 <= k < changes@.len() ==> (#[trigger] changes@[k]).slot < usize::MAX,
    ensures
        entry@ == spec_move_log_entry(
            player_num as nat,
            card_names@.map_values(|n: String| n@),
            changes@.map_values(|c: SlotChange| change_model(c)),
        ),
{
    proof {
        reveal_strlit("P");
        reveal_strlit(": ");
        reveal_strlit(" + ");
        reveal_strlit(" on ");
        reveal_strlit(", ");
    }
    let mut texts: Vec<String> = Vec::new();
    let mut k: usize = 0;
    while k < changes.len()
        invariant
            k <= changes@.len(),
            forall|m: int| 0 <= m < changes@.len() ==> (#[trigger] changes@[m]).slot < usize::MAX,
            texts@.len() == k,
            forall|m: int| 0 <= m < k ==> (#[trigger] texts@[m])@ == spec_change_text(change_model(changes@[m])),
        decreases changes@.len() - k,
    {
        texts.push(change_text(&changes[k]));
        k = k + 1;
    }
    assert(texts@.map_values(|p: String| p@) =~= changes@.map_values(|c: SlotChange| change_model(c)).map_values(
        |c: (nat, Seq<char>, Seq<char>)| spec_change_text(c),
    ));
    let plus = " + ";
    let comma = ", ";
    assert(plus@ =~= seq![' ', '+', ' ']);
    assert(comma@ =~= seq![',', ' ']);
    let cards = join(card_names, plus);
    let slots = join(&texts, comma);
    let mut entry = String::from_str("P");
    entry.append(decimal(player_num as u64).as_str());
    entry.append(": ");
    entry.append(cards.as_str());
    entry.append(" on ");
    entry.append(slots.as_str());
    entry
}

/// the log line to append for a move about to be committed, `None` while the
/// move-log setting is off (no history is kept then)
pub fn record_move(
    show_move_log: bool,
    player_num: u32,
    card_names: &Vec<String>,
    changes: &Vec<SlotChange>,
) -> (entry: Option<String>)
    requires
        forall|k: int| 0 <= k < changes@.len() ==> (#[trigger] changes@[k]).slot < usize::MAX,
    ensures
        !show_move_log ==> entry is None,
        show_move_log ==> (entry matches Some(e) && e@ == spec_move_log_entry(
            player_num as nat,
            card_names@.map_values(|n: String| n@),
            changes@.map_values(|c: SlotChange| change_model(c)),
        )),
{
    if !show_move_log {
        return None;
    }
    Some(move_log_entry(player_num, card_names, changes))
}

} // verus!
