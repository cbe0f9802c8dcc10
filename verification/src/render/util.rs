use vstd::prelude::*;
use vstd::string::StringExecFns;
use crate::util::random_below;

verus! {

/// unique id of every clickable/renderable item: the 7 hand slots of each
/// player, the 6 field slots, the deck and deal pile, the graveyard and the
/// turn-action buttons
#[derive(Clone, Copy, PartialEq, Eq, Structural, Debug, Hash)]
pub enum RenderId {
    PlayerOne0,
    PlayerOne1,
    PlayerOne2,
    PlayerOne3,
    PlayerOne4,
    PlayerOne5,
    PlayerOne6,
    PlayerTwo0,
    PlayerTwo1,
    PlayerTwo2,
    PlayerTwo3,
    PlayerTwo4,
    PlayerTwo5,
    PlayerTwo6,
    Field0,
    Field1,
    Field2,
    Field3,
    Field4,
    Field5,
    Deck,
    Deal,
    Graveyard0,
    Graveyard1,
    Graveyard2,
    Cancel,
    Multidone,
    Confirm,
    TurnIndicator,
}

/// the string of an id, as used for DOM ids and network messages: a key,
/// `=`, and one digit
pub open spec fn spec_render_id_string(id: RenderId) -> Seq<char> {
    match id {
        RenderId::PlayerOne0 => seq!['p', '1', '=', '0'],
        RenderId::PlayerOne1 => seq!['p', '1', '=', '1'],
        RenderId::PlayerOne2 => seq!['p', '1', '=', '2'],
        RenderId::PlayerOne3 => seq!['p', '1', '=', '3'],
        RenderId::PlayerOne4 => seq!['p', '1', '=', '4'],
        RenderId::PlayerOne5 => seq!['p', '1', '=', '5'],
        RenderId::PlayerOne6 => seq!['p', '1', '=', '6'],
        RenderId::PlayerTwo0 => seq!['p', '2', '=', '0'],
        RenderId::PlayerTwo1 => seq!['p', '2', '=', '1'],
        RenderId::PlayerTwo2 => seq!['p', '2', '=', '2'],
        RenderId::PlayerTwo3 => seq!['p', '2', '=', '3'],
        RenderId::PlayerTwo4 => seq!['p', '2', '=', '4'],
        RenderId::PlayerTwo5 => seq!['p', '2', '=', '5'],
        RenderId::PlayerTwo6 => seq!['p', '2', '=', '6'],
        RenderId::Field0 => seq!['f', '=', '0'],
        RenderId::Field1 => seq!['f', '=', '1'],
        RenderId::Field2 => seq!['f', '=', '2'],
        RenderId::Field3 => seq!['f', '=', '3'],
        RenderId::Field4 => seq!['f', '=', '4'],
        RenderId::Field5 => seq!['f', '=', '5'],
        RenderId::Deck => seq!['d', '=', '0'],
        RenderId::Deal => seq!['d', '=', '1'],
        RenderId::Graveyard0 => seq!['g', '=', '0'],
        RenderId::Graveyard1 => seq!['g', '=', '1'],
        RenderId::Graveyard2 => seq!['g', '=', '2'],
        RenderId::Cancel => seq!['x', '=', '0'],
        RenderId::Multidone => seq!['x', '=', '1'],
        RenderId::Confirm => seq!['x', '=', '2'],
        RenderId::TurnIndicator => seq!['t', '=', '0'],
    }
}

/// the key part of an id's string (before the `=`)
pub open spec fn spec_render_id_key(id: RenderId) -> Seq<char> {
    match id {
        RenderId::PlayerOne0 => seq!['p', '1'],
        RenderId::PlayerOne1 => seq!['p', '1'],
        RenderId::PlayerOne2 => seq!['p', '1'],
        RenderId::PlayerOne3 => seq!['p', '1'],
        RenderId::PlayerOne4 => seq!['p', '1'],
        RenderId::PlayerOne5 => seq!['p', '1'],
        RenderId::PlayerOne6 => seq!['p', '1'],
        RenderId::PlayerTwo0 => seq!['p', '2'],
        RenderId::PlayerTwo1 => seq!['p', '2'],
        RenderId::PlayerTwo2 => seq!['p', '2'],
        RenderId::PlayerTwo3 => seq!['p', '2'],
        RenderId::PlayerTwo4 => seq!['p', '2'],
        RenderId::PlayerTwo5 => seq!['p', '2'],
        RenderId::PlayerTwo6 => seq!['p', '2'],
        RenderId::Field0 => seq!['f'],
        RenderId::Field1 => seq!['f'],
        RenderId::Field2 => seq!['f'],
        RenderId::Field3 => seq!['f'],
        RenderId::Field4 => seq!['f'],
        RenderId::Field5 => seq!['f'],
        RenderId::Deck => seq!['d'],
        RenderId::Deal => seq!['d'],
        RenderId::Graveyard0 => seq!['g'],
        RenderId::Graveyard1 => seq!['g'],
        RenderId::Graveyard2 => seq!['g'],
        RenderId::Cancel => seq!['x'],
        RenderId::Multidone => seq!['x'],
        RenderId::Confirm => seq!['x'],
        RenderId::TurnIndicator => seq!['t'],
    }
}

/// the value part of an id's string (the digit after the `=`)
pub open spec fn spec_render_id_val(id: RenderId) -> nat {
    match id {
        RenderId::PlayerOne0 => 0,
        RenderId::PlayerOne1 => 1,
        RenderId::PlayerOne2 => 2,
        RenderId::PlayerOne3 => 3,
        RenderId::PlayerOne4 => 4,
        RenderId::PlayerOne5 => 5,
        RenderId::PlayerOne6 => 6,
        RenderId::PlayerTwo0 => 0,
        RenderId::PlayerTwo1 => 1,
        RenderId::PlayerTwo2 => 2,
        RenderId::PlayerTwo3 => 3,
        RenderId::PlayerTwo4 => 4,
        RenderId::PlayerTwo5 => 5,
        RenderId::PlayerTwo6 => 6,
        RenderId::Field0 => 0,
        RenderId::Field1 => 1,
        RenderId::Field2 => 2,
        RenderId::Field3 => 3,
        RenderId::Field4 => 4,
        RenderId::Field5 => 5,
        RenderId::Deck => 0,
        RenderId::Deal => 1,
        RenderId::Graveyard0 => 0,
        RenderId::Graveyard1 => 1,
        RenderId::Graveyard2 => 2,
        RenderId::Cancel => 0,
        RenderId::Multidone => 1,
        RenderId::Confirm => 2,
        RenderId::TurnIndicator => 0,
    }
}

/// every id, in declaration order
pub open spec fn spec_all_render_ids() -> Seq<RenderId> {
    seq![RenderId::PlayerOne0, RenderId::PlayerOne1, RenderId::PlayerOne2, RenderId::PlayerOne3, RenderId::PlayerOne4, RenderId::PlayerOne5, RenderId::PlayerOne6, RenderId::PlayerTwo0, RenderId::PlayerTwo1, RenderId::PlayerTwo2, RenderId::PlayerTwo3, RenderId::PlayerTwo4, RenderId::PlayerTwo5, RenderId::PlayerTwo6, RenderId::Field0, RenderId::Field1, RenderId::Field2, RenderId::Field3, RenderId::Field4, RenderId::Field5, RenderId::Deck, RenderId::Deal, RenderId::Graveyard0, RenderId::Graveyard1, RenderId::Graveyard2, RenderId::Cancel, RenderId::Multidone, RenderId::Confirm, RenderId::TurnIndicator]
}

/// recovers the id from its string: by the first character, the second one
/// (for the hand ids) and the digit at the end
spec fn decode_render_id(s: Seq<char>) -> RenderId {
    let d = s[s.len() - 1];
    if s[0] == 'p' {
        if s[1] == '1' {
            if d == '0' { RenderId::PlayerOne0 }
            else if d == '1' { RenderId::PlayerOne1 }
            else if d == '2' { RenderId::PlayerOne2 }
            else if d == '3' { RenderId::PlayerOne3 }
            else if d == '4' { RenderId::PlayerOne4 }
            else if d == '5' { RenderId::PlayerOne5 }
            else { RenderId::PlayerOne6 }
        } else {
            if d == '0' { RenderId::PlayerTwo0 }
            else if d == '1' { RenderId::PlayerTwo1 }
            else if d == '2' { RenderId::PlayerTwo2 }
            else if d == '3' { RenderId::PlayerTwo3 }
            else if d == '4' { RenderId::PlayerTwo4 }
            else if d == '5' { RenderId::PlayerTwo5 }
            else { RenderId::PlayerTwo6 }
        }
    } else if s[0] == 'f' {
        if d == '0' { RenderId::Field0 }
        else if d == '1' { RenderId::Field1 }
        else if d == '2' { RenderId::Field2 }
        else if d == '3' { RenderId::Field3 }
        else if d == '4' { RenderId::Field4 }
        else { RenderId::Field5 }
    } else if s[0] == 'd' {
        if d == '0' { RenderId::Deck } else { RenderId::Deal }
    } else if s[0] == 'g' {
        if d == '0' { RenderId::Graveyard0 } else if d == '1' { RenderId::Graveyard1 } else { RenderId::Graveyard2 }
    } else if s[0] == 'x' {
        if d == '0' { RenderId::Cancel } else if d == '1' { RenderId::Multidone } else { RenderId::Confirm }
    } else {
        RenderId::TurnIndicator
    }
}

/// Every id's string is its key, `=` and the digit of its value.
pub proof fn lemma_render_id_string_parts(id: RenderId)
    ensures
        spec_render_id_string(id) =~= spec_render_id_key(id) + seq!['='] + seq![
            (spec_render_id_val(id) + 48) as char,
        ],
        spec_render_id_val(id) < 10,
{
}

/// No two ids share a string.
pub proof fn lemma_render_id_strings_distinct(a: RenderId, b: RenderId)
    requires
        spec_render_id_string(a) == spec_render_id_string(b),
    ensures
        a == b,
{
    assert(decode_render_id(spec_render_id_string(a)) == a);
    assert(decode_render_id(spec_render_id_string(b)) == b);
}

/// every id, in declaration order
pub fn all_render_ids() -> (ids: Vec<RenderId>)
    ensures
        ids@ == spec_all_render_ids(),
{
    let mut ids: Vec<RenderId> = Vec::new();
    ids.push(RenderId::PlayerOne0);
    ids.push(RenderId::PlayerOne1);
    ids.push(RenderId::PlayerOne2);
    ids.push(RenderId::PlayerOne3);
    ids.push(RenderId::PlayerOne4);
    ids.push(RenderId::PlayerOne5);
    ids.push(RenderId::PlayerOne6);
    ids.push(RenderId::PlayerTwo0);
    ids.push(RenderId::PlayerTwo1);
    ids.push(RenderId::PlayerTwo2);
    ids.push(RenderId::PlayerTwo3);
    ids.push(RenderId::PlayerTwo4);
    ids.push(RenderId::PlayerTwo5);
    ids.push(RenderId::PlayerTwo6);
    ids.push(RenderId::Field0);
    ids.push(RenderId::Field1);
    ids.push(RenderId::Field2);
    ids.push(RenderId::Field3);
    ids.push(RenderId::Field4);
    ids.push(RenderId::Field5);
    ids.push(RenderId::Deck);
    ids.push(RenderId::Deal);
    ids.push(RenderId::Graveyard0);
    ids.push(RenderId::Graveyard1);
    ids.push(RenderId::Graveyard2);
    ids.push(RenderId::Cancel);
    ids.push(RenderId::Multidone);
    ids.push(RenderId::Confirm);
    ids.push(RenderId::TurnIndicator);
    assert(ids@ =~= spec_all_render_ids());
    ids
}

/// Every id is listed by `all_render_ids`.
pub proof fn lemma_all_render_ids_complete(id: RenderId)
    ensures
        spec_all_render_ids().contains(id),
{
    let all = spec_all_render_ids();
    match id {
        RenderId::PlayerOne0 => assert(all[0] == id),
        RenderId::PlayerOne1 => assert(all[1] == id),
        RenderId::PlayerOne2 => assert(all[2] == id),
        RenderId::PlayerOne3 => assert(all[3] == id),
        RenderId::PlayerOne4 => assert(all[4] == id),
        RenderId::PlayerOne5 => assert(all[5] == id),
        RenderId::PlayerOne6 => assert(all[6] == id),
        RenderId::PlayerTwo0 => assert(all[7] == id),
        RenderId::PlayerTwo1 => assert(all[8] == id),
        RenderId::PlayerTwo2 => assert(all[9] == id),
        RenderId::PlayerTwo3 => assert(all[10] == id),
        RenderId::PlayerTwo4 => assert(all[11] == id),
        RenderId::PlayerTwo5 => assert(all[12] == id),
        RenderId::PlayerTwo6 => assert(all[13] == id),
        RenderId::Field0 => assert(all[14] == id),
        RenderId::Field1 => assert(all[15] == id),
        RenderId::Field2 => assert(all[16] == id),
        RenderId::Field3 => assert(all[17] == id),
        RenderId::Field4 => assert(all[18] == id),
        RenderId::Field5 => assert(all[19] == id),
        RenderId::Deck => assert(all[20] == id),
        RenderId::Deal => assert(all[21] == id),
        RenderId::Graveyard0 => assert(all[22] == id),
        RenderId::Graveyard1 => assert(all[23] == id),
        RenderId::Graveyard2 => assert(all[24] == id),
        RenderId::Cancel => assert(all[25] == id),
        RenderId::Multidone => assert(all[26] == id),
        RenderId::Confirm => assert(all[27] == id),
        RenderId::TurnIndicator => assert(all[28] == id),
    }
}

impl RenderId {
    /// the id's string (its `Display` form)
    pub fn as_str(&self) -> (s: &'static str)
        ensures
            s@ == spec_render_id_string(*self),
    {
        proof {
        reveal_strlit("d=0");
        reveal_strlit("d=1");
        reveal_strlit("f=0");
        reveal_strlit("f=1");
        reveal_strlit("f=2");
        reveal_strlit("f=3");
        reveal_strlit("f=4");
        reveal_strlit("f=5");
        reveal_strlit("g=0");
        reveal_strlit("g=1");
        reveal_strlit("g=2");
        reveal_strlit("p1=0");
        reveal_strlit("p1=1");
        reveal_strlit("p1=2");
        reveal_strlit("p1=3");
        reveal_strlit("p1=4");
        reveal_strlit("p1=5");
        reveal_strlit("p1=6");
        reveal_strlit("p2=0");
        reveal_strlit("p2=1");
        reveal_strlit("p2=2");
        reveal_strlit("p2=3");
        reveal_strlit("p2=4");
        reveal_strlit("p2=5");
        reveal_strlit("p2=6");
        reveal_strlit("t=0");
        reveal_strlit("x=0");
        reveal_strlit("x=1");
        reveal_strlit("x=2");
        }
        match self {
            RenderId::PlayerOne0 => "p1=0",
            RenderId::PlayerOne1 => "p1=1",
            RenderId::PlayerOne2 => "p1=2",
            RenderId::PlayerOne3 => "p1=3",
            RenderId::PlayerOne4 => "p1=4",
            RenderId::PlayerOne5 => "p1=5",
            RenderId::PlayerOne6 => "p1=6",
            RenderId::PlayerTwo0 => "p2=0",
            RenderId::PlayerTwo1 => "p2=1",
            RenderId::PlayerTwo2 => "p2=2",
            RenderId::PlayerTwo3 => "p2=3",
            RenderId::PlayerTwo4 => "p2=4",
            RenderId::PlayerTwo5 => "p2=5",
            RenderId::PlayerTwo6 => "p2=6",
            RenderId::Field0 => "f=0",
            RenderId::Field1 => "f=1",
            RenderId::Field2 => "f=2",
            RenderId::Field3 => "f=3",
            RenderId::Field4 => "f=4",
            RenderId::Field5 => "f=5",
            RenderId::Deck => "d=0",
            RenderId::Deal => "d=1",
            RenderId::Graveyard0 => "g=0",
            RenderId::Graveyard1 => "g=1",
            RenderId::Graveyard2 => "g=2",
            RenderId::Cancel => "x=0",
            RenderId::Multidone => "x=1",
            RenderId::Confirm => "x=2",
            RenderId::TurnIndicator => "t=0",
        }
    }

    /// the id's string, owned
    pub fn to_string(&self) -> (s: String)
        ensures
            s@ == spec_render_id_string(*self),
    {
        String::from_str(self.as_str())
    }

    /// whether the id is a field slot
    pub fn is_field(&self) -> (b: bool)
        ensures
            b == (spec_render_id_string(*self)[0] == 'f'),
    {
        matches!(
            self,
            RenderId::Field0 | RenderId::Field1 | RenderId::Field2 | RenderId::Field3
                | RenderId::Field4 | RenderId::Field5
        )
    }

    /// whether the id is a hand slot of either player
    pub fn is_player(&self) -> (b: bool)
        ensures
            b == (spec_render_id_string(*self)[0] == 'p'),
    {
        matches!(
            self,
            RenderId::PlayerOne0 | RenderId::PlayerOne1 | RenderId::PlayerOne2 | RenderId::PlayerOne3
                | RenderId::PlayerOne4 | RenderId::PlayerOne5 | RenderId::PlayerOne6
                | RenderId::PlayerTwo0 | RenderId::PlayerTwo1 | RenderId::PlayerTwo2
                | RenderId::PlayerTwo3 | RenderId::PlayerTwo4 | RenderId::PlayerTwo5
                | RenderId::PlayerTwo6
        )
    }

    /// whether the id is a graveyard pile
    pub fn is_graveyard(&self) -> (b: bool)
        ensures
            b == (spec_render_id_string(*self)[0] == 'g'),
    {
        matches!(self, RenderId::Graveyard0 | RenderId::Graveyard1 | RenderId::Graveyard2)
    }

    /// splits the id's string at `=` into its key and numeric value
    pub fn key_val(&self) -> (kv: (String, usize))
        ensures
            kv.0@ == spec_render_id_key(*self),
            kv.1 == spec_render_id_val(*self),
    {
        proof {
        reveal_strlit("d");
        reveal_strlit("f");
        reveal_strlit("g");
        reveal_strlit("p1");
        reveal_strlit("p2");
        reveal_strlit("t");
        reveal_strlit("x");
        }
        match self {
            RenderId::PlayerOne0 => (String::from_str("p1"), 0),
            RenderId::PlayerOne1 => (String::from_str("p1"), 1),
            RenderId::PlayerOne2 => (String::from_str("p1"), 2),
            RenderId::PlayerOne3 => (String::from_str("p1"), 3),
            RenderId::PlayerOne4 => (String::from_str("p1"), 4),
            RenderId::PlayerOne5 => (String::from_str("p1"), 5),
            RenderId::PlayerOne6 => (String::from_str("p1"), 6),
            RenderId::PlayerTwo0 => (String::from_str("p2"), 0),
            RenderId::PlayerTwo1 => (String::from_str("p2"), 1),
            RenderId::PlayerTwo2 => (String::from_str("p2"), 2),
            RenderId::PlayerTwo3 => (String::from_str("p2"), 3),
            RenderId::PlayerTwo4 => (String::from_str("p2"), 4),
            RenderId::PlayerTwo5 => (String::from_str("p2"), 5),
            RenderId::PlayerTwo6 => (String::from_str("p2"), 6),
            RenderId::Field0 => (String::from_str("f"), 0),
            RenderId::Field1 => (String::from_str("f"), 1),
            RenderId::Field2 => (String::from_str("f"), 2),
            RenderId::Field3 => (String::from_str("f"), 3),
            RenderId::Field4 => (String::from_str("f"), 4),
            RenderId::Field5 => (String::from_str("f"), 5),
            RenderId::Deck => (String::from_str("d"), 0),
            RenderId::Deal => (String::from_str("d"), 1),
            RenderId::Graveyard0 => (String::from_str("g"), 0),
            RenderId::Graveyard1 => (String::from_str("g"), 1),
            RenderId::Graveyard2 => (String::from_str("g"), 2),
            RenderId::Cancel => (String::from_str("x"), 0),
            RenderId::Multidone => (String::from_str("x"), 1),
            RenderId::Confirm => (String::from_str("x"), 2),
            RenderId::TurnIndicator => (String::from_str("t"), 0),
        }
    }

    /// the id named by a string the game generated itself; the string must be
    /// one of the id strings
    pub fn from(s: String) -> (id: RenderId)
        requires
            exists|id: RenderId| spec_render_id_string(id) == s@,
        ensures
            spec_render_id_string(id) == s@,
    {
        match parse_render_id(s.as_str()) {
            Some(id) => id,
            None => {
                proof {
                    let id = choose|id: RenderId| spec_render_id_string(id) == s@;
                }
                RenderId::TurnIndicator
            },
        }
    }
}

/// parses a click id (eg. one received over the network) without panicking:
/// `None` for any string that is not the string of an id
pub fn parse_render_id(s: &str) -> (id: Option<RenderId>)
    ensures
        id matches Some(i) ==> spec_render_id_string(i) == s@,
        id is None ==> forall|i: RenderId| spec_render_id_string(i) != s@,
{
    let ids = all_render_ids();
    let mut k: usize = 0;
    while k < ids.len()
        invariant
            ids@ == spec_all_render_ids(),
            k <= ids@.len(),
            forall|m: int| 0 <= m < k ==> spec_render_id_string(#[trigger] ids@[m]) != s@,
        decreases ids@.len() - k,
    {
        if crate::util::str_equal(ids[k].as_str(), s) {
            return Some(ids[k]);
        }
        k = k + 1;
    }
    proof {
        assert forall|i: RenderId| spec_render_id_string(i) != s@ by {
            lemma_all_render_ids_complete(i);
            let m = choose|m: int| 0 <= m < ids@.len() && ids@[m] == i;
            assert(spec_render_id_string(ids@[m]) != s@);
        }
    }
    None
}

} // verus!

verus! {

/// whether player `player_num`'s hand is drawn at the bottom of the screen: in
/// an online game (`online_local_player` holds this browser's player number)
/// the local player's, otherwise player 1's
pub fn player_renders_at_bottom(player_num: u32, online_local_player: Option<u32>) -> (bottom: bool)
    ensures
        bottom == match online_local_player {
            Some(local) => player_num == local,
            None => player_num == 1,
        },
{
    match online_local_player {
        Some(local) => player_num == local,
        None => player_num == 1,
    }
}

/// the upper-case hexadecimal digit of a number below 16
pub open spec fn spec_hex_digit(n: u32) -> char {
    match n {
        0 => '0',
        1 => '1',
        2 => '2',
        3 => '3',
        4 => '4',
        5 => '5',
        6 => '6',
        7 => '7',
        8 => '8',
        9 => '9',
        10 => 'A',
        11 => 'B',
        12 => 'C',
        13 => 'D',
        14 => 'E',
        _ => 'F',
    }
}

/// whether a character is a digit or an upper-case letter from A to F
pub open spec fn is_upper_hex_digit(c: char) -> bool {
    ('0' <= c && c <= '9') || ('A' <= c && c <= 'F')
}

/// the upper-case hexadecimal digit of a number below 16, as a string
fn hex_digit(n: u32) -> (digit: &'static str)
    requires
        n < 16,
    ensures
        digit@ == seq![spec_hex_digit(n)],
{
    proof {
        reveal_strlit("0");
        reveal_strlit("1");
        reveal_strlit("2");
        reveal_strlit("3");
        reveal_strlit("4");
        reveal_strlit("5");
        reveal_strlit("6");
        reveal_strlit("7");
        reveal_strlit("8");
        reveal_strlit("9");
        reveal_strlit("A");
        reveal_strlit("B");
        reveal_strlit("C");
        reveal_strlit("D");
        reveal_strlit("E");
        reveal_strlit("F");
    }
    match n {
        0 => "0",
        1 => "1",
        2 => "2",
        3 => "3",
        4 => "4",
        5 => "5",
        6 => "6",
        7 => "7",
        8 => "8",
        9 => "9",
        10 => "A",
        11 => "B",
        12 => "C",
        13 => "D",
        14 => "E",
        _ => "F",
    }
}

/// the upper-case hexadecimal digits of numbers below 16, in order
pub fn hex_code(nibbles: &Vec<u32>) -> (code: String)
    requires
        forall|k: int| 0 <= k < nibbles@.len() ==> #[trigger] nibbles@[k] < 16,
    ensures
        code@ == nibbles@.map_values(|n: u32| spec_hex_digit(n)),
{
    let mut code = String::new();
    let mut k: usize = 0;
    while k < nibbles.len()
        invariant
            k <= nibbles@.len(),
            forall|m: int| 0 <= m < nibbles@.len() ==> #[trigger] nibbles@[m] < 16,
            code@ == nibbles@.take(k as int).map_values(|n: u32| spec_hex_digit(n)),
        decreases nibbles@.len() - k,
    {
        code.append(hex_digit(nibbles[k]));
        assert(code@ =~= nibbles@.take(k + 1).map_values(|n: u32| spec_hex_digit(n)));
        k = k + 1;
    }
    assert(nibbles@.take(k as int) =~= nibbles@);
    code
}

/// six random upper-case hexadecimal digits: a candidate colour code for the
/// hit region map (random_hit_colour draws until the code is not taken yet)
pub fn random_hex_code() -> (code: String)
    ensures
        code@.len() == 6,
        forall|k: int| 0 <= k < 6 ==> is_upper_hex_digit(#[trigger] code@[k]),
{
    let mut nibbles: Vec<u32> = Vec::new();
    let mut k: usize = 0;
    while k < 6
        invariant
            k <= 6,
            nibbles@.len() == k,
            forall|m: int| 0 <= m < k ==> #[trigger] nibbles@[m] < 16,
        decreases 6 - k,
    {
        let nibble = random_below(16);
        nibbles.push(nibble as u32);
        k = k + 1;
    }
    let code = hex_code(&nibbles);
    assert forall|k: int| 0 <= k < 6 implies is_upper_hex_digit(#[trigger] code@[k]) by {
        assert(code@[k] == spec_hex_digit(nibbles@[k]));
    }
    code
}

/// the colour a hit region is drawn with: `#` and its code
pub fn hit_colour(code: &str) -> (colour: String)
    ensures
        colour@ == seq!['#'] + code@,
{
    proof {
        reveal_strlit("#");
    }
    let mut colour = String::from_str("#");
    colour.append(code);
    colour
}

} // verus!
