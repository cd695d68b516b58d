//! Keyboard input: which keys the game listens to, the state of the keys,
//! and the action that the pressed keys ask for.
use vstd::prelude::*;

verus! {

/// Key slot of the up arrow.
pub const KEY_UP: usize = 0;
/// Key slot of the down arrow.
pub const KEY_DOWN: usize = 1;
/// Key slot of the left arrow.
pub const KEY_LEFT: usize = 2;
/// Key slot of the right arrow.
pub const KEY_RIGHT: usize = 3;
/// Key slot of `E` (collect).
pub const KEY_E: usize = 4;
/// Key slot of `B` (build a charging station).
pub const KEY_B: usize = 5;
/// Key slot of `A` (toggle the autopilot).
pub const KEY_A: usize = 6;

/// Number of key slots tracked.
pub const KEY_SLOTS: usize = 256;

/// An action of the robot or of the player.
#[derive(Clone, Copy, PartialEq, Eq, Debug, Structural)]
pub enum InputAction {
    MoveUp,
    MoveDown,
    MoveLeft,
    MoveRight,
    Collect,
    PlaceChargingStation,
    ToggleAI,
    Scan,
}

/// The key slot that a browser key name maps to.
pub open spec fn key_code_for(key: Seq<char>) -> Option<usize> {
    if key == "ArrowUp"@ {
        Some(KEY_UP)
    } else if key == "ArrowDown"@ {
        Some(KEY_DOWN)
    } else if key == "ArrowLeft"@ {
        Some(KEY_LEFT)
    } else if key == "ArrowRight"@ {
        Some(KEY_RIGHT)
    } else if key == "e"@ || key == "E"@ {
        Some(KEY_E)
    } else if key == "b"@ || key == "B"@ {
        Some(KEY_B)
    } else if key == "a"@ || key == "A"@ {
        Some(KEY_A)
    } else {
        None
    }
}

/// The action asked for by the keys pressed since the last tick; when
/// several are, the first in the order up, down, left, right, `E`, `B`, `A`
/// wins.
pub open spec fn action_for(just_pressed: Seq<bool>) -> Option<InputAction> {
    if just_pressed[KEY_UP as int] {
        Some(InputAction::MoveUp)
    } else if just_pressed[KEY_DOWN as int] {
        Some(InputAction::MoveDown)
    } else if just_pressed[KEY_LEFT as int] {
        Some(InputAction::MoveLeft)
    } else if just_pressed[KEY_RIGHT as int] {
        Some(InputAction::MoveRight)
    } else if just_pressed[KEY_E as int] {
        Some(InputAction::Collect)
    } else if just_pressed[KEY_B as int] {
        Some(InputAction::PlaceChargingStation)
    } else if just_pressed[KEY_A as int] {
        Some(InputAction::ToggleAI)
    } else {
        None
    }
}

/// The characters of `s`, in order.
fn chars_of(s: &str) -> (v: Vec<char>)
    ensures
        v@ == s@,
{
    broadcast use vstd::string::axiom_spec_iter;

    let mut v: Vec<char> = Vec::new();
    for c in it: s.chars()
        invariant
            it.seq() == s@,
            v@ == it.seq().take(it.index() as int),
    {
        v.push(c);
    }
    v
}

/// Whether `chars` spell exactly `text`.
fn spells(chars: &Vec<char>, text: &str) -> (b: bool)
    ensures
        b == (chars@ == text@),
{
    let expected = chars_of(text);
    if chars.len() != expected.len() {
        return false;
    }
    let mut i: usize = 0;
    while i < chars.len()
        invariant
            chars.len() == expected.len(),
            expected@ == text@,
            i <= chars.len(),
            forall|j: int| 0 <= j < i ==> chars@[j] == expected@[j],
        decreases chars.len() - i,
    {
        if chars[i] != expected[i] {
            return false;
        }
        i += 1;
    }
    assert(chars@ == expected@);
    true
}

/// The key slot that the browser key name `key` maps to, if the game
/// listens to that key.
pub fn map_key_code(key: &str) -> (code: Option<usize>)
    ensures
        code == key_code_for(key@),
{
    let chars = chars_of(key);
    if spells(&chars, "ArrowUp") {
        Some(KEY_UP)
    } else if spells(&chars, "ArrowDown") {
        Some(KEY_DOWN)
    } else if spells(&chars, "ArrowLeft") {
        Some(KEY_LEFT)
    } else if spells(&chars, "ArrowRight") {
        Some(KEY_RIGHT)
    } else if spells(&chars, "e") || spells(&chars, "E") {
        Some(KEY_E)
    } else if spells(&chars, "b") || spells(&chars, "B") {
        Some(KEY_B)
    } else if spells(&chars, "a") || spells(&chars, "A") {
        Some(KEY_A)
    } else {
        None
    }
}

/// Which keys are held down, and which went down since the last tick.
pub struct KeyState {
    pub pressed: [bool; 256],
    pub just_pressed: [bool; 256],
}

impl KeyState {
    /// No key held, none just pressed.
    pub fn new() -> (s: Self)
        ensures
            forall|k: int| 0 <= k < KEY_SLOTS ==> !#[trigger] s.pressed@[k] && !s.just_pressed@[k],
    {
        KeyState { pressed: [false; 256], just_pressed: [false; 256] }
    }

    /// A key went down: it counts as just pressed unless it was already held
    /// (keyboard auto-repeat does not trigger an action again).
    pub fn press(&mut self, key_code: usize)
        requires
            key_code < KEY_SLOTS,
        ensures
            final(self).pressed@ == old(self).pressed@.update(key_code as int, true),
            final(self).just_pressed@ == if old(self).pressed@[key_code as int] {
                old(self).just_pressed@
            } else {
                old(self).just_pressed@.update(key_code as int, true)
            },
    {
        if !self.pressed[key_code] {
            self.just_pressed[key_code] = true;
        }
        self.pressed[key_code] = true;
    }

    /// A key went up.
    pub fn release(&mut self, key_code: usize)
        requires
            key_code < KEY_SLOTS,
        ensures
            final(self).pressed@ == old(self).pressed@.update(key_code as int, false),
            final(self).just_pressed@ == old(self).just_pressed@,
    {
        self.pressed[key_code] = false;
    }

    /// The action asked for by the keys just pressed, if any.
    pub fn get_action(&self) -> (action: Option<InputAction>)
        ensures
            action == action_for(self.just_pressed@),
    {
        if self.just_pressed[KEY_UP] {
            Some(InputAction::MoveUp)
        } else if self.just_pressed[KEY_DOWN] {
            Some(InputAction::MoveDown)
        } else if self.just_pressed[KEY_LEFT] {
            Some(InputAction::MoveLeft)
        } else if self.just_pressed[KEY_RIGHT] {
            Some(InputAction::MoveRight)
        } else if self.just_pressed[KEY_E] {
            Some(InputAction::Collect)
        } else if self.just_pressed[KEY_B] {
            Some(InputAction::PlaceChargingStation)
        } else if self.just_pressed[KEY_A] {
            Some(InputAction::ToggleAI)
        } else {
            None
        }
    }

    /// Forgets the keys just pressed, at the end of a tick.
    pub fn clear_just_pressed(&mut self)
        ensures
            final(self).pressed@ == old(self).pressed@,
            forall|k: int| 0 <= k < KEY_SLOTS ==> !#[trigger] final(self).just_pressed@[k],
    {
        let mut i: usize = 0;
        while i < KEY_SLOTS
            invariant
                i <= KEY_SLOTS,
                self.pressed@ == old(self).pressed@,
                forall|k: int| 0 <= k < i ==> !#[trigger] self.just_pressed@[k],
            decreases KEY_SLOTS - i,
        {
            self.just_pressed[i] = false;
            i += 1;
        }
    }
}

/// What a tick of the game does with the action that the keys ask for.
#[derive(Clone, Copy, PartialEq, Eq, Debug, Structural)]
pub struct KeyRouting {
    /// Whether the autopilot is on after the key.
    pub ai_enabled: bool,
    /// Whether the key toggled the autopilot (the game announces it).
    pub toggled: bool,
    /// The action that the player's robot performs, if any.
    pub manual_action: Option<InputAction>,
}

/// Routes the action asked for by the keys: `ToggleAI` switches the
/// autopilot on or off; any other action moves the robot only while the
/// autopilot is off.
pub fn route_key_action(ai_enabled: bool, action: Option<InputAction>) -> (r: KeyRouting)
    ensures
        r.toggled == (action == Some(InputAction::ToggleAI)),
        r.ai_enabled == (ai_enabled != r.toggled),
        r.manual_action == (if !ai_enabled && !r.toggled {
            action
        } else {
            None
        }),
{
    match action {
        Some(InputAction::ToggleAI) => KeyRouting {
            ai_enabled: !ai_enabled,
            toggled: true,
            manual_action: None,
        },
        Some(a) => KeyRouting {
            ai_enabled,
            toggled: false,
            manual_action: if ai_enabled {
                None
            } else {
                Some(a)
            },
        },
        None => KeyRouting { ai_enabled, toggled: false, manual_action: None },
    }
}

/// Whether the autopilot decides this tick: it is on, the robot has power
/// and the game is not over.
pub fn autopilot_acts(ai_enabled: bool, powered_down: bool, game_over: bool) -> (b: bool)
    ensures
        b == (ai_enabled && !powered_down && !game_over),
{
    ai_enabled && !powered_down && !game_over
}

/// Law: with no key just pressed, no action is asked for.
pub proof fn lemma_no_keys_no_action(just_pressed: Seq<bool>)
    requires
        just_pressed.len() == KEY_SLOTS,
        forall|k: int| 0 <= k < KEY_SLOTS ==> !#[trigger] just_pressed[k],
    ensures
        action_for(just_pressed) is None,
{
    assert(!just_pressed[KEY_UP as int]);
    assert(!just_pressed[KEY_DOWN as int]);
    assert(!just_pressed[KEY_LEFT as int]);
    assert(!just_pressed[KEY_RIGHT as int]);
    assert(!just_pressed[KEY_E as int]);
    assert(!just_pressed[KEY_B as int]);
    assert(!just_pressed[KEY_A as int]);
}

/// Law: every key name that the game listens to maps to a key slot whose
/// press alone asks for that key's action, and the arrows ask for moves.
pub proof fn lemma_listened_keys_act(key: Seq<char>)
    requires
        key_code_for(key) is Some,
    ensures
        ({
            let k = key_code_for(key).unwrap();
            let just = Seq::new(KEY_SLOTS as nat, |i: int| i == k);
            &&& k < KEY_SLOTS
            &&& action_for(just) is Some
            &&& key == "ArrowUp"@ ==> action_for(just) == Some(InputAction::MoveUp)
            &&& key == "E"@ ==> action_for(just) == Some(InputAction::Collect)
            &&& key == "B"@ ==> action_for(just) == Some(InputAction::PlaceChargingStation)
            &&& key == "A"@ ==> action_for(just) == Some(InputAction::ToggleAI)
        }),
{
    reveal_strlit("ArrowUp");
    reveal_strlit("ArrowDown");
    reveal_strlit("ArrowLeft");
    reveal_strlit("ArrowRight");
    reveal_strlit("e");
    reveal_strlit("E");
    reveal_strlit("b");
    reveal_strlit("B");
    reveal_strlit("a");
    reveal_strlit("A");
    if key == "E"@ {
        assert(key != "ArrowUp"@ && key != "ArrowDown"@ && key != "ArrowLeft"@ && key
            != "ArrowRight"@) by {
            assert(key.len() == 1);
        }
    }
    if key == "B"@ {
        assert(key != "ArrowUp"@ && key != "ArrowDown"@ && key != "ArrowLeft"@ && key
            != "ArrowRight"@ && key != "e"@ && key != "E"@) by {
            assert(key.len() == 1);
            assert(key[0] == 'B');
        }
    }
    if key == "A"@ {
        assert(key != "ArrowUp"@ && key != "ArrowDown"@ && key != "ArrowLeft"@ && key
            != "ArrowRight"@ && key != "e"@ && key != "E"@ && key != "b"@ && key != "B"@) by {
            assert(key.len() == 1);
            assert(key[0] == 'A');
        }
    }
    let k = key_code_for(key).unwrap();
    let just = Seq::new(KEY_SLOTS as nat, |i: int| i == k);
    assert(just[k as int]);
    assert(forall|i: int| 0 <= i < KEY_SLOTS && i != k ==> !just[i]);
}

} // verus!
