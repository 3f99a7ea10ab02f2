//! The global hotkey state machine: which keys are held, and which
//! shortcuts a key transition fires.

use vstd::prelude::*;

verus! {

/// How many key codes the held-key state tracks.
pub const KEY_COUNT: usize = 256;

pub const KEY_TAB: u8 = 15;

pub const KEY_LEFT_CTRL: u8 = 29;

pub const KEY_LEFT_ALT: u8 = 56;

pub const KEY_SPACE: u8 = 57;

/// What a shortcut asks the front-end to do.
#[derive(Debug, Clone, Copy, PartialEq, Eq, Structural)]
pub enum ShortcutAction {
    /// Show the launcher if hidden, hide it if shown.
    ToggleLauncher,
    /// Show the window switcher, unless something is already shown.
    ShowSwitcher,
    /// Hide the window switcher.
    HideSwitcher,
}

/// A chord: keys that must all be held, and possibly one key whose release
/// must be the transition itself.
pub struct KeyPattern {
    pub held: Vec<u8>,
    pub released: Option<u8>,
}

/// A chord and the action it fires.
pub struct KeyboardShortcut {
    pub pattern: KeyPattern,
    pub action: ShortcutAction,
}

/// Whether the transition of `key`, leaving the held keys `keys`, matches
/// the pattern.
pub open spec fn pattern_matches(p: KeyPattern, key: u8, keys: Seq<bool>) -> bool {
    &&& forall|i: int| 0 <= i < p.held@.len() ==> keys[#[trigger] p.held@[i] as int]
    &&& match p.released {
        Some(k) => key == k && !keys[k as int],
        None => true,
    }
}

/// The actions of the shortcuts that match, in registration order.
pub open spec fn fired(shortcuts: Seq<KeyboardShortcut>, key: u8, keys: Seq<bool>) -> Seq<
    ShortcutAction,
>
    decreases shortcuts.len(),
{
    if shortcuts.len() == 0 {
        seq![]
    } else {
        let f = fired(shortcuts.drop_last(), key, keys);
        if pattern_matches(shortcuts.last().pattern, key, keys) {
            f.push(shortcuts.last().action)
        } else {
            f
        }
    }
}

impl KeyboardShortcut {
    pub fn new(pattern: KeyPattern, action: ShortcutAction) -> (r: KeyboardShortcut)
        ensures
            r.pattern == pattern,
            r.action == action,
    {
        KeyboardShortcut { pattern, action }
    }
}

/// The pattern of a chord of held keys.
pub fn chord(keys: Vec<u8>) -> (r: KeyPattern)
    ensures
        r.held@ == keys@,
        r.released is None,
{
    KeyPattern { held: keys, released: None }
}

/// The pattern of the release of `key`.
pub fn release_of(key: u8) -> (r: KeyPattern)
    ensures
        r.held@.len() == 0,
        r.released == Some(key),
{
    KeyPattern { held: Vec::new(), released: Some(key) }
}

/// The launcher's shortcuts: left Ctrl with Space toggles the launcher, left
/// Alt with Tab shows the switcher, and releasing left Alt hides it.
pub fn default_shortcuts() -> (r: Vec<KeyboardShortcut>)
    ensures
        r.len() == 3,
        r[0].pattern.held@ == seq![KEY_LEFT_CTRL, KEY_SPACE],
        r[0].pattern.released is None,
        r[0].action == ShortcutAction::ToggleLauncher,
        r[1].pattern.held@ == seq![KEY_LEFT_ALT, KEY_TAB],
        r[1].pattern.released is None,
        r[1].action == ShortcutAction::ShowSwitcher,
        r[2].pattern.held@.len() == 0,
        r[2].pattern.released == Some(KEY_LEFT_ALT),
        r[2].action == ShortcutAction::HideSwitcher,
{
    let mut r: Vec<KeyboardShortcut> = Vec::new();
    let toggle = vec![KEY_LEFT_CTRL, KEY_SPACE];
    let switch = vec![KEY_LEFT_ALT, KEY_TAB];
    assert(toggle@ =~= seq![KEY_LEFT_CTRL, KEY_SPACE]);
    assert(switch@ =~= seq![KEY_LEFT_ALT, KEY_TAB]);
    r.push(KeyboardShortcut::new(chord(toggle), ShortcutAction::ToggleLauncher));
    r.push(KeyboardShortcut::new(chord(switch), ShortcutAction::ShowSwitcher));
    r.push(KeyboardShortcut::new(release_of(KEY_LEFT_ALT), ShortcutAction::HideSwitcher));
    r
}

/// Which keys are held, by key code.
pub struct KeyboardState {
    held: Vec<bool>,
}

impl View for KeyboardState {
    type V = Seq<bool>;

    closed spec fn view(&self) -> Seq<bool> {
        self.held@
    }
}

fn pattern_matches_exec(p: &KeyPattern, key: u8, keys: &Vec<bool>) -> (r: bool)
    requires
        keys.len() == KEY_COUNT,
    ensures
        r == pattern_matches(*p, key, keys@),
{
    let mut i: usize = 0;
    while i < p.held.len()
        invariant
            i <= p.held.len(),
            keys.len() == KEY_COUNT,
            forall|j: int| 0 <= j < i ==> keys@[#[trigger] p.held@[j] as int],
        decreases p.held.len() - i,
    {
        if !keys[p.held[i] as usize] {
            return false;
        }
        i = i + 1;
    }
    match p.released {
        Some(k) => key == k && !keys[k as usize],
        None => true,
    }
}

impl KeyboardState {
    #[verifier::type_invariant]
    spec fn one_per_code(self) -> bool {
        self.held@.len() == KEY_COUNT
    }

    /// No key held.
    pub fn new() -> (r: KeyboardState)
        ensures
            r@ == Seq::new(KEY_COUNT as nat, |i: int| false),
    {
        let mut held: Vec<bool> = Vec::new();
        let mut i: usize = 0;
        while i < KEY_COUNT
            invariant
                i <= KEY_COUNT,
                held@ == Seq::new(i as nat, |j: int| false),
            decreases KEY_COUNT - i,
        {
            held.push(false);
            i = i + 1;
            assert(held@ =~= Seq::new(i as nat, |j: int| false));
        }
        KeyboardState { held }
    }

    /// Whether `key` is held.
    pub fn is_held(&self, key: u8) -> (r: bool)
        ensures
            r == self@[key as int],
    {
        proof {
            use_type_invariant(self);
        }
        self.held[key as usize]
    }

    /// Records the transition of `key` (pressed or released) and returns the
    /// actions of the shortcuts that the new state matches, in registration
    /// order. Codes past the tracked range change nothing and fire nothing.
    pub fn dispatch(&mut self, key: u32, pressed: bool, shortcuts: &Vec<KeyboardShortcut>) -> (r:
        Vec<ShortcutAction>)
        ensures
            key >= KEY_COUNT ==> final(self)@ == old(self)@ && r@.len() == 0,
            key < KEY_COUNT ==> final(self)@ == old(self)@.update(key as int, pressed) && r@
                == fired(shortcuts@, key as u8, final(self)@),
    {
        proof {
            use_type_invariant(&*self);
        }
        let mut r: Vec<ShortcutAction> = Vec::new();
        if key as usize >= KEY_COUNT {
            return r;
        }
        let mut held = self.held.clone();
        assert(held@ =~= self.held@);
        held.set(key as usize, pressed);
        self.held = held;
        let code = key as u8;
        let mut i: usize = 0;
        while i < shortcuts.len()
            invariant
                i <= shortcuts.len(),
                self.held.len() == KEY_COUNT,
                r@ == fired(shortcuts@.subrange(0, i as int), code, self.held@),
            decreases shortcuts.len() - i,
        {
            assert(shortcuts@.subrange(0, i + 1).drop_last() =~= shortcuts@.subrange(0, i as int));
            if pattern_matches_exec(&shortcuts[i].pattern, code, &self.held) {
                r.push(shortcuts[i].action);
            }
            i = i + 1;
        }
        assert(shortcuts@.subrange(0, shortcuts.len() as int) =~= shortcuts@);
        r
    }
}

} // verus!
