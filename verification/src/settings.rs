//! The settings model: the modifier key, key codes, actions, the table of
//! key bindings and the configuration that holds them.

use vstd::prelude::*;

verus! {

/// The key that starts every window-manager shortcut.
#[derive(Debug, Clone, Copy, PartialEq, Eq, Structural)]
pub enum ModifierEnum {
    Alt,
    Meta,
}

impl Default for ModifierEnum {
    fn default() -> (r: Self)
        ensures
            r == ModifierEnum::Meta,
    {
        ModifierEnum::Meta
    }
}

impl ModifierEnum {
    /// The name the window manager knows the key by.
    pub open spec fn code(self) -> Seq<char> {
        match self {
            ModifierEnum::Meta => seq!['M', 'o', 'd', '4'],
            ModifierEnum::Alt => seq!['M', 'o', 'd', '1'],
        }
    }

    /// The name the window manager knows the key by, as a string.
    pub fn to_string(&self) -> (s: String)
        ensures
            s@ == self.code(),
    {
        proof {
            reveal_strlit("Mod4");
            reveal_strlit("Mod1");
        }
        match self {
            ModifierEnum::Meta => {
                assert("Mod4"@ =~= self.code());
                "Mod4".to_owned()
            },
            ModifierEnum::Alt => {
                assert("Mod1"@ =~= self.code());
                "Mod1".to_owned()
            },
        }
    }
}

/// A key of the keyboard.
#[derive(Debug, Clone, Copy, PartialEq, Eq, Hash, Structural)]
pub enum KeyCode {
    Mod,
    Ctrl,
    Shift,
    A,
    B,
    C,
    D,
    E,
    F,
    G,
    H,
    I,
    J,
    K,
    L,
    M,
    N,
    O,
    P,
    Q,
    R,
    S,
    T,
    U,
    V,
    W,
    X,
    Y,
    Z,
    N1,
    N2,
    N3,
    N4,
    N5,
    N6,
    N7,
    N8,
    N9,
    N0,
    Tidle,
    Dash,
    Equal,
    Backspace,
    Enter,
    Space,
    Tab,
    Left,
    Right,
    Up,
    Down,
    ForwardSlash,
    F1,
    F2,
    F3,
    F4,
    F5,
    F6,
    F7,
    F8,
    F9,
    F10,
    F11,
    F12,
    Escape,
    SemiColon,
}

/// A command to run, and how.
#[derive(Debug, Clone, PartialEq, Eq)]
pub struct ExecParams {
    pub command: String,
    pub no_startup_id: Option<bool>,
    /// Only for a startup application: where this is `Some(true)` the
    /// command runs after every restart, otherwise at the first start only.
    pub always_run: Option<bool>,
}

/// What an `ExecParams` holds, over a plain sequence of characters.
pub struct ExecParamsView {
    pub command: Seq<char>,
    pub no_startup_id: Option<bool>,
    pub always_run: Option<bool>,
}

impl View for ExecParams {
    type V = ExecParamsView;

    open spec fn view(&self) -> ExecParamsView {
        ExecParamsView {
            command: self.command@,
            no_startup_id: self.no_startup_id,
            always_run: self.always_run,
        }
    }
}

/// The parameters that run `command` with nothing else set.
pub open spec fn plain_command(command: Seq<char>) -> ExecParamsView {
    ExecParamsView { command, no_startup_id: None, always_run: None }
}

impl ExecParams {
    /// Parameters that run `command`, with both options left open.
    pub fn new(command: &str) -> (params: Self)
        ensures
            params@ == plain_command(command@),
    {
        ExecParams { command: command.to_owned(), no_startup_id: None, always_run: None }
    }
}

#[derive(Debug, Clone, Copy, PartialEq, Eq, Structural)]
pub enum Direction {
    Left,
    Right,
    Up,
    Down,
}

/// What a key binding or a startup entry does.
#[derive(Debug, Clone, PartialEq, Eq)]
pub enum Action {
    Kill,
    Exec(ExecParams),
    Focus(Direction),
    Move(Direction),
}

/// What an `Action` stands for.
pub enum ActionView {
    Kill,
    Exec(ExecParamsView),
    Focus(Direction),
    Move(Direction),
}

impl View for Action {
    type V = ActionView;

    open spec fn view(&self) -> ActionView {
        match self {
            Action::Kill => ActionView::Kill,
            Action::Exec(p) => ActionView::Exec(p@),
            Action::Focus(d) => ActionView::Focus(*d),
            Action::Move(d) => ActionView::Move(*d),
        }
    }
}

/// A chord of keys with the action it is bound to, as plain values.
pub type Binding = (Seq<KeyCode>, ActionView);

/// Some binding of `pairs` is for the chord `keys`.
pub open spec fn has_chord(pairs: Seq<Binding>, keys: Seq<KeyCode>) -> bool {
    exists|i: int| 0 <= i < pairs.len() && (#[trigger] pairs[i]).0 == keys
}

/// The place of a binding for the chord `keys` in `pairs`.
pub open spec fn chord_index(pairs: Seq<Binding>, keys: Seq<KeyCode>) -> int {
    choose|i: int| 0 <= i < pairs.len() && (#[trigger] pairs[i]).0 == keys
}

/// No chord is bound twice in `pairs`.
pub open spec fn distinct_chords(pairs: Seq<Binding>) -> bool {
    forall|i: int, j: int|
        0 <= i < j < pairs.len() ==> (#[trigger] pairs[i]).0 != (#[trigger] pairs[j]).0
}

/// The bindings `pairs` as a map from chords to actions.
pub open spec fn table(pairs: Seq<Binding>) -> Map<Seq<KeyCode>, ActionView> {
    Map::new(
        |keys: Seq<KeyCode>| has_chord(pairs, keys),
        |keys: Seq<KeyCode>| pairs[chord_index(pairs, keys)].1,
    )
}

/// Where no chord is bound twice, the map gives each binding its action.
pub proof fn lemma_table_lookup(pairs: Seq<Binding>, i: int)
    requires
        distinct_chords(pairs),
        0 <= i < pairs.len(),
    ensures
        table(pairs).contains_key(pairs[i].0),
        table(pairs)[pairs[i].0] == pairs[i].1,
{
    let keys = pairs[i].0;
    assert(has_chord(pairs, keys));
    let j = chord_index(pairs, keys);
    assert(0 <= j < pairs.len() && pairs[j].0 == keys);
    if j < i {
        assert(pairs[j].0 != pairs[i].0);
    } else if i < j {
        assert(pairs[i].0 != pairs[j].0);
    }
}

/// Binding a chord anew, in place where it was bound before and at the end
/// where it was not, is an insertion into the map.
proof fn lemma_table_insert(
    before: Seq<Binding>,
    after: Seq<Binding>,
    keys: Seq<KeyCode>,
    action: ActionView,
    at: int,
)
    requires
        distinct_chords(before),
        0 <= at <= before.len(),
        at < before.len() ==> before[at].0 == keys && after == before.update(at, (keys, action)),
        at == before.len() ==> !has_chord(before, keys) && after == before.push((keys, action)),
    ensures
        distinct_chords(after),
        table(after) == table(before).insert(keys, action),
        has_chord(before, keys) <==> at < before.len(),
{
    assert forall|i: int, j: int| 0 <= i < j < after.len() implies (#[trigger] after[i]).0 != (
    #[trigger] after[j]).0 by {
        if j < before.len() {
            assert(before[i].0 != before[j].0);
        } else {
            assert(!has_chord(before, keys));
            assert(before[i].0 != keys);
        }
    }
    if at < before.len() {
        assert(has_chord(before, keys));
    }
    assert(after[at] == (keys, action));
    lemma_table_lookup(after, at);
    let want = table(before).insert(keys, action);
    assert forall|k: Seq<KeyCode>| table(after).contains_key(k) <==> want.contains_key(k) by {
        if table(after).contains_key(k) {
            let i = chord_index(after, k);
            assert(0 <= i < after.len() && after[i].0 == k);
            if i != at {
                assert(before[i].0 == k);
                assert(has_chord(before, k));
            }
        }
        if want.contains_key(k) && k != keys {
            let i = chord_index(before, k);
            assert(0 <= i < before.len() && before[i].0 == k);
            assert(after[i].0 == k);
            assert(has_chord(after, k));
        }
    }
    assert forall|k: Seq<KeyCode>| table(after).contains_key(k) implies table(after)[k]
        == want[k] by {
        let i = chord_index(after, k);
        assert(0 <= i < after.len() && after[i].0 == k);
        lemma_table_lookup(after, i);
        if i != at {
            assert(before[i].0 == k);
            lemma_table_lookup(before, i);
            if at < before.len() {
                if i < at {
                    assert(before[i].0 != before[at].0);
                } else {
                    assert(before[at].0 != before[i].0);
                }
            } else {
                assert(has_chord(before, k));
            }
        }
    }
    assert(table(after) =~= want);
}

/// Whether two chords are the same keys in the same order.
fn same_chord(a: &Vec<KeyCode>, b: &Vec<KeyCode>) -> (same: bool)
    ensures
        same == (a@ == b@),
{
    if a.len() != b.len() {
        return false;
    }
    let mut i: usize = 0;
    while i < a.len()
        invariant
            a.len() == b.len(),
            i <= a.len(),
            forall|k: int| 0 <= k < i ==> a@[k] == b@[k],
        decreases a.len() - i,
    {
        if a[i] != b[i] {
            return false;
        }
        i += 1;
    }
    assert(a@ =~= b@);
    true
}

/// The table of key bindings: every chord of keys has at most one action.
pub struct KeyBindings {
    entries: Vec<(Vec<KeyCode>, Action)>,
}

impl View for KeyBindings {
    type V = Map<Seq<KeyCode>, ActionView>;

    /// The action of each bound chord.
    open spec fn view(&self) -> Map<Seq<KeyCode>, ActionView> {
        table(self.pairs())
    }
}

impl KeyBindings {
    /// The bindings in the order in which their chords were first bound.
    pub closed spec fn pairs(&self) -> Seq<Binding> {
        self.entries@.map_values(|e: (Vec<KeyCode>, Action)| (e.0@, e.1@))
    }

    /// No chord is bound twice, so the map has as many chords as there are
    /// bindings.
    pub open spec fn wf(&self) -> bool {
        &&& distinct_chords(self.pairs())
        &&& self@.dom().finite()
        &&& self@.dom().len() == self.pairs().len()
    }

    /// A table without bindings.
    pub fn new() -> (bindings: Self)
        ensures
            bindings.wf(),
            bindings@ == Map::<Seq<KeyCode>, ActionView>::empty(),
    {
        let bindings = KeyBindings { entries: Vec::new() };
        assert(bindings@ =~= Map::<Seq<KeyCode>, ActionView>::empty());
        bindings
    }

    /// The number of bound chords.
    pub fn len(&self) -> (n: usize)
        requires
            self.wf(),
        ensures
            n == self@.dom().len(),
    {
        self.entries.len()
    }

    /// The bindings as a list, in the order in which their chords were
    /// first bound.
    pub fn into_entries(self) -> (entries: Vec<(Vec<KeyCode>, Action)>)
        ensures
            entries@.map_values(|e: (Vec<KeyCode>, Action)| (e.0@, e.1@)) == self.pairs(),
    {
        self.entries
    }

    /// Where `keys` is bound in `entries`, or the length where it is not.
    fn position(&self, keys: &Vec<KeyCode>) -> (at: usize)
        ensures
            at <= self.pairs().len(),
            at < self.pairs().len() ==> self.pairs()[at as int].0 == keys@,
            at == self.pairs().len() ==> !has_chord(self.pairs(), keys@),
    {
        let mut i: usize = 0;
        while i < self.entries.len()
            invariant
                i <= self.entries.len(),
                forall|k: int| 0 <= k < i ==> (#[trigger] self.pairs()[k]).0 != keys@,
            decreases self.entries.len() - i,
        {
            if same_chord(&self.entries[i].0, keys) {
                return i;
            }
            i += 1;
        }
        i
    }

    /// The action bound to `keys`, if there is one.
    pub fn get(&self, keys: &Vec<KeyCode>) -> (found: Option<&Action>)
        requires
            self.wf(),
        ensures
            match found {
                Some(action) => self@.contains_key(keys@) && action@ == self@[keys@],
                None => !self@.contains_key(keys@),
            },
    {
        let at = self.position(keys);
        if at < self.entries.len() {
            proof {
                lemma_table_lookup(self.pairs(), at as int);
            }
            Some(&self.entries[at].1)
        } else {
            None
        }
    }

    /// Binds `keys` to `action`. A chord that was bound before keeps its
    /// place and gets the new action; the action it had is returned.
    pub fn insert(&mut self, keys: Vec<KeyCode>, action: Action) -> (previous: Option<Action>)
        requires
            old(self).wf(),
        ensures
            final(self).wf(),
            final(self)@ == old(self)@.insert(keys@, action@),
            final(self).pairs() == if has_chord(old(self).pairs(), keys@) {
                old(self).pairs().update(
                    chord_index(old(self).pairs(), keys@),
                    (keys@, action@),
                )
            } else {
                old(self).pairs().push((keys@, action@))
            },
            match previous {
                Some(a) => old(self)@.contains_key(keys@) && a@ == old(self)@[keys@],
                None => !old(self)@.contains_key(keys@),
            },
    {
        let at = self.position(&keys);
        let bound = at < self.entries.len();
        let ghost before = self.pairs();
        let ghost k = keys@;
        let ghost a = action@;
        self.entries.push((keys, action));
        assert(self.pairs() =~= before.push((k, a)));
        if bound {
            let gone = self.entries.swap_remove(at);
            proof {
                assert(self.pairs() =~= before.update(at as int, (k, a)));
                lemma_table_lookup(before, at as int);
                assert(chord_index(before, k) == at) by {
                    assert(has_chord(before, k));
                    let j = chord_index(before, k);
                    if j < at {
                        assert(before[j].0 != before[at as int].0);
                    } else if at < j {
                        assert(before[at as int].0 != before[j].0);
                    }
                }
                lemma_table_insert(before, self.pairs(), k, a, at as int);
                assert(table(before).insert(k, a).dom() =~= table(before).dom());
            }
            Some(gone.1)
        } else {
            proof {
                lemma_table_insert(before, self.pairs(), k, a, at as int);
                assert(table(before).insert(k, a).dom() =~= table(before).dom().insert(k));
            }
            None
        }
    }
}

impl Default for KeyBindings {
    fn default() -> (bindings: Self)
        ensures
            bindings.wf(),
            bindings@ == Map::<Seq<KeyCode>, ActionView>::empty(),
    {
        KeyBindings::new()
    }
}

/// The key bindings that a new configuration starts with.
pub open spec fn default_bindings() -> Map<Seq<KeyCode>, ActionView> {
    Map::<Seq<KeyCode>, ActionView>::empty()
        .insert(seq![KeyCode::Mod, KeyCode::Enter], ActionView::Exec(plain_command("i3-sensible-terminal"@)))
        .insert(seq![KeyCode::Mod, KeyCode::D], ActionView::Exec(plain_command("ulauncher"@)))
        .insert(seq![KeyCode::Mod, KeyCode::Q], ActionView::Kill)
        .insert(Seq::<KeyCode>::empty(), ActionView::Exec(plain_command("pcmanfm"@)))
        .insert(seq![KeyCode::Mod, KeyCode::J], ActionView::Focus(Direction::Left))
        .insert(seq![KeyCode::Mod, KeyCode::K], ActionView::Focus(Direction::Down))
        .insert(seq![KeyCode::Mod, KeyCode::L], ActionView::Focus(Direction::Up))
        .insert(seq![KeyCode::Mod, KeyCode::SemiColon], ActionView::Focus(Direction::Right))
        .insert(seq![KeyCode::Mod, KeyCode::Left], ActionView::Focus(Direction::Left))
        .insert(seq![KeyCode::Mod, KeyCode::Down], ActionView::Focus(Direction::Down))
        .insert(seq![KeyCode::Mod, KeyCode::Up], ActionView::Focus(Direction::Up))
        .insert(seq![KeyCode::Mod, KeyCode::Right], ActionView::Focus(Direction::Right))
        .insert(seq![KeyCode::Mod, KeyCode::Shift, KeyCode::J], ActionView::Move(Direction::Left))
        .insert(seq![KeyCode::Mod, KeyCode::Shift, KeyCode::K], ActionView::Move(Direction::Down))
        .insert(seq![KeyCode::Mod, KeyCode::Shift, KeyCode::L], ActionView::Move(Direction::Up))
        .insert(seq![KeyCode::Mod, KeyCode::Shift, KeyCode::SemiColon], ActionView::Move(Direction::Right))
        .insert(seq![KeyCode::Mod, KeyCode::Shift, KeyCode::Left], ActionView::Move(Direction::Left))
        .insert(seq![KeyCode::Mod, KeyCode::Shift, KeyCode::Down], ActionView::Move(Direction::Down))
        .insert(seq![KeyCode::Mod, KeyCode::Shift, KeyCode::Up], ActionView::Move(Direction::Up))
        .insert(seq![KeyCode::Mod, KeyCode::Shift, KeyCode::Right], ActionView::Move(Direction::Right))
}

/// The settings from which the window manager's configuration is written.
pub struct Config {
    pub modifier: ModifierEnum,
    pub preferred_terminal: Option<String>,
    pub key_bindings: KeyBindings,
    pub startup_apps: Vec<Action>,
    /// Other files to take into the written configuration.
    pub includes: Vec<String>,
}

impl Default for Config {
    fn default() -> (config: Self)
        ensures
            config.modifier == ModifierEnum::Meta,
            config.preferred_terminal is None,
            config.key_bindings.wf(),
            config.key_bindings@ == default_bindings(),
            config.startup_apps@.len() == 0,
            config.includes@.len() == 0,
    {
        let mut key_bindings = KeyBindings::new();
        key_bindings.insert(vec![KeyCode::Mod, KeyCode::Enter], Action::Exec(ExecParams::new("i3-sensible-terminal")));
        // To be replaced by a launcher of our own.
        key_bindings.insert(vec![KeyCode::Mod, KeyCode::D], Action::Exec(ExecParams::new("ulauncher")));
        key_bindings.insert(vec![KeyCode::Mod, KeyCode::Q], Action::Kill);
        // To be replaced by a file manager of our own.
        key_bindings.insert(Vec::new(), Action::Exec(ExecParams::new("pcmanfm")));
        // Focus, with the keys of vim.
        key_bindings.insert(vec![KeyCode::Mod, KeyCode::J], Action::Focus(Direction::Left));
        key_bindings.insert(vec![KeyCode::Mod, KeyCode::K], Action::Focus(Direction::Down));
        key_bindings.insert(vec![KeyCode::Mod, KeyCode::L], Action::Focus(Direction::Up));
        key_bindings.insert(vec![KeyCode::Mod, KeyCode::SemiColon], Action::Focus(Direction::Right));
        // Focus, with the arrow keys.
        key_bindings.insert(vec![KeyCode::Mod, KeyCode::Left], Action::Focus(Direction::Left));
        key_bindings.insert(vec![KeyCode::Mod, KeyCode::Down], Action::Focus(Direction::Down));
        key_bindings.insert(vec![KeyCode::Mod, KeyCode::Up], Action::Focus(Direction::Up));
        key_bindings.insert(vec![KeyCode::Mod, KeyCode::Right], Action::Focus(Direction::Right));
        // Move, with the keys of vim.
        key_bindings.insert(vec![KeyCode::Mod, KeyCode::Shift, KeyCode::J], Action::Move(Direction::Left));
        key_bindings.insert(vec![KeyCode::Mod, KeyCode::Shift, KeyCode::K], Action::Move(Direction::Down));
        key_bindings.insert(vec![KeyCode::Mod, KeyCode::Shift, KeyCode::L], Action::Move(Direction::Up));
        key_bindings.insert(vec![KeyCode::Mod, KeyCode::Shift, KeyCode::SemiColon], Action::Move(Direction::Right));
        // Move, with the arrow keys.
        key_bindings.insert(vec![KeyCode::Mod, KeyCode::Shift, KeyCode::Left], Action::Move(Direction::Left));
        key_bindings.insert(vec![KeyCode::Mod, KeyCode::Shift, KeyCode::Down], Action::Move(Direction::Down));
        key_bindings.insert(vec![KeyCode::Mod, KeyCode::Shift, KeyCode::Up], Action::Move(Direction::Up));
        key_bindings.insert(vec![KeyCode::Mod, KeyCode::Shift, KeyCode::Right], Action::Move(Direction::Right));

        Self {
            modifier: ModifierEnum::default(),
            includes: Vec::new(),
            preferred_terminal: None,
            key_bindings,
            startup_apps: Vec::new(),
        }
    }
}

/// The configuration text for settings with the modifier key `modifier`: a
/// notice to the reader, then the line that sets the key.
pub open spec fn rendered(modifier: ModifierEnum) -> Seq<char> {
    "# This config file was generated by d3, any modifications will be overwritten\n\n"@
        + "set $mod "@ + modifier.code() + "\n"@
}

/// Writes the configuration text for settings with the modifier key
/// `modifier`.
pub fn render(modifier: ModifierEnum) -> (text: String)
    ensures
        text@ == rendered(modifier),
{
    let mut text =
        "# This config file was generated by d3, any modifications will be overwritten\n\n".to_owned();
    text.append("set $mod ");
    text.append(modifier.to_string().as_str());
    text.append("\n");
    text
}

impl Config {
    /// The configuration text that these settings stand for.
    pub fn to_string(&self) -> (text: String)
        ensures
            text@ == rendered(self.modifier),
    {
        render(self.modifier)
    }
}

} // verus!
