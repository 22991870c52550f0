use d3_settings::settings::KeyCode::{Down, Enter, Left, Mod, Right, SemiColon, Shift, Up, D, J, K, L, Q};
use d3_settings::settings::{
    render, Action, Config, Direction, ExecParams, KeyBindings, KeyCode, ModifierEnum,
};

fn run(command: &str) -> Action {
    Action::Exec(ExecParams {
        command: command.to_string(),
        no_startup_id: None,
        always_run: None,
    })
}

#[test]
fn exec_params_new_sets_only_the_command() {
    let params = ExecParams::new("ulauncher");
    assert_eq!(params.command, "ulauncher");
    assert_eq!(params.no_startup_id, None);
    assert_eq!(params.always_run, None);
    assert_eq!(ExecParams::new("").command, "");
}

#[test]
fn the_default_modifier_is_meta() {
    assert_eq!(ModifierEnum::default(), ModifierEnum::Meta);
}

#[test]
fn modifiers_are_written_by_their_window_manager_names() {
    assert_eq!(ModifierEnum::Meta.to_string(), "Mod4");
    assert_eq!(ModifierEnum::Alt.to_string(), "Mod1");
}

#[test]
fn a_new_table_is_empty() {
    let table = KeyBindings::new();
    assert_eq!(table.len(), 0);
    assert_eq!(table.get(&vec![]), None);
    assert_eq!(KeyBindings::default().len(), 0);
}

#[test]
fn insert_binds_a_new_chord_and_returns_nothing() {
    let mut table = KeyBindings::new();
    assert_eq!(table.insert(vec![KeyCode::Mod, KeyCode::A], Action::Kill), None);
    assert_eq!(table.len(), 1);
    assert_eq!(table.get(&vec![KeyCode::Mod, KeyCode::A]), Some(&Action::Kill));
    assert_eq!(table.get(&vec![KeyCode::Mod]), None);
    assert_eq!(table.get(&vec![KeyCode::Mod, KeyCode::A, KeyCode::A]), None);
}

#[test]
fn insert_on_a_bound_chord_replaces_and_returns_the_old_action() {
    let mut table = KeyBindings::new();
    table.insert(vec![KeyCode::Mod, KeyCode::A], Action::Kill);
    table.insert(vec![KeyCode::Mod, KeyCode::B], run("first"));
    table.insert(vec![KeyCode::Mod, KeyCode::C], Action::Focus(Direction::Up));
    let old = table.insert(vec![KeyCode::Mod, KeyCode::B], run("second"));
    assert_eq!(old, Some(run("first")));
    assert_eq!(table.len(), 3);
    assert_eq!(table.get(&vec![KeyCode::Mod, KeyCode::A]), Some(&Action::Kill));
    assert_eq!(table.get(&vec![KeyCode::Mod, KeyCode::B]), Some(&run("second")));
    assert_eq!(
        table.get(&vec![KeyCode::Mod, KeyCode::C]),
        Some(&Action::Focus(Direction::Up))
    );
    let old = table.insert(vec![KeyCode::Mod, KeyCode::C], Action::Move(Direction::Down));
    assert_eq!(old, Some(Action::Focus(Direction::Up)));
    assert_eq!(table.len(), 3);
    assert_eq!(
        table.into_entries(),
        vec![
            (vec![KeyCode::Mod, KeyCode::A], Action::Kill),
            (vec![KeyCode::Mod, KeyCode::B], run("second")),
            (vec![KeyCode::Mod, KeyCode::C], Action::Move(Direction::Down)),
        ]
    );
}

#[test]
fn chords_differ_by_order_and_length() {
    let mut table = KeyBindings::new();
    table.insert(vec![KeyCode::A, KeyCode::B], Action::Focus(Direction::Left));
    table.insert(vec![KeyCode::B, KeyCode::A], Action::Focus(Direction::Right));
    table.insert(vec![], Action::Kill);
    assert_eq!(table.len(), 3);
    assert_eq!(
        table.get(&vec![KeyCode::A, KeyCode::B]),
        Some(&Action::Focus(Direction::Left))
    );
    assert_eq!(
        table.get(&vec![KeyCode::B, KeyCode::A]),
        Some(&Action::Focus(Direction::Right))
    );
    assert_eq!(table.get(&vec![]), Some(&Action::Kill));
    assert_eq!(table.get(&vec![KeyCode::A]), None);
}

#[test]
fn default_config_has_the_plain_fields_unset() {
    let config = Config::default();
    assert_eq!(config.modifier, ModifierEnum::Meta);
    assert_eq!(config.preferred_terminal, None);
    assert!(config.startup_apps.is_empty());
    assert!(config.includes.is_empty());
}

#[test]
fn default_config_binds_twenty_chords() {
    let bindings = Config::default().key_bindings;
    assert_eq!(bindings.len(), 20);
    let expected = vec![
        (vec![Mod, Enter], run("i3-sensible-terminal")),
        (vec![Mod, D], run("ulauncher")),
        (vec![Mod, Q], Action::Kill),
        (vec![], run("pcmanfm")),
        (vec![Mod, J], Action::Focus(Direction::Left)),
        (vec![Mod, K], Action::Focus(Direction::Down)),
        (vec![Mod, L], Action::Focus(Direction::Up)),
        (vec![Mod, SemiColon], Action::Focus(Direction::Right)),
        (vec![Mod, Left], Action::Focus(Direction::Left)),
        (vec![Mod, Down], Action::Focus(Direction::Down)),
        (vec![Mod, Up], Action::Focus(Direction::Up)),
        (vec![Mod, Right], Action::Focus(Direction::Right)),
        (vec![Mod, Shift, J], Action::Move(Direction::Left)),
        (vec![Mod, Shift, K], Action::Move(Direction::Down)),
        (vec![Mod, Shift, L], Action::Move(Direction::Up)),
        (vec![Mod, Shift, SemiColon], Action::Move(Direction::Right)),
        (vec![Mod, Shift, Left], Action::Move(Direction::Left)),
        (vec![Mod, Shift, Down], Action::Move(Direction::Down)),
        (vec![Mod, Shift, Up], Action::Move(Direction::Up)),
        (vec![Mod, Shift, Right], Action::Move(Direction::Right)),
    ];
    for (chord, action) in &expected {
        assert_eq!(bindings.get(chord), Some(action));
    }
    assert_eq!(bindings.get(&vec![Mod]), None);
    assert_eq!(bindings.get(&vec![Mod, Shift]), None);
    assert_eq!(bindings.get(&vec![Mod, Shift, Q]), None);
    assert_eq!(bindings.into_entries(), expected);
}

#[test]
fn config_text_names_the_modifier() {
    let mut config = Config::default();
    assert_eq!(
        config.to_string(),
        "# This config file was generated by d3, any modifications will be overwritten\n\nset $mod Mod4\n"
    );
    config.modifier = ModifierEnum::Alt;
    assert_eq!(
        config.to_string(),
        "# This config file was generated by d3, any modifications will be overwritten\n\nset $mod Mod1\n"
    );
}

#[test]
fn render_writes_the_notice_and_the_modifier_line() {
    assert_eq!(
        render(ModifierEnum::Alt),
        "# This config file was generated by d3, any modifications will be overwritten\n\nset $mod Mod1\n"
    );
    assert_eq!(render(ModifierEnum::Meta), Config::default().to_string());
}

#[test]
fn actions_compare_by_what_they_hold() {
    assert_eq!(run("a"), run("a"));
    assert_ne!(run("a"), run("b"));
    assert_ne!(Action::Focus(Direction::Left), Action::Move(Direction::Left));
    assert_eq!(run("a").clone(), run("a"));
}
