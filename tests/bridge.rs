use strata::bindings::{
    capture, collect_action_errors, BindingDeclarationError, BindingTable, EntryProblem, NotCallable,
};
use strata::config::{convert, Problem};
use strata::host::{install_host_api, SET_BINDINGS, SPAWN, SPAWN_NOW};
use strata::registry::{CallError, ModuleRegistry};
use strata::value::{get_field, ScriptValue, ValueKind};

fn text(s: &str) -> ScriptValue {
    ScriptValue::Str(s.to_string())
}

fn table(entries: Vec<(&str, ScriptValue)>) -> ScriptValue {
    ScriptValue::Table(entries.into_iter().map(|(k, v)| (k.to_string(), v)).collect())
}

fn list(items: Vec<ScriptValue>) -> ScriptValue {
    ScriptValue::List(items)
}

fn path(names: &[&str]) -> Vec<String> {
    names.iter().map(|s| s.to_string()).collect()
}

fn keys(names: &[&str]) -> ScriptValue {
    list(names.iter().map(|s| text(s)).collect())
}

fn binding(names: &[&str], action: u64) -> ScriptValue {
    table(vec![("keys", keys(names)), ("cmd", ScriptValue::Function(action))])
}

fn trigger(event: &str, class_name: &str) -> ScriptValue {
    table(vec![("event", text(event)), ("class_name", text(class_name))])
}

fn rule(triggers: Vec<ScriptValue>, action: u64) -> ScriptValue {
    table(vec![("triggers", list(triggers)), ("action", ScriptValue::Function(action))])
}

#[test]
fn get_or_create_twice_gives_same_module() {
    let mut reg = ModuleRegistry::new();
    let first = reg.get_or_create_module(&path(&["strata"])).unwrap();
    let entries = reg.entries.len();
    let count = reg.count;
    let second = reg.get_or_create_module(&path(&["strata"])).unwrap();
    assert_eq!(first, second);
    assert_eq!(reg.entries.len(), entries);
    assert_eq!(reg.count, count);
}

#[test]
fn nested_path_creates_intermediate_modules() {
    let mut reg = ModuleRegistry::new();
    let deep = reg.get_or_create_module(&path(&["a", "b", "c"])).unwrap();
    assert_eq!(reg.count, 4);
    let again = reg.get_or_create_module(&path(&["a", "b", "c"])).unwrap();
    assert_eq!(deep, again);
    let mid = reg.get_or_create_module(&path(&["a", "b"])).unwrap();
    assert_ne!(mid, deep);
    assert_eq!(reg.count, 4);
}

#[test]
fn sub_module_lives_under_strata() {
    let mut reg = ModuleRegistry::new();
    let cmd = reg.get_or_create_sub_module(&"cmd".to_string()).unwrap();
    let same = reg.get_or_create_module(&path(&["strata", "cmd"])).unwrap();
    assert_eq!(cmd, same);
}

#[test]
fn conflict_at_top_level() {
    let mut reg = ModuleRegistry::new();
    reg.set_value(0, &"strata".to_string(), ScriptValue::Integer(3));
    let err = reg.get_or_create_module(&path(&["strata", "cmd"])).unwrap_err();
    assert_eq!(err.path, path(&["strata"]));
    assert_eq!(err.found, ValueKind::Integer);
}

#[test]
fn conflict_at_depth() {
    let mut reg = ModuleRegistry::new();
    let strata = reg.get_or_create_module(&path(&["strata"])).unwrap();
    reg.set_value(strata, &"cmd".to_string(), text("oops"));
    let count = reg.count;
    let entries = reg.entries.len();
    let err = reg.get_or_create_sub_module(&"cmd".to_string()).unwrap_err();
    assert_eq!(err.path, path(&["strata", "cmd"]));
    assert_eq!(err.found, ValueKind::Str);
    assert_eq!(reg.count, count);
    assert_eq!(reg.entries.len(), entries);
    let deeper = reg.get_or_create_module(&path(&["strata", "cmd", "x"])).unwrap_err();
    assert_eq!(deeper.path, path(&["strata", "cmd"]));
}

#[test]
fn conflict_with_command() {
    let mut reg = ModuleRegistry::new();
    reg.register_command(0, &"f".to_string(), 9, vec![]);
    let err = reg.get_or_create_module(&path(&["f"])).unwrap_err();
    assert_eq!(err.found, ValueKind::Function);
}

#[test]
fn host_api_installs_commands() {
    let mut reg = ModuleRegistry::new();
    let m = install_host_api(&mut reg).unwrap();
    assert_eq!(reg.call_command(m.api, &"spawn".to_string(), &vec![text("kitty")]), Ok(SPAWN_NOW));
    assert_eq!(reg.call_command(m.cmd, &"spawn".to_string(), &vec![text("kitty")]), Ok(SPAWN));
    assert_eq!(
        reg.call_command(m.strata, &"set_bindings".to_string(), &vec![list(vec![])]),
        Ok(SET_BINDINGS)
    );
    let strata = reg.get_or_create_module(&path(&["strata"])).unwrap();
    assert_eq!(strata, m.strata);
}

#[test]
fn command_with_wrong_argument_is_refused() {
    let mut reg = ModuleRegistry::new();
    let m = install_host_api(&mut reg).unwrap();
    let spawn = "spawn".to_string();
    assert_eq!(
        reg.call_command(m.cmd, &spawn, &vec![ScriptValue::Integer(1)]),
        Err(CallError::ArgType { index: 0, expected: ValueKind::Str, found: ValueKind::Integer })
    );
    assert_eq!(reg.call_command(m.cmd, &spawn, &vec![]), Err(CallError::ArgCount { params: 1, args: 0 }));
    assert_eq!(reg.call_command(m.cmd, &"nope".to_string(), &vec![]), Err(CallError::NoSuchCommand));
    assert_eq!(
        reg.call_command(m.strata, &"cmd".to_string(), &vec![]),
        Err(CallError::NotCallable(ValueKind::Table))
    );
}

#[test]
fn command_can_be_replaced() {
    let mut reg = ModuleRegistry::new();
    let name = "go".to_string();
    reg.register_command(0, &name, 1, vec![ValueKind::Str]);
    reg.register_command(0, &name, 2, vec![ValueKind::Integer]);
    assert_eq!(reg.call_command(0, &name, &vec![ScriptValue::Integer(4)]), Ok(2));
    assert!(reg.call_command(0, &name, &vec![text("x")]).is_err());
}

#[test]
fn empty_general_gives_defaults() {
    let cfg = convert(&table(vec![("general", table(vec![]))])).unwrap();
    assert_eq!(cfg.general.workspaces, 5);
    assert_eq!(cfg.general.in_gaps, 5);
    assert_eq!(cfg.general.out_gaps, 10);
    assert_eq!(cfg.general.kb_repeat, vec![200, 25]);
}

#[test]
fn workspaces_given_others_defaulted() {
    let cfg = convert(&table(vec![("general", table(vec![("workspaces", ScriptValue::Integer(4))]))])).unwrap();
    assert_eq!(cfg.general.workspaces, 4);
    assert_eq!(cfg.general.in_gaps, 5);
    assert_eq!(cfg.general.out_gaps, 10);
    assert_eq!(cfg.general.kb_repeat, vec![200, 25]);
}

#[test]
fn absent_config_gives_all_defaults() {
    let cfg = convert(&ScriptValue::Nil).unwrap();
    assert_eq!(cfg.general.workspaces, 5);
    assert_eq!(cfg.window_decorations.border_width, 2);
    assert_eq!(cfg.window_decorations.border_active, "#ffffff");
    assert_eq!(cfg.window_decorations.window_opacity, 1000);
    assert!(!cfg.window_decorations.blur_enable);
    assert_eq!(cfg.tiling.layout, "dwindle");
    assert!(cfg.animations.anim_enabled);
    assert!(cfg.autostart.cmd.is_empty());
}

#[test]
fn config_must_be_a_table() {
    let err = convert(&ScriptValue::Integer(1)).unwrap_err();
    assert_eq!(err.path, "config");
    assert_eq!(err.problem, Problem::TypeMismatch { expected: ValueKind::Table, found: ValueKind::Integer });
}

#[test]
fn partial_border_is_refused() {
    let v = table(vec![("decorations", table(vec![("border", table(vec![("width", ScriptValue::Integer(2))]))]))]);
    let err = convert(&v).unwrap_err();
    assert_eq!(err.path, "decorations.border.active");
    assert_eq!(err.problem, Problem::MissingField);
}

#[test]
fn full_decorations_are_read() {
    let v = table(vec![(
        "decorations",
        table(vec![
            (
                "border",
                table(vec![
                    ("width", ScriptValue::Integer(3)),
                    ("active", text("#aaaaaa")),
                    ("inactive", text("#bbbbbb")),
                    ("radius", ScriptValue::Real(8500)),
                ]),
            ),
            ("window", table(vec![("opacity", ScriptValue::Real(900))])),
            (
                "blur",
                table(vec![
                    ("enabled", ScriptValue::Boolean(true)),
                    ("size", ScriptValue::Integer(4)),
                    ("passes", ScriptValue::Integer(2)),
                    ("optimize", ScriptValue::Boolean(false)),
                ]),
            ),
        ]),
    )]);
    let d = convert(&v).unwrap().window_decorations;
    assert_eq!(d.border_width, 3);
    assert_eq!(d.border_active, "#aaaaaa");
    assert_eq!(d.border_inactive, "#bbbbbb");
    assert_eq!(d.border_radius, 8500);
    assert_eq!(d.window_opacity, 900);
    assert!(d.blur_enable);
    assert_eq!(d.blur_size, 4);
    assert_eq!(d.blur_passes, 2);
    assert!(!d.blur_optimization);
    assert!(!d.shadows_enabled);
    assert_eq!(d.shadow_color, "#0f0f0f");
}

#[test]
fn wrong_kind_is_a_type_mismatch() {
    let v = table(vec![("general", table(vec![("gaps_in", text("wide"))]))]);
    let err = convert(&v).unwrap_err();
    assert_eq!(err.path, "general.gaps_in");
    assert_eq!(err.problem, Problem::TypeMismatch { expected: ValueKind::Integer, found: ValueKind::Str });
}

#[test]
fn workspace_count_out_of_range() {
    let v = table(vec![("general", table(vec![("workspaces", ScriptValue::Integer(300))]))]);
    let err = convert(&v).unwrap_err();
    assert_eq!(err.path, "general.workspaces");
    assert_eq!(err.problem, Problem::OutOfRange);
}

#[test]
fn key_repeat_needs_two_numbers() {
    let ok = table(vec![("general", table(vec![("kb_repeat", list(vec![ScriptValue::Integer(300), ScriptValue::Integer(40)]))]))]);
    assert_eq!(convert(&ok).unwrap().general.kb_repeat, vec![300, 40]);
    let short = table(vec![("general", table(vec![("kb_repeat", list(vec![ScriptValue::Integer(300)]))]))]);
    let err = convert(&short).unwrap_err();
    assert_eq!(err.path, "general.kb_repeat");
    assert_eq!(err.problem, Problem::OutOfRange);
}

#[test]
fn opacity_out_of_range() {
    let v = table(vec![("decorations", table(vec![("window", table(vec![("opacity", ScriptValue::Integer(2))]))]))]);
    let err = convert(&v).unwrap_err();
    assert_eq!(err.path, "decorations.window.opacity");
    assert_eq!(err.problem, Problem::OutOfRange);
}

#[test]
fn autostart_keeps_order() {
    let v = table(vec![("autostart", list(vec![text("waybar"), text("kitty"), text("mako")]))]);
    let cfg = convert(&v).unwrap();
    let cmds: Vec<&str> = cfg.autostart.cmd.iter().map(|c| c.cmd.as_str()).collect();
    assert_eq!(cmds, vec!["waybar", "kitty", "mako"]);
    let bad = table(vec![("autostart", list(vec![text("waybar"), ScriptValue::Boolean(true)]))]);
    let err = convert(&bad).unwrap_err();
    assert_eq!(err.path, "autostart");
    assert_eq!(err.problem, Problem::TypeMismatch { expected: ValueKind::Str, found: ValueKind::Boolean });
}

#[test]
fn tiling_and_animations_are_read() {
    let v = table(vec![
        ("tiling", table(vec![("layout", text("master"))])),
        ("animations", table(vec![("enabled", ScriptValue::Boolean(false))])),
    ]);
    let cfg = convert(&v).unwrap();
    assert_eq!(cfg.tiling.layout, "master");
    assert!(!cfg.animations.anim_enabled);
    let missing = table(vec![("tiling", table(vec![]))]);
    let err = convert(&missing).unwrap_err();
    assert_eq!(err.path, "tiling.layout");
    assert_eq!(err.problem, Problem::MissingField);
}

#[test]
fn last_field_binding_wins() {
    let entries = vec![("a".to_string(), ScriptValue::Integer(1)), ("a".to_string(), ScriptValue::Integer(2))];
    assert!(matches!(get_field(&entries, "a"), Some(ScriptValue::Integer(2))));
    assert!(get_field(&entries, "b").is_none());
}

#[test]
fn same_chord_twice_keeps_the_later_action() {
    let mut t = BindingTable::new();
    let batch = list(vec![binding(&["mod", "a"], 1), binding(&["mod", "a"], 2)]);
    assert_eq!(t.set_bindings(&batch), Ok(()));
    assert_eq!(t.bindings.len(), 1);
    assert_eq!(t.dispatch_key(&path(&["mod", "a"])), Some(2));
}

#[test]
fn chord_order_matters() {
    let mut t = BindingTable::new();
    let batch = list(vec![binding(&["mod", "a"], 1), binding(&["a", "mod"], 2)]);
    t.set_bindings(&batch).unwrap();
    assert_eq!(t.bindings.len(), 2);
    assert_eq!(t.dispatch_key(&path(&["mod", "a"])), Some(1));
    assert_eq!(t.dispatch_key(&path(&["a", "mod"])), Some(2));
}

#[test]
fn later_batch_overwrites_earlier() {
    let mut t = BindingTable::new();
    t.set_bindings(&list(vec![binding(&["mod", "q"], 7)])).unwrap();
    t.set_bindings(&list(vec![binding(&["mod", "q"], 8)])).unwrap();
    assert_eq!(t.bindings.len(), 1);
    assert_eq!(t.dispatch_key(&path(&["mod", "q"])), Some(8));
}

#[test]
fn unbound_chord_is_no_binding() {
    let mut t = BindingTable::new();
    t.set_bindings(&list(vec![binding(&["mod", "a"], 1)])).unwrap();
    assert_eq!(t.dispatch_key(&path(&["mod", "b"])), None);
    assert_eq!(t.dispatch_trigger(&"WindowOpen".to_string(), &"term".to_string(), None), Vec::<u64>::new());
}

#[test]
fn malformed_batch_registers_nothing() {
    let mut t = BindingTable::new();
    let batch = list(vec![binding(&["mod", "a"], 1), table(vec![("keys", keys(&["mod", "b"]))])]);
    assert_eq!(t.set_bindings(&batch), Err(BindingDeclarationError::Entry(1, EntryProblem::MissingAction)));
    assert_eq!(t.dispatch_key(&path(&["mod", "a"])), None);
    assert!(t.bindings.is_empty());
}

#[test]
fn binding_problems_are_named() {
    let mut t = BindingTable::new();
    assert_eq!(
        t.set_bindings(&text("x")),
        Err(BindingDeclarationError::NotASequence(ValueKind::Str))
    );
    let no_keys = list(vec![table(vec![("cmd", ScriptValue::Function(1))])]);
    assert_eq!(t.set_bindings(&no_keys), Err(BindingDeclarationError::Entry(0, EntryProblem::MissingKeys)));
    let empty_keys = list(vec![table(vec![("keys", list(vec![])), ("cmd", ScriptValue::Function(1))])]);
    assert_eq!(t.set_bindings(&empty_keys), Err(BindingDeclarationError::Entry(0, EntryProblem::EmptyKeys)));
    let not_fn = list(vec![table(vec![("keys", keys(&["a"])), ("cmd", text("spawn"))])]);
    assert_eq!(
        t.set_bindings(&not_fn),
        Err(BindingDeclarationError::Entry(0, EntryProblem::NotCallable(ValueKind::Str)))
    );
    let func_key = list(vec![table(vec![("keys", keys(&["a"])), ("func", ScriptValue::Function(5))])]);
    assert_eq!(t.set_bindings(&func_key), Ok(()));
    assert_eq!(t.dispatch_key(&path(&["a"])), Some(5));
}

#[test]
fn all_matching_rules_fire_in_order() {
    let mut t = BindingTable::new();
    let rules = list(vec![
        rule(vec![trigger("WindowOpen", "term")], 10),
        rule(vec![trigger("WindowClose", "term")], 11),
        rule(vec![trigger("WindowOpen", "browser"), trigger("WindowOpen", "term")], 12),
    ]);
    t.set_rules(&rules).unwrap();
    let fired = t.dispatch_trigger(&"WindowOpen".to_string(), &"term".to_string(), None);
    assert_eq!(fired, vec![10, 12]);
    let outcomes = vec![Some("boom".to_string()), None];
    let errors = collect_action_errors(&fired, &outcomes);
    assert_eq!(errors.len(), 1);
    assert_eq!(errors[0].action, 10);
    assert_eq!(errors[0].message, "boom");
}

#[test]
fn every_failure_is_reported() {
    let errors = collect_action_errors(&vec![1, 2, 3], &vec![Some("a".to_string()), None, Some("c".to_string())]);
    let got: Vec<(u64, &str)> = errors.iter().map(|e| (e.action, e.message.as_str())).collect();
    assert_eq!(got, vec![(1, "a"), (3, "c")]);
}

#[test]
fn workspace_trigger_needs_same_workspace() {
    let mut t = BindingTable::new();
    let ws_trigger = table(vec![
        ("event", text("WindowOpen")),
        ("class_name", text("term")),
        ("workspace", ScriptValue::Integer(2)),
    ]);
    t.set_rules(&list(vec![rule(vec![ws_trigger], 20)])).unwrap();
    let ev = "WindowOpen".to_string();
    let cls = "term".to_string();
    assert_eq!(t.dispatch_trigger(&ev, &cls, Some(2)), vec![20]);
    assert_eq!(t.dispatch_trigger(&ev, &cls, Some(3)), Vec::<u64>::new());
    assert_eq!(t.dispatch_trigger(&ev, &cls, None), Vec::<u64>::new());
}

#[test]
fn rule_problems_are_named() {
    let mut t = BindingTable::new();
    let no_triggers = list(vec![table(vec![("action", ScriptValue::Function(1))])]);
    assert_eq!(t.set_rules(&no_triggers), Err(BindingDeclarationError::Entry(0, EntryProblem::MissingTriggers)));
    let empty = list(vec![rule(vec![], 1)]);
    assert_eq!(t.set_rules(&empty), Err(BindingDeclarationError::Entry(0, EntryProblem::EmptyTriggers)));
    let bad = list(vec![rule(vec![trigger("WindowOpen", "a")], 1), rule(vec![trigger("WindowOpen", "a"), table(vec![("event", text("x"))])], 2)]);
    assert_eq!(
        t.set_rules(&bad),
        Err(BindingDeclarationError::Entry(1, EntryProblem::BadTrigger(1, Problem::MissingField)))
    );
    assert!(t.rules.is_empty());
}

#[test]
fn capture_takes_functions_only() {
    assert_eq!(capture(&ScriptValue::Function(4)), Ok(4));
    assert_eq!(capture(&ScriptValue::Nil), Err(NotCallable { found: ValueKind::Nil }));
}

#[test]
fn nil_binding_counts_as_unbound() {
    let mut reg = ModuleRegistry::new();
    reg.set_value(0, &"x".to_string(), ScriptValue::Nil);
    let x = reg.get_or_create_module(&path(&["x"])).unwrap();
    assert_eq!(reg.get_or_create_module(&path(&["x"])).unwrap(), x);
    reg.set_value(0, &"strata".to_string(), ScriptValue::Nil);
    let cmd = reg.get_or_create_sub_module(&"cmd".to_string()).unwrap();
    assert_eq!(reg.get_or_create_module(&path(&["strata", "cmd"])).unwrap(), cmd);
}

#[test]
fn sibling_sub_modules_are_distinct() {
    let mut reg = ModuleRegistry::new();
    let cmd = reg.get_or_create_sub_module(&"cmd".to_string()).unwrap();
    let api = reg.get_or_create_sub_module(&"api".to_string()).unwrap();
    assert_ne!(cmd, api);
    assert_eq!(reg.get_or_create_sub_module(&"cmd".to_string()).unwrap(), cmd);
    assert_eq!(reg.get_or_create_sub_module(&"api".to_string()).unwrap(), api);
}

#[test]
fn negative_key_repeat_is_kept() {
    let v = table(vec![("general", table(vec![("kb_repeat", list(vec![ScriptValue::Integer(-1), ScriptValue::Integer(25)]))]))]);
    assert_eq!(convert(&v).unwrap().general.kb_repeat, vec![-1, 25]);
}

#[test]
fn empty_table_is_an_empty_batch_argument() {
    let mut reg = ModuleRegistry::new();
    let m = install_host_api(&mut reg).unwrap();
    assert_eq!(
        reg.call_command(m.strata, &"set_bindings".to_string(), &vec![table(vec![])]),
        Ok(SET_BINDINGS)
    );
    assert_eq!(
        reg.call_command(m.strata, &"set_bindings".to_string(), &vec![table(vec![("a", ScriptValue::Integer(1))])]),
        Err(CallError::ArgType { index: 0, expected: ValueKind::List, found: ValueKind::Table })
    );
    let mut t = BindingTable::new();
    assert_eq!(t.set_bindings(&table(vec![])), Ok(()));
}

#[test]
fn integer_radius_is_whole_units() {
    let border = table(vec![
        ("width", ScriptValue::Integer(1)),
        ("active", text("#1")),
        ("inactive", text("#2")),
        ("radius", ScriptValue::Integer(8)),
    ]);
    let v = table(vec![("decorations", table(vec![("border", border)]))]);
    assert_eq!(convert(&v).unwrap().window_decorations.border_radius, 8000);
}
