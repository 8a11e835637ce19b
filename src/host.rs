use vstd::prelude::*;
use crate::registry::{
    lemma_distinct_children, lemma_probe_kept, lemma_probe_push_off, lemma_slot_of_push, probe, slot_of,
    ModuleRegistry, NamespaceConflict, Probe, Slot,
};
use crate::value::ValueKind;

verus! {

/// `strata.cmd.spawn(command)`: gives an action that spawns `command`.
pub const SPAWN: u64 = 1;

/// `strata.api.spawn(command)`: spawns `command` now.
pub const SPAWN_NOW: u64 = 2;

/// `strata.set_bindings(bindings)`.
pub const SET_BINDINGS: u64 = 3;

/// `strata.set_rules(rules)`.
pub const SET_RULES: u64 = 4;

/// The modules that the host publishes.
#[derive(Debug, Clone, Copy)]
pub struct HostModules {
    pub strata: usize,
    pub cmd: usize,
    pub api: usize,
    pub bindings: usize,
}

pub open spec fn command_is(s: Option<Slot>, handler: u64, param: ValueKind) -> bool {
    s matches Some(Slot::Command(h, ps)) && h == handler && ps@ == seq![param]
}

fn one_param(k: ValueKind) -> (r: Vec<ValueKind>)
    ensures
        r@ == seq![k],
{
    let mut v: Vec<ValueKind> = Vec::new();
    v.push(k);
    v
}

proof fn lemma_paths_kept(e: Seq<(usize, String, Slot)>, x: (usize, String, Slot))
    requires
        x.1@ == "spawn"@ || x.1@ == "set_bindings"@ || x.1@ == "set_rules"@,
    ensures
        probe(e.push(x), seq!["strata"@], 1) == probe(e, seq!["strata"@], 1),
        probe(e.push(x), seq!["strata"@, "cmd"@], 2) == probe(e, seq!["strata"@, "cmd"@], 2),
        probe(e.push(x), seq!["strata"@, "api"@], 2) == probe(e, seq!["strata"@, "api"@], 2),
        probe(e.push(x), seq!["strata"@, "bindings"@], 2) == probe(e, seq!["strata"@, "bindings"@], 2),
{
    reveal_strlit("strata");
    reveal_strlit("cmd");
    reveal_strlit("api");
    reveal_strlit("bindings");
    reveal_strlit("spawn");
    reveal_strlit("set_rules");
    reveal_strlit("set_bindings");
    assert(x.1@.len() == 5 || x.1@.len() == 12 || x.1@.len() == 9);
    lemma_probe_push_off(e, seq!["strata"@], 1, x);
    lemma_probe_push_off(e, seq!["strata"@, "cmd"@], 2, x);
    lemma_probe_push_off(e, seq!["strata"@, "api"@], 2, x);
    lemma_probe_push_off(e, seq!["strata"@, "bindings"@], 2, x);
}

/// Publishes the host's namespace: the module `strata` with its submodules
/// `cmd`, `api` and `bindings`, and the host commands in them. On a registry
/// that holds nothing yet this succeeds.
pub fn install_host_api(reg: &mut ModuleRegistry) -> (r: Result<HostModules, NamespaceConflict>)
    requires
        old(reg).wf(),
        old(reg).count + 10 < usize::MAX,
    ensures
        final(reg).wf(),
        old(reg).entries@.len() == 0 ==> r is Ok,
        r matches Ok(m) ==> {
            &&& probe(final(reg).entries@, seq!["strata"@], 1) == Probe::Reached(m.strata as int)
            &&& probe(final(reg).entries@, seq!["strata"@, "cmd"@], 2) == Probe::Reached(m.cmd as int)
            &&& probe(final(reg).entries@, seq!["strata"@, "api"@], 2) == Probe::Reached(m.api as int)
            &&& probe(final(reg).entries@, seq!["strata"@, "bindings"@], 2) == Probe::Reached(m.bindings as int)
            &&& m.cmd != m.api
            &&& command_is(slot_of(final(reg).entries@, m.strata as int, "set_rules"@), SET_RULES, ValueKind::List)
            &&& command_is(slot_of(final(reg).entries@, m.strata as int, "set_bindings"@), SET_BINDINGS, ValueKind::List)
            &&& command_is(slot_of(final(reg).entries@, m.api as int, "spawn"@), SPAWN_NOW, ValueKind::Str)
            &&& command_is(slot_of(final(reg).entries@, m.cmd as int, "spawn"@), SPAWN, ValueKind::Str)
        },
{
    let ghost fresh = reg.entries@.len() == 0;
    proof {
        reveal_strlit("strata");
        reveal_strlit("cmd");
        reveal_strlit("api");
        reveal_strlit("bindings");
        reveal_strlit("spawn");
        reveal_strlit("set_rules");
        reveal_strlit("set_bindings");
        assert("set_rules"@.len() != "set_bindings"@.len());
        assert("spawn"@.len() != "set_bindings"@.len());
        assert("spawn"@.len() != "set_rules"@.len());
        assert("api"@[0] != "strata"@[0] && "api"@[0] != "cmd"@[0]);
        assert("bindings"@[0] != "strata"@[0] && "bindings"@[0] != "cmd"@[0] && "bindings"@[0] != "api"@[0]);
    }
    let mut path: Vec<String> = Vec::new();
    path.push(String::from_str("strata"));
    proof {
        assert(crate::registry::keys_of(path@) =~= seq!["strata"@]);
        if fresh {
            assert(probe(reg.entries@, seq!["strata"@], 0) == Probe::Reached(0));
            assert(slot_of(reg.entries@, 0, "strata"@) is None);
            assert(probe(reg.entries@, seq!["strata"@], 1) == Probe::Missing);
        }
    }
    let ghost e0 = reg.entries@;
    let strata = match reg.get_or_create_module(&path) {
        Ok(m) => m,
        Err(e) => return Err(e),
    };
    let ghost e1 = reg.entries@;
    let ghost ks = seq!["strata"@];
    let ghost kc = seq!["strata"@, "cmd"@];
    let ghost ka = seq!["strata"@, "api"@];
    let ghost kb = seq!["strata"@, "bindings"@];
    assert(probe(e1, ks, 1) == Probe::Reached(strata as int));
    proof {
        if fresh {
            assert(probe(e1, seq!["strata"@], 0) == Probe::Reached(0));
            assert(slot_of(e1, 0, "strata"@) == Some(Slot::Module(strata)));
            assert(seq!["strata"@, "cmd"@][0] == "strata"@);
            assert(seq!["strata"@, "cmd"@][1] == "cmd"@);
            assert(probe(e1, seq!["strata"@, "cmd"@], 0) == Probe::Reached(0));
            assert(probe(e1, seq!["strata"@, "cmd"@], 1) == Probe::Reached(strata as int));
            assert(probe(e1, seq!["strata"@, "cmd"@], 2) == Probe::Missing);
        }
    }
    let cmd = match reg.get_or_create_sub_module(&String::from_str("cmd")) {
        Ok(m) => m,
        Err(e) => return Err(e),
    };
    let ghost e2 = reg.entries@;
    proof {
        assert(probe(e2, kc, 2) == Probe::Reached(cmd as int));
        lemma_probe_kept(e1, e2, ks, 1);
    }
    proof {
        if fresh {
            assert(slot_of(e2, 0, "strata"@) == Some(Slot::Module(strata)));
            assert(slot_of(e2, strata as int, "api"@) == slot_of(e1, strata as int, "api"@));
            assert(seq!["strata"@, "api"@][0] == "strata"@);
            assert(seq!["strata"@, "api"@][1] == "api"@);
            assert(probe(e2, seq!["strata"@, "api"@], 0) == Probe::Reached(0));
            assert(probe(e2, seq!["strata"@, "api"@], 1) == Probe::Reached(strata as int));
            assert(probe(e2, seq!["strata"@, "api"@], 2) == Probe::Missing);
        }
    }
    let api = match reg.get_or_create_sub_module(&String::from_str("api")) {
        Ok(m) => m,
        Err(e) => return Err(e),
    };
    let ghost e3 = reg.entries@;
    proof {
        assert(probe(e3, ka, 2) == Probe::Reached(api as int));
        lemma_probe_kept(e2, e3, ks, 1);
        lemma_probe_kept(e2, e3, kc, 2);
    }
    proof {
        if fresh {
            assert(slot_of(e3, 0, "strata"@) == Some(Slot::Module(strata)));
            assert(slot_of(e3, strata as int, "bindings"@) == slot_of(e1, strata as int, "bindings"@));
            assert(seq!["strata"@, "bindings"@][0] == "strata"@);
            assert(seq!["strata"@, "bindings"@][1] == "bindings"@);
            assert(probe(e3, seq!["strata"@, "bindings"@], 0) == Probe::Reached(0));
            assert(probe(e3, seq!["strata"@, "bindings"@], 1) == Probe::Reached(strata as int));
            assert(probe(e3, seq!["strata"@, "bindings"@], 2) == Probe::Missing);
        }
    }
    let bindings = match reg.get_or_create_sub_module(&String::from_str("bindings")) {
        Ok(m) => m,
        Err(e) => return Err(e),
    };
    let ghost e4 = reg.entries@;
    proof {
        assert(probe(e4, kb, 2) == Probe::Reached(bindings as int));
        lemma_probe_kept(e3, e4, ks, 1);
        lemma_probe_kept(e3, e4, kc, 2);
        lemma_probe_kept(e3, e4, ka, 2);
        assert(kc[0] == "strata"@ && ka[0] == "strata"@ && kc[1] == "cmd"@ && ka[1] == "api"@);
        assert(ks[0] == "strata"@);
        assert(probe(e4, kc, 0) == Probe::Reached(0));
        assert(probe(e4, ka, 0) == Probe::Reached(0));
        assert(probe(e4, ks, 0) == Probe::Reached(0));
        assert(probe(e4, kc, 1) == probe(e4, ks, 1));
        assert(probe(e4, ka, 1) == probe(e4, ks, 1));
        assert(slot_of(e4, strata as int, "cmd"@) == Some(Slot::Module(cmd)));
        assert(slot_of(e4, strata as int, "api"@) == Some(Slot::Module(api)));
        assert("cmd"@ != "api"@);
        lemma_distinct_children(*reg, strata as int, "cmd"@, "api"@);
        assert(cmd != api);
    }
    let spawn = String::from_str("spawn");
    let set_bindings = String::from_str("set_bindings");
    let set_rules = String::from_str("set_rules");
    let spawn_params = one_param(ValueKind::Str);
    let spawn_now_params = one_param(ValueKind::Str);
    let bindings_params = one_param(ValueKind::List);
    let rules_params = one_param(ValueKind::List);
    let ghost x1 = (cmd, spawn, Slot::Command(SPAWN, spawn_params));
    let ghost x2 = (api, spawn, Slot::Command(SPAWN_NOW, spawn_now_params));
    let ghost x3 = (strata, set_bindings, Slot::Command(SET_BINDINGS, bindings_params));
    let ghost x4 = (strata, set_rules, Slot::Command(SET_RULES, rules_params));
    reg.register_command(cmd, &spawn, SPAWN, spawn_params);
    reg.register_command(api, &spawn, SPAWN_NOW, spawn_now_params);
    reg.register_command(strata, &set_bindings, SET_BINDINGS, bindings_params);
    reg.register_command(strata, &set_rules, SET_RULES, rules_params);
    proof {
        let f1 = e4.push(x1);
        let f2 = f1.push(x2);
        let f3 = f2.push(x3);
        lemma_slot_of_push(f3, x4, strata as int, "set_rules"@);
        lemma_slot_of_push(f3, x4, strata as int, "set_bindings"@);
        lemma_slot_of_push(f2, x3, strata as int, "set_bindings"@);
        lemma_slot_of_push(f3, x4, api as int, "spawn"@);
        lemma_slot_of_push(f2, x3, api as int, "spawn"@);
        lemma_slot_of_push(f1, x2, api as int, "spawn"@);
        lemma_slot_of_push(f3, x4, cmd as int, "spawn"@);
        lemma_slot_of_push(f2, x3, cmd as int, "spawn"@);
        lemma_slot_of_push(f1, x2, cmd as int, "spawn"@);
        lemma_slot_of_push(e4, x1, cmd as int, "spawn"@);
        lemma_paths_kept(e4, x1);
        lemma_paths_kept(f1, x2);
        lemma_paths_kept(f2, x3);
        lemma_paths_kept(f3, x4);
        assert(command_is(slot_of(reg.entries@, strata as int, "set_rules"@), SET_RULES, ValueKind::List));
        assert(command_is(slot_of(reg.entries@, strata as int, "set_bindings"@), SET_BINDINGS, ValueKind::List));
        assert(command_is(slot_of(reg.entries@, api as int, "spawn"@), SPAWN_NOW, ValueKind::Str));
    }
    Ok(HostModules { strata, cmd, api, bindings })
}

} // verus!
