use vstd::prelude::*;
use crate::config::{absent, str_rule, strings_of, strs_of, Problem, MAX_I32, MIN_I32};
use crate::registry::keys_of;
use crate::value::{field_of, get_field, kind_of, ScriptValue, ValueKind};

verus! {

/// The value is not a function, so it cannot serve as an action.
#[derive(Debug, PartialEq, Eq, Structural, Clone, Copy)]
pub struct NotCallable {
    pub found: ValueKind,
}

/// Takes a script function as an action: the handle the host later invokes.
pub fn capture(v: &ScriptValue) -> (r: Result<u64, NotCallable>)
    ensures
        match *v {
            ScriptValue::Function(h) => r == Ok::<u64, NotCallable>(h),
            other => r == Err::<u64, NotCallable>(NotCallable { found: kind_of(other) }),
        },
{
    match v {
        ScriptValue::Function(h) => Ok(*h),
        other => Err(NotCallable { found: other.kind() }),
    }
}

/// A keybinding: a chord of key names, in order, and the action it runs.
#[derive(Debug)]
pub struct Keybinding {
    pub keys: Vec<String>,
    pub func: u64,
}

/// What is wrong with one entry of a declared batch.
#[derive(Debug, PartialEq, Eq, Structural, Clone, Copy)]
pub enum EntryProblem {
    NotATable(ValueKind),
    MissingKeys,
    BadKeys(ValueKind),
    EmptyKeys,
    MissingAction,
    NotCallable(ValueKind),
    MissingTriggers,
    BadTriggers(ValueKind),
    EmptyTriggers,
    BadTrigger(usize, Problem),
}

/// Why a declared batch of bindings or rules was refused as a whole.
#[derive(Debug, PartialEq, Eq, Structural, Clone, Copy)]
pub enum BindingDeclarationError {
    /// The batch is not a sequence.
    NotASequence(ValueKind),
    /// The entry at `index` (from 0) is malformed.
    Entry(usize, EntryProblem),
}

pub open spec fn keys_rule(v: Option<ScriptValue>) -> Result<Seq<Seq<char>>, EntryProblem> {
    if absent(v) {
        Err(EntryProblem::MissingKeys)
    } else {
        match v->Some_0 {
            ScriptValue::List(items) => if items@.len() == 0 {
                Err(EntryProblem::EmptyKeys)
            } else {
                match strs_of(items@) {
                    Ok(k) => Ok(k),
                    Err(Problem::TypeMismatch { expected: _, found }) => Err(EntryProblem::BadKeys(found)),
                    Err(_) => Err(EntryProblem::BadKeys(ValueKind::Nil)),
                }
            },
            other => Err(EntryProblem::BadKeys(kind_of(other))),
        }
    }
}

/// The action of an entry, under `key`.
pub open spec fn action_rule(v: Option<ScriptValue>) -> Result<u64, EntryProblem> {
    if absent(v) {
        Err(EntryProblem::MissingAction)
    } else {
        match v->Some_0 {
            ScriptValue::Function(h) => Ok(h),
            other => Err(EntryProblem::NotCallable(kind_of(other))),
        }
    }
}

/// The action of a binding: its `cmd`, or else its `func`.
pub open spec fn binding_action(e: Seq<(String, ScriptValue)>) -> Option<ScriptValue> {
    if absent(field_of(e, "cmd"@)) {
        field_of(e, "func"@)
    } else {
        field_of(e, "cmd"@)
    }
}

pub open spec fn binding_rule(v: ScriptValue) -> Result<(Seq<Seq<char>>, u64), EntryProblem> {
    match v {
        ScriptValue::Table(e) => match keys_rule(field_of(e@, "keys"@)) {
            Err(p) => Err(p),
            Ok(k) => match action_rule(binding_action(e@)) {
                Err(p) => Err(p),
                Ok(a) => Ok((k, a)),
            },
        },
        other => Err(EntryProblem::NotATable(kind_of(other))),
    }
}

pub open spec fn bindings_rule(items: Seq<ScriptValue>) -> Result<Seq<(Seq<Seq<char>>, u64)>, BindingDeclarationError>
    decreases items.len(),
{
    if items.len() == 0 {
        Ok(Seq::empty())
    } else {
        match bindings_rule(items.drop_last()) {
            Err(e) => Err(e),
            Ok(done) => match binding_rule(items.last()) {
                Err(p) => Err(BindingDeclarationError::Entry((items.len() - 1) as usize, p)),
                Ok(b) => Ok(done.push(b)),
            },
        }
    }
}

/// The entries of a declared batch: a sequence, or an empty table.
pub open spec fn batch_of(raw: ScriptValue) -> Result<Seq<ScriptValue>, BindingDeclarationError> {
    match raw {
        ScriptValue::List(items) => Ok(items@),
        ScriptValue::Table(e) => if e@.len() == 0 {
            Ok(Seq::empty())
        } else {
            Err(BindingDeclarationError::NotASequence(ValueKind::Table))
        },
        other => Err(BindingDeclarationError::NotASequence(kind_of(other))),
    }
}

pub open spec fn chord(b: Keybinding) -> Seq<Seq<char>> {
    keys_of(b.keys@)
}

/// The bindings as a map from chord to action; a later binding of a chord
/// replaces an earlier one.
pub open spec fn bindings_map(bs: Seq<Keybinding>) -> Map<Seq<Seq<char>>, u64>
    decreases bs.len(),
{
    if bs.len() == 0 {
        Map::empty()
    } else {
        bindings_map(bs.drop_last()).insert(chord(bs.last()), bs.last().func)
    }
}

/// Binding each chord of `list` in turn, starting from `m`.
pub open spec fn bind_all(m: Map<Seq<Seq<char>>, u64>, list: Seq<(Seq<Seq<char>>, u64)>) -> Map<Seq<Seq<char>>, u64>
    decreases list.len(),
{
    if list.len() == 0 {
        m
    } else {
        bind_all(m, list.drop_last()).insert(list.last().0, list.last().1)
    }
}

pub open spec fn unique_chords(bs: Seq<Keybinding>) -> bool {
    forall|i: int, j: int| 0 <= i < j < bs.len() ==> chord(#[trigger] bs[i]) != chord(#[trigger] bs[j])
}

proof fn lemma_map_update(bs: Seq<Keybinding>, i: int, x: Keybinding)
    requires
        unique_chords(bs),
        0 <= i < bs.len(),
        chord(bs[i]) == chord(x),
    ensures
        bindings_map(bs.update(i, x)) == bindings_map(bs).insert(chord(x), x.func),
    decreases bs.len(),
{
    let n = bs.len();
    if i == n - 1 {
        assert(bs.update(i, x).drop_last() =~= bs.drop_last());
        assert(bindings_map(bs.update(i, x)) =~= bindings_map(bs).insert(chord(x), x.func));
    } else {
        assert(bs.update(i, x).drop_last() =~= bs.drop_last().update(i, x));
        assert(chord(bs[i]) != chord(bs[n - 1]));
        lemma_map_update(bs.drop_last(), i, x);
        assert(bindings_map(bs.update(i, x)) =~= bindings_map(bs).insert(chord(x), x.func));
    }
}

proof fn lemma_map_index(bs: Seq<Keybinding>, i: int)
    requires
        unique_chords(bs),
        0 <= i < bs.len(),
    ensures
        bindings_map(bs).contains_key(chord(bs[i])),
        bindings_map(bs)[chord(bs[i])] == bs[i].func,
    decreases bs.len(),
{
    if i < bs.len() - 1 {
        assert(chord(bs[i]) != chord(bs[bs.len() - 1]));
        assert(bs.drop_last()[i] == bs[i]);
        lemma_map_index(bs.drop_last(), i);
    }
}

proof fn lemma_map_absent(bs: Seq<Keybinding>, k: Seq<Seq<char>>)
    requires
        forall|i: int| 0 <= i < bs.len() ==> chord(#[trigger] bs[i]) != k,
    ensures
        !bindings_map(bs).contains_key(k),
    decreases bs.len(),
{
    if bs.len() > 0 {
        assert(chord(bs[bs.len() - 1]) != k);
        assert forall|i: int| 0 <= i < bs.len() - 1 implies chord(#[trigger] bs.drop_last()[i]) != k by {
            assert(bs.drop_last()[i] == bs[i]);
        }
        lemma_map_absent(bs.drop_last(), k);
    }
}

/// Whether two chords are the same key names in the same order.
fn same_chord(a: &Vec<String>, b: &Vec<String>) -> (r: bool)
    ensures
        r == (keys_of(a@) == keys_of(b@)),
{
    if a.len() != b.len() {
        assert(keys_of(a@).len() != keys_of(b@).len());
        return false;
    }
    let mut i: usize = 0;
    while i < a.len()
        invariant
            i <= a@.len() == b@.len(),
            forall|j: int| 0 <= j < i ==> a@[j]@ == b@[j]@,
        decreases a@.len() - i,
    {
        if a[i] != b[i] {
            assert(keys_of(a@)[i as int] != keys_of(b@)[i as int]);
            return false;
        }
        i = i + 1;
    }
    assert(keys_of(a@) =~= keys_of(b@));
    true
}

/// A keybinding read from one declared entry.
fn parse_binding(v: &ScriptValue) -> (r: Result<Keybinding, EntryProblem>)
    ensures
        match binding_rule(*v) {
            Ok(b) => r is Ok && chord(r->Ok_0) == b.0 && r->Ok_0.func == b.1,
            Err(p) => r == Err::<Keybinding, EntryProblem>(p),
        },
{
    let e = match v {
        ScriptValue::Table(e) => e,
        other => return Err(EntryProblem::NotATable(other.kind())),
    };
    let keys = match get_field(e, "keys") {
        None | Some(ScriptValue::Nil) => return Err(EntryProblem::MissingKeys),
        Some(ScriptValue::List(items)) => {
            if items.len() == 0 {
                return Err(EntryProblem::EmptyKeys);
            }
            match strings_of(items) {
                Ok(k) => k,
                Err(p) => return Err(EntryProblem::BadKeys(
                    match p {
                        Problem::TypeMismatch { expected: _, found } => found,
                        _ => ValueKind::Nil,
                    },
                )),
            }
        },
        Some(other) => return Err(EntryProblem::BadKeys(other.kind())),
    };
    let action = match get_field(e, "cmd") {
        None | Some(ScriptValue::Nil) => get_field(e, "func"),
        found => found,
    };
    let func = match action {
        None | Some(ScriptValue::Nil) => return Err(EntryProblem::MissingAction),
        Some(ScriptValue::Function(h)) => *h,
        Some(other) => return Err(EntryProblem::NotCallable(other.kind())),
    };
    Ok(Keybinding { keys, func })
}


/// One condition under which a rule fires: an event, a window class, and
/// optionally a workspace.
#[derive(Debug)]
pub struct Triggers {
    pub event: String,
    pub class_name: String,
    pub workspace: Option<i32>,
}

/// A window rule: it fires when any of its triggers matches.
#[derive(Debug)]
pub struct Rules {
    pub triggers: Vec<Triggers>,
    pub action: u64,
}


/// A trigger in the model: event, window class, workspace.
pub type TriggerModel = (Seq<char>, Seq<char>, Option<i32>);

/// A rule in the model: its triggers and its action.
pub type RuleModel = (Seq<TriggerModel>, u64);

pub open spec fn trigger_model(t: Triggers) -> TriggerModel {
    (t.event@, t.class_name@, t.workspace)
}

pub open spec fn rule_model(r: Rules) -> RuleModel {
    (r.triggers@.map_values(|t: Triggers| trigger_model(t)), r.action)
}

pub open spec fn rules_model(rs: Seq<Rules>) -> Seq<RuleModel> {
    rs.map_values(|r: Rules| rule_model(r))
}

/// The optional workspace of a trigger.
pub open spec fn workspace_rule(v: Option<ScriptValue>) -> Result<Option<i32>, Problem> {
    if absent(v) {
        Ok(None)
    } else {
        match v->Some_0 {
            ScriptValue::Integer(n) => if MIN_I32 <= n <= MAX_I32 {
                Ok(Some(n as i32))
            } else {
                Err(Problem::OutOfRange)
            },
            other => Err(Problem::TypeMismatch { expected: ValueKind::Integer, found: kind_of(other) }),
        }
    }
}

pub open spec fn trigger_rule(v: ScriptValue) -> Result<TriggerModel, Problem> {
    match v {
        ScriptValue::Table(e) => match str_rule(field_of(e@, "event"@)) {
            Err(p) => Err(p),
            Ok(ev) => match str_rule(field_of(e@, "class_name"@)) {
                Err(p) => Err(p),
                Ok(cls) => match workspace_rule(field_of(e@, "workspace"@)) {
                    Err(p) => Err(p),
                    Ok(ws) => Ok((ev, cls, ws)),
                },
            },
        },
        other => Err(Problem::TypeMismatch { expected: ValueKind::Table, found: kind_of(other) }),
    }
}

pub open spec fn triggers_rule(items: Seq<ScriptValue>) -> Result<Seq<TriggerModel>, (int, Problem)>
    decreases items.len(),
{
    if items.len() == 0 {
        Ok(Seq::empty())
    } else {
        match triggers_rule(items.drop_last()) {
            Err(e) => Err(e),
            Ok(done) => match trigger_rule(items.last()) {
                Err(p) => Err((items.len() - 1, p)),
                Ok(t) => Ok(done.push(t)),
            },
        }
    }
}

pub open spec fn rule_rule(v: ScriptValue) -> Result<RuleModel, EntryProblem> {
    match v {
        ScriptValue::Table(e) => {
            let t = field_of(e@, "triggers"@);
            if absent(t) {
                Err(EntryProblem::MissingTriggers)
            } else {
                match t->Some_0 {
                    ScriptValue::List(items) => if items@.len() == 0 {
                        Err(EntryProblem::EmptyTriggers)
                    } else {
                        match triggers_rule(items@) {
                            Err((j, p)) => Err(EntryProblem::BadTrigger(j as usize, p)),
                            Ok(ts) => match action_rule(field_of(e@, "action"@)) {
                                Err(p) => Err(p),
                                Ok(a) => Ok((ts, a)),
                            },
                        }
                    },
                    other => Err(EntryProblem::BadTriggers(kind_of(other))),
                }
            }
        },
        other => Err(EntryProblem::NotATable(kind_of(other))),
    }
}

pub open spec fn rules_rule(items: Seq<ScriptValue>) -> Result<Seq<RuleModel>, BindingDeclarationError>
    decreases items.len(),
{
    if items.len() == 0 {
        Ok(Seq::empty())
    } else {
        match rules_rule(items.drop_last()) {
            Err(e) => Err(e),
            Ok(done) => match rule_rule(items.last()) {
                Err(p) => Err(BindingDeclarationError::Entry((items.len() - 1) as usize, p)),
                Ok(r) => Ok(done.push(r)),
            },
        }
    }
}

/// Whether a trigger matches an event: same event, same class, and the same
/// workspace where the trigger names one.
pub open spec fn trigger_matches(t: TriggerModel, event: Seq<char>, class_name: Seq<char>, workspace: Option<i32>) -> bool {
    t.0 == event && t.1 == class_name && (t.2 is None || t.2 == workspace)
}

pub open spec fn rule_fires(r: RuleModel, event: Seq<char>, class_name: Seq<char>, workspace: Option<i32>) -> bool {
    exists|i: int| 0 <= i < r.0.len() && trigger_matches(#[trigger] r.0[i], event, class_name, workspace)
}

/// The actions of the rules that fire on an event, in registration order.
pub open spec fn fired(rs: Seq<RuleModel>, event: Seq<char>, class_name: Seq<char>, workspace: Option<i32>) -> Seq<u64> {
    rs.filter(|r: RuleModel| rule_fires(r, event, class_name, workspace)).map_values(|r: RuleModel| r.1)
}

/// Registering one more rule adds its action at the end when it fires.
pub proof fn lemma_fired_push(rs: Seq<RuleModel>, r: RuleModel, event: Seq<char>, class_name: Seq<char>, workspace: Option<i32>)
    ensures
        fired(rs.push(r), event, class_name, workspace) == if rule_fires(r, event, class_name, workspace) {
            fired(rs, event, class_name, workspace).push(r.1)
        } else {
            fired(rs, event, class_name, workspace)
        },
{
    let pred = |q: RuleModel| rule_fires(q, event, class_name, workspace);
    assert(rs.push(r).drop_last() =~= rs);
    assert(rs.push(r).last() == r);
    reveal_with_fuel(Seq::filter, 2);
    assert(rs.push(r).filter(pred) == if pred(r) {
        rs.filter(pred).push(r)
    } else {
        rs.filter(pred)
    });
    let f = |q: RuleModel| q.1;
    assert(rs.filter(pred).push(r).map_values(f) =~= rs.filter(pred).map_values(f).push(r.1));
}

/// A chord bound twice keeps one binding, to the later action.
pub proof fn law_chord_overwrite(m: Map<Seq<Seq<char>>, u64>, k: Seq<Seq<char>>, f1: u64, f2: u64)
    ensures
        bind_all(m, seq![(k, f1), (k, f2)]) == m.insert(k, f2),
        bind_all(m, seq![(k, f1), (k, f2)])[k] == f2,
        bind_all(m, seq![(k, f1), (k, f2)]).dom() == m.dom().insert(k),
{
    let list = seq![(k, f1), (k, f2)];
    assert(list.drop_last() =~= seq![(k, f1)]);
    assert(seq![(k, f1)].drop_last() =~= Seq::<(Seq<Seq<char>>, u64)>::empty());
    assert(bind_all(m, Seq::<(Seq<Seq<char>>, u64)>::empty()) == m);
    assert(bind_all(m, seq![(k, f1)]) == m.insert(k, f1));
    assert(bind_all(m, list) == m.insert(k, f1).insert(k, f2));
    assert(m.insert(k, f1).insert(k, f2) =~= m.insert(k, f2));
}

/// Rules that both fire on an event both run, the earlier one first, after
/// those of the rules registered before them.
pub proof fn law_matching_rules_all_fire(
    rs: Seq<RuleModel>,
    r1: RuleModel,
    r2: RuleModel,
    event: Seq<char>,
    class_name: Seq<char>,
    workspace: Option<i32>,
)
    requires
        rule_fires(r1, event, class_name, workspace),
        rule_fires(r2, event, class_name, workspace),
    ensures
        fired(rs + seq![r1, r2], event, class_name, workspace) == fired(rs, event, class_name, workspace)
            + seq![r1.1, r2.1],
{
    assert(rs + seq![r1, r2] =~= rs.push(r1).push(r2));
    lemma_fired_push(rs, r1, event, class_name, workspace);
    lemma_fired_push(rs.push(r1), r2, event, class_name, workspace);
    assert(fired(rs + seq![r1, r2], event, class_name, workspace) =~= fired(rs, event, class_name, workspace) + seq![r1.1, r2.1]);
}

/// Where no rule matches an event, nothing fires.
pub proof fn law_unmatched_fires_nothing(rs: Seq<RuleModel>, event: Seq<char>, class_name: Seq<char>, workspace: Option<i32>)
    requires
        forall|i: int| 0 <= i < rs.len() ==> !rule_fires(#[trigger] rs[i], event, class_name, workspace),
    ensures
        fired(rs, event, class_name, workspace) == Seq::<u64>::empty(),
    decreases rs.len(),
{
    if rs.len() > 0 {
        assert(!rule_fires(rs[rs.len() - 1], event, class_name, workspace));
        assert forall|i: int| 0 <= i < rs.drop_last().len() implies !rule_fires(#[trigger] rs.drop_last()[i], event, class_name, workspace) by {
            assert(rs.drop_last()[i] == rs[i]);
        }
        law_unmatched_fires_nothing(rs.drop_last(), event, class_name, workspace);
        assert(rs.drop_last().push(rs.last()) =~= rs);
        lemma_fired_push(rs.drop_last(), rs.last(), event, class_name, workspace);
    } else {
        assert(fired(rs, event, class_name, workspace) =~= Seq::<u64>::empty());
    }
}

fn parse_trigger(v: &ScriptValue) -> (r: Result<Triggers, Problem>)
    ensures
        match trigger_rule(*v) {
            Ok(t) => r is Ok && trigger_model(r->Ok_0) == t,
            Err(p) => r == Err::<Triggers, Problem>(p),
        },
{
    let e = match v {
        ScriptValue::Table(e) => e,
        other => return Err(Problem::TypeMismatch { expected: ValueKind::Table, found: other.kind() }),
    };
    let event = match get_field(e, "event") {
        None | Some(ScriptValue::Nil) => return Err(Problem::MissingField),
        Some(ScriptValue::Str(s)) => s.clone(),
        Some(x) => return Err(Problem::TypeMismatch { expected: ValueKind::Str, found: x.kind() }),
    };
    let class_name = match get_field(e, "class_name") {
        None | Some(ScriptValue::Nil) => return Err(Problem::MissingField),
        Some(ScriptValue::Str(s)) => s.clone(),
        Some(x) => return Err(Problem::TypeMismatch { expected: ValueKind::Str, found: x.kind() }),
    };
    let workspace = match get_field(e, "workspace") {
        None | Some(ScriptValue::Nil) => None,
        Some(ScriptValue::Integer(n)) => if MIN_I32 <= *n && *n <= MAX_I32 {
            Some(*n as i32)
        } else {
            return Err(Problem::OutOfRange);
        },
        Some(x) => return Err(Problem::TypeMismatch { expected: ValueKind::Integer, found: x.kind() }),
    };
    Ok(Triggers { event, class_name, workspace })
}

proof fn lemma_triggers_err_stuck(items: Seq<ScriptValue>, k: int, m: int)
    requires
        0 <= k <= m <= items.len(),
        triggers_rule(items.take(k)) is Err,
    ensures
        triggers_rule(items.take(m)) == triggers_rule(items.take(k)),
    decreases m,
{
    if m > k {
        lemma_triggers_err_stuck(items, k, m - 1);
        assert(items.take(m).drop_last() =~= items.take(m - 1));
    }
}

proof fn lemma_rules_err_stuck(items: Seq<ScriptValue>, k: int, m: int)
    requires
        0 <= k <= m <= items.len(),
        rules_rule(items.take(k)) is Err,
    ensures
        rules_rule(items.take(m)) == rules_rule(items.take(k)),
    decreases m,
{
    if m > k {
        lemma_rules_err_stuck(items, k, m - 1);
        assert(items.take(m).drop_last() =~= items.take(m - 1));
    }
}

fn parse_triggers(items: &Vec<ScriptValue>) -> (r: Result<Vec<Triggers>, (usize, Problem)>)
    ensures
        match triggers_rule(items@) {
            Ok(ts) => r is Ok && r->Ok_0@.map_values(|t: Triggers| trigger_model(t)) == ts,
            Err((j, p)) => r is Err && r->Err_0.0 == j && r->Err_0.1 == p,
        },
{
    let mut out: Vec<Triggers> = Vec::new();
    let mut i: usize = 0;
    assert(items@.take(0) =~= Seq::<ScriptValue>::empty());
    assert(out@.map_values(|t: Triggers| trigger_model(t)) =~= Seq::<TriggerModel>::empty());
    while i < items.len()
        invariant
            i <= items@.len(),
            triggers_rule(items@.take(i as int)) == Ok::<Seq<TriggerModel>, (int, Problem)>(
                out@.map_values(|t: Triggers| trigger_model(t)),
            ),
        decreases items@.len() - i,
    {
        assert(items@.take(i + 1).drop_last() =~= items@.take(i as int));
        assert(items@.take(i + 1).last() == items@[i as int]);
        match parse_trigger(&items[i]) {
            Ok(t) => {
                out.push(t);
                assert(out@.map_values(|t: Triggers| trigger_model(t)) =~= triggers_rule(items@.take(i + 1))->Ok_0);
            },
            Err(p) => {
                proof {
                    assert(triggers_rule(items@.take(i + 1)) == Err::<Seq<TriggerModel>, (int, Problem)>((i as int, p)));
                    lemma_triggers_err_stuck(items@, i + 1, items@.len() as int);
                    assert(items@.take(items@.len() as int) =~= items@);
                }
                return Err((i, p));
            },
        }
        i = i + 1;
    }
    assert(items@.take(items@.len() as int) =~= items@);
    Ok(out)
}

fn parse_rule(v: &ScriptValue) -> (r: Result<Rules, EntryProblem>)
    ensures
        match rule_rule(*v) {
            Ok(m) => r is Ok && rule_model(r->Ok_0) == m,
            Err(p) => r == Err::<Rules, EntryProblem>(p),
        },
{
    let e = match v {
        ScriptValue::Table(e) => e,
        other => return Err(EntryProblem::NotATable(other.kind())),
    };
    let triggers = match get_field(e, "triggers") {
        None | Some(ScriptValue::Nil) => return Err(EntryProblem::MissingTriggers),
        Some(ScriptValue::List(items)) => {
            if items.len() == 0 {
                return Err(EntryProblem::EmptyTriggers);
            }
            match parse_triggers(items) {
                Ok(ts) => ts,
                Err((j, p)) => return Err(EntryProblem::BadTrigger(j, p)),
            }
        },
        Some(other) => return Err(EntryProblem::BadTriggers(other.kind())),
    };
    let action = match get_field(e, "action") {
        None | Some(ScriptValue::Nil) => return Err(EntryProblem::MissingAction),
        Some(ScriptValue::Function(h)) => *h,
        Some(other) => return Err(EntryProblem::NotCallable(other.kind())),
    };
    Ok(Rules { triggers, action })
}

fn trigger_fires(t: &Triggers, event: &String, class_name: &String, workspace: Option<i32>) -> (r: bool)
    ensures
        r == trigger_matches(trigger_model(*t), event@, class_name@, workspace),
{
    if t.event != *event || t.class_name != *class_name {
        return false;
    }
    match (t.workspace, workspace) {
        (None, _) => true,
        (Some(a), Some(b)) => a == b,
        (Some(_), None) => false,
    }
}

fn rule_fires_exec(r: &Rules, event: &String, class_name: &String, workspace: Option<i32>) -> (b: bool)
    ensures
        b == rule_fires(rule_model(*r), event@, class_name@, workspace),
{
    let ghost m = rule_model(*r);
    let mut i: usize = 0;
    while i < r.triggers.len()
        invariant
            i <= r.triggers@.len(),
            m == rule_model(*r),
            forall|j: int| 0 <= j < i ==> !trigger_matches(#[trigger] m.0[j], event@, class_name@, workspace),
        decreases r.triggers@.len() - i,
    {
        if trigger_fires(&r.triggers[i], event, class_name, workspace) {
            assert(trigger_matches(m.0[i as int], event@, class_name@, workspace));
            return true;
        }
        i = i + 1;
    }
    false
}

/// The bindings and rules that the script declared.
#[derive(Debug)]
pub struct BindingTable {
    pub bindings: Vec<Keybinding>,
    pub rules: Vec<Rules>,
}

impl BindingTable {
    pub open spec fn wf(&self) -> bool {
        unique_chords(self.bindings@)
    }

    /// The keybindings, from chord to action.
    pub open spec fn keymap(&self) -> Map<Seq<Seq<char>>, u64> {
        bindings_map(self.bindings@)
    }

    pub fn new() -> (r: Self)
        ensures
            r.wf(),
            r.keymap() == Map::<Seq<Seq<char>>, u64>::empty(),
            r.rules@.len() == 0,
    {
        BindingTable { bindings: Vec::new(), rules: Vec::new() }
    }

    /// The position of the binding of `keys`.
    fn find_chord(&self, keys: &Vec<String>) -> (r: Option<usize>)
        requires
            self.wf(),
        ensures
            match r {
                Some(i) => i < self.bindings@.len() && chord(self.bindings@[i as int]) == keys_of(keys@),
                None => forall|j: int| 0 <= j < self.bindings@.len() ==> chord(#[trigger] self.bindings@[j]) != keys_of(keys@),
            },
    {
        let mut i: usize = 0;
        while i < self.bindings.len()
            invariant
                i <= self.bindings@.len(),
                forall|j: int| 0 <= j < i ==> chord(#[trigger] self.bindings@[j]) != keys_of(keys@),
            decreases self.bindings@.len() - i,
        {
            if same_chord(&self.bindings[i].keys, keys) {
                return Some(i);
            }
            i = i + 1;
        }
        None
    }

    /// Binds a chord, replacing the action of an earlier binding of it.
    fn bind(&mut self, kb: Keybinding)
        requires
            old(self).wf(),
        ensures
            final(self).wf(),
            final(self).keymap() == old(self).keymap().insert(chord(kb), kb.func),
            final(self).rules == old(self).rules,
    {
        match self.find_chord(&kb.keys) {
            Some(i) => {
                proof {
                    lemma_map_update(self.bindings@, i as int, kb);
                }
                self.bindings[i] = kb;
                proof {
                    assert forall|a: int, b: int|
                        0 <= a < b < self.bindings@.len() implies chord(#[trigger] self.bindings@[a]) != chord(
                        #[trigger] self.bindings@[b],
                    ) by {
                        assert(chord(old(self).bindings@[a]) != chord(old(self).bindings@[b]) || a == i || b == i);
                    }
                }
            },
            None => {
                let ghost before = self.bindings@;
                self.bindings.push(kb);
                proof {
                    assert(self.bindings@.drop_last() =~= before);
                }
            },
        }
    }

    /// Registers a declared batch of keybindings: every entry, in order, or
    /// none of them when one is malformed.
    pub fn set_bindings(&mut self, raw: &ScriptValue) -> (r: Result<(), BindingDeclarationError>)
        requires
            old(self).wf(),
        ensures
            final(self).wf(),
            final(self).rules == old(self).rules,
            match batch_of(*raw) {
                Err(e) => r == Err::<(), BindingDeclarationError>(e) && final(self).keymap() == old(self).keymap(),
                Ok(items) => match bindings_rule(items) {
                    Err(e) => r == Err::<(), BindingDeclarationError>(e) && final(self).keymap() == old(self).keymap(),
                    Ok(list) => r is Ok && final(self).keymap() == bind_all(old(self).keymap(), list),
                },
            },
    {
        let empty: Vec<ScriptValue> = Vec::new();
        let items = match raw {
            ScriptValue::List(items) => items,
            ScriptValue::Table(e) => if e.len() == 0 {
                &empty
            } else {
                return Err(BindingDeclarationError::NotASequence(ValueKind::Table));
            },
            other => return Err(BindingDeclarationError::NotASequence(other.kind())),
        };
        let mut parsed: Vec<Keybinding> = Vec::new();
        let mut i: usize = 0;
        assert(items@.take(0) =~= Seq::<ScriptValue>::empty());
        while i < items.len()
            invariant
                i <= items@.len(),
                self.wf(),
                self.keymap() == old(self).keymap(),
                self.rules == old(self).rules,
                batch_of(*raw) == Ok::<Seq<ScriptValue>, BindingDeclarationError>(items@),
                bindings_rule(items@.take(i as int)) is Ok,
                bindings_rule(items@.take(i as int))->Ok_0.len() == parsed@.len(),
                parsed@.len() == i,
                forall|j: int| 0 <= j < parsed@.len() ==> (#[trigger] bindings_rule(items@.take(i as int))->Ok_0[j]) == (chord(parsed@[j]), parsed@[j].func),
            decreases items@.len() - i,
        {
            assert(items@.take(i + 1).drop_last() =~= items@.take(i as int));
            assert(items@.take(i + 1).last() == items@[i as int]);
            match parse_binding(&items[i]) {
                Ok(kb) => {
                    parsed.push(kb);
                    assert forall|j: int| 0 <= j < parsed@.len() implies (#[trigger] bindings_rule(items@.take(i + 1))->Ok_0[j]) == (chord(parsed@[j]), parsed@[j].func) by {
                        if j < parsed@.len() - 1 {
                            assert(bindings_rule(items@.take(i + 1))->Ok_0[j] == bindings_rule(items@.take(i as int))->Ok_0[j]);
                        }
                    }
                },
                Err(p) => {
                    proof {
                        assert(bindings_rule(items@.take(i + 1)) == Err::<Seq<(Seq<Seq<char>>, u64)>, BindingDeclarationError>(
                            BindingDeclarationError::Entry(i, p),
                        ));
                        lemma_bindings_err_stuck(items@, i + 1, items@.len() as int);
                        assert(items@.take(items@.len() as int) =~= items@);
                    }
                    return Err(BindingDeclarationError::Entry(i, p));
                },
            }
            i = i + 1;
        }
        assert(items@.take(items@.len() as int) =~= items@);
        let ghost list = bindings_rule(items@)->Ok_0;
        let ghost start = self.keymap();
        let mut k: usize = 0;
        assert(list.take(0) =~= Seq::<(Seq<Seq<char>>, u64)>::empty());
        assert forall|j: int| 0 <= j < parsed@.len() implies list[0 + j] == (chord(#[trigger] parsed@[j]), parsed@[j].func) by {
            assert(list[j] == bindings_rule(items@.take(items@.len() as int))->Ok_0[j]);
        }
        let n = items.len();
        let mut rest = parsed;
        while rest.len() > 0
            invariant
                k + rest@.len() == list.len(),
                list.len() == n,
                self.wf(),
                self.rules == old(self).rules,
                self.keymap() == bind_all(start, list.take(k as int)),
                forall|j: int| 0 <= j < rest@.len() ==> list[k + j] == (chord(#[trigger] rest@[j]), rest@[j].func),
            decreases rest@.len(),
        {
            let ghost prev = rest@;
            let kb = rest.remove(0);
            assert(list[k as int] == (chord(kb), kb.func));
            assert forall|j: int| 0 <= j < rest@.len() implies list[k + 1 + j] == (chord(#[trigger] rest@[j]), rest@[j].func) by {
                assert(rest@[j] == prev[j + 1]);
                assert(list[k + (j + 1)] == (chord(prev[j + 1]), prev[j + 1].func));
            }
            self.bind(kb);
            assert(list.take(k + 1).drop_last() =~= list.take(k as int));
            k = k + 1;
        }
        assert(list.take(list.len() as int) =~= list);
        Ok(())
    }

    /// The action bound to a chord, if any; an unbound chord is no error.
    pub fn dispatch_key(&self, keys: &Vec<String>) -> (r: Option<u64>)
        requires
            self.wf(),
        ensures
            match r {
                Some(a) => self.keymap().contains_key(keys_of(keys@)) && self.keymap()[keys_of(keys@)] == a,
                None => !self.keymap().contains_key(keys_of(keys@)),
            },
    {
        match self.find_chord(keys) {
            Some(i) => {
                proof {
                    lemma_map_index(self.bindings@, i as int);
                }
                Some(self.bindings[i].func)
            },
            None => {
                proof {
                    lemma_map_absent(self.bindings@, keys_of(keys@));
                }
                None
            },
        }
    }

    /// Registers a declared batch of rules after those registered before:
    /// every entry, in order, or none of them when one is malformed.
    pub fn set_rules(&mut self, raw: &ScriptValue) -> (r: Result<(), BindingDeclarationError>)
        requires
            old(self).wf(),
        ensures
            final(self).wf(),
            final(self).bindings == old(self).bindings,
            match batch_of(*raw) {
                Err(e) => r == Err::<(), BindingDeclarationError>(e) && final(self).rules == old(self).rules,
                Ok(items) => match rules_rule(items) {
                    Err(e) => r == Err::<(), BindingDeclarationError>(e) && final(self).rules == old(self).rules,
                    Ok(list) => r is Ok && rules_model(final(self).rules@) == rules_model(old(self).rules@) + list,
                },
            },
    {
        let empty: Vec<ScriptValue> = Vec::new();
        let items = match raw {
            ScriptValue::List(items) => items,
            ScriptValue::Table(e) => if e.len() == 0 {
                &empty
            } else {
                return Err(BindingDeclarationError::NotASequence(ValueKind::Table));
            },
            other => return Err(BindingDeclarationError::NotASequence(other.kind())),
        };
        let mut parsed: Vec<Rules> = Vec::new();
        let mut i: usize = 0;
        assert(items@.take(0) =~= Seq::<ScriptValue>::empty());
        assert(rules_model(parsed@) =~= Seq::<RuleModel>::empty());
        while i < items.len()
            invariant
                i <= items@.len(),
                batch_of(*raw) == Ok::<Seq<ScriptValue>, BindingDeclarationError>(items@),
                self.wf(),
                self.bindings == old(self).bindings,
                self.rules == old(self).rules,
                rules_rule(items@.take(i as int)) == Ok::<Seq<RuleModel>, BindingDeclarationError>(rules_model(parsed@)),
            decreases items@.len() - i,
        {
            assert(items@.take(i + 1).drop_last() =~= items@.take(i as int));
            assert(items@.take(i + 1).last() == items@[i as int]);
            match parse_rule(&items[i]) {
                Ok(rule) => {
                    parsed.push(rule);
                    assert(rules_model(parsed@) =~= rules_rule(items@.take(i + 1))->Ok_0);
                },
                Err(p) => {
                    proof {
                        assert(rules_rule(items@.take(i + 1)) == Err::<Seq<RuleModel>, BindingDeclarationError>(
                            BindingDeclarationError::Entry(i, p),
                        ));
                        lemma_rules_err_stuck(items@, i + 1, items@.len() as int);
                        assert(items@.take(items@.len() as int) =~= items@);
                    }
                    return Err(BindingDeclarationError::Entry(i, p));
                },
            }
            i = i + 1;
        }
        assert(items@.take(items@.len() as int) =~= items@);
        let ghost before = self.rules@;
        let ghost added = parsed@;
        self.rules.append(&mut parsed);
        assert(rules_model(self.rules@) =~= rules_model(before) + rules_model(added));
        Ok(())
    }

    /// The actions of every rule that fires on an event, in registration
    /// order; none fire when no rule matches.
    pub fn dispatch_trigger(&self, event: &String, class_name: &String, workspace: Option<i32>) -> (r: Vec<u64>)
        ensures
            r@ == fired(rules_model(self.rules@), event@, class_name@, workspace),
    {
        let mut out: Vec<u64> = Vec::new();
        let mut i: usize = 0;
        assert(rules_model(self.rules@).take(0) =~= Seq::<RuleModel>::empty());
        assert(fired(Seq::<RuleModel>::empty(), event@, class_name@, workspace) =~= Seq::<u64>::empty());
        while i < self.rules.len()
            invariant
                i <= self.rules@.len(),
                out@ == fired(rules_model(self.rules@).take(i as int), event@, class_name@, workspace),
            decreases self.rules@.len() - i,
        {
            let ghost rm = rules_model(self.rules@);
            proof {
                assert(rm.take(i + 1) =~= rm.take(i as int).push(rule_model(self.rules@[i as int])));
                lemma_fired_push(rm.take(i as int), rule_model(self.rules@[i as int]), event@, class_name@, workspace);
            }
            if rule_fires_exec(&self.rules[i], event, class_name, workspace) {
                out.push(self.rules[i].action);
            }
            i = i + 1;
        }
        assert(rules_model(self.rules@).take(self.rules@.len() as int) =~= rules_model(self.rules@));
        out
    }
}

proof fn lemma_bindings_err_stuck(items: Seq<ScriptValue>, k: int, m: int)
    requires
        0 <= k <= m <= items.len(),
        bindings_rule(items.take(k)) is Err,
    ensures
        bindings_rule(items.take(m)) == bindings_rule(items.take(k)),
    decreases m,
{
    if m > k {
        lemma_bindings_err_stuck(items, k, m - 1);
        assert(items.take(m).drop_last() =~= items.take(m - 1));
    }
}


/// A captured action raised an error when the host invoked it.
#[derive(Debug)]
pub struct ScriptActionError {
    pub action: u64,
    pub message: String,
}

/// The failures among the outcomes of invoked actions, in order: `None` is a
/// success, `Some(message)` a failure.
pub open spec fn failures(actions: Seq<u64>, outcomes: Seq<Option<String>>) -> Seq<(u64, Seq<char>)>
    decreases outcomes.len(),
{
    if outcomes.len() == 0 || actions.len() != outcomes.len() {
        Seq::empty()
    } else {
        let rest = failures(actions.drop_last(), outcomes.drop_last());
        match outcomes.last() {
            Some(m) => rest.push((actions.last(), m@)),
            None => rest,
        }
    }
}

/// Gathers the errors of the actions that a dispatch invoked. Every action
/// runs whatever the others gave, so each failure is reported, none dropped.
pub fn collect_action_errors(actions: &Vec<u64>, outcomes: &Vec<Option<String>>) -> (r: Vec<ScriptActionError>)
    requires
        actions@.len() == outcomes@.len(),
    ensures
        r@.map_values(|e: ScriptActionError| (e.action, e.message@)) == failures(actions@, outcomes@),
{
    let mut out: Vec<ScriptActionError> = Vec::new();
    let mut i: usize = 0;
    assert(out@.map_values(|e: ScriptActionError| (e.action, e.message@)) =~= failures(actions@.take(0), outcomes@.take(0)));
    while i < outcomes.len()
        invariant
            i <= outcomes@.len() == actions@.len(),
            out@.map_values(|e: ScriptActionError| (e.action, e.message@)) == failures(actions@.take(i as int), outcomes@.take(i as int)),
        decreases outcomes@.len() - i,
    {
        assert(actions@.take(i + 1).drop_last() =~= actions@.take(i as int));
        assert(outcomes@.take(i + 1).drop_last() =~= outcomes@.take(i as int));
        match &outcomes[i] {
            Some(m) => {
                out.push(ScriptActionError { action: actions[i], message: m.clone() });
                assert(out@.map_values(|e: ScriptActionError| (e.action, e.message@)) =~= failures(actions@.take(i + 1), outcomes@.take(i + 1)));
            },
            None => {
                assert(out@.map_values(|e: ScriptActionError| (e.action, e.message@)) =~= failures(actions@.take(i + 1), outcomes@.take(i + 1)));
            },
        }
        i = i + 1;
    }
    assert(actions@.take(i as int) =~= actions@);
    assert(outcomes@.take(i as int) =~= outcomes@);
    out
}

} // verus!
