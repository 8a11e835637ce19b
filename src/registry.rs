use vstd::prelude::*;
use crate::value::{kind_of, ScriptValue, ValueKind};

verus! {

/// What a name inside a module is bound to.
#[derive(Debug)]
pub enum Slot {
    /// A nested module, by its identifier.
    Module(usize),
    /// A host command: its handler and the kinds of its parameters.
    Command(u64, Vec<ValueKind>),
    /// A plain data value.
    Value(ScriptValue),
}

pub open spec fn slot_kind(s: Slot) -> ValueKind {
    match s {
        Slot::Module(_) => ValueKind::Table,
        Slot::Command(_, _) => ValueKind::Function,
        Slot::Value(v) => kind_of(v),
    }
}

/// A module path was requested where a name is already bound to something
/// that is not a module.
#[derive(Debug)]
pub struct NamespaceConflict {
    /// The path up to and including the offending name.
    pub path: Vec<String>,
    /// What the offending name is bound to.
    pub found: ValueKind,
}

/// The script-visible namespace: modules nested under a root module.
///
/// Each binding is stored as `(module, name, slot)`; a later binding of the
/// same name in the same module replaces an earlier one. The root module has
/// identifier 0 and `count` modules exist.
#[derive(Debug)]
pub struct ModuleRegistry {
    pub entries: Vec<(usize, String, Slot)>,
    pub count: usize,
}

/// The slot bound to `key` in module `module`.
pub open spec fn slot_of(entries: Seq<(usize, String, Slot)>, module: int, key: Seq<char>) -> Option<Slot>
    decreases entries.len(),
{
    if entries.len() == 0 {
        None
    } else if entries.last().0 as int == module && entries.last().1@ == key {
        Some(entries.last().2)
    } else {
        slot_of(entries.drop_last(), module, key)
    }
}

pub open spec fn keys_of(path: Seq<String>) -> Seq<Seq<char>> {
    path.map_values(|s: String| s@)
}

/// Whether a lookup finds no entry: nothing bound, or the nil value.
pub open spec fn vacant(s: Option<Slot>) -> bool {
    s is None || s == Some(Slot::Value(ScriptValue::Nil))
}

/// What a module created on the way to a requested path holds: the next
/// name of the path, bound to the module created after it, and nothing else.
pub open spec fn holds_only(entries: Seq<(usize, String, Slot)>, q: int, key: Seq<char>) -> bool {
    &&& slot_of(entries, q, key) == Some(Slot::Module((q + 1) as usize))
    &&& forall|k: Seq<char>| k != key ==> #[trigger] slot_of(entries, q, k) is None
}

/// Where the first `n` names of a path lead to a module created after the
/// first `old_count`, that module holds the next name alone.
pub open spec fn created_holds_next(entries: Seq<(usize, String, Slot)>, keys: Seq<Seq<char>>, n: int, old_count: int) -> bool {
    match probe(entries, keys, n as nat) {
        Probe::Reached(q) => q >= old_count ==> holds_only(entries, q, keys[n]),
        _ => true,
    }
}

/// Where following the first `n` names of a path from the root leads.
pub enum Probe {
    Reached(int),
    Missing,
    Conflict(int, ValueKind),
}

pub open spec fn probe(entries: Seq<(usize, String, Slot)>, keys: Seq<Seq<char>>, n: nat) -> Probe
    decreases n,
{
    if n == 0 {
        Probe::Reached(0)
    } else {
        match probe(entries, keys, (n - 1) as nat) {
            Probe::Reached(p) => if vacant(slot_of(entries, p, keys[n - 1])) {
                Probe::Missing
            } else {
                match slot_of(entries, p, keys[n - 1])->Some_0 {
                    Slot::Module(id) => Probe::Reached(id as int),
                    s => Probe::Conflict(n - 1, slot_kind(s)),
                }
            },
            other => other,
        }
    }
}

/// What requesting the module at `keys` does to a registry that held
/// `old_entries`: an existing module is returned and nothing changes; a name
/// on the way bound to anything but a module is a conflict and nothing
/// changes. Otherwise the missing modules are created and the last one, new
/// and empty, is returned; each other module created holds the next name of
/// the path alone; and in the modules that existed before only names of the
/// path change, and only where they were unbound or nil. A name bound to nil
/// counts as unbound.
pub open spec fn get_or_create_ensures(
    old_entries: Seq<(usize, String, Slot)>,
    old_count: usize,
    new_entries: Seq<(usize, String, Slot)>,
    new_count: usize,
    keys: Seq<Seq<char>>,
    r: Result<usize, NamespaceConflict>,
) -> bool {
    match probe(old_entries, keys, keys.len()) {
        Probe::Reached(id) => r == Ok::<usize, NamespaceConflict>(id as usize) && new_entries
            == old_entries && new_count == old_count,
        Probe::Conflict(i, k) => r is Err && keys_of(r->Err_0.path@) == keys.take(i + 1)
            && r->Err_0.found == k && new_entries == old_entries && new_count == old_count,
        Probe::Missing => r is Ok && probe(new_entries, keys, keys.len()) == Probe::Reached(
            r->Ok_0 as int,
        ) && r->Ok_0 >= old_count && r->Ok_0 + 1 == new_count && new_count <= old_count + keys.len()
            && (forall|q: int, k: Seq<char>|
            #![trigger slot_of(new_entries, q, k)]
            !vacant(slot_of(old_entries, q, k)) ==> slot_of(new_entries, q, k) == slot_of(
                old_entries,
                q,
                k,
            )) && (forall|k: Seq<char>| #[trigger] slot_of(new_entries, r->Ok_0 as int, k) is None)
            && (forall|n: int|
            0 <= n < keys.len() ==> #[trigger] created_holds_next(new_entries, keys, n, old_count as int)) && (
        forall|q: int, k: Seq<char>|
            #![trigger slot_of(new_entries, q, k)]
            0 <= q < old_count && slot_of(new_entries, q, k) != slot_of(old_entries, q, k) ==> exists|
                j: int,
            |
                0 <= j < keys.len() && k == #[trigger] keys[j]),
    }
}

/// Binding a name changes what that name alone is bound to.
pub proof fn lemma_slot_of_push(e: Seq<(usize, String, Slot)>, x: (usize, String, Slot), q: int, k: Seq<char>)
    ensures
        slot_of(e.push(x), q, k) == if x.0 as int == q && x.1@ == k {
            Some(x.2)
        } else {
            slot_of(e, q, k)
        },
{
    assert(e.push(x).drop_last() =~= e);
}

proof fn lemma_slot_of_fresh(e: Seq<(usize, String, Slot)>, q: int, k: Seq<char>)
    requires
        forall|j: int| 0 <= j < e.len() ==> (#[trigger] e[j]).0 < q,
    ensures
        slot_of(e, q, k) is None,
    decreases e.len(),
{
    if e.len() > 0 {
        assert(e.last().0 < q);
        lemma_slot_of_fresh(e.drop_last(), q, k);
    }
}

proof fn lemma_probe_push(e: Seq<(usize, String, Slot)>, keys: Seq<Seq<char>>, n: nat, x: (usize, String, Slot))
    requires
        n <= keys.len(),
        probe(e, keys, n) is Reached,
        vacant(slot_of(e, x.0 as int, x.1@)),
    ensures
        probe(e.push(x), keys, n) == probe(e, keys, n),
    decreases n,
{
    if n > 0 {
        lemma_probe_push(e, keys, (n - 1) as nat, x);
        let p = probe(e, keys, (n - 1) as nat)->Reached_0;
        lemma_slot_of_push(e, x, p, keys[n - 1]);
    }
}

proof fn lemma_slot_of_member(e: Seq<(usize, String, Slot)>, q: int, k: Seq<char>)
    requires
        slot_of(e, q, k) is Some,
    ensures
        exists|j: int|
            0 <= j < e.len() && (#[trigger] e[j]).0 as int == q && e[j].1@ == k && Some(e[j].2) == slot_of(e, q, k),
    decreases e.len(),
{
    if e.last().0 as int == q && e.last().1@ == k {
        assert(e[e.len() - 1] == e.last());
    } else {
        lemma_slot_of_member(e.drop_last(), q, k);
        let j = choose|j: int|
            0 <= j < e.drop_last().len() && (#[trigger] e.drop_last()[j]).0 as int == q && e.drop_last()[j].1@ == k
                && Some(e.drop_last()[j].2) == slot_of(e.drop_last(), q, k);
        assert(e[j] == e.drop_last()[j]);
    }
}

proof fn lemma_probe_bound(e: Seq<(usize, String, Slot)>, keys: Seq<Seq<char>>, n: nat, c: int)
    requires
        c >= 1,
        n <= keys.len(),
        forall|j: int| 0 <= j < e.len() ==> ((#[trigger] e[j]).2 matches Slot::Module(id) ==> id < c),
    ensures
        probe(e, keys, n) matches Probe::Reached(q) ==> 0 <= q < c,
    decreases n,
{
    if n > 0 {
        lemma_probe_bound(e, keys, (n - 1) as nat, c);
        if let Probe::Reached(p) = probe(e, keys, (n - 1) as nat) {
            if slot_of(e, p, keys[n - 1]) is Some {
                lemma_slot_of_member(e, p, keys[n - 1]);
            }
        }
    }
}

/// Binding a name off a path leaves where the path leads unchanged.
pub proof fn lemma_probe_push_off(e: Seq<(usize, String, Slot)>, keys: Seq<Seq<char>>, n: nat, x: (usize, String, Slot))
    requires
        n <= keys.len(),
        forall|j: int| 0 <= j < n ==> keys[j] != x.1@,
    ensures
        probe(e.push(x), keys, n) == probe(e, keys, n),
    decreases n,
{
    if n > 0 {
        lemma_probe_push_off(e, keys, (n - 1) as nat, x);
        if let Probe::Reached(p) = probe(e, keys, (n - 1) as nat) {
            lemma_slot_of_push(e, x, p, keys[n - 1]);
        }
    }
}

/// Where every binding found along a path is kept, the path leads to the
/// same module.
pub proof fn lemma_probe_kept(e: Seq<(usize, String, Slot)>, e2: Seq<(usize, String, Slot)>, keys: Seq<Seq<char>>, n: nat)
    requires
        n <= keys.len(),
        probe(e, keys, n) is Reached,
        forall|q: int, k: Seq<char>|
            #![trigger slot_of(e2, q, k)]
            !vacant(slot_of(e, q, k)) ==> slot_of(e2, q, k) == slot_of(e, q, k),
    ensures
        probe(e2, keys, n) == probe(e, keys, n),
    decreases n,
{
    if n > 0 {
        if !(probe(e, keys, (n - 1) as nat) is Reached) {
            lemma_probe_stuck(e, keys, (n - 1) as nat, n);
        }
        lemma_probe_kept(e, e2, keys, (n - 1) as nat);
        let p = probe(e, keys, (n - 1) as nat)->Reached_0;
        assert(slot_of(e2, p, keys[n - 1]) == slot_of(e, p, keys[n - 1]));
    }
}

/// Two names bound to modules in one module name two different modules.
pub proof fn lemma_distinct_children(reg: ModuleRegistry, q: int, k1: Seq<char>, k2: Seq<char>)
    requires
        reg.wf(),
        k1 != k2,
        slot_of(reg.entries@, q, k1) matches Some(Slot::Module(_)),
        slot_of(reg.entries@, q, k2) matches Some(Slot::Module(_)),
    ensures
        slot_of(reg.entries@, q, k1) != slot_of(reg.entries@, q, k2),
{
    let e = reg.entries@;
    lemma_slot_of_member(e, q, k1);
    lemma_slot_of_member(e, q, k2);
    let a = choose|j: int| 0 <= j < e.len() && (#[trigger] e[j]).0 as int == q && e[j].1@ == k1 && Some(e[j].2) == slot_of(e, q, k1);
    let b = choose|j: int| 0 <= j < e.len() && (#[trigger] e[j]).0 as int == q && e[j].1@ == k2 && Some(e[j].2) == slot_of(e, q, k2);
    assert(a != b);
    if a < b {
        assert(e[a].2 != e[b].2);
    } else {
        assert(e[b].2 != e[a].2);
    }
}

proof fn lemma_probe_stuck(e: Seq<(usize, String, Slot)>, keys: Seq<Seq<char>>, n: nat, m: nat)
    requires
        n <= m,
        !(probe(e, keys, n) is Reached),
    ensures
        probe(e, keys, m) == probe(e, keys, n),
    decreases m,
{
    if m > n {
        lemma_probe_stuck(e, keys, n, (m - 1) as nat);
    }
}

/// The first `n` names of `path`.
fn prefix(path: &Vec<String>, n: usize) -> (r: Vec<String>)
    requires
        n <= path@.len(),
    ensures
        r@ == path@.take(n as int),
{
    let mut r: Vec<String> = Vec::new();
    let mut i: usize = 0;
    while i < n
        invariant
            i <= n <= path@.len(),
            r@ == path@.take(i as int),
        decreases n - i,
    {
        r.push(path[i].clone());
        assert(r@ =~= path@.take(i + 1));
        i = i + 1;
    }
    r
}


/// Why a call of a host command from the script was refused.
#[derive(Debug, PartialEq, Eq, Structural, Clone, Copy)]
pub enum CallError {
    /// Nothing is bound to that name.
    NoSuchCommand,
    /// The name is bound to something that is not a command.
    NotCallable(ValueKind),
    /// The number of arguments differs from the command's parameters.
    ArgCount { params: usize, args: usize },
    /// The argument at `index` has the wrong kind.
    ArgType { index: usize, expected: ValueKind, found: ValueKind },
}

/// Whether an argument fits a parameter kind: the same kind, or an empty
/// table where a sequence is expected (the script writes both as `{}`).
pub open spec fn fits(v: ScriptValue, k: ValueKind) -> bool {
    kind_of(v) == k || (k == ValueKind::List && (v matches ScriptValue::Table(e) && e@.len() == 0))
}

fn fits_exec(v: &ScriptValue, k: ValueKind) -> (r: bool)
    ensures
        r == fits(*v, k),
{
    match v {
        ScriptValue::Table(e) => k == ValueKind::Table || (k == ValueKind::List && e.len() == 0),
        _ => v.kind() == k,
    }
}

/// The first position from `i` on where an argument's kind differs from its
/// parameter's.
pub open spec fn first_mismatch(params: Seq<ValueKind>, args: Seq<ScriptValue>, i: int) -> Option<int>
    decreases params.len() - i,
{
    if i < 0 || i >= params.len() || i >= args.len() {
        None
    } else if !fits(args[i], params[i]) {
        Some(i)
    } else {
        first_mismatch(params, args, i + 1)
    }
}

/// What calling the command bound in `slot` with `args` gives.
pub open spec fn call_outcome(slot: Option<Slot>, args: Seq<ScriptValue>) -> Result<u64, CallError> {
    match slot {
        None => Err(CallError::NoSuchCommand),
        Some(Slot::Command(h, ps)) => if ps@.len() != args.len() {
            Err(CallError::ArgCount { params: ps@.len() as usize, args: args.len() as usize })
        } else {
            match first_mismatch(ps@, args, 0) {
                Some(i) => Err(
                    CallError::ArgType {
                        index: i as usize,
                        expected: ps@[i],
                        found: kind_of(args[i]),
                    },
                ),
                None => Ok(h),
            }
        },
        Some(other) => Err(CallError::NotCallable(slot_kind(other))),
    }
}

proof fn lemma_first_mismatch_none(params: Seq<ValueKind>, args: Seq<ScriptValue>, i: int)
    requires
        0 <= i <= params.len(),
        params.len() == args.len(),
        forall|j: int| i <= j < params.len() ==> fits(#[trigger] args[j], params[j]),
    ensures
        first_mismatch(params, args, i) is None,
    decreases params.len() - i,
{
    if i < params.len() {
        lemma_first_mismatch_none(params, args, i + 1);
    }
}

proof fn lemma_first_mismatch_some(params: Seq<ValueKind>, args: Seq<ScriptValue>, i: int, j: int)
    requires
        0 <= i <= j < params.len(),
        params.len() == args.len(),
        !fits(args[j], params[j]),
    ensures
        first_mismatch(params, args, i) is Some,
    decreases j - i,
{
    if fits(args[i], params[i]) {
        lemma_first_mismatch_some(params, args, i + 1, j);
    }
}

/// Requesting the same module path twice gives the same module, and the
/// second request changes nothing.
pub proof fn law_get_or_create_idempotent(
    e0: Seq<(usize, String, Slot)>,
    c0: usize,
    e1: Seq<(usize, String, Slot)>,
    c1: usize,
    e2: Seq<(usize, String, Slot)>,
    c2: usize,
    keys: Seq<Seq<char>>,
    r1: Result<usize, NamespaceConflict>,
    r2: Result<usize, NamespaceConflict>,
)
    requires
        get_or_create_ensures(e0, c0, e1, c1, keys, r1),
        get_or_create_ensures(e1, c1, e2, c2, keys, r2),
    ensures
        r1 is Ok ==> r2 == r1,
        r1 is Err ==> r2 is Err && keys_of(r2->Err_0.path@) == keys_of(r1->Err_0.path@)
            && r2->Err_0.found == r1->Err_0.found,
        e2 == e1,
        c2 == c1,
{
}

/// Requesting a path whose `n`-th name is bound to anything but a module,
/// below modules that exist, fails with a conflict naming that name.
pub proof fn law_conflict_detected(
    e0: Seq<(usize, String, Slot)>,
    c0: usize,
    e1: Seq<(usize, String, Slot)>,
    c1: usize,
    keys: Seq<Seq<char>>,
    n: nat,
    r: Result<usize, NamespaceConflict>,
)
    requires
        n < keys.len(),
        probe(e0, keys, n) is Reached,
        slot_of(e0, probe(e0, keys, n)->Reached_0, keys[n as int]) matches Some(s) && !(s is Module),
        !vacant(slot_of(e0, probe(e0, keys, n)->Reached_0, keys[n as int])),
        get_or_create_ensures(e0, c0, e1, c1, keys, r),
    ensures
        r is Err,
        keys_of(r->Err_0.path@) == keys.take(n as int + 1),
        r->Err_0.found == slot_kind(slot_of(e0, probe(e0, keys, n)->Reached_0, keys[n as int])->Some_0),
        e1 == e0,
        c1 == c0,
{
    assert(probe(e0, keys, (n + 1) as nat) is Conflict);
    lemma_probe_stuck(e0, keys, (n + 1) as nat, keys.len());
}

/// A command registered under a name can be called by that name: with
/// arguments of the declared kinds the call reaches its handler, and with an
/// argument of another kind it is refused.
pub proof fn law_registered_command_callable(
    e: Seq<(usize, String, Slot)>,
    module: usize,
    name: String,
    handler: u64,
    params: Vec<ValueKind>,
    args: Seq<ScriptValue>,
)
    ensures
        ({
            let r = call_outcome(slot_of(e.push((module, name, Slot::Command(handler, params))), module as int, name@), args);
            &&& (args.len() == params@.len() && forall|j: int|
                0 <= j < args.len() ==> fits(#[trigger] args[j], params@[j])) ==> r == Ok::<u64, CallError>(handler)
            &&& (exists|j: int| 0 <= j < args.len() && j < params@.len() && !fits(#[trigger] args[j], params@[j])) ==> r is Err
            &&& args.len() != params@.len() ==> r is Err
        }),
{
    let x = (module, name, Slot::Command(handler, params));
    lemma_slot_of_push(e, x, module as int, name@);
    if args.len() == params@.len() {
        if forall|j: int| 0 <= j < args.len() ==> fits(#[trigger] args[j], params@[j]) {
            lemma_first_mismatch_none(params@, args, 0);
        }
        if exists|j: int| 0 <= j < args.len() && j < params@.len() && !fits(#[trigger] args[j], params@[j]) {
            let j = choose|j: int| 0 <= j < args.len() && j < params@.len() && !fits(#[trigger] args[j], params@[j]);
            lemma_first_mismatch_some(params@, args, 0, j);
        }
    }
}

impl ModuleRegistry {
    pub open spec fn wf(&self) -> bool {
        &&& self.count >= 1
        &&& forall|j: int|
            0 <= j < self.entries@.len() ==> (#[trigger] self.entries@[j]).0 < self.count && (
            self.entries@[j].2 matches Slot::Module(id) ==> 1 <= id < self.count)
        &&& forall|a: int, b: int|
            0 <= a < b < self.entries@.len() && (#[trigger] self.entries@[a]).2 is Module && (
            #[trigger] self.entries@[b]).2 is Module ==> self.entries@[a].2 != self.entries@[b].2
    }

    /// A registry holding the root module alone.
    pub fn new() -> (r: Self)
        ensures
            r.wf(),
            r.entries@.len() == 0,
            r.count == 1,
    {
        ModuleRegistry { entries: Vec::new(), count: 1 }
    }

    /// The index of the entry that binds `key` in module `module`.
    fn find(&self, module: usize, key: &String) -> (r: Option<usize>)
        ensures
            match r {
                None => slot_of(self.entries@, module as int, key@) is None,
                Some(j) => j < self.entries@.len() && self.entries@[j as int].0 == module
                    && self.entries@[j as int].1@ == key@ && slot_of(self.entries@, module as int, key@)
                    == Some(self.entries@[j as int].2),
            },
    {
        let mut i: usize = self.entries.len();
        assert(self.entries@.take(i as int) =~= self.entries@);
        while i > 0
            invariant
                i <= self.entries@.len(),
                slot_of(self.entries@, module as int, key@) == slot_of(
                    self.entries@.take(i as int),
                    module as int,
                    key@,
                ),
            decreases i,
        {
            assert(self.entries@.take(i as int).drop_last() =~= self.entries@.take(i - 1));
            if self.entries[i - 1].0 == module && self.entries[i - 1].1 == *key {
                return Some(i - 1);
            }
            i = i - 1;
        }
        None
    }

    /// The module at `path` below the root, created with any missing module
    /// on the way; an existing module is returned as it is. A name bound to
    /// nil counts as unbound.
    pub fn get_or_create_module(&mut self, path: &Vec<String>) -> (r: Result<usize, NamespaceConflict>)
        requires
            old(self).wf(),
            old(self).count + path@.len() < usize::MAX,
        ensures
            final(self).wf(),
            r matches Ok(id) ==> id < final(self).count,
            forall|q: int, k: Seq<char>|
                #![trigger slot_of(final(self).entries@, q, k)]
                !vacant(slot_of(old(self).entries@, q, k)) ==> slot_of(final(self).entries@, q, k)
                    == slot_of(old(self).entries@, q, k),
            get_or_create_ensures(
                old(self).entries@,
                old(self).count,
                final(self).entries@,
                final(self).count,
                keys_of(path@),
                r,
            ),
    {
        let ghost keys = keys_of(path@);
        let ghost created = false;
        let mut parent: usize = 0;
        let mut i: usize = 0;
        while i < path.len()
            invariant
                i <= path@.len(),
                keys == keys_of(path@),
                self.wf(),
                old(self).wf(),
                old(self).count + path@.len() < usize::MAX,
                parent < self.count,
                probe(self.entries@, keys, i as nat) == Probe::Reached(parent as int),
                !created ==> self.entries@ == old(self).entries@ && self.count == old(self).count,
                created ==> probe(old(self).entries@, keys, keys.len()) == Probe::Missing,
                created ==> parent + 1 == self.count && parent >= old(self).count && self.count
                    <= old(self).count + i,
                created ==> forall|j: int|
                    0 <= j < self.entries@.len() ==> (#[trigger] self.entries@[j]).0 < parent,
                forall|q: int, k: Seq<char>|
                    #![trigger slot_of(self.entries@, q, k)]
                    !vacant(slot_of(old(self).entries@, q, k)) ==> slot_of(self.entries@, q, k)
                        == slot_of(old(self).entries@, q, k),
                forall|q: int, k: Seq<char>|
                    #![trigger slot_of(self.entries@, q, k)]
                    0 <= q < old(self).count && slot_of(self.entries@, q, k) != slot_of(old(self).entries@, q, k)
                        ==> exists|j: int| 0 <= j < i && k == #[trigger] keys[j],
                forall|n: int|
                    0 <= n < i ==> #[trigger] created_holds_next(self.entries@, keys, n, old(self).count as int),
            decreases path@.len() - i,
        {
            assert(keys[i as int] == path@[i as int]@);
            let bound = match self.find(parent, &path[i]) {
                None => None,
                Some(j) => match &self.entries[j].2 {
                    Slot::Value(ScriptValue::Nil) => None,
                    _ => Some(j),
                },
            };
            assert(bound is None ==> vacant(slot_of(self.entries@, parent as int, keys[i as int])));
            match bound {
                Some(j) => {
                    proof {
                        if created {
                            lemma_slot_of_fresh(self.entries@, parent as int, keys[i as int]);
                        }
                    }
                    match &self.entries[j].2 {
                        Slot::Module(id) => {
                            proof {
                                assert forall|n: int|
                                    0 <= n < i + 1 implies #[trigger] created_holds_next(self.entries@, keys, n, old(self).count as int) by {
                                    if n == i {
                                        assert(probe(self.entries@, keys, n as nat) == Probe::Reached(parent as int));
                                    }
                                }
                            }
                            parent = *id;
                        },
                        Slot::Command(_, _) => {
                            let pre = prefix(path, i + 1);
                            proof {
                                assert(probe(self.entries@, keys, (i + 1) as nat) == Probe::Conflict(
                                    i as int,
                                    ValueKind::Function,
                                ));
                                lemma_probe_stuck(self.entries@, keys, (i + 1) as nat, keys.len());
                                assert(keys_of(pre@) =~= keys.take(i + 1));
                            }
                            return Err(NamespaceConflict { path: pre, found: ValueKind::Function });
                        },
                        Slot::Value(v) => {
                            let pre = prefix(path, i + 1);
                            let found = v.kind();
                            proof {
                                assert(probe(self.entries@, keys, (i + 1) as nat) == Probe::Conflict(
                                    i as int,
                                    found,
                                ));
                                lemma_probe_stuck(self.entries@, keys, (i + 1) as nat, keys.len());
                                assert(keys_of(pre@) =~= keys.take(i + 1));
                            }
                            return Err(NamespaceConflict { path: pre, found });
                        },
                    }
                },
                None => {
                    let id = self.count;
                    let ghost old_entries = self.entries@;
                    let ghost old_parent = parent;
                    let ghost was_created = created;
                    proof {
                        if !created {
                            lemma_probe_stuck(self.entries@, keys, (i + 1) as nat, keys.len());
                        }
                    }
                    let entry = (parent, path[i].clone(), Slot::Module(id));
                    proof {
                        lemma_probe_push(self.entries@, keys, i as nat, entry);
                        lemma_slot_of_push(self.entries@, entry, parent as int, keys[i as int]);
                        assert forall|q: int, k: Seq<char>|
                            #![trigger slot_of(old_entries.push(entry), q, k)]
                            !vacant(slot_of(old(self).entries@, q, k)) implies slot_of(
                                old_entries.push(entry),
                                q,
                                k,
                            ) == slot_of(old(self).entries@, q, k) by {
                            lemma_slot_of_push(old_entries, entry, q, k);
                        }
                        assert forall|q: int, k: Seq<char>|
                            #![trigger slot_of(old_entries.push(entry), q, k)]
                            0 <= q < old(self).count && slot_of(old_entries.push(entry), q, k) != slot_of(
                                old(self).entries@,
                                q,
                                k,
                            ) implies exists|j: int| 0 <= j < i + 1 && k == #[trigger] keys[j] by {
                            lemma_slot_of_push(old_entries, entry, q, k);
                            if slot_of(old_entries, q, k) != slot_of(old(self).entries@, q, k) {
                                let j = choose|j: int| 0 <= j < i && k == #[trigger] keys[j];
                                assert(0 <= j < i + 1 && k == keys[j]);
                            } else {
                                assert(k == keys[i as int]);
                            }
                        }
                        assert forall|n: int|
                            0 <= n < i + 1 implies #[trigger] created_holds_next(old_entries.push(entry), keys, n, old(self).count as int) by {
                            if !(probe(old_entries, keys, n as nat) is Reached) {
                                lemma_probe_stuck(old_entries, keys, n as nat, i as nat);
                            }
                            lemma_probe_push(old_entries, keys, n as nat, entry);
                            let q = probe(old_entries, keys, n as nat)->Reached_0;
                            lemma_probe_bound(old_entries, keys, n as nat, self.count as int);
                            if q >= old(self).count {
                            assert(was_created);
                            assert forall|k: Seq<char>|
                                #![trigger slot_of(old_entries.push(entry), q, k)]
                                true implies slot_of(old_entries.push(entry), q, k) == if q == old_parent as int && k
                                    == keys[i as int] {
                                    Some(Slot::Module(id))
                                } else {
                                    slot_of(old_entries, q, k)
                                } by {
                                lemma_slot_of_push(old_entries, entry, q, k);
                            }
                            if n < i {
                                assert(created_holds_next(old_entries, keys, n, old(self).count as int));
                                assert(holds_only(old_entries, q, keys[n]));
                                lemma_slot_of_fresh(old_entries, old_parent as int, keys[n]);
                                assert(q != old_parent);
                                assert(holds_only(old_entries.push(entry), q, keys[n]));
                            } else {
                                assert(q == old_parent);
                                assert forall|k: Seq<char>| k != keys[i as int] implies #[trigger] slot_of(
                                    old_entries,
                                    q,
                                    k,
                                ) is None by {
                                    lemma_slot_of_fresh(old_entries, q, k);
                                }
                                assert(holds_only(old_entries.push(entry), q, keys[n]));
                            }
                            }
                        }
                    }
                    self.entries.push(entry);
                    self.count = self.count + 1;
                    parent = id;
                    proof {
                        created = true;
                        assert forall|j: int|
                            0 <= j < self.entries@.len() implies (#[trigger] self.entries@[j]).0
                            < parent by {
                            if j < old_entries.len() {
                                assert(self.entries@[j] == old_entries[j]);
                            }
                        }
                        assert forall|a: int, b: int|
                            0 <= a < b < self.entries@.len() && (#[trigger] self.entries@[a]).2 is Module && (
                            #[trigger] self.entries@[b]).2 is Module implies self.entries@[a].2 != self.entries@[b].2 by {
                            if b < old_entries.len() {
                                assert(self.entries@[a] == old_entries[a]);
                                assert(self.entries@[b] == old_entries[b]);
                            } else {
                                assert(self.entries@[a] == old_entries[a]);
                            }
                        }
                    }
                },
            }
            i = i + 1;
        }
        assert(keys.len() == path@.len());
        proof {
            if created {
                assert forall|k: Seq<char>| #[trigger] slot_of(self.entries@, parent as int, k) is None by {
                    lemma_slot_of_fresh(self.entries@, parent as int, k);
                }
            }
        }
        Ok(parent)
    }

    /// The module `strata.<name>`, created with `strata` where missing.
    pub fn get_or_create_sub_module(&mut self, name: &String) -> (r: Result<usize, NamespaceConflict>)
        requires
            old(self).wf(),
            old(self).count + 2 < usize::MAX,
        ensures
            final(self).wf(),
            r matches Ok(id) ==> id < final(self).count,
            forall|q: int, k: Seq<char>|
                #![trigger slot_of(final(self).entries@, q, k)]
                !vacant(slot_of(old(self).entries@, q, k)) ==> slot_of(final(self).entries@, q, k)
                    == slot_of(old(self).entries@, q, k),
            get_or_create_ensures(
                old(self).entries@,
                old(self).count,
                final(self).entries@,
                final(self).count,
                seq!["strata"@, name@],
                r,
            ),
    {
        let mut path: Vec<String> = Vec::new();
        path.push(String::from_str("strata"));
        path.push(name.clone());
        assert(keys_of(path@) =~= seq!["strata"@, name@]);
        self.get_or_create_module(&path)
    }

    /// Binds `name` in `module` to a host command with the given handler and
    /// parameter kinds, replacing what was bound there.
    pub fn register_command(&mut self, module: usize, name: &String, handler: u64, params: Vec<ValueKind>)
        requires
            old(self).wf(),
            module < old(self).count,
        ensures
            final(self).wf(),
            final(self).count == old(self).count,
            final(self).entries@ == old(self).entries@.push((module, *name, Slot::Command(handler, params))),
    {
        self.entries.push((module, name.clone(), Slot::Command(handler, params)));
    }

    /// Binds `name` in `module` to a data value, replacing what was bound there.
    pub fn set_value(&mut self, module: usize, name: &String, value: ScriptValue)
        requires
            old(self).wf(),
            module < old(self).count,
        ensures
            final(self).wf(),
            final(self).count == old(self).count,
            final(self).entries@ == old(self).entries@.push((module, *name, Slot::Value(value))),
    {
        self.entries.push((module, name.clone(), Slot::Value(value)));
    }

    /// Checks a call of `module.name(args)` from the script and gives the
    /// handler to run, or the script-visible error.
    pub fn call_command(&self, module: usize, name: &String, args: &Vec<ScriptValue>) -> (r: Result<u64, CallError>)
        ensures
            r == call_outcome(slot_of(self.entries@, module as int, name@), args@),
    {
        match self.find(module, name) {
            None => Err(CallError::NoSuchCommand),
            Some(j) => match &self.entries[j].2 {
                Slot::Command(h, ps) => {
                    if ps.len() != args.len() {
                        return Err(CallError::ArgCount { params: ps.len(), args: args.len() });
                    }
                    let mut i: usize = 0;
                    while i < ps.len()
                        invariant
                            i <= ps@.len() == args@.len(),
                            first_mismatch(ps@, args@, 0) == first_mismatch(ps@, args@, i as int),
                            slot_of(self.entries@, module as int, name@) == Some(Slot::Command(*h, *ps)),
                        decreases ps@.len() - i,
                    {
                        let found = args[i].kind();
                        if !fits_exec(&args[i], ps[i]) {
                            assert(first_mismatch(ps@, args@, i as int) == Some(i as int));
                            return Err(CallError::ArgType { index: i, expected: ps[i], found });
                        }
                        i = i + 1;
                    }
                    Ok(*h)
                },
                Slot::Module(_) => Err(CallError::NotCallable(ValueKind::Table)),
                Slot::Value(v) => Err(CallError::NotCallable(v.kind())),
            },
        }
    }
}

} // verus!
