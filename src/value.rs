use vstd::prelude::*;

verus! {

/// The runtime kind of a script value.
#[derive(PartialEq, Eq, Structural, Clone, Copy, Debug)]
pub enum ValueKind {
    Nil,
    Boolean,
    Integer,
    Real,
    Str,
    Function,
    Table,
    List,
}

/// A value produced by the configuration script.
///
/// A table with string keys is a `Table`; a sequence is a `List`. A real
/// number is held in thousandths. A function is a handle into the script
/// runtime, which alone can call it.
#[derive(Debug)]
pub enum ScriptValue {
    Nil,
    Boolean(bool),
    Integer(i64),
    Real(i64),
    Str(String),
    Function(u64),
    Table(Vec<(String, ScriptValue)>),
    List(Vec<ScriptValue>),
}

pub open spec fn kind_of(v: ScriptValue) -> ValueKind {
    match v {
        ScriptValue::Nil => ValueKind::Nil,
        ScriptValue::Boolean(_) => ValueKind::Boolean,
        ScriptValue::Integer(_) => ValueKind::Integer,
        ScriptValue::Real(_) => ValueKind::Real,
        ScriptValue::Str(_) => ValueKind::Str,
        ScriptValue::Function(_) => ValueKind::Function,
        ScriptValue::Table(_) => ValueKind::Table,
        ScriptValue::List(_) => ValueKind::List,
    }
}

/// The value bound to `key` among `entries`: the last binding wins.
pub open spec fn field_of(entries: Seq<(String, ScriptValue)>, key: Seq<char>) -> Option<ScriptValue>
    decreases entries.len(),
{
    if entries.len() == 0 {
        None
    } else if entries.last().0@ == key {
        Some(entries.last().1)
    } else {
        field_of(entries.drop_last(), key)
    }
}

impl ScriptValue {
    pub fn kind(&self) -> (r: ValueKind)
        ensures
            r == kind_of(*self),
    {
        match self {
            ScriptValue::Nil => ValueKind::Nil,
            ScriptValue::Boolean(_) => ValueKind::Boolean,
            ScriptValue::Integer(_) => ValueKind::Integer,
            ScriptValue::Real(_) => ValueKind::Real,
            ScriptValue::Str(_) => ValueKind::Str,
            ScriptValue::Function(_) => ValueKind::Function,
            ScriptValue::Table(_) => ValueKind::Table,
            ScriptValue::List(_) => ValueKind::List,
        }
    }
}

/// Looks `key` up among the entries of a table; the last binding wins.
pub fn get_field<'a>(entries: &'a Vec<(String, ScriptValue)>, key: &str) -> (r: Option<&'a ScriptValue>)
    ensures
        match field_of(entries@, key@) {
            None => r.is_none(),
            Some(v) => r == Some(&v),
        },
{
    let k = String::from_str(key);
    let mut i: usize = entries.len();
    assert(entries@.take(i as int) =~= entries@);
    while i > 0
        invariant
            i <= entries@.len(),
            k@ == key@,
            field_of(entries@, key@) == field_of(entries@.take(i as int), key@),
        decreases i,
    {
        assert(entries@.take(i as int).drop_last() =~= entries@.take(i - 1));
        if entries[i - 1].0 == k {
            return Some(&entries[i - 1].1);
        }
        i = i - 1;
    }
    None
}

} // verus!
