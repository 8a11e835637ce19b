use vstd::prelude::*;
use crate::value::{field_of, get_field, kind_of, ScriptValue, ValueKind};

verus! {

pub const DEFAULT_WORKSPACES: u8 = 5;
pub const DEFAULT_IN_GAPS: i32 = 5;
pub const DEFAULT_OUT_GAPS: i32 = 10;
pub const DEFAULT_KB_DELAY: i32 = 200;
pub const DEFAULT_KB_RATE: i32 = 25;
pub const DEFAULT_BORDER_WIDTH: u32 = 2;
pub const DEFAULT_BORDER_RADIUS: u32 = 5000;
pub const DEFAULT_OPACITY: u32 = 1000;
pub const DEFAULT_BLUR_SIZE: u32 = 2;
pub const DEFAULT_BLUR_PASSES: u32 = 3;
pub const DEFAULT_SHADOW_SIZE: u32 = 2;
pub const DEFAULT_SHADOW_BLUR: u32 = 3;
pub const DEFAULT_BORDER_ACTIVE: &'static str = "#ffffff";
pub const DEFAULT_BORDER_INACTIVE: &'static str = "#131418";
pub const DEFAULT_SHADOW_COLOR: &'static str = "#0f0f0f";
pub const DEFAULT_LAYOUT: &'static str = "dwindle";
pub const MAX_I32: i64 = 0x7fff_ffff;
pub const MIN_I32: i64 = -0x8000_0000;
pub const MAX_U32: i64 = 0xffff_ffff;
pub const MAX_U32_UNITS: i64 = 4_294_967;

/// What is wrong with one field of the configuration.
#[derive(Debug, PartialEq, Eq, Structural, Clone, Copy)]
pub enum Problem {
    /// A required field of a present table is absent.
    MissingField,
    /// The field holds a value of another kind.
    TypeMismatch { expected: ValueKind, found: ValueKind },
    /// The field holds a number outside the range of its type, or a
    /// sequence of the wrong length.
    OutOfRange,
}

/// A conversion failure: the dotted path of the offending field and what is
/// wrong with it.
#[derive(Debug)]
pub struct ConversionError {
    pub path: String,
    pub problem: Problem,
}

/// A conversion failure in the model: a path and a problem.
pub type Fault = (Seq<char>, Problem);

pub open spec fn agrees<T>(r: Result<T, ConversionError>, s: Result<T, Fault>) -> bool {
    match s {
        Ok(v) => r == Ok::<T, ConversionError>(v),
        Err(f) => r is Err && r->Err_0.path@ == f.0 && r->Err_0.problem == f.1,
    }
}

pub open spec fn fault_is<T>(r: Result<T, ConversionError>, f: Fault) -> bool {
    r is Err && r->Err_0.path@ == f.0 && r->Err_0.problem == f.1
}

pub open spec fn at<T>(r: Result<T, Problem>, path: Seq<char>) -> Result<T, Fault> {
    match r {
        Ok(v) => Ok(v),
        Err(p) => Err((path, p)),
    }
}

pub open spec fn absent(v: Option<ScriptValue>) -> bool {
    v is None || v == Some(ScriptValue::Nil)
}

pub open spec fn mismatch<T>(expected: ValueKind, v: Option<ScriptValue>) -> Result<T, Problem> {
    Err(Problem::TypeMismatch { expected, found: kind_of(v->Some_0) })
}

/// An integer field in `[lo, hi]`; `default` applies when it is absent, and
/// without one the field is required.
pub open spec fn int_rule(v: Option<ScriptValue>, default: Option<i64>, lo: i64, hi: i64) -> Result<i64, Problem> {
    if absent(v) {
        match default {
            Some(d) => Ok(d),
            None => Err(Problem::MissingField),
        }
    } else {
        match v->Some_0 {
            ScriptValue::Integer(n) => if lo <= n <= hi {
                Ok(n)
            } else {
                Err(Problem::OutOfRange)
            },
            _ => mismatch(ValueKind::Integer, v),
        }
    }
}

/// A required boolean field.
pub open spec fn bool_rule(v: Option<ScriptValue>) -> Result<bool, Problem> {
    if absent(v) {
        Err(Problem::MissingField)
    } else {
        match v->Some_0 {
            ScriptValue::Boolean(b) => Ok(b),
            _ => mismatch(ValueKind::Boolean, v),
        }
    }
}

/// A required string field.
pub open spec fn str_rule(v: Option<ScriptValue>) -> Result<Seq<char>, Problem> {
    if absent(v) {
        Err(Problem::MissingField)
    } else {
        match v->Some_0 {
            ScriptValue::Str(s) => Ok(s@),
            _ => mismatch(ValueKind::Str, v),
        }
    }
}

/// A required fraction in `[0, 1]`, in thousandths: an integer 0 or 1, or a
/// real number.
pub open spec fn fraction_rule(v: Option<ScriptValue>) -> Result<i64, Problem> {
    if absent(v) {
        Err(Problem::MissingField)
    } else {
        match v->Some_0 {
            ScriptValue::Integer(n) => if 0 <= n <= 1 {
                Ok((n * 1000) as i64)
            } else {
                Err(Problem::OutOfRange)
            },
            ScriptValue::Real(m) => if 0 <= m <= 1000 {
                Ok(m)
            } else {
                Err(Problem::OutOfRange)
            },
            _ => mismatch(ValueKind::Real, v),
        }
    }
}

/// A required non-negative measure, in thousandths: an integer or a real
/// number.
pub open spec fn measure_rule(v: Option<ScriptValue>) -> Result<i64, Problem> {
    if absent(v) {
        Err(Problem::MissingField)
    } else {
        match v->Some_0 {
            ScriptValue::Integer(n) => if 0 <= n <= MAX_U32_UNITS {
                Ok((n * 1000) as i64)
            } else {
                Err(Problem::OutOfRange)
            },
            ScriptValue::Real(m) => if 0 <= m <= MAX_U32 {
                Ok(m)
            } else {
                Err(Problem::OutOfRange)
            },
            _ => mismatch(ValueKind::Real, v),
        }
    }
}

/// A table field: `None` when absent, else its entries.
pub open spec fn table_rule(v: Option<ScriptValue>) -> Result<Option<Seq<(String, ScriptValue)>>, Problem> {
    if absent(v) {
        Ok(None)
    } else {
        match v->Some_0 {
            ScriptValue::Table(e) => Ok(Some(e@)),
            _ => mismatch(ValueKind::Table, v),
        }
    }
}

fn problem_at(path: &str, problem: Problem) -> (r: ConversionError)
    ensures
        r.path@ == path@,
        r.problem == problem,
{
    ConversionError { path: String::from_str(path), problem }
}

fn is_absent(v: Option<&ScriptValue>) -> (r: bool)
    ensures
        r == absent(match v {
            Some(x) => Some(*x),
            None => None,
        }),
{
    match v {
        None => true,
        Some(ScriptValue::Nil) => true,
        _ => false,
    }
}

pub open spec fn deref(v: Option<&ScriptValue>) -> Option<ScriptValue> {
    match v {
        Some(x) => Some(*x),
        None => None,
    }
}

fn int_field(
    entries: &Vec<(String, ScriptValue)>,
    key: &str,
    path: &str,
    default: Option<i64>,
    lo: i64,
    hi: i64,
) -> (r: Result<i64, ConversionError>)
    ensures
        agrees(r, at(int_rule(field_of(entries@, key@), default, lo, hi), path@)),
{
    let v = get_field(entries, key);
    if is_absent(v) {
        return match default {
            Some(d) => Ok(d),
            None => Err(problem_at(path, Problem::MissingField)),
        };
    }
    match v {
        Some(ScriptValue::Integer(n)) => if lo <= *n && *n <= hi {
            Ok(*n)
        } else {
            Err(problem_at(path, Problem::OutOfRange))
        },
        Some(x) => Err(problem_at(path, Problem::TypeMismatch { expected: ValueKind::Integer, found: x.kind() })),
        None => Err(problem_at(path, Problem::MissingField)),
    }
}

fn bool_field(entries: &Vec<(String, ScriptValue)>, key: &str, path: &str) -> (r: Result<bool, ConversionError>)
    ensures
        agrees(r, at(bool_rule(field_of(entries@, key@)), path@)),
{
    match get_field(entries, key) {
        None | Some(ScriptValue::Nil) => Err(problem_at(path, Problem::MissingField)),
        Some(ScriptValue::Boolean(b)) => Ok(*b),
        Some(x) => Err(problem_at(path, Problem::TypeMismatch { expected: ValueKind::Boolean, found: x.kind() })),
    }
}

fn str_field(entries: &Vec<(String, ScriptValue)>, key: &str, path: &str) -> (r: Result<String, ConversionError>)
    ensures
        match at(str_rule(field_of(entries@, key@)), path@) {
            Ok(v) => r is Ok && r->Ok_0@ == v,
            Err(f) => fault_is(r, f),
        },
{
    match get_field(entries, key) {
        None | Some(ScriptValue::Nil) => Err(problem_at(path, Problem::MissingField)),
        Some(ScriptValue::Str(s)) => Ok(s.clone()),
        Some(x) => Err(problem_at(path, Problem::TypeMismatch { expected: ValueKind::Str, found: x.kind() })),
    }
}

fn fraction_field(entries: &Vec<(String, ScriptValue)>, key: &str, path: &str) -> (r: Result<i64, ConversionError>)
    ensures
        agrees(r, at(fraction_rule(field_of(entries@, key@)), path@)),
{
    match get_field(entries, key) {
        None | Some(ScriptValue::Nil) => Err(problem_at(path, Problem::MissingField)),
        Some(ScriptValue::Integer(n)) => if 0 <= *n && *n <= 1 {
            Ok(*n * 1000)
        } else {
            Err(problem_at(path, Problem::OutOfRange))
        },
        Some(ScriptValue::Real(m)) => if 0 <= *m && *m <= 1000 {
            Ok(*m)
        } else {
            Err(problem_at(path, Problem::OutOfRange))
        },
        Some(x) => Err(problem_at(path, Problem::TypeMismatch { expected: ValueKind::Real, found: x.kind() })),
    }
}

fn measure_field(entries: &Vec<(String, ScriptValue)>, key: &str, path: &str) -> (r: Result<i64, ConversionError>)
    ensures
        agrees(r, at(measure_rule(field_of(entries@, key@)), path@)),
        r matches Ok(m) ==> 0 <= m <= MAX_U32,
{
    match get_field(entries, key) {
        None | Some(ScriptValue::Nil) => Err(problem_at(path, Problem::MissingField)),
        Some(ScriptValue::Integer(n)) => if 0 <= *n && *n <= MAX_U32_UNITS {
            Ok(*n * 1000)
        } else {
            Err(problem_at(path, Problem::OutOfRange))
        },
        Some(ScriptValue::Real(m)) => if 0 <= *m && *m <= MAX_U32 {
            Ok(*m)
        } else {
            Err(problem_at(path, Problem::OutOfRange))
        },
        Some(x) => Err(problem_at(path, Problem::TypeMismatch { expected: ValueKind::Real, found: x.kind() })),
    }
}

/// The entries of a table field, `None` when it is absent.
fn table_field<'a>(entries: &'a Vec<(String, ScriptValue)>, key: &str, path: &str) -> (r: Result<Option<&'a Vec<(String, ScriptValue)>>, ConversionError>)
    ensures
        match at(table_rule(field_of(entries@, key@)), path@) {
            Ok(None) => r == Ok::<Option<&Vec<(String, ScriptValue)>>, ConversionError>(None),
            Ok(Some(e)) => r is Ok && r->Ok_0 is Some && r->Ok_0->Some_0@ == e,
            Err(f) => r is Err && r->Err_0.path@ == f.0 && r->Err_0.problem == f.1,
        },
{
    match get_field(entries, key) {
        None | Some(ScriptValue::Nil) => Ok(None),
        Some(ScriptValue::Table(e)) => Ok(Some(e)),
        Some(x) => Err(problem_at(path, Problem::TypeMismatch { expected: ValueKind::Table, found: x.kind() })),
    }
}


/// General settings.
#[derive(Debug)]
pub struct General {
    pub workspaces: u8,
    pub in_gaps: i32,
    pub out_gaps: i32,
    /// Key repeat delay and rate, in that order.
    pub kb_repeat: Vec<i32>,
}

/// General settings in the model: workspaces, inner gap, outer gap, key
/// repeat delay and key repeat rate.
pub type GeneralModel = (int, int, int, int, int);

impl General {
    pub open spec fn model(&self) -> GeneralModel {
        (
            self.workspaces as int,
            self.in_gaps as int,
            self.out_gaps as int,
            self.kb_repeat@[0] as int,
            self.kb_repeat@[1] as int,
        )
    }

    pub open spec fn wf(&self) -> bool {
        self.kb_repeat@.len() == 2
    }
}

/// The key repeat pair: a sequence of two integers, delay then rate.
pub open spec fn kb_repeat_rule(v: Option<ScriptValue>) -> Result<(i64, i64), Problem> {
    if absent(v) {
        Ok((DEFAULT_KB_DELAY as i64, DEFAULT_KB_RATE as i64))
    } else {
        match v->Some_0 {
            ScriptValue::List(items) => if items@.len() != 2 {
                Err(Problem::OutOfRange)
            } else {
                match int_rule(Some(items@[0]), None, MIN_I32, MAX_I32) {
                    Err(p) => Err(p),
                    Ok(d) => match int_rule(Some(items@[1]), None, MIN_I32, MAX_I32) {
                        Err(p) => Err(p),
                        Ok(r) => Ok((d, r)),
                    },
                }
            },
            _ => mismatch(ValueKind::List, v),
        }
    }
}

/// The general settings read from the entries of the `general` table.
pub open spec fn general_rule(e: Seq<(String, ScriptValue)>) -> Result<GeneralModel, Fault> {
    match at(int_rule(field_of(e, "workspaces"@), Some(DEFAULT_WORKSPACES as i64), 0, 255), "general.workspaces"@) {
        Err(f) => Err(f),
        Ok(w) => match at(int_rule(field_of(e, "gaps_in"@), Some(DEFAULT_IN_GAPS as i64), MIN_I32, MAX_I32), "general.gaps_in"@) {
            Err(f) => Err(f),
            Ok(gi) => match at(int_rule(field_of(e, "gaps_out"@), Some(DEFAULT_OUT_GAPS as i64), MIN_I32, MAX_I32), "general.gaps_out"@) {
                Err(f) => Err(f),
                Ok(go) => match at(kb_repeat_rule(field_of(e, "kb_repeat"@)), "general.kb_repeat"@) {
                    Err(f) => Err(f),
                    Ok(kb) => Ok((w as int, gi as int, go as int, kb.0 as int, kb.1 as int)),
                },
            },
        },
    }
}

/// Converts the `general` table; an absent one gives the defaults.
pub fn convert_general(general: Option<&Vec<(String, ScriptValue)>>) -> (r: Result<General, ConversionError>)
    ensures
        match general_rule(match general { Some(e) => e@, None => Seq::empty() }) {
            Ok(m) => r is Ok && r->Ok_0.wf() && r->Ok_0.model() == m,
            Err(f) => fault_is(r, f),
        },
{
    let empty: Vec<(String, ScriptValue)> = Vec::new();
    let e = match general {
        Some(e) => e,
        None => &empty,
    };
    let w = match int_field(e, "workspaces", "general.workspaces", Some(DEFAULT_WORKSPACES as i64), 0, 255) {
        Ok(w) => w,
        Err(err) => return Err(err),
    };
    let gi = match int_field(e, "gaps_in", "general.gaps_in", Some(DEFAULT_IN_GAPS as i64), MIN_I32, MAX_I32) {
        Ok(v) => v,
        Err(err) => return Err(err),
    };
    let go = match int_field(e, "gaps_out", "general.gaps_out", Some(DEFAULT_OUT_GAPS as i64), MIN_I32, MAX_I32) {
        Ok(v) => v,
        Err(err) => return Err(err),
    };
    let kb = match kb_repeat_field(e) {
        Ok(v) => v,
        Err(err) => return Err(err),
    };
    let mut kb_repeat: Vec<i32> = Vec::new();
    kb_repeat.push(kb.0 as i32);
    kb_repeat.push(kb.1 as i32);
    Ok(General { workspaces: w as u8, in_gaps: gi as i32, out_gaps: go as i32, kb_repeat })
}

fn kb_repeat_field(entries: &Vec<(String, ScriptValue)>) -> (r: Result<(i64, i64), ConversionError>)
    ensures
        agrees(r, at(kb_repeat_rule(field_of(entries@, "kb_repeat"@)), "general.kb_repeat"@)),
        r matches Ok((d, rate)) ==> MIN_I32 <= d <= MAX_I32 && MIN_I32 <= rate <= MAX_I32,
{
    let path = "general.kb_repeat";
    match get_field(entries, "kb_repeat") {
        None | Some(ScriptValue::Nil) => Ok((DEFAULT_KB_DELAY as i64, DEFAULT_KB_RATE as i64)),
        Some(ScriptValue::List(items)) => {
            if items.len() != 2 {
                return Err(problem_at(path, Problem::OutOfRange));
            }
            let d = match &items[0] {
                ScriptValue::Integer(n) => if MIN_I32 <= *n && *n <= MAX_I32 {
                    *n
                } else {
                    return Err(problem_at(path, Problem::OutOfRange));
                },
                ScriptValue::Nil => return Err(problem_at(path, Problem::MissingField)),
                x => return Err(problem_at(path, Problem::TypeMismatch { expected: ValueKind::Integer, found: x.kind() })),
            };
            let rate = match &items[1] {
                ScriptValue::Integer(n) => if MIN_I32 <= *n && *n <= MAX_I32 {
                    *n
                } else {
                    return Err(problem_at(path, Problem::OutOfRange));
                },
                ScriptValue::Nil => return Err(problem_at(path, Problem::MissingField)),
                x => return Err(problem_at(path, Problem::TypeMismatch { expected: ValueKind::Integer, found: x.kind() })),
            };
            Ok((d, rate))
        },
        Some(x) => Err(problem_at(path, Problem::TypeMismatch { expected: ValueKind::List, found: x.kind() })),
    }
}


/// Window decorations. The border radius and the opacity are in thousandths.
#[derive(Debug)]
pub struct WindowDecorations {
    pub border_width: u32,
    pub border_active: String,
    pub border_inactive: String,
    pub border_radius: u32,
    pub window_opacity: u32,
    pub blur_enable: bool,
    pub blur_size: u32,
    pub blur_passes: u32,
    pub blur_optimization: bool,
    pub shadows_enabled: bool,
    pub shadow_size: u32,
    pub shadow_blur: u32,
    pub shadow_color: String,
}

/// Border: width, active colour, inactive colour, radius in thousandths.
pub type BorderModel = (int, Seq<char>, Seq<char>, int);

/// Blur: enabled, size, passes, optimised.
pub type BlurModel = (bool, int, int, bool);

/// Shadow: enabled, size, blur, colour.
pub type ShadowModel = (bool, int, int, Seq<char>);

/// Decorations: border, opacity in thousandths, blur, shadow.
pub type DecorationsModel = (BorderModel, int, BlurModel, ShadowModel);

impl WindowDecorations {
    pub open spec fn model(&self) -> DecorationsModel {
        (
            (self.border_width as int, self.border_active@, self.border_inactive@, self.border_radius as int),
            self.window_opacity as int,
            (self.blur_enable, self.blur_size as int, self.blur_passes as int, self.blur_optimization),
            (self.shadows_enabled, self.shadow_size as int, self.shadow_blur as int, self.shadow_color@),
        )
    }
}

pub open spec fn border_rule(e: Seq<(String, ScriptValue)>) -> Result<BorderModel, Fault> {
    match at(int_rule(field_of(e, "width"@), None, 0, MAX_U32), "decorations.border.width"@) {
        Err(f) => Err(f),
        Ok(w) => match at(str_rule(field_of(e, "active"@)), "decorations.border.active"@) {
            Err(f) => Err(f),
            Ok(a) => match at(str_rule(field_of(e, "inactive"@)), "decorations.border.inactive"@) {
                Err(f) => Err(f),
                Ok(i) => match at(measure_rule(field_of(e, "radius"@)), "decorations.border.radius"@) {
                    Err(f) => Err(f),
                    Ok(r) => Ok((w as int, a, i, r as int)),
                },
            },
        },
    }
}

pub open spec fn window_rule(e: Seq<(String, ScriptValue)>) -> Result<int, Fault> {
    match at(fraction_rule(field_of(e, "opacity"@)), "decorations.window.opacity"@) {
        Err(f) => Err(f),
        Ok(o) => Ok(o as int),
    }
}

pub open spec fn blur_rule(e: Seq<(String, ScriptValue)>) -> Result<BlurModel, Fault> {
    match at(bool_rule(field_of(e, "enabled"@)), "decorations.blur.enabled"@) {
        Err(f) => Err(f),
        Ok(en) => match at(int_rule(field_of(e, "size"@), None, 0, MAX_U32), "decorations.blur.size"@) {
            Err(f) => Err(f),
            Ok(sz) => match at(int_rule(field_of(e, "passes"@), None, 0, MAX_U32), "decorations.blur.passes"@) {
                Err(f) => Err(f),
                Ok(p) => match at(bool_rule(field_of(e, "optimize"@)), "decorations.blur.optimize"@) {
                    Err(f) => Err(f),
                    Ok(o) => Ok((en, sz as int, p as int, o)),
                },
            },
        },
    }
}

pub open spec fn shadow_rule(e: Seq<(String, ScriptValue)>) -> Result<ShadowModel, Fault> {
    match at(bool_rule(field_of(e, "enabled"@)), "decorations.shadow.enabled"@) {
        Err(f) => Err(f),
        Ok(en) => match at(int_rule(field_of(e, "size"@), None, 0, MAX_U32), "decorations.shadow.size"@) {
            Err(f) => Err(f),
            Ok(sz) => match at(int_rule(field_of(e, "blur"@), None, 0, MAX_U32), "decorations.shadow.blur"@) {
                Err(f) => Err(f),
                Ok(b) => match at(str_rule(field_of(e, "color"@)), "decorations.shadow.color"@) {
                    Err(f) => Err(f),
                    Ok(c) => Ok((en, sz as int, b as int, c)),
                },
            },
        },
    }
}

/// A part of the decorations: its defaults when the table is absent, else
/// what `rule` reads from it.
pub open spec fn part<T>(t: Result<Option<Seq<(String, ScriptValue)>>, Fault>, default: T, rule: Result<T, Fault>) -> Result<T, Fault> {
    match t {
        Err(f) => Err(f),
        Ok(None) => Ok(default),
        Ok(Some(_)) => rule,
    }
}

pub open spec fn decorations_rule(e: Seq<(String, ScriptValue)>) -> Result<DecorationsModel, Fault> {
    let bt = at(table_rule(field_of(e, "border"@)), "decorations.border"@);
    let wt = at(table_rule(field_of(e, "window"@)), "decorations.window"@);
    let lt = at(table_rule(field_of(e, "blur"@)), "decorations.blur"@);
    let st = at(table_rule(field_of(e, "shadow"@)), "decorations.shadow"@);
    match part(bt, (DEFAULT_BORDER_WIDTH as int, DEFAULT_BORDER_ACTIVE@, DEFAULT_BORDER_INACTIVE@, DEFAULT_BORDER_RADIUS as int), border_rule(bt->Ok_0->Some_0)) {
        Err(f) => Err(f),
        Ok(b) => match part(wt, DEFAULT_OPACITY as int, window_rule(wt->Ok_0->Some_0)) {
            Err(f) => Err(f),
            Ok(w) => match part(lt, (false, DEFAULT_BLUR_SIZE as int, DEFAULT_BLUR_PASSES as int, true), blur_rule(lt->Ok_0->Some_0)) {
                Err(f) => Err(f),
                Ok(l) => match part(st, (false, DEFAULT_SHADOW_SIZE as int, DEFAULT_SHADOW_BLUR as int, DEFAULT_SHADOW_COLOR@), shadow_rule(st->Ok_0->Some_0)) {
                    Err(f) => Err(f),
                    Ok(sh) => Ok((b, w, l, sh)),
                },
            },
        },
    }
}

/// Converts the `decorations` table; an absent table, or an absent part of
/// it, gives the defaults, and a present part must give all of its fields.
pub fn convert_decorations(decorations: Option<&Vec<(String, ScriptValue)>>) -> (r: Result<WindowDecorations, ConversionError>)
    ensures
        match decorations_rule(match decorations { Some(e) => e@, None => Seq::empty() }) {
            Ok(m) => r is Ok && r->Ok_0.model() == m,
            Err(f) => fault_is(r, f),
        },
{
    let empty: Vec<(String, ScriptValue)> = Vec::new();
    let e = match decorations {
        Some(e) => e,
        None => &empty,
    };
    let (border_width, border_active, border_inactive, border_radius) = match table_field(e, "border", "decorations.border") {
        Err(err) => return Err(err),
        Ok(None) => (DEFAULT_BORDER_WIDTH, String::from_str(DEFAULT_BORDER_ACTIVE), String::from_str(DEFAULT_BORDER_INACTIVE), DEFAULT_BORDER_RADIUS),
        Ok(Some(b)) => {
            let w = match int_field(b, "width", "decorations.border.width", None, 0, MAX_U32) {
                Ok(v) => v,
                Err(err) => return Err(err),
            };
            let a = match str_field(b, "active", "decorations.border.active") {
                Ok(v) => v,
                Err(err) => return Err(err),
            };
            let i = match str_field(b, "inactive", "decorations.border.inactive") {
                Ok(v) => v,
                Err(err) => return Err(err),
            };
            let r = match measure_field(b, "radius", "decorations.border.radius") {
                Ok(v) => v,
                Err(err) => return Err(err),
            };
            (w as u32, a, i, r as u32)
        },
    };
    let window_opacity = match table_field(e, "window", "decorations.window") {
        Err(err) => return Err(err),
        Ok(None) => DEFAULT_OPACITY,
        Ok(Some(w)) => match fraction_field(w, "opacity", "decorations.window.opacity") {
            Ok(v) => v as u32,
            Err(err) => return Err(err),
        },
    };
    let (blur_enable, blur_size, blur_passes, blur_optimization) = match table_field(e, "blur", "decorations.blur") {
        Err(err) => return Err(err),
        Ok(None) => (false, DEFAULT_BLUR_SIZE, DEFAULT_BLUR_PASSES, true),
        Ok(Some(b)) => {
            let en = match bool_field(b, "enabled", "decorations.blur.enabled") {
                Ok(v) => v,
                Err(err) => return Err(err),
            };
            let sz = match int_field(b, "size", "decorations.blur.size", None, 0, MAX_U32) {
                Ok(v) => v,
                Err(err) => return Err(err),
            };
            let p = match int_field(b, "passes", "decorations.blur.passes", None, 0, MAX_U32) {
                Ok(v) => v,
                Err(err) => return Err(err),
            };
            let o = match bool_field(b, "optimize", "decorations.blur.optimize") {
                Ok(v) => v,
                Err(err) => return Err(err),
            };
            (en, sz as u32, p as u32, o)
        },
    };
    let (shadows_enabled, shadow_size, shadow_blur, shadow_color) = match table_field(e, "shadow", "decorations.shadow") {
        Err(err) => return Err(err),
        Ok(None) => (false, DEFAULT_SHADOW_SIZE, DEFAULT_SHADOW_BLUR, String::from_str(DEFAULT_SHADOW_COLOR)),
        Ok(Some(s)) => {
            let en = match bool_field(s, "enabled", "decorations.shadow.enabled") {
                Ok(v) => v,
                Err(err) => return Err(err),
            };
            let sz = match int_field(s, "size", "decorations.shadow.size", None, 0, MAX_U32) {
                Ok(v) => v,
                Err(err) => return Err(err),
            };
            let b = match int_field(s, "blur", "decorations.shadow.blur", None, 0, MAX_U32) {
                Ok(v) => v,
                Err(err) => return Err(err),
            };
            let c = match str_field(s, "color", "decorations.shadow.color") {
                Ok(v) => v,
                Err(err) => return Err(err),
            };
            (en, sz as u32, b as u32, c)
        },
    };
    Ok(WindowDecorations {
        border_width,
        border_active,
        border_inactive,
        border_radius,
        window_opacity,
        blur_enable,
        blur_size,
        blur_passes,
        blur_optimization,
        shadows_enabled,
        shadow_size,
        shadow_blur,
        shadow_color,
    })
}


/// One command run at startup.
#[derive(Debug)]
pub struct AutostartCmd {
    pub cmd: String,
}

/// The commands run at startup, in the order the script gives them.
#[derive(Debug)]
pub struct Autostart {
    pub cmd: Vec<AutostartCmd>,
}

impl Autostart {
    pub open spec fn model(&self) -> Seq<Seq<char>> {
        self.cmd@.map_values(|c: AutostartCmd| c.cmd@)
    }
}

/// The tiling layout, by name.
#[derive(Debug)]
pub struct Tiling {
    pub layout: String,
}

#[derive(Debug)]
pub struct Animations {
    pub anim_enabled: bool,
}

/// The typed configuration.
#[derive(Debug)]
pub struct Config {
    pub autostart: Autostart,
    pub general: General,
    pub window_decorations: WindowDecorations,
    pub tiling: Tiling,
    pub animations: Animations,
}

/// The configuration in the model: autostart commands, general settings,
/// decorations, tiling layout, animations enabled.
pub type ConfigModel = (Seq<Seq<char>>, GeneralModel, DecorationsModel, Seq<char>, bool);

impl Config {
    pub open spec fn model(&self) -> ConfigModel {
        (
            self.autostart.model(),
            self.general.model(),
            self.window_decorations.model(),
            self.tiling.layout@,
            self.animations.anim_enabled,
        )
    }

    pub open spec fn wf(&self) -> bool {
        self.general.wf()
    }
}

/// The strings of a sequence, which must hold strings alone.
pub open spec fn strs_of(items: Seq<ScriptValue>) -> Result<Seq<Seq<char>>, Problem>
    decreases items.len(),
{
    if items.len() == 0 {
        Ok(Seq::empty())
    } else {
        match strs_of(items.drop_last()) {
            Err(p) => Err(p),
            Ok(done) => match items.last() {
                ScriptValue::Str(s) => Ok(done.push(s@)),
                other => Err(Problem::TypeMismatch { expected: ValueKind::Str, found: kind_of(other) }),
            },
        }
    }
}

/// The autostart commands: a sequence of strings; absent or empty means none.
pub open spec fn autostart_rule(v: Option<ScriptValue>) -> Result<Seq<Seq<char>>, Problem> {
    if absent(v) {
        Ok(Seq::empty())
    } else {
        match v->Some_0 {
            ScriptValue::List(items) => strs_of(items@),
            ScriptValue::Table(e) => if e@.len() == 0 {
                Ok(Seq::empty())
            } else {
                mismatch(ValueKind::List, v)
            },
            _ => mismatch(ValueKind::List, v),
        }
    }
}

pub open spec fn or_empty(t: Option<Seq<(String, ScriptValue)>>) -> Seq<(String, ScriptValue)> {
    match t {
        Some(e) => e,
        None => Seq::empty(),
    }
}

/// The configuration read from the entries of the `config` table.
pub open spec fn config_entries_rule(e: Seq<(String, ScriptValue)>) -> Result<ConfigModel, Fault> {
    match at(autostart_rule(field_of(e, "autostart"@)), "autostart"@) {
        Err(f) => Err(f),
        Ok(a) => match at(table_rule(field_of(e, "general"@)), "general"@) {
            Err(f) => Err(f),
            Ok(gt) => match general_rule(or_empty(gt)) {
                Err(f) => Err(f),
                Ok(g) => match at(table_rule(field_of(e, "decorations"@)), "decorations"@) {
                    Err(f) => Err(f),
                    Ok(dt) => match decorations_rule(or_empty(dt)) {
                        Err(f) => Err(f),
                        Ok(d) => match at(table_rule(field_of(e, "tiling"@)), "tiling"@) {
                            Err(f) => Err(f),
                            Ok(tt) => match (if tt is None {
                                Ok(DEFAULT_LAYOUT@)
                            } else {
                                at(str_rule(field_of(tt->Some_0, "layout"@)), "tiling.layout"@)
                            }) {
                                Err(f) => Err(f),
                                Ok(t) => match at(table_rule(field_of(e, "animations"@)), "animations"@) {
                                    Err(f) => Err(f),
                                    Ok(nt) => match (if nt is None {
                                        Ok(true)
                                    } else {
                                        at(bool_rule(field_of(nt->Some_0, "enabled"@)), "animations.enabled"@)
                                    }) {
                                        Err(f) => Err(f),
                                        Ok(n) => Ok((a, g, d, t, n)),
                                    },
                                },
                            },
                        },
                    },
                },
            },
        },
    }
}

/// The configuration read from the script's `config` value: absent means
/// every default, and anything but a table is refused.
pub open spec fn config_rule(v: ScriptValue) -> Result<ConfigModel, Fault> {
    match v {
        ScriptValue::Nil => config_entries_rule(Seq::empty()),
        ScriptValue::Table(e) => config_entries_rule(e@),
        other => Err(("config"@, Problem::TypeMismatch { expected: ValueKind::Table, found: kind_of(other) })),
    }
}

proof fn lemma_strs_err_stuck(items: Seq<ScriptValue>, k: int, m: int)
    requires
        0 <= k <= m <= items.len(),
        strs_of(items.take(k)) is Err,
    ensures
        strs_of(items.take(m)) == strs_of(items.take(k)),
    decreases m,
{
    if m > k {
        lemma_strs_err_stuck(items, k, m - 1);
        assert(items.take(m).drop_last() =~= items.take(m - 1));
    }
}

fn convert_autostart(entries: &Vec<(String, ScriptValue)>) -> (r: Result<Autostart, ConversionError>)
    ensures
        match at(autostart_rule(field_of(entries@, "autostart"@)), "autostart"@) {
            Ok(m) => r is Ok && r->Ok_0.model() == m,
            Err(f) => fault_is(r, f),
        },
{
    let path = "autostart";
    match get_field(entries, "autostart") {
        None | Some(ScriptValue::Nil) => Ok(Autostart { cmd: Vec::new() }),
        Some(ScriptValue::Table(e)) => if e.len() == 0 {
            Ok(Autostart { cmd: Vec::new() })
        } else {
            Err(problem_at(path, Problem::TypeMismatch { expected: ValueKind::List, found: ValueKind::Table }))
        },
        Some(ScriptValue::List(items)) => {
            let mut cmd: Vec<AutostartCmd> = Vec::new();
            let mut i: usize = 0;
            assert(items@.take(0) =~= Seq::<ScriptValue>::empty());
            assert(cmd@.map_values(|c: AutostartCmd| c.cmd@) =~= Seq::<Seq<char>>::empty());
            while i < items.len()
                invariant
                    i <= items@.len(),
                    field_of(entries@, "autostart"@) == Some(ScriptValue::List(*items)),
                    path@ == "autostart"@,
                    strs_of(items@.take(i as int)) == Ok::<Seq<Seq<char>>, Problem>(cmd@.map_values(|c: AutostartCmd| c.cmd@)),
                decreases items@.len() - i,
            {
                assert(items@.take(i + 1).drop_last() =~= items@.take(i as int));
                match &items[i] {
                    ScriptValue::Str(s) => {
                        cmd.push(AutostartCmd { cmd: s.clone() });
                        assert(cmd@.map_values(|c: AutostartCmd| c.cmd@) =~= strs_of(items@.take(i + 1))->Ok_0);
                    },
                    x => {
                        let found = x.kind();
                        proof {
                            assert(items@.take(i + 1).last() == items@[i as int]);
                            assert(strs_of(items@.take(i + 1)) == Err::<Seq<Seq<char>>, Problem>(
                                Problem::TypeMismatch { expected: ValueKind::Str, found },
                            ));
                            lemma_strs_err_stuck(items@, i + 1, items@.len() as int);
                            assert(items@.take(items@.len() as int) =~= items@);
                        }
                        return Err(problem_at(path, Problem::TypeMismatch { expected: ValueKind::Str, found }));
                    },
                }
                i = i + 1;
            }
            assert(items@.take(items@.len() as int) =~= items@);
            Ok(Autostart { cmd })
        },
        Some(x) => Err(problem_at(path, Problem::TypeMismatch { expected: ValueKind::List, found: x.kind() })),
    }
}

/// Converts the script's `config` value into the typed configuration, in one
/// pass, field by field.
pub fn convert(v: &ScriptValue) -> (r: Result<Config, ConversionError>)
    ensures
        match config_rule(*v) {
            Ok(m) => r is Ok && r->Ok_0.wf() && r->Ok_0.model() == m,
            Err(f) => fault_is(r, f),
        },
{
    let empty: Vec<(String, ScriptValue)> = Vec::new();
    let e = match v {
        ScriptValue::Nil => &empty,
        ScriptValue::Table(e) => e,
        other => return Err(problem_at("config", Problem::TypeMismatch { expected: ValueKind::Table, found: other.kind() })),
    };
    let autostart = match convert_autostart(e) {
        Ok(a) => a,
        Err(err) => return Err(err),
    };
    let general = match table_field(e, "general", "general") {
        Err(err) => return Err(err),
        Ok(g) => match convert_general(g) {
            Ok(g) => g,
            Err(err) => return Err(err),
        },
    };
    let window_decorations = match table_field(e, "decorations", "decorations") {
        Err(err) => return Err(err),
        Ok(d) => match convert_decorations(d) {
            Ok(d) => d,
            Err(err) => return Err(err),
        },
    };
    let tiling = match table_field(e, "tiling", "tiling") {
        Err(err) => return Err(err),
        Ok(None) => Tiling { layout: String::from_str(DEFAULT_LAYOUT) },
        Ok(Some(t)) => match str_field(t, "layout", "tiling.layout") {
            Ok(layout) => Tiling { layout },
            Err(err) => return Err(err),
        },
    };
    let animations = match table_field(e, "animations", "animations") {
        Err(err) => return Err(err),
        Ok(None) => Animations { anim_enabled: true },
        Ok(Some(a)) => match bool_field(a, "enabled", "animations.enabled") {
            Ok(anim_enabled) => Animations { anim_enabled },
            Err(err) => return Err(err),
        },
    };
    Ok(Config { autostart, general, window_decorations, tiling, animations })
}


/// Each `general` field that the script leaves out takes its default; with
/// all of them left out the conversion succeeds with the defaults alone, and
/// a valid workspace count is taken as given.
pub proof fn law_general_defaults(e: Seq<(String, ScriptValue)>)
    ensures
        general_rule(e) is Ok && absent(field_of(e, "workspaces"@)) ==> general_rule(e)->Ok_0.0
            == DEFAULT_WORKSPACES as int,
        general_rule(e) is Ok && absent(field_of(e, "gaps_in"@)) ==> general_rule(e)->Ok_0.1
            == DEFAULT_IN_GAPS as int,
        general_rule(e) is Ok && absent(field_of(e, "gaps_out"@)) ==> general_rule(e)->Ok_0.2
            == DEFAULT_OUT_GAPS as int,
        general_rule(e) is Ok && absent(field_of(e, "kb_repeat"@)) ==> general_rule(e)->Ok_0.3
            == DEFAULT_KB_DELAY as int && general_rule(e)->Ok_0.4 == DEFAULT_KB_RATE as int,
        general_rule(e) is Ok && (field_of(e, "workspaces"@) matches Some(ScriptValue::Integer(n)))
            ==> general_rule(e)->Ok_0.0 == field_of(e, "workspaces"@)->Some_0->Integer_0 as int,
        absent(field_of(e, "workspaces"@)) && absent(field_of(e, "gaps_in"@)) && absent(
            field_of(e, "gaps_out"@),
        ) && absent(field_of(e, "kb_repeat"@)) ==> general_rule(e) == Ok::<GeneralModel, Fault>(
            (
                DEFAULT_WORKSPACES as int,
                DEFAULT_IN_GAPS as int,
                DEFAULT_OUT_GAPS as int,
                DEFAULT_KB_DELAY as int,
                DEFAULT_KB_RATE as int,
            ),
        ),
        (field_of(e, "workspaces"@) matches Some(ScriptValue::Integer(n)) && 0 <= n <= 255)
            && absent(field_of(e, "gaps_in"@)) && absent(field_of(e, "gaps_out"@)) && absent(
            field_of(e, "kb_repeat"@),
        ) ==> general_rule(e) == Ok::<GeneralModel, Fault>(
            (
                field_of(e, "workspaces"@)->Some_0->Integer_0 as int,
                DEFAULT_IN_GAPS as int,
                DEFAULT_OUT_GAPS as int,
                DEFAULT_KB_DELAY as int,
                DEFAULT_KB_RATE as int,
            ),
        ),
{
}

/// A border table that is present but leaves out one of its required fields
/// is refused, never completed with defaults; where every field it does give
/// is valid, the refusal names a missing field.
pub proof fn law_partial_border_refused(d: Seq<(String, ScriptValue)>, b: Vec<(String, ScriptValue)>)
    requires
        field_of(d, "border"@) == Some(ScriptValue::Table(b)),
        absent(field_of(b@, "width"@)) || absent(field_of(b@, "active"@)) || absent(
            field_of(b@, "inactive"@),
        ) || absent(field_of(b@, "radius"@)),
    ensures
        decorations_rule(d) is Err,
        (absent(field_of(b@, "width"@)) || int_rule(field_of(b@, "width"@), None, 0, MAX_U32) is Ok)
            && (absent(field_of(b@, "active"@)) || str_rule(field_of(b@, "active"@)) is Ok) && (
        absent(field_of(b@, "inactive"@)) || str_rule(field_of(b@, "inactive"@)) is Ok) && (absent(
            field_of(b@, "radius"@),
        ) || measure_rule(field_of(b@, "radius"@)) is Ok) ==> decorations_rule(d)->Err_0.1
            == Problem::MissingField,
{
}


/// The strings held by a sequence of script values.
pub fn strings_of(items: &Vec<ScriptValue>) -> (r: Result<Vec<String>, Problem>)
    ensures
        match strs_of(items@) {
            Ok(m) => r is Ok && r->Ok_0@.map_values(|s: String| s@) == m,
            Err(p) => r == Err::<Vec<String>, Problem>(p),
        },
{
    let mut out: Vec<String> = Vec::new();
    let mut i: usize = 0;
    assert(items@.take(0) =~= Seq::<ScriptValue>::empty());
    assert(out@.map_values(|s: String| s@) =~= Seq::<Seq<char>>::empty());
    while i < items.len()
        invariant
            i <= items@.len(),
            strs_of(items@.take(i as int)) == Ok::<Seq<Seq<char>>, Problem>(out@.map_values(|s: String| s@)),
        decreases items@.len() - i,
    {
        assert(items@.take(i + 1).drop_last() =~= items@.take(i as int));
        match &items[i] {
            ScriptValue::Str(s) => {
                out.push(s.clone());
                assert(out@.map_values(|s: String| s@) =~= strs_of(items@.take(i + 1))->Ok_0);
            },
            x => {
                let found = x.kind();
                proof {
                    assert(items@.take(i + 1).last() == items@[i as int]);
                    assert(strs_of(items@.take(i + 1)) == Err::<Seq<Seq<char>>, Problem>(
                        Problem::TypeMismatch { expected: ValueKind::Str, found },
                    ));
                    lemma_strs_err_stuck(items@, i + 1, items@.len() as int);
                    assert(items@.take(items@.len() as int) =~= items@);
                }
                return Err(Problem::TypeMismatch { expected: ValueKind::Str, found });
            },
        }
        i = i + 1;
    }
    assert(items@.take(items@.len() as int) =~= items@);
    Ok(out)
}

} // verus!
