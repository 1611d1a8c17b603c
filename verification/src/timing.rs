//! Forms of the `@timing`, `@false_path` and `@multicycle` attributes and
//! their unit literals. Every form that is not recognised is an error
//! (E0017): a half-understood constraint must never look accepted.
//!
//! Frequency: `25175000` (Hz), `100.mhz`, `25_175.khz`, `1.ghz`, `50.hz`.
//! Delay: `5.ns`, `250.ps`, `1.us` — the unit is mandatory.

use vstd::prelude::*;

use crate::ast::{
    children, path_name, single_name, wf_exprs, AttrArg, Attribute, BinOp, Expr, ExprKind, Span,
};
use crate::text::eq_str;

verus! {

/// Why a constraint form is rejected (E0017). The offending text is the
/// source at the error's span.
#[derive(Clone, Copy, PartialEq, Eq, Debug, Structural)]
pub enum Problem {
    ExpectedFrequency,
    UnknownFrequencyUnit,
    FrequencyOutOfRange,
    ExpectedDelay,
    MissingTimeUnit,
    UnknownTimeUnit,
    DelayOutOfRange,
    TimingNeedsConstraint,
    ExpectedTimingForm,
    ClockUpperBound,
    BadLeftSide,
    TimingFunctionNeedsNames,
    TimingFunctionArity,
    WrongBoundDirection,
    UnknownTimingFunction,
    /// `from`/`to` (`to == true`) is not a signal name.
    EndpointNotSignal { to: bool },
    /// `from`/`to` (`to == true`) is given twice.
    EndpointTwice { to: bool },
    UnknownArgument,
    FalsePathExtraArgs,
    FalsePathNeedsEndpoint,
    MulticycleNeedsCount,
    MulticycleCountTwice,
    MulticycleBadCount,
    MulticycleNeedsEndpoint,
    /// A domain's `frequency` is not a frequency literal.
    FrequencyNotLiteral,
    /// `@timing` names a signal that is not a clock port of the module.
    NotClockPort,
    /// `@timing(clk = F)` against a domain that declares another
    /// frequency (`have`); the domain declaration is at `domain_span`.
    FrequencyConflict { hz: u64, have: u64, domain_span: Option<Span> },
    /// `@timing(clk >= F)` against a slower domain frequency (`have`).
    FrequencyTooLow { hz: u64, have: u64, domain_span: Option<Span> },
    /// `@timing` written on a port.
    TimingOnPort,
    /// `@timing` written on a register.
    TimingOnRegister,
    /// A path attribute on a statement other than a register.
    AttributeOnStatement,
    /// A path endpoint names a wire or `let`.
    NotAnEndpoint,
    /// A path endpoint names no port or register of the module.
    UnknownEndpoint,
}

/// An unsupported constraint form (E0017) at `span`.
#[derive(Clone, Copy, PartialEq, Eq, Debug, Structural)]
pub struct ConstraintError {
    pub span: Span,
    pub problem: Problem,
}

/// Path constraint kind, one to one with the SDC command.
#[derive(Clone, Copy, PartialEq, Eq, Debug, Structural)]
pub enum PathKind {
    /// `set_false_path`
    FalsePath,
    /// `set_max_delay <ps>`
    MaxDelay(u64),
    /// `set_min_delay <ps>`
    MinDelay(u64),
    /// `set_multicycle_path N -setup` (and `N-1 -hold`)
    Multicycle(u32),
}

/// One argument of `@timing(...)`, understood.
#[derive(Clone, Debug)]
pub enum TimingForm {
    /// `clk = F` — exact frequency (Hz).
    ClockExact { clock: String, hz: u64 },
    /// `clk >= F` — minimum frequency (Hz).
    ClockAtLeast { clock: String, hz: u64 },
    /// `max_delay(a, b) <= T` — picoseconds.
    MaxDelay { from: String, to: String, ps: u64 },
    /// `min_delay(a, b) >= T` — picoseconds.
    MinDelay { from: String, to: String, ps: u64 },
}

/// `TimingForm` with its names as character sequences.
pub enum TimingFormSpec {
    ClockExact { clock: Seq<char>, hz: u64 },
    ClockAtLeast { clock: Seq<char>, hz: u64 },
    MaxDelay { from: Seq<char>, to: Seq<char>, ps: u64 },
    MinDelay { from: Seq<char>, to: Seq<char>, ps: u64 },
}

impl View for TimingForm {
    type V = TimingFormSpec;

    open spec fn view(&self) -> TimingFormSpec {
        match self {
            TimingForm::ClockExact { clock, hz } => TimingFormSpec::ClockExact {
                clock: clock@,
                hz: *hz,
            },
            TimingForm::ClockAtLeast { clock, hz } => TimingFormSpec::ClockAtLeast {
                clock: clock@,
                hz: *hz,
            },
            TimingForm::MaxDelay { from, to, ps } => TimingFormSpec::MaxDelay {
                from: from@,
                to: to@,
                ps: *ps,
            },
            TimingForm::MinDelay { from, to, ps } => TimingFormSpec::MinDelay {
                from: from@,
                to: to@,
                ps: *ps,
            },
        }
    }
}

/// `@false_path(from = a, to = b)`.
#[derive(Clone, Debug)]
pub struct FalsePathForm {
    pub from: Option<String>,
    pub to: Option<String>,
}

/// `@multicycle(from = a, to = b, cycles = N)` or `@multicycle(N)` on a
/// statement.
#[derive(Clone, Debug)]
pub struct MulticycleForm {
    pub from: Option<String>,
    pub to: Option<String>,
    pub cycles: u32,
}

pub open spec fn opt_view(o: Option<String>) -> Option<Seq<char>> {
    match o {
        Some(s) => Some(s@),
        None => None,
    }
}

// ── decimal rendering ────────────────────────────────────────────────
pub open spec fn digit_char(d: nat) -> char {
    if d == 0 {
        '0'
    } else if d == 1 {
        '1'
    } else if d == 2 {
        '2'
    } else if d == 3 {
        '3'
    } else if d == 4 {
        '4'
    } else if d == 5 {
        '5'
    } else if d == 6 {
        '6'
    } else if d == 7 {
        '7'
    } else if d == 8 {
        '8'
    } else {
        '9'
    }
}

/// Decimal digits of `n`, most significant first, no leading zeros.
pub open spec fn decimal(n: nat) -> Seq<char>
    decreases n,
{
    if n < 10 {
        seq![digit_char(n)]
    } else {
        decimal(n / 10).push(digit_char(n % 10))
    }
}

fn digit(d: u64) -> (c: char)
    requires
        d < 10,
    ensures
        c == digit_char(d as nat),
{
    if d == 0 {
        '0'
    } else if d == 1 {
        '1'
    } else if d == 2 {
        '2'
    } else if d == 3 {
        '3'
    } else if d == 4 {
        '4'
    } else if d == 5 {
        '5'
    } else if d == 6 {
        '6'
    } else if d == 7 {
        '7'
    } else if d == 8 {
        '8'
    } else {
        '9'
    }
}

/// Appends the decimal digits of `n` to `out`.
pub fn push_decimal(out: &mut Vec<char>, n: u64)
    ensures
        final(out)@ == old(out)@ + decimal(n as nat),
    decreases n,
{
    if n < 10 {
        out.push(digit(n));
        assert(old(out)@.push(digit_char(n as nat)) =~= old(out)@ + decimal(n as nat));
    } else {
        push_decimal(out, n / 10);
        out.push(digit(n % 10));
        assert(old(out)@ + decimal((n / 10) as nat) + seq![digit_char((n % 10) as nat)]
            =~= old(out)@ + decimal(n as nat));
    }
}

/// `ps` as nanoseconds with three decimals: `10.000`, `39.722`.
pub open spec fn format_ps_spec(ps: nat) -> Seq<char> {
    let frac = ps % 1000;
    decimal(ps / 1000) + seq!['.'] + seq![
        digit_char(frac / 100),
        digit_char((frac / 10) % 10),
        digit_char(frac % 10),
    ]
}

/// Writes picoseconds as nanoseconds with three decimals (`10.000`,
/// `39.722`).
pub fn format_ps(ps: u64) -> (r: String)
    ensures
        r@ == format_ps_spec(ps as nat),
{
    let mut v: Vec<char> = Vec::new();
    push_decimal(&mut v, ps / 1000);
    v.push('.');
    let frac = ps % 1000;
    v.push(digit(frac / 100));
    v.push(digit((frac / 10) % 10));
    v.push(digit(frac % 10));
    assert(v@ =~= format_ps_spec(ps as nat));
    crate::text::string_of(v.as_slice())
}

// ── unit literals ────────────────────────────────────────────────────
/// `100.mhz` -> (100, "mhz"); `100` -> (100, none); anything else -> none.
pub open spec fn split_unit_spec(exprs: Seq<Expr>, e: int) -> (Option<u128>, Option<Seq<char>>) {
    match exprs[e].kind {
        ExprKind::IntLit(v) => (Some(v), None),
        ExprKind::Field { base, field } => if 0 <= base < exprs.len() {
            match exprs[base as int].kind {
                ExprKind::IntLit(v) => (Some(v), Some(field@)),
                _ => (None, None),
            }
        } else {
            (None, None)
        },
        _ => (None, None),
    }
}

/// Hz per unit; `None` for an unknown unit.
pub open spec fn frequency_scale(unit: Option<Seq<char>>) -> Option<u128> {
    match unit {
        None => Some(1),
        Some(u) => if u == "hz"@ {
            Some(1)
        } else if u == "khz"@ {
            Some(1_000)
        } else if u == "mhz"@ {
            Some(1_000_000)
        } else if u == "ghz"@ {
            Some(1_000_000_000)
        } else {
            None
        },
    }
}

/// Picoseconds per unit: the unit is mandatory (`Err(true)` when it is
/// missing, `Err(false)` when it is unknown).
pub open spec fn time_scale(unit: Option<Seq<char>>) -> Result<u128, bool> {
    match unit {
        None => Err(true),
        Some(u) => if u == "ps"@ {
            Ok(1)
        } else if u == "ns"@ {
            Ok(1_000)
        } else if u == "us"@ {
            Ok(1_000_000)
        } else {
            Err(false)
        },
    }
}

pub open spec fn err(span: Span, problem: Problem) -> ConstraintError {
    ConstraintError { span, problem }
}

/// The value of a frequency literal in Hz.
pub open spec fn frequency_spec(exprs: Seq<Expr>, e: int) -> Result<u64, ConstraintError> {
    let span = exprs[e].span;
    let (value, unit) = split_unit_spec(exprs, e);
    match value {
        None => Err(err(span, Problem::ExpectedFrequency)),
        Some(v) => match frequency_scale(unit) {
            None => Err(err(span, Problem::UnknownFrequencyUnit)),
            Some(scale) => if 0 < v * scale <= u64::MAX {
                Ok((v * scale) as u64)
            } else {
                Err(err(span, Problem::FrequencyOutOfRange))
            },
        },
    }
}

/// The value of a delay literal in picoseconds.
pub open spec fn time_spec(exprs: Seq<Expr>, e: int) -> Result<u64, ConstraintError> {
    let span = exprs[e].span;
    let (value, unit) = split_unit_spec(exprs, e);
    match value {
        None => Err(err(span, Problem::ExpectedDelay)),
        Some(v) => match time_scale(unit) {
            Err(missing) => Err(
                err(
                    span,
                    if missing {
                        Problem::MissingTimeUnit
                    } else {
                        Problem::UnknownTimeUnit
                    },
                ),
            ),
            Ok(scale) => if 0 < v * scale <= u64::MAX {
                Ok((v * scale) as u64)
            } else {
                Err(err(span, Problem::DelayOutOfRange))
            },
        },
    }
}

fn split_unit(exprs: &Vec<Expr>, e: usize) -> (r: (Option<u128>, Option<&String>))
    requires
        e < exprs@.len(),
        wf_exprs(exprs@),
    ensures
        r.0 == split_unit_spec(exprs@, e as int).0,
        match split_unit_spec(exprs@, e as int).1 {
            Some(u) => r.1 matches Some(s) && s@ == u,
            None => r.1 is None,
        },
{
    match &exprs[e].kind {
        ExprKind::IntLit(v) => (Some(*v), None),
        ExprKind::Field { base, field } => {
            proof {
                assert(children(exprs@[e as int].kind)[0] == *base);
            }
            match &exprs[*base].kind {
                ExprKind::IntLit(v) => (Some(*v), Some(field)),
                _ => (None, None),
            }
        },
        _ => (None, None),
    }
}

/// `<int>` (Hz) or `<int>.hz|khz|mhz|ghz`; a positive value that fits in
/// 64 bits.
pub fn parse_frequency(exprs: &Vec<Expr>, e: usize) -> (r: Result<u64, ConstraintError>)
    requires
        e < exprs@.len(),
        wf_exprs(exprs@),
    ensures
        r == frequency_spec(exprs@, e as int),
{
    let span = exprs[e].span;
    let (value, unit) = split_unit(exprs, e);
    let Some(value) = value else {
        return Err(ConstraintError { span, problem: Problem::ExpectedFrequency });
    };
    let scale: u128 = match unit {
        None => 1,
        Some(u) => {
            if eq_str(u.as_str(), "hz") {
                1
            } else if eq_str(u.as_str(), "khz") {
                1_000
            } else if eq_str(u.as_str(), "mhz") {
                1_000_000
            } else if eq_str(u.as_str(), "ghz") {
                1_000_000_000
            } else {
                return Err(ConstraintError { span, problem: Problem::UnknownFrequencyUnit });
            }
        },
    };
    match value.checked_mul(scale) {
        Some(h) => {
            if h > 0 && h <= 0xffff_ffff_ffff_ffffu128 {
                Ok(h as u64)
            } else {
                Err(ConstraintError { span, problem: Problem::FrequencyOutOfRange })
            }
        },
        None => Err(ConstraintError { span, problem: Problem::FrequencyOutOfRange }),
    }
}

/// `<int>.ps|ns|us` — the unit is mandatory; a positive value that fits
/// in 64 bits.
pub fn parse_time(exprs: &Vec<Expr>, e: usize) -> (r: Result<u64, ConstraintError>)
    requires
        e < exprs@.len(),
        wf_exprs(exprs@),
    ensures
        r == time_spec(exprs@, e as int),
{
    let span = exprs[e].span;
    let (value, unit) = split_unit(exprs, e);
    let Some(value) = value else {
        return Err(ConstraintError { span, problem: Problem::ExpectedDelay });
    };
    let scale: u128 = match unit {
        None => {
            return Err(ConstraintError { span, problem: Problem::MissingTimeUnit });
        },
        Some(u) => {
            if eq_str(u.as_str(), "ps") {
                1
            } else if eq_str(u.as_str(), "ns") {
                1_000
            } else if eq_str(u.as_str(), "us") {
                1_000_000
            } else {
                return Err(ConstraintError { span, problem: Problem::UnknownTimeUnit });
            }
        },
    };
    match value.checked_mul(scale) {
        Some(p) => {
            if p > 0 && p <= 0xffff_ffff_ffff_ffffu128 {
                Ok(p as u64)
            } else {
                Err(ConstraintError { span, problem: Problem::DelayOutOfRange })
            }
        },
        None => Err(ConstraintError { span, problem: Problem::DelayOutOfRange }),
    }
}

// ── @timing(...) ─────────────────────────────────────────────────────
/// The meaning of one `@timing` argument.
pub open spec fn timing_arg_spec(exprs: Seq<Expr>, arg: AttrArg) -> Result<
    (TimingFormSpec, Span),
    ConstraintError,
> {
    match arg {
        AttrArg::Named { name, name_span, value } => match frequency_spec(exprs, value as int) {
            Err(e) => Err(e),
            Ok(hz) => Ok(
                (
                    TimingFormSpec::ClockExact { clock: name@, hz },
                    Span { end: exprs[value as int].span.end, ..name_span },
                ),
            ),
        },
        AttrArg::Positional(e) => {
            let span = exprs[e as int].span;
            match exprs[e as int].kind {
                ExprKind::Binary { op, lhs, rhs } => match single_name(exprs[lhs as int]) {
                    Some(clock) => if op != BinOp::Ge {
                        Err(err(span, Problem::ClockUpperBound))
                    } else {
                        match frequency_spec(exprs, rhs as int) {
                            Err(e) => Err(e),
                            Ok(hz) => Ok((TimingFormSpec::ClockAtLeast { clock, hz }, span)),
                        }
                    },
                    None => match exprs[lhs as int].kind {
                        ExprKind::Call { callee, args } => {
                            let func = match single_name(exprs[callee as int]) {
                                Some(f) => f,
                                None => Seq::empty(),
                            };
                            if args@.len() != 2 {
                                Err(err(span, Problem::TimingFunctionArity))
                            } else {
                                match (
                                    single_name(exprs[args@[0] as int]),
                                    single_name(exprs[args@[1] as int]),
                                ) {
                                    (Some(a), Some(b)) => if func == "max_delay"@ && op
                                        == BinOp::Le {
                                        match time_spec(exprs, rhs as int) {
                                            Err(e) => Err(e),
                                            Ok(ps) => Ok(
                                                (
                                                    TimingFormSpec::MaxDelay { from: a, to: b, ps },
                                                    span,
                                                ),
                                            ),
                                        }
                                    } else if func == "min_delay"@ && op == BinOp::Ge {
                                        match time_spec(exprs, rhs as int) {
                                            Err(e) => Err(e),
                                            Ok(ps) => Ok(
                                                (
                                                    TimingFormSpec::MinDelay { from: a, to: b, ps },
                                                    span,
                                                ),
                                            ),
                                        }
                                    } else if func == "max_delay"@ || func == "min_delay"@ {
                                        Err(err(span, Problem::WrongBoundDirection))
                                    } else {
                                        Err(err(span, Problem::UnknownTimingFunction))
                                    },
                                    _ => Err(err(span, Problem::TimingFunctionNeedsNames)),
                                }
                            }
                        },
                        _ => Err(err(span, Problem::BadLeftSide)),
                    },
                },
                _ => Err(err(span, Problem::ExpectedTimingForm)),
            }
        },
    }
}

/// The expressions an attribute argument refers to are in the arena.
pub open spec fn arg_in_arena(exprs: Seq<Expr>, arg: AttrArg) -> bool {
    match arg {
        AttrArg::Named { value, .. } => value < exprs.len(),
        AttrArg::Positional(e) => e < exprs.len(),
    }
}

pub open spec fn attr_in_arena(exprs: Seq<Expr>, attr: Attribute) -> bool {
    forall|k: int| 0 <= k < attr.args@.len() ==> arg_in_arena(exprs, #[trigger] attr.args@[k])
}

proof fn lemma_child(exprs: Seq<Expr>, i: int, k: int)
    requires
        wf_exprs(exprs),
        0 <= i < exprs.len(),
        0 <= k < children(exprs[i].kind).len(),
    ensures
        0 <= children(exprs[i].kind)[k] < i,
{
}

/// One argument of `@timing(...)`: `clk = F`, `clk >= F`,
/// `max_delay(a, b) <= T` or `min_delay(a, b) >= T`.
pub fn parse_timing_arg(exprs: &Vec<Expr>, arg: &AttrArg) -> (r: Result<
    (TimingForm, Span),
    ConstraintError,
>)
    requires
        wf_exprs(exprs@),
        arg_in_arena(exprs@, *arg),
    ensures
        match timing_arg_spec(exprs@, *arg) {
            Ok((f, sp)) => r matches Ok((g, sp2)) && g@ == f && sp2 == sp,
            Err(e) => r == Err::<(TimingForm, Span), ConstraintError>(e),
        },
{
    match arg {
        AttrArg::Named { name, name_span, value } => {
            let hz = match parse_frequency(exprs, *value) {
                Ok(hz) => hz,
                Err(e) => return Err(e),
            };
            let span = Span { file: name_span.file, start: name_span.start, end: exprs[*value].span.end };
            Ok((TimingForm::ClockExact { clock: name.clone(), hz }, span))
        },
        AttrArg::Positional(e) => {
            let e = *e;
            let span = exprs[e].span;
            let (op, lhs, rhs) = match &exprs[e].kind {
                ExprKind::Binary { op, lhs, rhs } => (*op, *lhs, *rhs),
                _ => {
                    return Err(ConstraintError { span, problem: Problem::ExpectedTimingForm });
                },
            };
            proof {
                lemma_child(exprs@, e as int, 0);
                lemma_child(exprs@, e as int, 1);
            }
            if let Some(clock) = path_name(exprs, lhs) {
                if op != BinOp::Ge {
                    return Err(ConstraintError { span, problem: Problem::ClockUpperBound });
                }
                let hz = match parse_frequency(exprs, rhs) {
                    Ok(hz) => hz,
                    Err(er) => return Err(er),
                };
                return Ok((TimingForm::ClockAtLeast { clock: clock.clone(), hz }, span));
            }
            let (callee, args) = match &exprs[lhs].kind {
                ExprKind::Call { callee, args } => (*callee, args),
                _ => {
                    return Err(ConstraintError { span, problem: Problem::BadLeftSide });
                },
            };
            proof {
                lemma_child(exprs@, lhs as int, 0);
            }
            let is_max = match path_name(exprs, callee) {
                Some(f) => eq_str(f.as_str(), "max_delay"),
                None => false,
            };
            let is_min = match path_name(exprs, callee) {
                Some(f) => eq_str(f.as_str(), "min_delay"),
                None => false,
            };
            proof {
                reveal_strlit("max_delay");
                reveal_strlit("min_delay");
                assert(Seq::<char>::empty().len() != "max_delay"@.len());
                assert(Seq::<char>::empty().len() != "min_delay"@.len());
                assert("min_delay"@ != "max_delay"@) by {
                    assert("min_delay"@[1] != "max_delay"@[1]);
                }
            }
            if args.len() != 2 {
                return Err(ConstraintError { span, problem: Problem::TimingFunctionArity });
            }
            proof {
                lemma_child(exprs@, lhs as int, 1);
                lemma_child(exprs@, lhs as int, 2);
                assert(children(exprs@[lhs as int].kind)[1] == args@[0]);
                assert(children(exprs@[lhs as int].kind)[2] == args@[1]);
            }
            let a = path_name(exprs, args[0]);
            let b = path_name(exprs, args[1]);
            let (from, to) = match (a, b) {
                (Some(a), Some(b)) => (a.clone(), b.clone()),
                _ => {
                    return Err(ConstraintError { span, problem: Problem::TimingFunctionNeedsNames });
                },
            };
            if is_max && op == BinOp::Le {
                let ps = match parse_time(exprs, rhs) {
                    Ok(ps) => ps,
                    Err(er) => return Err(er),
                };
                Ok((TimingForm::MaxDelay { from, to, ps }, span))
            } else if is_min && op == BinOp::Ge {
                let ps = match parse_time(exprs, rhs) {
                    Ok(ps) => ps,
                    Err(er) => return Err(er),
                };
                Ok((TimingForm::MinDelay { from, to, ps }, span))
            } else if is_max || is_min {
                Err(ConstraintError { span, problem: Problem::WrongBoundDirection })
            } else {
                Err(ConstraintError { span, problem: Problem::UnknownTimingFunction })
            }
        },
    }
}

/// Some argument of `args` is understood as `form` at `span`.
pub open spec fn accepted_from(exprs: Seq<Expr>, args: Seq<AttrArg>, form: TimingFormSpec, span: Span) -> bool {
    exists|j: int|
        0 <= j < args.len() && timing_arg_spec(exprs, #[trigger] args[j]) == Ok::<
            (TimingFormSpec, Span),
            ConstraintError,
        >((form, span))
}

/// Some argument of `args` is rejected with `e`.
pub open spec fn rejected_from(exprs: Seq<Expr>, args: Seq<AttrArg>, e: ConstraintError) -> bool {
    exists|j: int|
        0 <= j < args.len() && timing_arg_spec(exprs, #[trigger] args[j]) == Err::<
            (TimingFormSpec, Span),
            ConstraintError,
        >(e)
}

/// `@timing(...)`: every argument is an independent form; the rejected
/// ones come back as errors (in argument order), the others as forms.
pub fn parse_timing(exprs: &Vec<Expr>, attr: &Attribute) -> (r: (
    Vec<(TimingForm, Span)>,
    Vec<ConstraintError>,
))
    requires
        wf_exprs(exprs@),
        attr_in_arena(exprs@, *attr),
    ensures
        r.0@.len() + r.1@.len() == attr.args@.len() + if attr.args@.len() == 0 {
            1int
        } else {
            0int
        },
        attr.args@.len() == 0 ==> r.1@ == seq![err(attr.span, Problem::TimingNeedsConstraint)],
        forall|k: int|
            0 <= k < r.0@.len() ==> accepted_from(exprs@, attr.args@, (#[trigger] r.0@[k]).0@, r.0@[k].1),
        forall|k: int|
            0 <= k < r.1@.len() && attr.args@.len() > 0 ==> rejected_from(exprs@, attr.args@, #[trigger] r.1@[k]),
{
    let mut forms: Vec<(TimingForm, Span)> = Vec::new();
    let mut errs: Vec<ConstraintError> = Vec::new();
    if attr.args.len() == 0 {
        errs.push(ConstraintError { span: attr.span, problem: Problem::TimingNeedsConstraint });
    }
    let mut i: usize = 0;
    while i < attr.args.len()
        invariant
            wf_exprs(exprs@),
            attr_in_arena(exprs@, *attr),
            i <= attr.args@.len(),
            attr.args@.len() == 0 ==> errs@ == seq![err(attr.span, Problem::TimingNeedsConstraint)],
            attr.args@.len() > 0 ==> forms@.len() + errs@.len() == i,
            attr.args@.len() == 0 ==> forms@.len() == 0,
            forall|k: int|
                0 <= k < forms@.len() ==> accepted_from(exprs@, attr.args@, (#[trigger] forms@[k]).0@, forms@[k].1),
            forall|k: int|
                0 <= k < errs@.len() && attr.args@.len() > 0 ==> rejected_from(exprs@, attr.args@, #[trigger] errs@[k]),
        decreases attr.args@.len() - i,
    {
        let arg = &attr.args[i];
        assert(arg_in_arena(exprs@, attr.args@[i as int]));
        let res = parse_timing_arg(exprs, arg);
        match res {
            Ok(f) => {
                let ghost t = timing_arg_spec(exprs@, attr.args@[i as int]);
                forms.push(f);
                assert(accepted_from(exprs@, attr.args@, forms@[forms@.len() - 1].0@, forms@[forms@.len() - 1].1));
            },
            Err(e) => {
                errs.push(e);
                assert(rejected_from(exprs@, attr.args@, errs@[errs@.len() - 1]));
            },
        }
        i = i + 1;
    }
    (forms, errs)
}

// ── @false_path / @multicycle ────────────────────────────────────────
/// The outcome of reading `from = ...` / `to = ...` from the first `k`
/// arguments: the two endpoints and the other (allowed) arguments.
pub open spec fn from_to_spec(
    exprs: Seq<Expr>,
    args: Seq<AttrArg>,
    allow_cycles: bool,
    k: int,
) -> Result<(Option<Seq<char>>, Option<Seq<char>>, Seq<usize>), ConstraintError>
    decreases k,
{
    if k <= 0 {
        Ok((None, None, Seq::empty()))
    } else {
        match from_to_spec(exprs, args, allow_cycles, k - 1) {
            Err(e) => Err(e),
            Ok((from, to, rest)) => match args[k - 1] {
                AttrArg::Named { name, name_span, value } => {
                    let key = name@;
                    if key == "from"@ || key == "to"@ {
                        let is_to = key == "to"@;
                        match single_name(exprs[value as int]) {
                            None => Err(
                                err(exprs[value as int].span, Problem::EndpointNotSignal { to: is_to }),
                            ),
                            Some(sig) => if is_to {
                                if to is Some {
                                    Err(err(name_span, Problem::EndpointTwice { to: true }))
                                } else {
                                    Ok((from, Some(sig), rest))
                                }
                            } else {
                                if from is Some {
                                    Err(err(name_span, Problem::EndpointTwice { to: false }))
                                } else {
                                    Ok((Some(sig), to, rest))
                                }
                            },
                        }
                    } else if allow_cycles && key == "cycles"@ {
                        Ok((from, to, rest.push(value)))
                    } else {
                        Err(err(name_span, Problem::UnknownArgument))
                    }
                },
                AttrArg::Positional(e) => Ok((from, to, rest.push(e))),
            },
        }
    }
}

proof fn lemma_from_to_err_persists(
    exprs: Seq<Expr>,
    args: Seq<AttrArg>,
    allow_cycles: bool,
    k: int,
    k2: int,
)
    requires
        0 <= k <= k2,
        from_to_spec(exprs, args, allow_cycles, k) is Err,
    ensures
        from_to_spec(exprs, args, allow_cycles, k2) == from_to_spec(exprs, args, allow_cycles, k),
    decreases k2 - k,
{
    if k2 > k {
        lemma_from_to_err_persists(exprs, args, allow_cycles, k, k2 - 1);
    }
}

/// Reads `from` / `to` from named arguments; `cycles = N` is kept when
/// allowed, positional arguments are kept, any other name is rejected.
fn from_to(exprs: &Vec<Expr>, attr: &Attribute, allow_cycles: bool) -> (r: Result<
    (Option<String>, Option<String>, Vec<usize>),
    ConstraintError,
>)
    requires
        wf_exprs(exprs@),
        attr_in_arena(exprs@, *attr),
    ensures
        match from_to_spec(exprs@, attr.args@, allow_cycles, attr.args@.len() as int) {
            Ok((f, t, rest)) => r matches Ok((f2, t2, rest2)) && opt_view(f2) == f && opt_view(t2)
                == t && rest2@ == rest,
            Err(e) => r == Err::<(Option<String>, Option<String>, Vec<usize>), ConstraintError>(e),
        },
        r matches Ok((_, _, rest)) ==> forall|k: int|
            0 <= k < rest@.len() ==> (#[trigger] rest@[k]) < exprs@.len(),
{
    let mut from: Option<String> = None;
    let mut to: Option<String> = None;
    let mut rest: Vec<usize> = Vec::new();
    let mut i: usize = 0;
    proof {
        reveal_strlit("from");
        reveal_strlit("to");
        assert("from"@ != "to"@) by {
            assert("from"@.len() != "to"@.len());
        }
    }
    while i < attr.args.len()
        invariant
            wf_exprs(exprs@),
            attr_in_arena(exprs@, *attr),
            i <= attr.args@.len(),
            "from"@ != "to"@,
            from_to_spec(exprs@, attr.args@, allow_cycles, i as int) == Ok::<
                (Option<Seq<char>>, Option<Seq<char>>, Seq<usize>),
                ConstraintError,
            >((opt_view(from), opt_view(to), rest@)),
            forall|k: int| 0 <= k < rest@.len() ==> (#[trigger] rest@[k]) < exprs@.len(),
        decreases attr.args@.len() - i,
    {
        assert(arg_in_arena(exprs@, attr.args@[i as int]));
        match &attr.args[i] {
            AttrArg::Named { name, name_span, value } => {
                let is_from = eq_str(name.as_str(), "from");
                let is_to = eq_str(name.as_str(), "to");
                if is_from || is_to {
                    let sig = match path_name(exprs, *value) {
                        Some(s) => s.clone(),
                        None => {
                            proof {
                                lemma_from_to_err_persists(exprs@, attr.args@, allow_cycles, i as int + 1, attr.args@.len() as int);
                            }
                            return Err(
                                ConstraintError {
                                    span: exprs[*value].span,
                                    problem: Problem::EndpointNotSignal { to: is_to },
                                },
                            );
                        },
                    };
                    if is_to {
                        if to.is_some() {
                            proof {
                                lemma_from_to_err_persists(exprs@, attr.args@, allow_cycles, i as int + 1, attr.args@.len() as int);
                            }
                            return Err(
                                ConstraintError {
                                    span: *name_span,
                                    problem: Problem::EndpointTwice { to: true },
                                },
                            );
                        }
                        to = Some(sig);
                    } else {
                        if from.is_some() {
                            proof {
                                lemma_from_to_err_persists(exprs@, attr.args@, allow_cycles, i as int + 1, attr.args@.len() as int);
                            }
                            return Err(
                                ConstraintError {
                                    span: *name_span,
                                    problem: Problem::EndpointTwice { to: false },
                                },
                            );
                        }
                        from = Some(sig);
                    }
                } else if allow_cycles && eq_str(name.as_str(), "cycles") {
                    rest.push(*value);
                } else {
                    proof {
                        lemma_from_to_err_persists(exprs@, attr.args@, allow_cycles, i as int + 1, attr.args@.len() as int);
                    }
                    return Err(ConstraintError { span: *name_span, problem: Problem::UnknownArgument });
                }
            },
            AttrArg::Positional(e) => {
                rest.push(*e);
            },
        }
        i = i + 1;
    }
    Ok((from, to, rest))
}

/// The meaning of `@false_path(...)`; `on_stmt`: written on a statement,
/// where both endpoints may be implicit.
pub open spec fn false_path_spec(exprs: Seq<Expr>, attr: Attribute, on_stmt: bool) -> Result<
    (Option<Seq<char>>, Option<Seq<char>>),
    ConstraintError,
> {
    match from_to_spec(exprs, attr.args@, false, attr.args@.len() as int) {
        Err(e) => Err(e),
        Ok((from, to, rest)) => if rest.len() > 0 {
            Err(err(exprs[rest[0] as int].span, Problem::FalsePathExtraArgs))
        } else if !on_stmt && from is None && to is None {
            Err(err(attr.span, Problem::FalsePathNeedsEndpoint))
        } else {
            Ok((from, to))
        },
    }
}

/// `@false_path(from = a, to = b)`; on a module at least one endpoint is
/// required.
pub fn parse_false_path(exprs: &Vec<Expr>, attr: &Attribute, on_stmt: bool) -> (r: Result<
    FalsePathForm,
    ConstraintError,
>)
    requires
        wf_exprs(exprs@),
        attr_in_arena(exprs@, *attr),
    ensures
        match false_path_spec(exprs@, *attr, on_stmt) {
            Ok((f, t)) => r matches Ok(form) && opt_view(form.from) == f && opt_view(form.to) == t,
            Err(e) => r matches Err(e2) && e2 == e,
        },
{
    let (from, to, rest) = match from_to(exprs, attr, false) {
        Ok(x) => x,
        Err(e) => return Err(e),
    };
    if rest.len() > 0 {
        return Err(ConstraintError { span: exprs[rest[0]].span, problem: Problem::FalsePathExtraArgs });
    }
    if !on_stmt && from.is_none() && to.is_none() {
        return Err(ConstraintError { span: attr.span, problem: Problem::FalsePathNeedsEndpoint });
    }
    Ok(FalsePathForm { from, to })
}

/// The meaning of `@multicycle(...)`.
pub open spec fn multicycle_spec(exprs: Seq<Expr>, attr: Attribute, on_stmt: bool) -> Result<
    (Option<Seq<char>>, Option<Seq<char>>, u32),
    ConstraintError,
> {
    match from_to_spec(exprs, attr.args@, true, attr.args@.len() as int) {
        Err(e) => Err(e),
        Ok((from, to, rest)) => if rest.len() == 0 {
            Err(err(attr.span, Problem::MulticycleNeedsCount))
        } else if rest.len() > 1 {
            Err(err(exprs[rest[1] as int].span, Problem::MulticycleCountTwice))
        } else {
            let c = rest[0] as int;
            match exprs[c].kind {
                ExprKind::IntLit(v) => if 1 <= v <= u32::MAX {
                    if !on_stmt && from is None && to is None {
                        Err(err(attr.span, Problem::MulticycleNeedsEndpoint))
                    } else {
                        Ok((from, to, v as u32))
                    }
                } else {
                    Err(err(exprs[c].span, Problem::MulticycleBadCount))
                },
                _ => Err(err(exprs[c].span, Problem::MulticycleBadCount)),
            }
        },
    }
}

/// `@multicycle(from = a, to = b, cycles = N)`; on a statement
/// `@multicycle(N)` / `@multicycle(cycles = N)`. The count is an integer
/// literal `>= 1`.
pub fn parse_multicycle(exprs: &Vec<Expr>, attr: &Attribute, on_stmt: bool) -> (r: Result<
    MulticycleForm,
    ConstraintError,
>)
    requires
        wf_exprs(exprs@),
        attr_in_arena(exprs@, *attr),
    ensures
        match multicycle_spec(exprs@, *attr, on_stmt) {
            Ok((f, t, n)) => r matches Ok(form) && opt_view(form.from) == f && opt_view(form.to)
                == t && form.cycles == n,
            Err(e) => r matches Err(e2) && e2 == e,
        },
{
    let (from, to, rest) = match from_to(exprs, attr, true) {
        Ok(x) => x,
        Err(e) => return Err(e),
    };
    if rest.len() == 0 {
        return Err(ConstraintError { span: attr.span, problem: Problem::MulticycleNeedsCount });
    }
    if rest.len() > 1 {
        return Err(ConstraintError { span: exprs[rest[1]].span, problem: Problem::MulticycleCountTwice });
    }
    let c = rest[0];
    let cycles: u32 = match &exprs[c].kind {
        ExprKind::IntLit(v) => {
            if *v >= 1 && *v <= 0xffff_ffffu128 {
                *v as u32
            } else {
                return Err(ConstraintError { span: exprs[c].span, problem: Problem::MulticycleBadCount });
            }
        },
        _ => {
            return Err(ConstraintError { span: exprs[c].span, problem: Problem::MulticycleBadCount });
        },
    };
    if !on_stmt && from.is_none() && to.is_none() {
        return Err(ConstraintError { span: attr.span, problem: Problem::MulticycleNeedsEndpoint });
    }
    Ok(MulticycleForm { from, to, cycles })
}

} // verus!
