//! Compile-time evaluation. Overflow is an error, never wrapping
//! (E2022); division by zero is E2023, an invalid shift E2024, a cyclic
//! constant E2020 and a run-time value E2021. Results are memoized: an
//! expression is computed, and its error reported, once.

use vstd::prelude::*;

use crate::ast::{BinOp, Expr, ExprKind, Span, UnOp, children, wf_exprs};
use crate::defs::{DefId, DefKind};
use crate::names::BuiltinKind;

verus! {

/// The widest `bits<N>`.
pub const MAX_WIDTH: u32 = 65536;

/// The longest constant array.
pub const MAX_ARRAY_LEN: u64 = 1048576;

/// A compile-time value; `i128` so that intermediate overflow is caught.
#[derive(Debug, PartialEq, Eq)]
pub enum ConstValue {
    Int(i128),
    Bool(bool),
    Array(Vec<ConstValue>),
    Tuple(Vec<ConstValue>),
    EnumVariant { def: DefId, discriminant: i128 },
    /// Not computable; the error was already reported.
    Error,
}

/// Two values are the same value: equal scalars, or arrays (tuples) of
/// the same length whose elements are the same values.
pub open spec fn value_eq(a: ConstValue, b: ConstValue) -> bool
    decreases a, 1int,
{
    match (a, b) {
        (ConstValue::Array(xs), ConstValue::Array(ys)) => xs@.len() == ys@.len() && values_eq(xs, ys, xs@.len() as nat),
        (ConstValue::Tuple(xs), ConstValue::Tuple(ys)) => xs@.len() == ys@.len() && values_eq(xs, ys, xs@.len() as nat),
        (ConstValue::Array(_), _) => false,
        (ConstValue::Tuple(_), _) => false,
        _ => a == b,
    }
}

/// The first `n` elements of `xs` and `ys` are the same values.
pub open spec fn values_eq(xs: Vec<ConstValue>, ys: Vec<ConstValue>, n: nat) -> bool
    decreases xs, 0int, n,
{
    if n == 0 || n > xs@.len() || n > ys@.len() {
        n == 0
    } else {
        value_eq(xs@[n - 1], ys@[n - 1]) && values_eq(xs, ys, (n - 1) as nat)
    }
}

proof fn lemma_values_eq_at(xs: Vec<ConstValue>, ys: Vec<ConstValue>, n: nat, i: int)
    requires
        values_eq(xs, ys, n),
        0 <= i < n,
    ensures
        value_eq(xs@[i], ys@[i]),
    decreases n,
{
    if i < n - 1 {
        lemma_values_eq_at(xs, ys, (n - 1) as nat, i);
    }
}

proof fn lemma_values_eq_from(xs: Vec<ConstValue>, ys: Vec<ConstValue>, n: nat)
    requires
        n <= xs@.len(),
        n <= ys@.len(),
        forall|i: int| 0 <= i < n ==> #[trigger] value_eq(xs@[i], ys@[i]),
    ensures
        values_eq(xs, ys, n),
    decreases n,
{
    if n > 0 {
        lemma_values_eq_from(xs, ys, (n - 1) as nat);
        assert(value_eq(xs@[n - 1], ys@[n - 1]));
    }
}

/// Being the same value is symmetric and transitive.
pub proof fn law_value_eq_symmetric_transitive(a: ConstValue, b: ConstValue, c: ConstValue)
    ensures
        value_eq(a, b) ==> value_eq(b, a),
        value_eq(a, b) && value_eq(b, c) ==> value_eq(a, c),
    decreases a,
{
    if value_eq(a, b) {
        match (a, b) {
            (ConstValue::Array(xs), ConstValue::Array(ys)) => {
                lemma_elements_symmetric_transitive(xs, ys, c);
            },
            (ConstValue::Tuple(xs), ConstValue::Tuple(ys)) => {
                lemma_elements_symmetric_transitive(xs, ys, c);
            },
            _ => {},
        }
    }
}

proof fn lemma_elements_symmetric_transitive(xs: Vec<ConstValue>, ys: Vec<ConstValue>, c: ConstValue)
    requires
        xs@.len() == ys@.len(),
        values_eq(xs, ys, xs@.len() as nat),
    ensures
        values_eq(ys, xs, ys@.len() as nat),
        match c {
            ConstValue::Array(zs) => zs@.len() == ys@.len() && values_eq(ys, zs, ys@.len() as nat) ==> values_eq(xs, zs, xs@.len() as nat),
            ConstValue::Tuple(zs) => zs@.len() == ys@.len() && values_eq(ys, zs, ys@.len() as nat) ==> values_eq(xs, zs, xs@.len() as nat),
            _ => true,
        },
    decreases xs, 0int,
{
    let n = xs@.len() as nat;
    assert forall|i: int| 0 <= i < n implies #[trigger] value_eq(ys@[i], xs@[i]) by {
        lemma_values_eq_at(xs, ys, n, i);
        vstd::std_specs::vec::axiom_vec_index_decreases(xs, i);
        law_value_eq_symmetric_transitive(xs@[i], ys@[i], ys@[i]);
    }
    lemma_values_eq_from(ys, xs, n);
    match c {
        ConstValue::Array(zs) => {
            if zs@.len() == ys@.len() && values_eq(ys, zs, n) {
                assert forall|i: int| 0 <= i < n implies #[trigger] value_eq(xs@[i], zs@[i]) by {
                    lemma_values_eq_at(xs, ys, n, i);
                    lemma_values_eq_at(ys, zs, n, i);
                    vstd::std_specs::vec::axiom_vec_index_decreases(xs, i);
                    law_value_eq_symmetric_transitive(xs@[i], ys@[i], zs@[i]);
                }
                lemma_values_eq_from(xs, zs, n);
            }
        },
        ConstValue::Tuple(zs) => {
            if zs@.len() == ys@.len() && values_eq(ys, zs, n) {
                assert forall|i: int| 0 <= i < n implies #[trigger] value_eq(xs@[i], zs@[i]) by {
                    lemma_values_eq_at(xs, ys, n, i);
                    lemma_values_eq_at(ys, zs, n, i);
                    vstd::std_specs::vec::axiom_vec_index_decreases(xs, i);
                    law_value_eq_symmetric_transitive(xs@[i], ys@[i], zs@[i]);
                }
                lemma_values_eq_from(xs, zs, n);
            }
        },
        _ => {},
    }
}

/// A copy of a list of values.
fn duplicate_all(v: &Vec<ConstValue>) -> (r: Vec<ConstValue>)
    ensures
        r@.len() == v@.len(),
        forall|i: int| 0 <= i < v@.len() ==> #[trigger] value_eq(r@[i], v@[i]),
    decreases v, 0int,
{
    let mut out: Vec<ConstValue> = Vec::new();
    let mut i: usize = 0;
    while i < v.len()
        invariant
            i <= v@.len(),
            out@.len() == i,
            forall|j: int| 0 <= j < i ==> #[trigger] value_eq(out@[j], v@[j]),
        decreases v@.len() - i,
    {
        proof {
            vstd::std_specs::vec::axiom_vec_index_decreases(*v, i as int);
        }
        let x = v[i].duplicate();
        out.push(x);
        i = i + 1;
    }
    out
}

/// A value without nested values.
pub open spec fn is_scalar(v: ConstValue) -> bool {
    !(v is Array || v is Tuple)
}

impl ConstValue {
    /// A copy of the value (scalars are copied exactly; nested values
    /// element by element).
    pub fn duplicate(&self) -> (r: ConstValue)
        ensures
            is_scalar(*self) ==> r == *self,
            *self is Array ==> r is Array,
            *self is Tuple ==> r is Tuple,
            value_eq(r, *self),
        decreases self, 1int,
    {
        match self {
            ConstValue::Int(n) => ConstValue::Int(*n),
            ConstValue::Bool(b) => ConstValue::Bool(*b),
            ConstValue::Array(items) => {
                let d = duplicate_all(items);
                proof {
                    lemma_values_eq_from(d, *items, d@.len() as nat);
                }
                ConstValue::Array(d)
            },
            ConstValue::Tuple(items) => {
                let d = duplicate_all(items);
                proof {
                    lemma_values_eq_from(d, *items, d@.len() as nat);
                }
                ConstValue::Tuple(d)
            },
            ConstValue::EnumVariant { def, discriminant } => ConstValue::EnumVariant {
                def: *def,
                discriminant: *discriminant,
            },
            ConstValue::Error => ConstValue::Error,
        }
    }
}

/// A finding of compile-time evaluation.
#[derive(Clone, Copy, Debug, PartialEq, Eq, Structural)]
pub enum ConstDiag {
    /// E2021: a run-time value where a constant is needed.
    NotConstant { span: Span },
    /// E2003: an operand of the wrong type.
    TypeMismatch { span: Span },
    /// E2022: the result does not fit `i128`.
    Overflow { span: Span },
    /// E2023: division by a constant zero.
    DivisionByZero { span: Span },
    /// E2024: a shift by an amount outside `0..128`.
    ShiftOverflow { span: Span, amount: i128 },
    /// E2026: an array length outside `0..=MAX_ARRAY_LEN`.
    ArrayLength { span: Span, len: i128 },
    /// E2029: a constant index outside the array.
    IndexOutOfRange { span: Span, index: i128, len: u64 },
    /// E2025: a width outside `1..=MAX_WIDTH`.
    BadWidth { span: Span, width: i128 },
    /// E2021: `clog2` with other than one argument.
    Clog2Arity { span: Span, count: u64 },
    /// E2021: `clog2` of a value below one.
    Clog2NonPositive { span: Span, value: i128 },
    /// E2020: a constant that depends on itself; `def` is where the cycle
    /// was entered again.
    Cycle { span: Span, def: u32 },
}

impl ConstDiag {
    /// The code of each kind of finding.
    pub open spec fn code_spec(&self) -> Seq<char> {
        match self {
            ConstDiag::NotConstant { .. } => "E2021"@,
            ConstDiag::TypeMismatch { .. } => "E2003"@,
            ConstDiag::Overflow { .. } => "E2022"@,
            ConstDiag::DivisionByZero { .. } => "E2023"@,
            ConstDiag::ShiftOverflow { .. } => "E2024"@,
            ConstDiag::ArrayLength { .. } => "E2026"@,
            ConstDiag::IndexOutOfRange { .. } => "E2029"@,
            ConstDiag::BadWidth { .. } => "E2025"@,
            ConstDiag::Clog2Arity { .. } => "E2021"@,
            ConstDiag::Clog2NonPositive { .. } => "E2021"@,
            ConstDiag::Cycle { .. } => "E2020"@,
        }
    }

    /// The diagnostic code.
    pub fn code(&self) -> (r: &'static str)
        ensures
            r@ == self.code_spec(),
    {
        match self {
            ConstDiag::NotConstant { .. } => "E2021",
            ConstDiag::TypeMismatch { .. } => "E2003",
            ConstDiag::Overflow { .. } => "E2022",
            ConstDiag::DivisionByZero { .. } => "E2023",
            ConstDiag::ShiftOverflow { .. } => "E2024",
            ConstDiag::ArrayLength { .. } => "E2026",
            ConstDiag::IndexOutOfRange { .. } => "E2029",
            ConstDiag::BadWidth { .. } => "E2025",
            ConstDiag::Clog2Arity { .. } => "E2021",
            ConstDiag::Clog2NonPositive { .. } => "E2021",
            ConstDiag::Cycle { .. } => "E2020",
        }
    }
}

/// A type as written where widths and lengths are constants.
#[derive(Clone, Debug)]
pub enum TypeRef {
    /// `bits<N>`.
    Bits(usize),
    /// `[elem; len]`; `elem` is a type stored before this one.
    Array { elem: usize, len: usize },
    /// `(a, b, ...)`, of types stored before this one.
    Tuple(Vec<usize>),
    /// Any other type.
    Other,
}

/// What compile-time evaluation reads of a resolved file.
#[derive(Clone, Debug)]
pub struct ConstInput {
    /// By definition index: kind, name and span.
    pub kinds: Vec<DefKind>,
    pub names: Vec<String>,
    pub spans: Vec<Span>,
    pub exprs: Vec<Expr>,
    /// By definition index: the initializer of a `const`.
    pub const_inits: Vec<Option<usize>>,
    /// By definition index: an enum variant's position and explicit
    /// discriminant.
    pub variant_info: Vec<Option<(u64, Option<usize>)>>,
    /// Type arena.
    pub types: Vec<TypeRef>,
    /// The types written in ports, registers, wires, lets, constants and
    /// fields, in file order.
    pub type_positions: Vec<usize>,
}

impl ConstInput {
    pub open spec fn n(&self) -> int {
        self.kinds@.len() as int
    }

    /// Every reference is in range, expressions and types refer only to
    /// ones stored before them, and paths resolve to definitions.
    pub open spec fn wf(&self) -> bool {
        &&& wf_exprs(self.exprs@)
        &&& self.names@.len() == self.n()
        &&& self.spans@.len() == self.n()
        &&& self.const_inits@.len() == self.n()
        &&& self.variant_info@.len() == self.n()
        &&& self.n() < u32::MAX
        &&& forall|i: int|
            0 <= i < self.exprs@.len() ==> match (#[trigger] self.exprs@[i]).kind {
                ExprKind::Path { def, .. } => def matches Some(d) ==> d < self.n(),
                _ => true,
            }
        &&& forall|d: int|
            0 <= d < self.n() ==> ((#[trigger] self.const_inits@[d]) matches Some(e) ==> e
                < self.exprs@.len())
        &&& forall|d: int|
            0 <= d < self.n() ==> ((#[trigger] self.variant_info@[d]) matches Some(v) ==> (
            v.1 matches Some(e) ==> e < self.exprs@.len()))
        &&& forall|t: int|
            0 <= t < self.types@.len() ==> match #[trigger] self.types@[t] {
                TypeRef::Bits(e) => e < self.exprs@.len(),
                TypeRef::Array { elem, len } => elem < t && len < self.exprs@.len(),
                TypeRef::Tuple(items) => forall|k: int|
                    0 <= k < items@.len() ==> #[trigger] items@[k] < t,
                TypeRef::Other => true,
            }
        &&& forall|k: int|
            0 <= k < self.type_positions@.len() ==> #[trigger] self.type_positions@[k]
                < self.types@.len()
    }
}

/// `k` is `clog2(n)`: the least number of bits that count `n` values.
pub open spec fn clog2_ok(n: int, k: u128) -> bool {
    &&& k < 128
    &&& n <= (1u128 << k) as int
    &&& (k == 0 || ((1u128 << ((k - 1) as u128)) as int) < n)
}

/// The number of bits needed to represent `n` values (`n >= 1`):
/// `clog2(1) = 0`, `clog2(2) = 1`, `clog2(3) = 2`, `clog2(8) = 3`.
pub fn clog2(n: i128) -> (r: u32)
    requires
        n >= 1,
    ensures
        clog2_ok(n as int, r as u128),
{
    let m: u128 = n as u128;
    let mut k: u128 = 0;
    let mut p: u128 = 1;
    assert((1u128 << 0u128) == 1u128) by (bit_vector);
    while k < 127 && p < m
        invariant
            m == n as int,
            1 <= n <= i128::MAX,
            k <= 127,
            p == 1u128 << k,
            k == 0 || (1u128 << ((k - 1) as u128)) < m,
        decreases 127 - k,
    {
        let ghost k0 = k;
        assert(k0 < 127 ==> (1u128 << k0) * 2 == 1u128 << ((k0 + 1) as u128)) by (bit_vector);
        p = p * 2;
        k = k + 1;
        assert(((k - 1) as u128) == k0);
    }
    assert((1u128 << 127u128) == 0x8000_0000_0000_0000_0000_0000_0000_0000u128) by (bit_vector);
    k as u32
}

/// The value of an integer or boolean operation, and whether it is an
/// error (the finding is given by `binop_diag`).
pub open spec fn binop_spec(op: BinOp, l: ConstValue, r: ConstValue) -> ConstValue {
    match (l, r) {
        (ConstValue::Error, _) => ConstValue::Error,
        (_, ConstValue::Error) => ConstValue::Error,
        (ConstValue::Int(a), ConstValue::Int(b)) => match op {
            BinOp::Add => int_result(a + b),
            BinOp::Sub => int_result(a - b),
            BinOp::Mul => int_result(a * b),
            BinOp::Div => if b == 0 {
                ConstValue::Error
            } else {
                match a.checked_div(b) {
                    Some(v) => ConstValue::Int(v),
                    None => ConstValue::Error,
                }
            },
            BinOp::Rem => if b == 0 {
                ConstValue::Error
            } else {
                match a.checked_rem(b) {
                    Some(v) => ConstValue::Int(v),
                    None => ConstValue::Error,
                }
            },
            BinOp::Shl => if 0 <= b < 128 {
                int_result(a * pow2_int(b as nat))
            } else {
                ConstValue::Error
            },
            BinOp::Shr => if 0 <= b < 128 {
                ConstValue::Int(a >> (b as u32))
            } else {
                ConstValue::Error
            },
            BinOp::BitAnd => ConstValue::Int(a & b),
            BinOp::BitOr => ConstValue::Int(a | b),
            BinOp::BitXor => ConstValue::Int(a ^ b),
            BinOp::Eq => ConstValue::Bool(a == b),
            BinOp::Ne => ConstValue::Bool(a != b),
            BinOp::Lt => ConstValue::Bool(a < b),
            BinOp::Gt => ConstValue::Bool(a > b),
            BinOp::Le => ConstValue::Bool(a <= b),
            BinOp::Ge => ConstValue::Bool(a >= b),
            BinOp::And => ConstValue::Error,
            BinOp::Or => ConstValue::Error,
        },
        (ConstValue::Bool(a), ConstValue::Bool(b)) => match op {
            BinOp::And => ConstValue::Bool(a && b),
            BinOp::Or => ConstValue::Bool(a || b),
            BinOp::Eq => ConstValue::Bool(a == b),
            BinOp::Ne => ConstValue::Bool(a != b),
            _ => ConstValue::Error,
        },
        _ => ConstValue::Error,
    }
}

/// Two to the power `n`.
pub open spec fn pow2_int(n: nat) -> int
    decreases n,
{
    if n == 0 {
        1
    } else {
        2 * pow2_int((n - 1) as nat)
    }
}

proof fn lemma_pow2_pos(n: nat)
    ensures
        pow2_int(n) >= 1,
    decreases n,
{
    if n > 0 {
        lemma_pow2_pos((n - 1) as nat);
    }
}

proof fn lemma_pow2_add(x: nat, y: nat)
    ensures
        pow2_int(x + y) == pow2_int(x) * pow2_int(y),
    decreases y,
{
    if y > 0 {
        lemma_pow2_add(x, (y - 1) as nat);
        assert(pow2_int(x + y) == 2 * pow2_int((x + y - 1) as nat));
        let p = pow2_int(x);
        let q = pow2_int((y - 1) as nat);
        assert(p * (2 * q) == 2 * (p * q)) by (nonlinear_arith);
    }
}

/// A value outside `i128` stays outside when multiplied by a power of two.
proof fn lemma_out_of_range_stays(v: int, m: nat)
    requires
        v < i128::MIN || v > i128::MAX,
    ensures
        v * pow2_int(m) < i128::MIN || v * pow2_int(m) > i128::MAX,
{
    lemma_pow2_pos(m);
    let p = pow2_int(m);
    if v > i128::MAX {
        assert(v * p >= v) by (nonlinear_arith)
            requires
                v > 0,
                p >= 1,
        ;
    } else {
        assert(v * p <= v) by (nonlinear_arith)
            requires
                v < 0,
                p >= 1,
        ;
    }
}

/// `a` shifted left by `b` bits, where the exact result fits in `i128`.
fn checked_shl_exact(a: i128, b: u32) -> (r: Option<i128>)
    requires
        b < 128,
    ensures
        r == (if i128::MIN <= a * pow2_int(b as nat) <= i128::MAX {
            Some((a * pow2_int(b as nat)) as i128)
        } else {
            None::<i128>
        }),
{
    let mut cur: i128 = a;
    let mut k: u32 = 0;
    while k < b
        invariant
            k <= b,
            cur as int == a * pow2_int(k as nat),
        decreases b - k,
    {
        proof {
            lemma_pow2_add(k as nat, 1);
            lemma_pow2_add(k as nat + 1, (b - k - 1) as nat);
            lemma_pow2_add(k as nat, (b - k) as nat);
            assert(pow2_int(1) == 2) by {
                assert(pow2_int(0) == 1);
            }
            assert(a * (pow2_int(k as nat) * 2) == (a * pow2_int(k as nat)) * 2) by (nonlinear_arith);
        }
        match cur.checked_mul(2) {
            Some(v) => {
                cur = v;
            },
            None => {
                proof {
                    let y = cur as int * 2;
                    lemma_out_of_range_stays(y, (b - k - 1) as nat);
                    let p = pow2_int((b - k - 1) as nat);
                    assert(a * pow2_int(b as nat) == y * p) by {
                        assert(pow2_int(b as nat) == pow2_int(k as nat + 1) * p);
                        assert(pow2_int(k as nat + 1) == pow2_int(k as nat) * 2);
                        let q = pow2_int(k as nat);
                        assert(a * ((q * 2) * p) == ((a * q) * 2) * p) by (nonlinear_arith);
                    }
                }
                return None;
            },
        }
        k = k + 1;
    }
    Some(cur)
}

/// An exact integer result, or `Error` where it leaves `i128`.
pub open spec fn int_result(v: int) -> ConstValue {
    if i128::MIN <= v <= i128::MAX {
        ConstValue::Int(v as i128)
    } else {
        ConstValue::Error
    }
}

/// The finding an operation reports, if any.
pub open spec fn binop_diag(op: BinOp, l: ConstValue, r: ConstValue, span: Span) -> Option<ConstDiag> {
    match (l, r) {
        (ConstValue::Error, _) => None,
        (_, ConstValue::Error) => None,
        (ConstValue::Int(a), ConstValue::Int(b)) => match op {
            BinOp::Div => if b == 0 {
                Some(ConstDiag::DivisionByZero { span })
            } else if a.checked_div(b) is None {
                Some(ConstDiag::Overflow { span })
            } else {
                None
            },
            BinOp::Rem => if b == 0 {
                Some(ConstDiag::DivisionByZero { span })
            } else if a.checked_rem(b) is None {
                Some(ConstDiag::Overflow { span })
            } else {
                None
            },
            BinOp::Shl => if 0 <= b < 128 {
                if int_result(a * pow2_int(b as nat)) is Error {
                    Some(ConstDiag::Overflow { span })
                } else {
                    None
                }
            } else {
                Some(ConstDiag::ShiftOverflow { span, amount: b })
            },
            BinOp::Shr => if 0 <= b < 128 {
                None
            } else {
                Some(ConstDiag::ShiftOverflow { span, amount: b })
            },
            BinOp::And => Some(ConstDiag::TypeMismatch { span }),
            BinOp::Or => Some(ConstDiag::TypeMismatch { span }),
            _ => if binop_spec(op, l, r) is Error {
                Some(ConstDiag::Overflow { span })
            } else {
                None
            },
        },
        (ConstValue::Bool(a), ConstValue::Bool(b)) => match op {
            BinOp::And => None,
            BinOp::Or => None,
            BinOp::Eq => None,
            BinOp::Ne => None,
            _ => Some(ConstDiag::TypeMismatch { span }),
        },
        _ => Some(ConstDiag::TypeMismatch { span }),
    }
}

/// The value of a unary operation.
pub open spec fn unop_spec(op: UnOp, v: ConstValue) -> ConstValue {
    match (op, v) {
        (_, ConstValue::Error) => ConstValue::Error,
        (UnOp::Neg, ConstValue::Int(a)) => int_result(-a),
        (UnOp::BitNot, ConstValue::Int(a)) => ConstValue::Int(!a),
        (UnOp::Not, ConstValue::Bool(b)) => ConstValue::Bool(!b),
        _ => ConstValue::Error,
    }
}

/// The finding of a unary operation, if any.
pub open spec fn unop_diag(op: UnOp, v: ConstValue, span: Span) -> Option<ConstDiag> {
    match (op, v) {
        (_, ConstValue::Error) => None,
        (UnOp::Neg, ConstValue::Int(a)) => if a == i128::MIN {
            Some(ConstDiag::Overflow { span })
        } else {
            None
        },
        (UnOp::BitNot, ConstValue::Int(_)) => None,
        (UnOp::Not, ConstValue::Bool(_)) => None,
        _ => Some(ConstDiag::TypeMismatch { span }),
    }
}

/// `diags` is `old` with `d` appended where there is one.
pub open spec fn appended(diags: Seq<ConstDiag>, old: Seq<ConstDiag>, d: Option<ConstDiag>) -> bool {
    match d {
        Some(x) => diags == old.push(x),
        None => diags == old,
    }
}

/// An integer operation on two integers.
fn int_op(op: BinOp, a: i128, b: i128, span: Span) -> (r: (ConstValue, Option<ConstDiag>))
    ensures
        r.0 == binop_spec(op, ConstValue::Int(a), ConstValue::Int(b)),
        r.1 == binop_diag(op, ConstValue::Int(a), ConstValue::Int(b), span),
{
    let v: Option<i128> = match op {
        BinOp::Add => a.checked_add(b),
        BinOp::Sub => a.checked_sub(b),
        BinOp::Mul => a.checked_mul(b),
        BinOp::Div => {
            if b == 0 {
                return (ConstValue::Error, Some(ConstDiag::DivisionByZero { span }));
            }
            a.checked_div(b)
        },
        BinOp::Rem => {
            if b == 0 {
                return (ConstValue::Error, Some(ConstDiag::DivisionByZero { span }));
            }
            a.checked_rem(b)
        },
        BinOp::Shl => {
            if !(0 <= b && b < 128) {
                return (ConstValue::Error, Some(ConstDiag::ShiftOverflow { span, amount: b }));
            }
            checked_shl_exact(a, b as u32)
        },
        BinOp::Shr => {
            if !(0 <= b && b < 128) {
                return (ConstValue::Error, Some(ConstDiag::ShiftOverflow { span, amount: b }));
            }
            Some(a >> (b as u32))
        },
        BinOp::BitAnd => Some(a & b),
        BinOp::BitOr => Some(a | b),
        BinOp::BitXor => Some(a ^ b),
        BinOp::Eq => {
            return (ConstValue::Bool(a == b), None);
        },
        BinOp::Ne => {
            return (ConstValue::Bool(a != b), None);
        },
        BinOp::Lt => {
            return (ConstValue::Bool(a < b), None);
        },
        BinOp::Gt => {
            return (ConstValue::Bool(a > b), None);
        },
        BinOp::Le => {
            return (ConstValue::Bool(a <= b), None);
        },
        BinOp::Ge => {
            return (ConstValue::Bool(a >= b), None);
        },
        BinOp::And | BinOp::Or => {
            return (ConstValue::Error, Some(ConstDiag::TypeMismatch { span }));
        },
    };
    match v {
        Some(n) => (ConstValue::Int(n), None),
        None => (ConstValue::Error, Some(ConstDiag::Overflow { span })),
    }
}

/// A binary operation on two values: integers overflow into an error
/// (never wrap), division by zero and shifts outside `0..128` are errors,
/// `&&`/`||` take booleans, and an `Error` operand stays silent.
pub fn eval_binop(op: BinOp, l: &ConstValue, r: &ConstValue, span: Span) -> (res: (ConstValue, Option<ConstDiag>))
    ensures
        res.0 == binop_spec(op, *l, *r),
        res.1 == binop_diag(op, *l, *r, span),
{
    match (l, r) {
        (ConstValue::Error, _) => (ConstValue::Error, None),
        (_, ConstValue::Error) => (ConstValue::Error, None),
        (ConstValue::Int(a), ConstValue::Int(b)) => int_op(op, *a, *b, span),
        (ConstValue::Bool(a), ConstValue::Bool(b)) => match op {
            BinOp::And => (ConstValue::Bool(*a && *b), None),
            BinOp::Or => (ConstValue::Bool(*a || *b), None),
            BinOp::Eq => (ConstValue::Bool(*a == *b), None),
            BinOp::Ne => (ConstValue::Bool(*a != *b), None),
            _ => (ConstValue::Error, Some(ConstDiag::TypeMismatch { span })),
        },
        _ => (ConstValue::Error, Some(ConstDiag::TypeMismatch { span })),
    }
}

/// Integer arithmetic on constants is exact, left operand first: `a + b`,
/// `a - b` and `a * b` are the mathematical sum, difference and product
/// where they fit `i128`, with no finding; where they do not, the result
/// is `Error` with E2022. Comparisons compare `a` with `b` in that order.
pub proof fn law_integer_arithmetic(a: i128, b: i128, span: Span)
    ensures
        i128::MIN <= a + b <= i128::MAX ==> binop_spec(BinOp::Add, ConstValue::Int(a), ConstValue::Int(b)) == ConstValue::Int(
            (a + b) as i128,
        ) && binop_diag(BinOp::Add, ConstValue::Int(a), ConstValue::Int(b), span) is None,
        i128::MIN <= a - b <= i128::MAX ==> binop_spec(BinOp::Sub, ConstValue::Int(a), ConstValue::Int(b)) == ConstValue::Int(
            (a - b) as i128,
        ) && binop_diag(BinOp::Sub, ConstValue::Int(a), ConstValue::Int(b), span) is None,
        i128::MIN <= a * b <= i128::MAX ==> binop_spec(BinOp::Mul, ConstValue::Int(a), ConstValue::Int(b)) == ConstValue::Int(
            (a * b) as i128,
        ) && binop_diag(BinOp::Mul, ConstValue::Int(a), ConstValue::Int(b), span) is None,
        !(i128::MIN <= a + b <= i128::MAX) ==> binop_spec(BinOp::Add, ConstValue::Int(a), ConstValue::Int(b))
            == ConstValue::Error && binop_diag(BinOp::Add, ConstValue::Int(a), ConstValue::Int(b), span) == Some(
            ConstDiag::Overflow { span },
        ),
        !(i128::MIN <= a - b <= i128::MAX) ==> binop_spec(BinOp::Sub, ConstValue::Int(a), ConstValue::Int(b))
            == ConstValue::Error && binop_diag(BinOp::Sub, ConstValue::Int(a), ConstValue::Int(b), span) == Some(
            ConstDiag::Overflow { span },
        ),
        !(i128::MIN <= a * b <= i128::MAX) ==> binop_spec(BinOp::Mul, ConstValue::Int(a), ConstValue::Int(b))
            == ConstValue::Error && binop_diag(BinOp::Mul, ConstValue::Int(a), ConstValue::Int(b), span) == Some(
            ConstDiag::Overflow { span },
        ),
        binop_spec(BinOp::Lt, ConstValue::Int(a), ConstValue::Int(b)) == ConstValue::Bool(a < b),
        binop_spec(BinOp::Gt, ConstValue::Int(a), ConstValue::Int(b)) == ConstValue::Bool(a > b),
        binop_spec(BinOp::Le, ConstValue::Int(a), ConstValue::Int(b)) == ConstValue::Bool(a <= b),
        binop_spec(BinOp::Ge, ConstValue::Int(a), ConstValue::Int(b)) == ConstValue::Bool(a >= b),
        binop_spec(BinOp::Eq, ConstValue::Int(a), ConstValue::Int(b)) == ConstValue::Bool(a == b),
        binop_spec(BinOp::Ne, ConstValue::Int(a), ConstValue::Int(b)) == ConstValue::Bool(a != b),
{
}

proof fn lemma_magnitude_div_mod(ux: int, ud: int)
    requires
        ux >= 0,
        ud > 0,
    ensures
        ux == ud * (ux / ud) + ux % ud,
        0 <= ux % ud < ud,
        0 <= ux / ud <= ux,
        ud >= 2 ==> 2 * (ux / ud) <= ux,
{
    vstd::arithmetic::div_mod::lemma_fundamental_div_mod(ux, ud);
    vstd::arithmetic::div_mod::lemma_mod_pos_bound(ux, ud);
    let q = ux / ud;
    let r = ux % ud;
    assert(q >= 0) by (nonlinear_arith)
        requires
            ux == ud * q + r,
            0 <= r < ud,
            ux >= 0,
            ud > 0,
    ;
    assert(q <= ux) by (nonlinear_arith)
        requires
            ux == ud * q + r,
            0 <= r,
            ud >= 1,
            q >= 0,
    ;
    if ud >= 2 {
        assert(2 * q <= ux) by (nonlinear_arith)
            requires
                ux == ud * q + r,
                0 <= r,
                ud >= 2,
                q >= 0,
        ;
    }
}

/// Division truncates toward zero and the remainder takes the sign of
/// the dividend: for `b != 0` (and not `i128::MIN / -1`), `a / b` and
/// `a % b` are `q` and `m` with `q * b + m == a`, `|m| < |b|`, and `m`
/// zero or of the sign of `a`.
#[verifier::spinoff_prover]
pub proof fn law_integer_division(a: i128, b: i128)
    requires
        b != 0,
        !(a == i128::MIN && b == -1),
    ensures
        binop_spec(BinOp::Div, ConstValue::Int(a), ConstValue::Int(b)) matches ConstValue::Int(q) && binop_spec(
            BinOp::Rem,
            ConstValue::Int(a),
            ConstValue::Int(b),
        ) matches ConstValue::Int(m) && q * b + m == a && (if m >= 0 { m as int } else { -m }) < (if b >= 0 { b as int } else { -b })
            && (m == 0 || (m > 0) == (a > 0)),
{
    let x = a as int;
    let d = b as int;
    let ux = if x >= 0 { x } else { -x };
    let ud = if d >= 0 { d } else { -d };
    lemma_magnitude_div_mod(ux, ud);
    let uq = ux / ud;
    let ur = ux % ud;
    if x == 0 {
        assert(binop_spec(BinOp::Div, ConstValue::Int(a), ConstValue::Int(b)) == ConstValue::Int(0));
        assert(binop_spec(BinOp::Rem, ConstValue::Int(a), ConstValue::Int(b)) == ConstValue::Int(0));
    } else if x > 0 && d > 0 {
        assert(binop_spec(BinOp::Div, ConstValue::Int(a), ConstValue::Int(b)) == ConstValue::Int(uq as i128));
        assert(binop_spec(BinOp::Rem, ConstValue::Int(a), ConstValue::Int(b)) == ConstValue::Int(ur as i128));
    } else if x < 0 && d < 0 {
        assert((x * -1) / (d * -1) == uq);
        assert(((x * -1) % (d * -1)) * -1 == -ur);
        assert(uq * d + (-ur) == x) by (nonlinear_arith)
            requires
                ux == ud * uq + ur,
                ux == -x,
                ud == -d,
        ;
    } else if x < 0 {
        assert(((x * -1) / d) * -1 == -uq);
        assert(((x * -1) % d) * -1 == -ur);
        assert((-uq) * d + (-ur) == x) by (nonlinear_arith)
            requires
                ux == ud * uq + ur,
                ux == -x,
                ud == d,
        ;
    } else {
        assert((x / (d * -1)) * -1 == -uq);
        assert(x % (d * -1) == ur);
        assert((-uq) * d + ur == x) by (nonlinear_arith)
            requires
                ux == ud * uq + ur,
                ux == x,
                ud == -d,
        ;
    }
}

/// Subtraction is not commutative: where `a != b`, `a - b` and `b - a`
/// (both in range) give different values, and `x - 0` is `x`.
pub proof fn law_subtraction_order(a: i128, b: i128)
    ensures
        a != b && i128::MIN <= a - b <= i128::MAX && i128::MIN <= b - a <= i128::MAX ==> binop_spec(
            BinOp::Sub,
            ConstValue::Int(a),
            ConstValue::Int(b),
        ) != binop_spec(BinOp::Sub, ConstValue::Int(b), ConstValue::Int(a)),
        binop_spec(BinOp::Sub, ConstValue::Int(a), ConstValue::Int(0)) == ConstValue::Int(a),
{
}

/// A unary operation: negation overflows only at `i128::MIN`.
pub fn eval_unop(op: UnOp, v: &ConstValue, span: Span) -> (res: (ConstValue, Option<ConstDiag>))
    ensures
        res.0 == unop_spec(op, *v),
        res.1 == unop_diag(op, *v, span),
{
    match (op, v) {
        (_, ConstValue::Error) => (ConstValue::Error, None),
        (UnOp::Neg, ConstValue::Int(a)) => {
            if *a == i128::MIN {
                (ConstValue::Error, Some(ConstDiag::Overflow { span }))
            } else {
                (ConstValue::Int(-*a), None)
            }
        },
        (UnOp::BitNot, ConstValue::Int(a)) => (ConstValue::Int(!*a), None),
        (UnOp::Not, ConstValue::Bool(b)) => (ConstValue::Bool(!*b), None),
        _ => (ConstValue::Error, Some(ConstDiag::TypeMismatch { span })),
    }
}

/// The width a `bits<N>` argument gives: `N` in `1..=MAX_WIDTH`; an
/// integer outside is E2025; an earlier error recovers as width 1;
/// anything else is not a constant integer (E2021).
pub open spec fn type_arg_spec(v: ConstValue, span: Span) -> (Option<u32>, Option<ConstDiag>) {
    match v {
        ConstValue::Int(n) => if 0 < n <= MAX_WIDTH {
            (Some(n as u32), None)
        } else {
            (None, Some(ConstDiag::BadWidth { span, width: n }))
        },
        ConstValue::Error => (Some(1), None),
        _ => (None, Some(ConstDiag::NotConstant { span })),
    }
}

/// The width a `bits<N>` argument of value `v` gives, and its finding.
pub fn type_arg_of(v: &ConstValue, span: Span) -> (r: (Option<u32>, Option<ConstDiag>))
    ensures
        r == type_arg_spec(*v, span),
{
    match v {
        ConstValue::Int(n) => {
            if 0 < *n && *n <= MAX_WIDTH as i128 {
                (Some(*n as u32), None)
            } else {
                (None, Some(ConstDiag::BadWidth { span, width: *n }))
            }
        },
        ConstValue::Error => (Some(1), None),
        _ => (None, Some(ConstDiag::NotConstant { span })),
    }
}

/// The cache holds `r` for expression `e` (exactly where either is a
/// scalar; nested values are copied).
pub open spec fn holds_value(cache: Seq<Option<ConstValue>>, e: int, r: ConstValue) -> bool {
    cache[e] matches Some(c) && (is_scalar(c) ==> c == r) && (is_scalar(r) ==> c == r)
}

/// The scalar value cached for expression `e`, if any.
pub open spec fn scalar_at(cache: Seq<Option<ConstValue>>, e: int) -> Option<ConstValue> {
    match cache[e] {
        Some(c) => if is_scalar(c) {
            Some(c)
        } else {
            None
        },
        None => None,
    }
}

/// How the value `r` of expression `e` follows from its form and the
/// values of its operands: literals are themselves, an operator applies
/// to its operands' values, a conditional takes the value of the branch
/// its condition selects (a condition that is no boolean gives `Error`),
/// and a cast keeps its operand's value.
pub open spec fn local_value(inp: ConstInput, cache: Seq<Option<ConstValue>>, e: int, r: ConstValue) -> bool {
    match inp.exprs@[e].kind {
        ExprKind::BoolLit(b) => r == ConstValue::Bool(b),
        ExprKind::IntLit(v) => r is Int && (v <= i128::MAX ==> r == ConstValue::Int(v as i128)),
        ExprKind::ArrayList(items) => match r {
            ConstValue::Array(vals) => vals@.len() == items@.len() && forall|k: int|
                0 <= k < items@.len() ==> holds_value(cache, #[trigger] items@[k] as int, vals@[k]),
            ConstValue::Error => exists|k: int| 0 <= k < items@.len() && cache[#[trigger] items@[k] as int] == Some(ConstValue::Error),
            _ => false,
        },
        ExprKind::Error => r == ConstValue::Error,
        ExprKind::Binary { op, lhs, rhs } => (scalar_at(cache, lhs as int) is Some && scalar_at(
            cache,
            rhs as int,
        ) is Some) ==> r == binop_spec(
            op,
            scalar_at(cache, lhs as int).unwrap(),
            scalar_at(cache, rhs as int).unwrap(),
        ),
        ExprKind::Unary { op, operand } => scalar_at(cache, operand as int) matches Some(x) ==> r == unop_spec(
            op,
            x,
        ),
        ExprKind::If { cond, then_expr, else_expr } => if scalar_at(cache, cond as int) == Some(
            ConstValue::Bool(true),
        ) {
            scalar_at(cache, then_expr as int) matches Some(t) ==> r == t
        } else if scalar_at(cache, cond as int) == Some(ConstValue::Bool(false)) {
            scalar_at(cache, else_expr as int) matches Some(t) ==> r == t
        } else {
            r == ConstValue::Error
        },
        ExprKind::Cast { expr } => scalar_at(cache, expr as int) matches Some(x) ==> r == x,
        ExprKind::Call { callee, args } => match callee_builtin(inp, callee as int) {
            Some(BuiltinKind::Clog2) => if args@.len() != 1 {
                r == ConstValue::Error
            } else {
                scalar_at(cache, args@[0] as int) matches Some(ConstValue::Int(n)) ==> if n <= 0 {
                    r == ConstValue::Error
                } else {
                    r matches ConstValue::Int(c) && 0 <= c && clog2_ok(n as int, c as u128)
                }
            },
            Some(BuiltinKind::Zext) | Some(BuiltinKind::Sext) | Some(BuiltinKind::Trunc) => if args@.len() != 1 {
                r == ConstValue::Error
            } else {
                scalar_at(cache, args@[0] as int) matches Some(x) ==> r == x
            },
            _ => r == ConstValue::Error,
        },
        ExprKind::Index { base, index } => match (cache[base as int], scalar_at(cache, index as int)) {
            (Some(ConstValue::Array(xs)), Some(ConstValue::Int(i))) => if 0 <= i < xs@.len() {
                value_eq(r, xs@[i as int])
            } else {
                r == ConstValue::Error
            },
            _ => true,
        },
        _ => true,
    }
}

/// The finding the last step of evaluating `e` reports, where its form
/// and its operands' values settle one: a constant index outside the
/// array is E2029, and an `if` whose condition is neither a boolean nor
/// `Error` is E2003.
pub open spec fn local_finding(inp: ConstInput, cache: Seq<Option<ConstValue>>, e: int, diags: Seq<ConstDiag>) -> bool {
    let span = inp.exprs@[e].span;
    match inp.exprs@[e].kind {
        ExprKind::Index { base, index } => match (cache[base as int], scalar_at(cache, index as int)) {
            (Some(ConstValue::Array(xs)), Some(ConstValue::Int(i))) => !(0 <= i < xs@.len()) ==> diags.len() > 0
                && diags.last() == ConstDiag::IndexOutOfRange { span, index: i, len: xs@.len() as u64 },
            _ => true,
        },
        ExprKind::If { cond, .. } => match cache[cond as int] {
            Some(c) => !(c is Bool) && !(c is Error) ==> diags.len() > 0 && diags.last() == ConstDiag::TypeMismatch {
                span,
            },
            None => true,
        },
        ExprKind::Call { callee, args } => match callee_builtin(inp, callee as int) {
            Some(BuiltinKind::Clog2) => if args@.len() != 1 {
                diags.len() > 0 && diags.last() == ConstDiag::Clog2Arity { span, count: args@.len() as u64 }
            } else {
                scalar_at(cache, args@[0] as int) matches Some(ConstValue::Int(n)) ==> (n <= 0 ==> diags.len() > 0
                    && diags.last() == ConstDiag::Clog2NonPositive { span, value: n })
            },
            Some(BuiltinKind::Zext) | Some(BuiltinKind::Sext) | Some(BuiltinKind::Trunc) => args@.len() != 1
                ==> diags.len() > 0 && diags.last() == ConstDiag::NotConstant { span },
            _ => diags.len() > 0 && diags.last() == ConstDiag::NotConstant { span },
        },
        _ => true,
    }
}

/// What a reference to constant `def` evaluates to: as `def_outcome`
/// says of the constant itself.
pub open spec fn const_ref_outcome(inp: ConstInput, before: ConstEvaluator, after: ConstEvaluator, def: int, r: ConstValue) -> bool {
    if before.def_cache@[def] is Some {
        holds_value(after.def_cache@, def, r) && after.diagnostics == before.diagnostics
    } else if before.in_progress@.contains(def as u32) {
        r == ConstValue::Error && after.diagnostics@ == before.diagnostics@.push(
            ConstDiag::Cycle { span: inp.spans@[def], def: def as u32 },
        )
    } else {
        match inp.const_inits@[def] {
            None => r == ConstValue::Error,
            Some(init) => if before.in_progress@.len() >= inp.n() {
                r == ConstValue::Error
            } else {
                holds_value(after.def_cache@, def, r)
            },
        }
    }
}

/// What evaluating constant `def` gives: the memoized value where there
/// is one; else `Error` for a definition without initializer, a cycle
/// (`def` is being evaluated), or nesting as deep as there are
/// definitions; else the value of its initializer, now memoized for both.
pub open spec fn def_outcome(inp: ConstInput, before: ConstEvaluator, after: ConstEvaluator, def: int, r: ConstValue) -> bool {
    if before.def_cache@[def] is Some {
        holds_value(after.def_cache@, def, r) && after.diagnostics == before.diagnostics
    } else if before.in_progress@.contains(def as u32) {
        r == ConstValue::Error && after.diagnostics@ == before.diagnostics@.push(
            ConstDiag::Cycle { span: inp.spans@[def], def: def as u32 },
        )
    } else {
        match inp.const_inits@[def] {
            None => r == ConstValue::Error,
            Some(init) => if before.in_progress@.len() >= inp.n() {
                r == ConstValue::Error
            } else {
                holds_value(after.def_cache@, def, r) && holds_value(after.expr_cache@, init as int, r)
            },
        }
    }
}

/// Every width and array length written in type `t` has a value in
/// `cache`.
pub open spec fn type_evaluated(inp: ConstInput, cache: Seq<Option<ConstValue>>, t: int) -> bool
    decreases t,
{
    if !(0 <= t < inp.types@.len()) {
        true
    } else {
        match inp.types@[t] {
            TypeRef::Bits(e) => e < cache.len() && cache[e as int] is Some,
            TypeRef::Array { elem, len } => len < cache.len() && cache[len as int] is Some && (0 <= elem < t ==> type_evaluated(
                inp,
                cache,
                elem as int,
            )),
            TypeRef::Tuple(items) => forall|j: int|
                0 <= j < items@.len() && 0 <= #[trigger] items@[j] < t ==> type_evaluated(inp, cache, items@[j] as int),
            TypeRef::Other => true,
        }
    }
}

/// Values once cached stay cached.
pub open spec fn cache_extends(a: Seq<Option<ConstValue>>, b: Seq<Option<ConstValue>>) -> bool {
    &&& a.len() == b.len()
    &&& forall|i: int| 0 <= i < a.len() && (#[trigger] a[i]) is Some ==> b[i] == a[i]
}

pub proof fn lemma_type_evaluated_mono(inp: ConstInput, a: Seq<Option<ConstValue>>, b: Seq<Option<ConstValue>>, t: int)
    requires
        cache_extends(a, b),
        type_evaluated(inp, a, t),
    ensures
        type_evaluated(inp, b, t),
    decreases t,
{
    if 0 <= t < inp.types@.len() {
        match inp.types@[t] {
            TypeRef::Bits(e) => {
                assert(a[e as int] is Some);
            },
            TypeRef::Array { elem, len } => {
                assert(a[len as int] is Some);
                if 0 <= elem < t {
                    lemma_type_evaluated_mono(inp, a, b, elem as int);
                }
            },
            TypeRef::Tuple(items) => {
                assert forall|j: int| 0 <= j < items@.len() && 0 <= #[trigger] items@[j] < t implies type_evaluated(
                    inp,
                    b,
                    items@[j] as int,
                ) by {
                    lemma_type_evaluated_mono(inp, a, b, items@[j] as int);
                }
            },
            TypeRef::Other => {},
        }
    }
}

/// The builtin a call's callee names, if it names one.
pub open spec fn callee_builtin(inp: ConstInput, callee: int) -> Option<BuiltinKind> {
    match inp.exprs@[callee].kind {
        ExprKind::Path { def: Some(d), .. } => match inp.kinds@[d as int] {
            DefKind::Builtin(k) => Some(k),
            _ => None,
        },
        _ => None,
    }
}

/// A literal's value, where `c` is cached for expression `e`.
pub open spec fn literal_ok(inp: ConstInput, e: int, c: ConstValue) -> bool {
    match inp.exprs@[e].kind {
        ExprKind::BoolLit(b) => c == ConstValue::Bool(b),
        ExprKind::IntLit(v) => c is Int && (v <= i128::MAX ==> c == ConstValue::Int(v as i128)),
        ExprKind::Error => c == ConstValue::Error,
        ExprKind::ArrayList(_) => c is Array || c is Error,
        _ => true,
    }
}

/// The finding a call's own step reports, from its callee and the value
/// cached for its argument.
pub open spec fn call_finding(inp: ConstInput, cache: Seq<Option<ConstValue>>, callee: int, args: Seq<usize>, span: Span) -> Option<ConstDiag> {
    match callee_builtin(inp, callee) {
        Some(BuiltinKind::Clog2) => if args.len() != 1 {
            Some(ConstDiag::Clog2Arity { span, count: args.len() as u64 })
        } else {
            match cache[args[0] as int] {
                Some(ConstValue::Int(n)) => if n <= 0 {
                    Some(ConstDiag::Clog2NonPositive { span, value: n })
                } else {
                    None
                },
                _ => None,
            }
        },
        Some(BuiltinKind::Zext) | Some(BuiltinKind::Sext) | Some(BuiltinKind::Trunc) => if args.len() != 1 {
            Some(ConstDiag::NotConstant { span })
        } else {
            None
        },
        _ => Some(ConstDiag::NotConstant { span }),
    }
}

/// The finding the last step of evaluating `e` reports, from the values
/// cached for its operands.
pub open spec fn step_finding(inp: ConstInput, cache: Seq<Option<ConstValue>>, e: int) -> Option<ConstDiag> {
    let span = inp.exprs@[e].span;
    match inp.exprs@[e].kind {
        ExprKind::Binary { op, lhs, rhs } => match (cache[lhs as int], cache[rhs as int]) {
            (Some(a), Some(b)) => binop_diag(op, a, b, span),
            _ => None,
        },
        ExprKind::Unary { op, operand } => match cache[operand as int] {
            Some(a) => unop_diag(op, a, span),
            None => None,
        },
        ExprKind::If { cond, .. } => match cache[cond as int] {
            Some(c) => if c is Bool || c is Error {
                None
            } else {
                Some(ConstDiag::TypeMismatch { span })
            },
            None => None,
        },
        ExprKind::Index { base, index } => match (cache[base as int], cache[index as int]) {
            (Some(ConstValue::Error), _) => None,
            (_, Some(ConstValue::Error)) => None,
            (Some(ConstValue::Array(xs)), Some(ConstValue::Int(i))) => if 0 <= i < xs@.len() {
                None
            } else {
                Some(ConstDiag::IndexOutOfRange { span, index: i, len: xs@.len() as u64 })
            },
            (Some(_), Some(_)) => Some(ConstDiag::NotConstant { span }),
            _ => None,
        },
        ExprKind::Call { callee, args } => call_finding(inp, cache, callee as int, args@, span),
        _ => None,
    }
}

/// The operands of `e` that its evaluation evaluates report nothing
/// themselves, so that its own step's finding is the only one.
pub open spec fn ops_quiet(inp: ConstInput, e: int) -> bool {
    match inp.exprs@[e].kind {
        ExprKind::Binary { lhs, rhs, .. } => quiet(inp, lhs as int) && quiet(inp, rhs as int),
        ExprKind::Unary { operand, .. } => quiet(inp, operand as int),
        ExprKind::If { cond, then_expr, else_expr } => quiet(inp, cond as int) && !(inp.exprs@[cond as int].kind is If)
            && (inp.exprs@[cond as int].kind == ExprKind::BoolLit(true) ==> quiet(inp, then_expr as int))
            && (inp.exprs@[cond as int].kind == ExprKind::BoolLit(false) ==> quiet(inp, else_expr as int)),
        ExprKind::Index { base, index } => quiet(inp, base as int) && quiet(inp, index as int),
        ExprKind::Call { args, .. } => forall|k: int| 0 <= k < args@.len() ==> quiet(inp, #[trigger] args@[k] as int),
        _ => false,
    }
}

/// Evaluating `e` reports nothing: a literal, an array of such, or an
/// `if` on a literal condition whose chosen branch is such.
pub open spec fn quiet(inp: ConstInput, e: int) -> bool
    decreases e,
{
    if !(0 <= e < inp.exprs@.len()) {
        false
    } else {
        match inp.exprs@[e].kind {
            ExprKind::IntLit(_) => true,
            ExprKind::BoolLit(_) => true,
            ExprKind::Error => true,
            ExprKind::ArrayList(items) => forall|k: int|
                0 <= k < items@.len() ==> (#[trigger] items@[k] as int) < e && quiet(inp, items@[k] as int),
            ExprKind::If { cond, then_expr, else_expr } => (cond as int) < e && (then_expr as int) < e && (else_expr as int)
                < e && (cond as int) >= 0 && match inp.exprs@[cond as int].kind {
                ExprKind::BoolLit(true) => quiet(inp, then_expr as int),
                ExprKind::BoolLit(false) => quiet(inp, else_expr as int),
                _ => false,
            },
            _ => false,
        }
    }
}

/// The evaluator: memo tables and the constants being evaluated.
pub struct ConstEvaluator {
    /// By expression index: the memoized value.
    pub expr_cache: Vec<Option<ConstValue>>,
    /// By definition index: the memoized value of a constant.
    pub def_cache: Vec<Option<ConstValue>>,
    /// The constants (and discriminants) being evaluated, outermost first.
    pub in_progress: Vec<u32>,
    pub diagnostics: Vec<ConstDiag>,
}

/// `step_finding` reads only the cache entries of operands, which are
/// stored before the expression.
pub proof fn lemma_step_finding_frame(inp: ConstInput, a: Seq<Option<ConstValue>>, b: Seq<Option<ConstValue>>, e: int)
    requires
        inp.wf(),
        0 <= e < inp.exprs@.len(),
        forall|i: int| 0 <= i < e ==> #[trigger] b[i] == a[i],
    ensures
        step_finding(inp, b, e) == step_finding(inp, a, e),
{
    let kids = children(inp.exprs@[e].kind);
    assert(forall|k: int| 0 <= k < kids.len() ==> #[trigger] kids[k] < e);
    match inp.exprs@[e].kind {
        ExprKind::Binary { lhs, rhs, .. } => {
            assert(kids[0] == lhs && kids[1] == rhs);
            assert(b[lhs as int] == a[lhs as int] && b[rhs as int] == a[rhs as int]);
        },
        ExprKind::Unary { operand, .. } => {
            assert(kids[0] == operand);
            assert(b[operand as int] == a[operand as int]);
        },
        ExprKind::If { cond, .. } => {
            assert(kids[0] == cond);
            assert(b[cond as int] == a[cond as int]);
        },
        ExprKind::Index { base, index } => {
            assert(kids[0] == base && kids[1] == index);
            assert(b[base as int] == a[base as int] && b[index as int] == a[index as int]);
        },
        ExprKind::Call { callee, args } => {
            if args@.len() > 0 {
                assert(kids[1] == args@[0]);
                assert(b[args@[0] as int] == a[args@[0] as int]);
            }
        },
        _ => {},
    }
}

/// `local_value` reads only the cache entries of operands, which are
/// stored before the expression.
pub proof fn lemma_local_value_frame(
    inp: ConstInput,
    a: Seq<Option<ConstValue>>,
    b: Seq<Option<ConstValue>>,
    e: int,
    r: ConstValue,
)
    requires
        inp.wf(),
        0 <= e < inp.exprs@.len(),
        local_value(inp, a, e, r),
        forall|i: int| 0 <= i < e ==> #[trigger] b[i] == a[i],
    ensures
        local_value(inp, b, e, r),
{
    assert forall|i: int| 0 <= i < e implies #[trigger] scalar_at(b, i) == scalar_at(a, i) by {
        assert(b[i] == a[i]);
    }
    let kids = children(inp.exprs@[e].kind);
    assert(forall|k: int| 0 <= k < kids.len() ==> #[trigger] kids[k] < e);
    match inp.exprs@[e].kind {
        ExprKind::Binary { lhs, rhs, .. } => {
            assert(kids[0] == lhs && kids[1] == rhs);
            assert(scalar_at(b, lhs as int) == scalar_at(a, lhs as int));
            assert(scalar_at(b, rhs as int) == scalar_at(a, rhs as int));
        },
        ExprKind::Unary { operand, .. } => {
            assert(kids[0] == operand);
            assert(scalar_at(b, operand as int) == scalar_at(a, operand as int));
        },
        ExprKind::If { cond, then_expr, else_expr } => {
            assert(kids[0] == cond && kids[1] == then_expr && kids[2] == else_expr);
            assert(scalar_at(b, cond as int) == scalar_at(a, cond as int));
            assert(scalar_at(b, then_expr as int) == scalar_at(a, then_expr as int));
            assert(scalar_at(b, else_expr as int) == scalar_at(a, else_expr as int));
        },
        ExprKind::Cast { expr } => {
            assert(kids[0] == expr);
            assert(scalar_at(b, expr as int) == scalar_at(a, expr as int));
        },
        ExprKind::Index { base, index } => {
            assert(kids[0] == base && kids[1] == index);
            assert(b[base as int] == a[base as int]);
            assert(scalar_at(b, index as int) == scalar_at(a, index as int));
        },
        ExprKind::ArrayList(items) => {
            assert forall|k: int| 0 <= k < items@.len() implies b[#[trigger] items@[k] as int] == a[items@[k] as int] by {
                assert(kids[k] == items@[k]);
            }
        },
        ExprKind::Call { callee, args } => {
            if args@.len() > 0 {
                assert(kids[1] == args@[0]);
                assert(scalar_at(b, args@[0] as int) == scalar_at(a, args@[0] as int));
            }
        },
        _ => {},
    }
}

impl ConstEvaluator {
    /// The tables are sized for `inp`.
    pub open spec fn wf(&self, inp: &ConstInput) -> bool {
        &&& self.expr_cache@.len() == inp.exprs@.len()
        &&& forall|e: int| 0 <= e < self.expr_cache@.len() && (#[trigger] self.expr_cache@[e]) is Some ==> literal_ok(
            *inp,
            e,
            self.expr_cache@[e].unwrap(),
        )
        &&& self.def_cache@.len() == inp.n()
        &&& self.in_progress@.len() <= inp.n()
        &&& forall|k: int| 0 <= k < self.in_progress@.len() ==> #[trigger] self.in_progress@[k] < inp.n()
    }

    pub open spec fn depth(&self) -> nat {
        self.in_progress@.len()
    }

    /// The findings only grow.
    pub open spec fn grows(&self, old: &ConstEvaluator) -> bool {
        &&& old.diagnostics@.len() <= self.diagnostics@.len()
        &&& forall|i: int| 0 <= i < old.diagnostics@.len() ==> #[trigger] self.diagnostics@[i] == old.diagnostics@[i]
        &&& self.expr_cache@.len() == old.expr_cache@.len()
        &&& forall|i: int|
            0 <= i < old.expr_cache@.len() && old.expr_cache@[i] is Some ==> #[trigger] self.expr_cache@[i]
                == old.expr_cache@[i]
        &&& self.def_cache@.len() == old.def_cache@.len()
        &&& forall|i: int|
            0 <= i < old.def_cache@.len() && old.def_cache@[i] is Some ==> #[trigger] self.def_cache@[i]
                == old.def_cache@[i]
    }

    /// A fresh evaluator for `inp`.
    pub fn new(inp: &ConstInput) -> (r: ConstEvaluator)
        requires
            inp.wf(),
        ensures
            r.wf(inp),
            r.depth() == 0,
            r.diagnostics@.len() == 0,
            forall|i: int| 0 <= i < r.expr_cache@.len() ==> #[trigger] r.expr_cache@[i] is None,
            forall|i: int| 0 <= i < r.def_cache@.len() ==> #[trigger] r.def_cache@[i] is None,
    {
        let mut expr_cache: Vec<Option<ConstValue>> = Vec::new();
        let mut i: usize = 0;
        while i < inp.exprs.len()
            invariant
                i <= inp.exprs@.len(),
                expr_cache@.len() == i,
                forall|j: int| 0 <= j < i ==> #[trigger] expr_cache@[j] is None,
            decreases inp.exprs@.len() - i,
        {
            expr_cache.push(None);
            i = i + 1;
        }
        let mut def_cache: Vec<Option<ConstValue>> = Vec::new();
        let mut d: usize = 0;
        while d < inp.kinds.len()
            invariant
                d <= inp.kinds@.len(),
                def_cache@.len() == d,
                forall|j: int| 0 <= j < d ==> #[trigger] def_cache@[j] is None,
                expr_cache@.len() == inp.exprs@.len(),
                forall|j: int| 0 <= j < expr_cache@.len() ==> #[trigger] expr_cache@[j] is None,
            decreases inp.kinds@.len() - d,
        {
            def_cache.push(None);
            d = d + 1;
        }
        ConstEvaluator { expr_cache, def_cache, in_progress: Vec::new(), diagnostics: Vec::new() }
    }

    fn report(&mut self, d: ConstDiag)
        ensures
            final(self).diagnostics@ == old(self).diagnostics@.push(d),
            final(self).expr_cache == old(self).expr_cache,
            final(self).def_cache == old(self).def_cache,
            final(self).in_progress@ == old(self).in_progress@,
    {
        self.diagnostics.push(d);
    }

    fn report_opt(&mut self, d: Option<ConstDiag>)
        ensures
            appended(final(self).diagnostics@, old(self).diagnostics@, d),
            final(self).expr_cache == old(self).expr_cache,
            final(self).def_cache == old(self).def_cache,
            final(self).in_progress@ == old(self).in_progress@,
    {
        match d {
            Some(x) => {
                self.diagnostics.push(x);
            },
            None => {},
        }
    }

    /// Evaluates every constant definition, in definition order.
    pub fn eval_all_consts(&mut self, inp: &ConstInput)
        requires
            inp.wf(),
            old(self).wf(inp),
            old(self).depth() == 0,
        ensures
            final(self).wf(inp),
            final(self).depth() == 0,
            final(self).grows(old(self)),
            forall|d: int| 0 <= d < inp.n() && (#[trigger] inp.const_inits@[d]) is Some ==> final(self).def_cache@[d] is Some,
    {
        let mut d: usize = 0;
        while d < inp.kinds.len()
            invariant
                inp.wf(),
                self.wf(inp),
                self.depth() == 0,
                self.grows(old(self)),
                d <= inp.kinds@.len(),
                forall|j: int| 0 <= j < d && (#[trigger] inp.const_inits@[j]) is Some ==> self.def_cache@[j] is Some,
            decreases inp.kinds@.len() - d,
        {
            if inp.const_inits[d].is_some() {
                let ghost t0 = *self;
                self.eval_const_def(inp, d as u32);
                assert(self.def_cache@[d as int] is Some) by {
                    assert(!t0.in_progress@.contains(d as u32));
                }
                assert forall|j: int| 0 <= j < d && (#[trigger] inp.const_inits@[j]) is Some implies self.def_cache@[j] is Some by {
                    assert(t0.def_cache@[j] is Some);
                }
                assert(self.grows(old(self))) by {
                    assert forall|i: int| 0 <= i < old(self).diagnostics@.len() implies #[trigger] self.diagnostics@[i]
                        == old(self).diagnostics@[i] by {
                        assert(t0.diagnostics@[i] == old(self).diagnostics@[i]);
                    }
                }
            }
            d = d + 1;
        }
    }

    /// The value of a constant definition: memoized; a constant met again
    /// while it is being evaluated is a cycle (E2020).
    pub fn eval_const_def(&mut self, inp: &ConstInput, def: u32) -> (r: ConstValue)
        requires
            inp.wf(),
            old(self).wf(inp),
            def < inp.n(),
        ensures
            final(self).wf(inp),
            final(self).depth() == old(self).depth(),
            final(self).grows(old(self)),
            def_outcome(*inp, *old(self), *final(self), def as int, r),
    {
        self.def_value(inp, def, Ghost((inp.n() - self.depth()) as nat), Ghost(0))
    }

    fn def_value(&mut self, inp: &ConstInput, def: u32, Ghost(fuel): Ghost<nat>, Ghost(bound): Ghost<int>) -> (r: ConstValue)
        requires
            inp.wf(),
            old(self).wf(inp),
            def < inp.n(),
            fuel == inp.n() - old(self).depth(),
        ensures
            final(self).wf(inp),
            final(self).in_progress@ == old(self).in_progress@,
            final(self).grows(old(self)),
            def_outcome(*inp, *old(self), *final(self), def as int, r),
        decreases fuel, bound, 0int,
    {
        match &self.def_cache[def as usize] {
            Some(v) => {
                return v.duplicate();
            },
            None => {},
        }
        let mut k: usize = 0;
        while k < self.in_progress.len()
            invariant
                inp.wf(),
                self.wf(inp),
                *self == *old(self),
                def < inp.n(),
                k <= self.in_progress@.len(),
                forall|j: int| 0 <= j < k ==> self.in_progress@[j] != def,
                old(self).def_cache@[def as int] is None,
            decreases self.in_progress@.len() - k,
        {
            if self.in_progress[k] == def {
                let span = inp.spans[def as usize];
                proof {
                    assert(old(self).in_progress@[k as int] == def);
                    assert(old(self).in_progress@.contains(def));
                }
                self.report(ConstDiag::Cycle { span, def });
                return ConstValue::Error;
            }
            k = k + 1;
        }
        assert(!old(self).in_progress@.contains(def));
        let init = match inp.const_inits[def as usize] {
            Some(e) => e,
            None => {
                return ConstValue::Error;
            },
        };
        if self.in_progress.len() >= inp.kinds.len() {
            return ConstValue::Error;
        }
        let ghost t0 = *self;
        self.in_progress.push(def);
        let r = self.eval(inp, init, Ghost((fuel - 1) as nat));
        let ghost t1 = *self;
        self.in_progress.pop();
        assert(self.in_progress@ =~= t0.in_progress@);
        let stored = r.duplicate();
        self.def_cache.set(def as usize, Some(stored));
        assert(self.grows(&t0)) by {
            assert forall|i: int| 0 <= i < t0.diagnostics@.len() implies #[trigger] self.diagnostics@[i]
                == t0.diagnostics@[i] by {
                assert(t1.diagnostics@[i] == t0.diagnostics@[i]);
            }
        }
        r
    }

    /// The value of an enum variant: its explicit discriminant, or its
    /// position. A discriminant that depends on itself is `Error`.
    fn variant_value(&mut self, inp: &ConstInput, def: u32, Ghost(fuel): Ghost<nat>, Ghost(bound): Ghost<int>) -> (r: ConstValue)
        requires
            inp.wf(),
            old(self).wf(inp),
            def < inp.n(),
            fuel == inp.n() - old(self).depth(),
        ensures
            final(self).wf(inp),
            final(self).in_progress@ == old(self).in_progress@,
            final(self).grows(old(self)),
            match inp.variant_info@[def as int] {
                None => r == ConstValue::Error,
                Some((index, None)) => r == (ConstValue::EnumVariant { def: DefId(def), discriminant: index as i128 }),
                Some((_, Some(e))) => r is Error || (r matches ConstValue::EnumVariant { def: d, .. } && d == DefId(def)),
            },
        decreases fuel, bound, 0int,
    {
        let (index, disc) = match inp.variant_info[def as usize] {
            Some(v) => v,
            None => {
                return ConstValue::Error;
            },
        };
        let discriminant: i128 = match disc {
            None => index as i128,
            Some(e) => {
                let mut k: usize = 0;
                while k < self.in_progress.len()
                    invariant
                        inp.wf(),
                        self.wf(inp),
                        *self == *old(self),
                        def < inp.n(),
                        inp.variant_info@[def as int] matches Some((_, Some(_))),
                        k <= self.in_progress@.len(),
                    decreases self.in_progress@.len() - k,
                {
                    if self.in_progress[k] == def {
                        return ConstValue::Error;
                    }
                    k = k + 1;
                }
                if self.in_progress.len() >= inp.kinds.len() {
                    return ConstValue::Error;
                }
                let ghost t0 = *self;
                self.in_progress.push(def);
                let v = self.eval(inp, e, Ghost((fuel - 1) as nat));
                let ghost t1 = *self;
                self.in_progress.pop();
                assert(self.in_progress@ =~= t0.in_progress@);
                assert(self.grows(&t0)) by {
                    assert forall|i: int| 0 <= i < t0.diagnostics@.len() implies #[trigger] self.diagnostics@[i]
                        == t0.diagnostics@[i] by {
                        assert(t1.diagnostics@[i] == t0.diagnostics@[i]);
                    }
                }
                match v {
                    ConstValue::Int(n) => n,
                    _ => {
                        return ConstValue::Error;
                    },
                }
            },
        };
        ConstValue::EnumVariant { def: DefId(def), discriminant }
    }

    /// The value of expression `e`, memoized.
    pub fn const_eval(&mut self, inp: &ConstInput, e: usize) -> (r: ConstValue)
        requires
            inp.wf(),
            old(self).wf(inp),
            e < inp.exprs@.len(),
        ensures
            final(self).wf(inp),
            final(self).depth() == old(self).depth(),
            final(self).grows(old(self)),
            old(self).expr_cache@[e as int] is Some ==> final(self).diagnostics == old(self).diagnostics,
            holds_value(final(self).expr_cache@, e as int, r),
            old(self).expr_cache@[e as int] is None ==> local_value(*inp, final(self).expr_cache@, e as int, r),
            final(self).expr_cache@[e as int] matches Some(c) && value_eq(r, c),
            old(self).expr_cache@[e as int] matches Some(c) ==> value_eq(r, c),
            old(self).expr_cache@[e as int] is None ==> local_finding(*inp, final(self).expr_cache@, e as int, final(self).diagnostics@),
            literal_ok(*inp, e as int, r),
            quiet(*inp, e as int) ==> final(self).diagnostics == old(self).diagnostics,
            old(self).expr_cache@[e as int] is None && ops_quiet(*inp, e as int) ==> appended(
                final(self).diagnostics@,
                old(self).diagnostics@,
                step_finding(*inp, final(self).expr_cache@, e as int),
            ),
            old(self).expr_cache@[e as int] is None && (inp.exprs@[e as int].kind matches ExprKind::Path { def: Some(d), .. }
                && inp.kinds@[d as int] == DefKind::Const) ==> const_ref_outcome(*inp, *old(self), *final(self),
                inp.exprs@[e as int].kind->Path_def.unwrap() as int, r),
    {
        self.eval(inp, e, Ghost((inp.n() - self.depth()) as nat))
    }

    fn eval(&mut self, inp: &ConstInput, e: usize, Ghost(fuel): Ghost<nat>) -> (r: ConstValue)
        requires
            inp.wf(),
            old(self).wf(inp),
            e < inp.exprs@.len(),
            fuel == inp.n() - old(self).depth(),
        ensures
            final(self).wf(inp),
            final(self).in_progress@ == old(self).in_progress@,
            final(self).grows(old(self)),
            old(self).expr_cache@[e as int] is Some ==> final(self).diagnostics == old(self).diagnostics,
            holds_value(final(self).expr_cache@, e as int, r),
            old(self).expr_cache@[e as int] is None ==> local_value(*inp, final(self).expr_cache@, e as int, r),
            final(self).expr_cache@[e as int] matches Some(c) && value_eq(r, c),
            old(self).expr_cache@[e as int] matches Some(c) ==> value_eq(r, c),
            old(self).expr_cache@[e as int] is None ==> local_finding(*inp, final(self).expr_cache@, e as int, final(self).diagnostics@),
            literal_ok(*inp, e as int, r),
            quiet(*inp, e as int) ==> final(self).diagnostics == old(self).diagnostics,
            old(self).expr_cache@[e as int] is None && ops_quiet(*inp, e as int) ==> appended(
                final(self).diagnostics@,
                old(self).diagnostics@,
                step_finding(*inp, final(self).expr_cache@, e as int),
            ),
            old(self).expr_cache@[e as int] is None && (inp.exprs@[e as int].kind matches ExprKind::Path { def: Some(d), .. }
                && inp.kinds@[d as int] == DefKind::Const) ==> const_ref_outcome(*inp, *old(self), *final(self),
                inp.exprs@[e as int].kind->Path_def.unwrap() as int, r),
        decreases fuel, e, 2int,
    {
        match &self.expr_cache[e] {
            Some(v) => {
                return v.duplicate();
            },
            None => {},
        }
        let ghost t0 = *self;
        let r = self.eval_uncached(inp, e, Ghost(fuel));
        let ghost t1 = *self;
        let stored = r.duplicate();
        self.expr_cache.set(e, Some(stored));
        proof {
            law_value_eq_symmetric_transitive(stored, r, r);
            let kids = children(inp.exprs@[e as int].kind);
            assert(forall|k: int| 0 <= k < kids.len() ==> #[trigger] kids[k] < e);
            assert forall|i: int| 0 <= i < e implies #[trigger] self.expr_cache@[i] == t1.expr_cache@[i] by {
            }
            lemma_local_value_frame(*inp, t1.expr_cache@, self.expr_cache@, e as int, r);
            lemma_step_finding_frame(*inp, t1.expr_cache@, self.expr_cache@, e as int);
            match inp.exprs@[e as int].kind {
                ExprKind::Index { base, index } => {
                    assert(kids[0] == base && kids[1] == index);
                    assert(self.expr_cache@[base as int] == t1.expr_cache@[base as int]);
                    assert(self.expr_cache@[index as int] == t1.expr_cache@[index as int]);
                },
                ExprKind::If { cond, .. } => {
                    assert(kids[0] == cond);
                    assert(self.expr_cache@[cond as int] == t1.expr_cache@[cond as int]);
                },
                ExprKind::Call { callee, args } => {
                    if args@.len() > 0 {
                        assert(kids[1] == args@[0]);
                        assert(self.expr_cache@[args@[0] as int] == t1.expr_cache@[args@[0] as int]);
                    }
                },
                _ => {},
            }
        }
        assert(self.grows(&t0)) by {
            assert forall|i: int| 0 <= i < t0.diagnostics@.len() implies #[trigger] self.diagnostics@[i]
                == t0.diagnostics@[i] by {
                assert(t1.diagnostics@[i] == t0.diagnostics@[i]);
            }
        }
        r
    }

    fn eval_uncached(&mut self, inp: &ConstInput, e: usize, Ghost(fuel): Ghost<nat>) -> (r: ConstValue)
        requires
            inp.wf(),
            old(self).wf(inp),
            e < inp.exprs@.len(),
            fuel == inp.n() - old(self).depth(),
        ensures
            final(self).wf(inp),
            final(self).in_progress@ == old(self).in_progress@,
            final(self).grows(old(self)),
            local_value(*inp, final(self).expr_cache@, e as int, r),
            local_finding(*inp, final(self).expr_cache@, e as int, final(self).diagnostics@),
            quiet(*inp, e as int) ==> final(self).diagnostics == old(self).diagnostics,
            ops_quiet(*inp, e as int) ==> appended(final(self).diagnostics@, old(self).diagnostics@, step_finding(
                *inp,
                final(self).expr_cache@,
                e as int,
            )),
            (inp.exprs@[e as int].kind matches ExprKind::Path { def: Some(d), .. } && inp.kinds@[d as int] == DefKind::Const)
                ==> const_ref_outcome(*inp, *old(self), *final(self), inp.exprs@[e as int].kind->Path_def.unwrap() as int, r),
        decreases fuel, e, 1int,
    {
        let ghost kids = children(inp.exprs@[e as int].kind);
        assert(forall|k: int| 0 <= k < kids.len() ==> #[trigger] kids[k] < e);
        let span = inp.exprs[e].span;
        let ghost s0 = *self;
        let r = match &inp.exprs[e].kind {
            ExprKind::IntLit(v) => {
                #[verifier::truncate]
                let x = *v as i128;
                ConstValue::Int(x)
            },
            ExprKind::BoolLit(b) => ConstValue::Bool(*b),
            ExprKind::Path { def, .. } => match def {
                None => ConstValue::Error,
                Some(d) => match inp.kinds[*d as usize] {
                    DefKind::Const => self.def_value(inp, *d, Ghost(fuel), Ghost(e as int)),
                    DefKind::EnumVariant { .. } => self.variant_value(inp, *d, Ghost(fuel), Ghost(e as int)),
                    DefKind::Error => ConstValue::Error,
                    _ => {
                        self.report(ConstDiag::NotConstant { span });
                        ConstValue::Error
                    },
                },
            },
            ExprKind::Binary { op, lhs, rhs } => {
                assert(kids[0] == *lhs && kids[1] == *rhs);
                let l = self.eval(inp, *lhs, Ghost(fuel));
                let ghost t1 = *self;
                let rv = self.eval(inp, *rhs, Ghost(fuel));
                let ghost t2 = *self;
                let (v, d) = eval_binop(*op, &l, &rv, span);
                self.report_opt(d);
                proof {
                    assert forall|i: int| 0 <= i < s0.diagnostics@.len() implies #[trigger] self.diagnostics@[i]
                        == s0.diagnostics@[i] by {
                        assert(t1.diagnostics@[i] == s0.diagnostics@[i]);
                        assert(t2.diagnostics@[i] == t1.diagnostics@[i]);
                    }
                }
                v
            },
            ExprKind::Unary { op, operand } => {
                assert(kids[0] == *operand);
                let x = self.eval(inp, *operand, Ghost(fuel));
                let ghost t1 = *self;
                let (v, d) = eval_unop(*op, &x, span);
                self.report_opt(d);
                proof {
                    assert forall|i: int| 0 <= i < s0.diagnostics@.len() implies #[trigger] self.diagnostics@[i]
                        == s0.diagnostics@[i] by {
                        assert(t1.diagnostics@[i] == s0.diagnostics@[i]);
                    }
                }
                v
            },
            ExprKind::If { cond, then_expr, else_expr } => {
                assert(kids[0] == *cond && kids[1] == *then_expr && kids[2] == *else_expr);
                let c = self.eval(inp, *cond, Ghost(fuel));
                let ghost t1 = *self;
                let v = match c {
                    ConstValue::Bool(true) => self.eval(inp, *then_expr, Ghost(fuel)),
                    ConstValue::Bool(false) => self.eval(inp, *else_expr, Ghost(fuel)),
                    ConstValue::Error => ConstValue::Error,
                    _ => {
                        self.report(ConstDiag::TypeMismatch { span });
                        ConstValue::Error
                    },
                };
                proof {
                    assert forall|i: int| 0 <= i < s0.diagnostics@.len() implies #[trigger] self.diagnostics@[i]
                        == s0.diagnostics@[i] by {
                        assert(t1.diagnostics@[i] == s0.diagnostics@[i]);
                    }
                }
                v
            },
            ExprKind::Cast { expr: inner } => {
                assert(kids[0] == *inner);
                self.eval(inp, *inner, Ghost(fuel))
            },
            ExprKind::Call { callee, args } => {
                assert(kids[0] == *callee);
                assert forall|k: int| 0 <= k < args@.len() implies #[trigger] args@[k] < e by {
                    assert(kids[k + 1] == args@[k]);
                }
                self.eval_builtin_call(inp, *callee, args, span, Ghost(fuel), Ghost(e as int))
            },
            ExprKind::ArrayList(items) => {
                assert forall|k: int| 0 <= k < items@.len() implies #[trigger] items@[k] < e by {
                    assert(kids[k] == items@[k]);
                }
                match self.eval_list(inp, items, Ghost(fuel), Ghost(e as int)) {
                    Some(vals) => ConstValue::Array(vals),
                    None => ConstValue::Error,
                }
            },
            ExprKind::Tuple(items) => {
                assert forall|k: int| 0 <= k < items@.len() implies #[trigger] items@[k] < e by {
                    assert(kids[k] == items@[k]);
                }
                match self.eval_list(inp, items, Ghost(fuel), Ghost(e as int)) {
                    Some(vals) => ConstValue::Tuple(vals),
                    None => ConstValue::Error,
                }
            },
            ExprKind::ArrayRepeat { value, count } => {
                assert(kids[0] == *value && kids[1] == *count);
                let v = self.eval(inp, *value, Ghost(fuel));
                let ghost t1 = *self;
                let c = self.eval(inp, *count, Ghost(fuel));
                let ghost t2 = *self;
                let res = match c {
                    ConstValue::Int(n) => {
                        if n < 0 || n > MAX_ARRAY_LEN as i128 {
                            self.report(ConstDiag::ArrayLength { span, len: n });
                            ConstValue::Error
                        } else {
                            let mut vals: Vec<ConstValue> = Vec::new();
                            let mut k: i128 = 0;
                            while k < n
                                invariant
                                    0 <= k <= n,
                                decreases n - k,
                            {
                                vals.push(v.duplicate());
                                k = k + 1;
                            }
                            ConstValue::Array(vals)
                        }
                    },
                    _ => ConstValue::Error,
                };
                proof {
                    assert forall|i: int| 0 <= i < s0.diagnostics@.len() implies #[trigger] self.diagnostics@[i]
                        == s0.diagnostics@[i] by {
                        assert(t1.diagnostics@[i] == s0.diagnostics@[i]);
                        assert(t2.diagnostics@[i] == t1.diagnostics@[i]);
                    }
                }
                res
            },
            ExprKind::Index { base, index } => {
                assert(kids[0] == *base && kids[1] == *index);
                let arr = self.eval(inp, *base, Ghost(fuel));
                let ghost t1 = *self;
                let idx = self.eval(inp, *index, Ghost(fuel));
                let ghost t2 = *self;
                proof {
                    assert(t2.expr_cache@[*base as int] == t1.expr_cache@[*base as int]);
                }
                let res = match (arr, idx) {
                    (ConstValue::Error, _) => ConstValue::Error,
                    (_, ConstValue::Error) => ConstValue::Error,
                    (ConstValue::Array(items), ConstValue::Int(i)) => {
                        if 0 <= i && i < items.len() as i128 {
                            let x = items[i as usize].duplicate();
                            proof {
                                let c = t2.expr_cache@[*base as int].unwrap();
                                if let ConstValue::Array(xs) = c {
                                    lemma_values_eq_at(items, xs, items@.len() as nat, i as int);
                                    law_value_eq_symmetric_transitive(x, items@[i as int], xs@[i as int]);
                                }
                            }
                            x
                        } else {
                            self.report(ConstDiag::IndexOutOfRange { span, index: i, len: items.len() as u64 });
                            ConstValue::Error
                        }
                    },
                    _ => {
                        self.report(ConstDiag::NotConstant { span });
                        ConstValue::Error
                    },
                };
                proof {
                    assert forall|i: int| 0 <= i < s0.diagnostics@.len() implies #[trigger] self.diagnostics@[i]
                        == s0.diagnostics@[i] by {
                        assert(t1.diagnostics@[i] == s0.diagnostics@[i]);
                        assert(t2.diagnostics@[i] == t1.diagnostics@[i]);
                    }
                }
                res
            },
            ExprKind::Error => ConstValue::Error,
            _ => {
                self.report(ConstDiag::NotConstant { span });
                ConstValue::Error
            },
        };
        r
    }

    /// The values of a list, or `None` at the first `Error`.
    fn eval_list(&mut self, inp: &ConstInput, items: &Vec<usize>, Ghost(fuel): Ghost<nat>, Ghost(bound): Ghost<int>) -> (r: Option<Vec<ConstValue>>)
        requires
            inp.wf(),
            old(self).wf(inp),
            forall|k: int| 0 <= k < items@.len() ==> #[trigger] items@[k] < bound,
            bound <= inp.exprs@.len(),
            fuel == inp.n() - old(self).depth(),
        ensures
            final(self).wf(inp),
            final(self).in_progress@ == old(self).in_progress@,
            final(self).grows(old(self)),
            r matches Some(vals) ==> vals@.len() == items@.len() && forall|k: int|
                0 <= k < items@.len() ==> holds_value(final(self).expr_cache@, items@[k] as int, #[trigger] vals@[k])
                    && !(vals@[k] is Error),
            r is None ==> exists|k: int|
                0 <= k < items@.len() && final(self).expr_cache@[#[trigger] items@[k] as int] == Some(ConstValue::Error),
            (forall|k: int| 0 <= k < items@.len() ==> quiet(*inp, #[trigger] items@[k] as int)) ==> final(self).diagnostics
                == old(self).diagnostics,
        decreases fuel, bound, 0int,
    {
        let mut vals: Vec<ConstValue> = Vec::new();
        let mut k: usize = 0;
        while k < items.len()
            invariant
                inp.wf(),
                self.wf(inp),
                self.in_progress@ == old(self).in_progress@,
                self.grows(old(self)),
                forall|j: int| 0 <= j < items@.len() ==> #[trigger] items@[j] < bound,
                bound <= inp.exprs@.len(),
                fuel == inp.n() - old(self).depth(),
                k <= items@.len(),
                vals@.len() == k,
                forall|j: int|
                    0 <= j < k ==> holds_value(self.expr_cache@, items@[j] as int, #[trigger] vals@[j]) && !(vals@[j] is Error),
                (forall|j: int| 0 <= j < items@.len() ==> quiet(*inp, #[trigger] items@[j] as int)) ==> self.diagnostics
                    == old(self).diagnostics,
            decreases items@.len() - k,
        {
            let ghost t0 = *self;
            let v = self.eval(inp, items[k], Ghost(fuel));
            proof {
                assert forall|j: int| 0 <= j < k implies holds_value(self.expr_cache@, items@[j] as int, #[trigger] vals@[j]) by {
                    assert(holds_value(t0.expr_cache@, items@[j] as int, vals@[j]));
                    assert(self.expr_cache@[items@[j] as int] == t0.expr_cache@[items@[j] as int]);
                }
            }
            proof {
                assert forall|i: int| 0 <= i < old(self).diagnostics@.len() implies #[trigger] self.diagnostics@[i]
                    == old(self).diagnostics@[i] by {
                    assert(t0.diagnostics@[i] == old(self).diagnostics@[i]);
                }
            }
            match v {
                ConstValue::Error => {
                    assert(self.expr_cache@[items@[k as int] as int] == Some(ConstValue::Error));
                    return None;
                },
                _ => {
                    let ghost v0 = vals@;
                    vals.push(v);
                    proof {
                        assert forall|j: int| 0 <= j < k + 1 implies holds_value(self.expr_cache@, items@[j] as int, #[trigger] vals@[j])
                            && !(vals@[j] is Error) by {
                            if j < k {
                                assert(vals@[j] == v0[j]);
                            }
                        }
                    }
                },
            }
            k = k + 1;
        }
        Some(vals)
    }

    /// A call at compile time: `clog2(N)` with one positive argument;
    /// `zext`, `sext`, `trunc` keep their argument's value; every other
    /// call is a run-time value (E2021).
    fn eval_builtin_call(
        &mut self,
        inp: &ConstInput,
        callee: usize,
        args: &Vec<usize>,
        span: Span,
        Ghost(fuel): Ghost<nat>,
        Ghost(bound): Ghost<int>,
    ) -> (r: ConstValue)
        requires
            inp.wf(),
            old(self).wf(inp),
            callee < inp.exprs@.len(),
            forall|k: int| 0 <= k < args@.len() ==> #[trigger] args@[k] < bound,
            bound <= inp.exprs@.len(),
            fuel == inp.n() - old(self).depth(),
        ensures
            final(self).wf(inp),
            final(self).in_progress@ == old(self).in_progress@,
            final(self).grows(old(self)),
            match callee_builtin(*inp, callee as int) {
                Some(BuiltinKind::Clog2) => if args@.len() != 1 {
                    r == ConstValue::Error && final(self).diagnostics@ == old(self).diagnostics@.push(
                        ConstDiag::Clog2Arity { span, count: args@.len() as u64 },
                    )
                } else {
                    scalar_at(final(self).expr_cache@, args@[0] as int) matches Some(ConstValue::Int(n)) ==> if n <= 0 {
                        r == ConstValue::Error && final(self).diagnostics@.len() > 0 && final(self).diagnostics@.last()
                            == ConstDiag::Clog2NonPositive { span, value: n }
                    } else {
                        r matches ConstValue::Int(c) && 0 <= c && clog2_ok(n as int, c as u128)
                    }
                },
                Some(BuiltinKind::Zext) | Some(BuiltinKind::Sext) | Some(BuiltinKind::Trunc) => if args@.len() != 1 {
                    r == ConstValue::Error && final(self).diagnostics@ == old(self).diagnostics@.push(
                        ConstDiag::NotConstant { span },
                    )
                } else {
                    holds_value(final(self).expr_cache@, args@[0] as int, r)
                },
                _ => r == ConstValue::Error && final(self).diagnostics@ == old(self).diagnostics@.push(
                    ConstDiag::NotConstant { span },
                ),
            },
            (forall|k: int| 0 <= k < args@.len() ==> quiet(*inp, #[trigger] args@[k] as int)) ==> appended(
                final(self).diagnostics@,
                old(self).diagnostics@,
                call_finding(*inp, final(self).expr_cache@, callee as int, args@, span),
            ),
        decreases fuel, bound, 0int,
    {
        let def = match &inp.exprs[callee].kind {
            ExprKind::Path { def: Some(d), .. } => *d,
            _ => {
                self.report(ConstDiag::NotConstant { span });
                return ConstValue::Error;
            },
        };
        let kind = match inp.kinds[def as usize] {
            DefKind::Builtin(k) => k,
            _ => {
                self.report(ConstDiag::NotConstant { span });
                return ConstValue::Error;
            },
        };
        match kind {
            BuiltinKind::Clog2 => {
                if args.len() != 1 {
                    self.report(ConstDiag::Clog2Arity { span, count: args.len() as u64 });
                    return ConstValue::Error;
                }
                let ghost t0 = *self;
                let v = self.eval(inp, args[0], Ghost(fuel));
                match v {
                    ConstValue::Int(n) => {
                        if n <= 0 {
                            self.report(ConstDiag::Clog2NonPositive { span, value: n });
                            proof {
                                assert forall|i: int| 0 <= i < old(self).diagnostics@.len() implies #[trigger] self.diagnostics@[i]
                                    == old(self).diagnostics@[i] by {
                                    assert(t0.diagnostics@[i] == old(self).diagnostics@[i]);
                                }
                            }
                            return ConstValue::Error;
                        }
                        ConstValue::Int(clog2(n) as i128)
                    },
                    _ => ConstValue::Error,
                }
            },
            BuiltinKind::Zext | BuiltinKind::Sext | BuiltinKind::Trunc => {
                if args.len() != 1 {
                    self.report(ConstDiag::NotConstant { span });
                    return ConstValue::Error;
                }
                self.eval(inp, args[0], Ghost(fuel))
            },
            _ => {
                self.report(ConstDiag::NotConstant { span });
                ConstValue::Error
            },
        }
    }

    /// The width of `bits<N>`.
    pub fn eval_type_arg(&mut self, inp: &ConstInput, e: usize) -> (r: Option<u32>)
        requires
            inp.wf(),
            old(self).wf(inp),
            e < inp.exprs@.len(),
        ensures
            final(self).wf(inp),
            final(self).depth() == old(self).depth(),
            final(self).grows(old(self)),
            final(self).expr_cache@[e as int] is Some,
            scalar_at(final(self).expr_cache@, e as int) matches Some(v) ==> r == type_arg_spec(
                v,
                inp.exprs@[e as int].span,
            ).0,
            final(self).expr_cache@[e as int] matches Some(c) && r == type_arg_spec(c, inp.exprs@[e as int].span).0
                && (type_arg_spec(c, inp.exprs@[e as int].span).1 matches Some(d) ==> final(self).diagnostics@.len() > 0
                && final(self).diagnostics@.last() == d),
            old(self).expr_cache@[e as int] matches Some(c) ==> appended(
                final(self).diagnostics@,
                old(self).diagnostics@,
                type_arg_spec(c, inp.exprs@[e as int].span).1,
            ),
            quiet(*inp, e as int) ==> appended(
                final(self).diagnostics@,
                old(self).diagnostics@,
                type_arg_spec(final(self).expr_cache@[e as int].unwrap(), inp.exprs@[e as int].span).1,
            ),
    {
        let span = inp.exprs[e].span;
        let v = self.const_eval(inp, e);
        let ghost t0 = *self;
        let (w, d) = type_arg_of(&v, span);
        proof {
            let c = self.expr_cache@[e as int].unwrap();
            assert(type_arg_spec(v, span) == type_arg_spec(c, span));
        }
        self.report_opt(d);
        proof {
            assert forall|i: int| 0 <= i < old(self).diagnostics@.len() implies #[trigger] self.diagnostics@[i]
                == old(self).diagnostics@[i] by {
                assert(t0.diagnostics@[i] == old(self).diagnostics@[i]);
            }
        }
        w
    }

    fn check_type(&mut self, inp: &ConstInput, t: usize)
        requires
            inp.wf(),
            old(self).wf(inp),
            t < inp.types@.len(),
        ensures
            final(self).wf(inp),
            final(self).depth() == old(self).depth(),
            final(self).grows(old(self)),
            type_evaluated(*inp, final(self).expr_cache@, t as int),
        decreases t,
    {
        match &inp.types[t] {
            TypeRef::Bits(e) => {
                self.eval_type_arg(inp, *e);
                assert(self.expr_cache@[*e as int] is Some);
            },
            TypeRef::Array { elem, len } => {
                self.check_type(inp, *elem);
                let ghost t0 = *self;
                let v = self.const_eval(inp, *len);
                let ghost t1 = *self;
                proof {
                    lemma_type_evaluated_mono(*inp, t0.expr_cache@, t1.expr_cache@, *elem as int);
                }
                match v {
                    ConstValue::Int(n) => {
                        if n < 0 || n > MAX_ARRAY_LEN as i128 {
                            let span = inp.exprs[*len].span;
                            self.report(ConstDiag::ArrayLength { span, len: n });
                        }
                    },
                    _ => {},
                }
                proof {
                    assert forall|i: int| 0 <= i < old(self).diagnostics@.len() implies #[trigger] self.diagnostics@[i]
                        == old(self).diagnostics@[i] by {
                        assert(t0.diagnostics@[i] == old(self).diagnostics@[i]);
                        assert(t1.diagnostics@[i] == t0.diagnostics@[i]);
                    }
                    assert(self.expr_cache == t1.expr_cache);
                }
            },
            TypeRef::Tuple(items) => {
                assert(forall|j: int| 0 <= j < items@.len() ==> #[trigger] items@[j] < t);
                let mut k: usize = 0;
                while k < items.len()
                    invariant
                        inp.wf(),
                        self.wf(inp),
                        self.depth() == old(self).depth(),
                        self.grows(old(self)),
                        t < inp.types@.len(),
                        forall|j: int| 0 <= j < items@.len() ==> #[trigger] items@[j] < t,
                        k <= items@.len(),
                        forall|j: int| 0 <= j < k ==> type_evaluated(*inp, self.expr_cache@, #[trigger] items@[j] as int),
                    decreases items@.len() - k,
                {
                    let ghost t0 = *self;
                    self.check_type(inp, items[k]);
                    proof {
                        assert forall|j: int| 0 <= j < k + 1 implies type_evaluated(*inp, self.expr_cache@, #[trigger] items@[j] as int) by {
                            if j < k {
                                lemma_type_evaluated_mono(*inp, t0.expr_cache@, self.expr_cache@, items@[j] as int);
                            }
                        }
                        assert forall|i: int| 0 <= i < old(self).diagnostics@.len() implies #[trigger] self.diagnostics@[i]
                            == old(self).diagnostics@[i] by {
                            assert(t0.diagnostics@[i] == old(self).diagnostics@[i]);
                        }
                    }
                    k = k + 1;
                }
            },
            TypeRef::Other => {},
        }
    }

    /// Checks the widths and lengths of every type position (E2021,
    /// E2025, E2026).
    pub fn check_type_positions(&mut self, inp: &ConstInput)
        requires
            inp.wf(),
            old(self).wf(inp),
        ensures
            final(self).wf(inp),
            final(self).depth() == old(self).depth(),
            final(self).grows(old(self)),
            forall|k: int|
                0 <= k < inp.type_positions@.len() ==> type_evaluated(
                    *inp,
                    final(self).expr_cache@,
                    #[trigger] inp.type_positions@[k] as int,
                ),
    {
        let mut k: usize = 0;
        while k < inp.type_positions.len()
            invariant
                inp.wf(),
                self.wf(inp),
                self.depth() == old(self).depth(),
                self.grows(old(self)),
                k <= inp.type_positions@.len(),
                forall|j: int|
                    0 <= j < k ==> type_evaluated(*inp, self.expr_cache@, #[trigger] inp.type_positions@[j] as int),
            decreases inp.type_positions@.len() - k,
        {
            let ghost t0 = *self;
            self.check_type(inp, inp.type_positions[k]);
            proof {
                assert forall|j: int| 0 <= j < k + 1 implies type_evaluated(
                    *inp,
                    self.expr_cache@,
                    #[trigger] inp.type_positions@[j] as int,
                ) by {
                    if j < k {
                        lemma_type_evaluated_mono(*inp, t0.expr_cache@, self.expr_cache@, inp.type_positions@[j] as int);
                    }
                }
                assert forall|i: int| 0 <= i < old(self).diagnostics@.len() implies #[trigger] self.diagnostics@[i]
                    == old(self).diagnostics@[i] by {
                    assert(t0.diagnostics@[i] == old(self).diagnostics@[i]);
                }
            }
            k = k + 1;
        }
    }
}

} // verus!
