use volt_hir::ast::{BinOp, Expr, ExprKind, Span, UnOp};
use volt_hir::consteval::{
    clog2, eval_binop, eval_unop, type_arg_of, ConstDiag, ConstEvaluator, ConstInput, ConstValue, TypeRef,
};
use volt_hir::defs::{DefId, DefKind};
use volt_hir::names::BuiltinKind;

fn sp(n: u32) -> Span {
    Span { file: 0, start: n, end: n + 1 }
}

fn input() -> ConstInput {
    ConstInput {
        kinds: Vec::new(),
        names: Vec::new(),
        spans: Vec::new(),
        exprs: Vec::new(),
        const_inits: Vec::new(),
        variant_info: Vec::new(),
        types: Vec::new(),
        type_positions: Vec::new(),
    }
}

fn def(inp: &mut ConstInput, name: &str, kind: DefKind) -> u32 {
    inp.kinds.push(kind);
    inp.names.push(name.to_string());
    inp.spans.push(sp(1000 + inp.kinds.len() as u32));
    inp.const_inits.push(None);
    inp.variant_info.push(None);
    (inp.kinds.len() - 1) as u32
}

fn expr(inp: &mut ConstInput, kind: ExprKind) -> usize {
    let n = inp.exprs.len() as u32;
    inp.exprs.push(Expr { kind, span: sp(n * 10) });
    inp.exprs.len() - 1
}

fn path(inp: &mut ConstInput, name: &str, d: u32) -> usize {
    expr(inp, ExprKind::Path { segments: vec![name.to_string()], def: Some(d) })
}

#[test]
fn integer_overflow_is_an_error_not_wrapping() {
    let s = sp(0);
    let (v, d) = eval_binop(BinOp::Add, &ConstValue::Int(i128::MAX), &ConstValue::Int(1), s);
    assert_eq!(v, ConstValue::Error);
    assert_eq!(d, Some(ConstDiag::Overflow { span: s }));
    assert_eq!(d.unwrap().code(), "E2022");
    let (v, d) = eval_binop(BinOp::Mul, &ConstValue::Int(6), &ConstValue::Int(7), s);
    assert_eq!((v, d), (ConstValue::Int(42), None));
    let (v, _) = eval_unop(UnOp::Neg, &ConstValue::Int(i128::MIN), s);
    assert_eq!(v, ConstValue::Error);
}

#[test]
fn division_by_zero_and_wide_shifts_are_reported() {
    let s = sp(0);
    let (v, d) = eval_binop(BinOp::Div, &ConstValue::Int(1), &ConstValue::Int(0), s);
    assert_eq!(v, ConstValue::Error);
    assert_eq!(d.unwrap().code(), "E2023");
    let (_, d) = eval_binop(BinOp::Shl, &ConstValue::Int(1), &ConstValue::Int(128), s);
    assert_eq!(d, Some(ConstDiag::ShiftOverflow { span: s, amount: 128 }));
    let (v, d) = eval_binop(BinOp::Shl, &ConstValue::Int(1), &ConstValue::Int(4), s);
    assert_eq!((v, d), (ConstValue::Int(16), None));
    let (v, _) = eval_binop(BinOp::Rem, &ConstValue::Int(-7), &ConstValue::Int(2), s);
    assert_eq!(v, ConstValue::Int(-1));
}

#[test]
fn booleans_take_logical_operators_only() {
    let s = sp(0);
    let (v, d) = eval_binop(BinOp::And, &ConstValue::Bool(true), &ConstValue::Bool(false), s);
    assert_eq!((v, d), (ConstValue::Bool(false), None));
    let (v, d) = eval_binop(BinOp::Add, &ConstValue::Bool(true), &ConstValue::Bool(false), s);
    assert_eq!(v, ConstValue::Error);
    assert_eq!(d.unwrap().code(), "E2003");
    let (v, d) = eval_binop(BinOp::Add, &ConstValue::Error, &ConstValue::Int(1), s);
    assert_eq!((v, d), (ConstValue::Error, None));
}

#[test]
fn clog2_counts_the_bits_of_n_values() {
    assert_eq!(clog2(1), 0);
    assert_eq!(clog2(2), 1);
    assert_eq!(clog2(3), 2);
    assert_eq!(clog2(8), 3);
    assert_eq!(clog2(9), 4);
    assert_eq!(clog2(i128::MAX), 127);
}

#[test]
fn widths_must_lie_between_one_and_the_limit() {
    let s = sp(0);
    assert_eq!(type_arg_of(&ConstValue::Int(8), s), (Some(8), None));
    assert_eq!(type_arg_of(&ConstValue::Int(0), s), (None, Some(ConstDiag::BadWidth { span: s, width: 0 })));
    assert_eq!(type_arg_of(&ConstValue::Error, s), (Some(1), None));
    assert_eq!(type_arg_of(&ConstValue::Bool(true), s), (None, Some(ConstDiag::NotConstant { span: s })));
}

#[test]
fn constants_evaluate_through_definitions_and_builtins() {
    let mut inp = input();
    let clog = def(&mut inp, "clog2", DefKind::Builtin(BuiltinKind::Clog2));
    let depth = def(&mut inp, "DEPTH", DefKind::Const);
    let aw = def(&mut inp, "AW", DefKind::Const);
    let sixteen = expr(&mut inp, ExprKind::IntLit(16));
    inp.const_inits[depth as usize] = Some(sixteen);
    let callee = path(&mut inp, "clog2", clog);
    let arg = path(&mut inp, "DEPTH", depth);
    let call = expr(&mut inp, ExprKind::Call { callee, args: vec![arg] });
    inp.const_inits[aw as usize] = Some(call);
    let aw_use = path(&mut inp, "AW", aw);
    let one = expr(&mut inp, ExprKind::IntLit(1));
    let sum = expr(&mut inp, ExprKind::Binary { op: BinOp::Add, lhs: aw_use, rhs: one });
    let mut ev = ConstEvaluator::new(&inp);
    assert_eq!(ev.const_eval(&inp, sum), ConstValue::Int(5));
    ev.eval_all_consts(&inp);
    assert!(ev.diagnostics.is_empty());
}

#[test]
fn a_constant_that_depends_on_itself_is_e2020() {
    let mut inp = input();
    let a = def(&mut inp, "A", DefKind::Const);
    let b = def(&mut inp, "B", DefKind::Const);
    let b_use = path(&mut inp, "B", b);
    inp.const_inits[a as usize] = Some(b_use);
    let a_use = path(&mut inp, "A", a);
    inp.const_inits[b as usize] = Some(a_use);
    let mut ev = ConstEvaluator::new(&inp);
    assert_eq!(ev.eval_const_def(&inp, a), ConstValue::Error);
    let codes: Vec<&str> = ev.diagnostics.iter().map(|d| d.code()).collect();
    assert_eq!(codes, ["E2020"]);
}

#[test]
fn runtime_values_and_bad_indices_are_reported() {
    let mut inp = input();
    let port = def(&mut inp, "a", DefKind::Port { dir: volt_hir::defs::PortDir::In });
    let p = path(&mut inp, "a", port);
    let one = expr(&mut inp, ExprKind::IntLit(1));
    let two = expr(&mut inp, ExprKind::IntLit(2));
    let arr = expr(&mut inp, ExprKind::ArrayList(vec![one, two]));
    let five = expr(&mut inp, ExprKind::IntLit(5));
    let idx = expr(&mut inp, ExprKind::Index { base: arr, index: five });
    let zero = expr(&mut inp, ExprKind::IntLit(0));
    let ok = expr(&mut inp, ExprKind::Index { base: arr, index: zero });
    let rep_count = expr(&mut inp, ExprKind::IntLit(3));
    let rep = expr(&mut inp, ExprKind::ArrayRepeat { value: one, count: rep_count });
    let mut ev = ConstEvaluator::new(&inp);
    assert_eq!(ev.const_eval(&inp, p), ConstValue::Error);
    assert_eq!(ev.const_eval(&inp, idx), ConstValue::Error);
    assert_eq!(ev.const_eval(&inp, ok), ConstValue::Int(1));
    assert_eq!(
        ev.const_eval(&inp, rep),
        ConstValue::Array(vec![ConstValue::Int(1), ConstValue::Int(1), ConstValue::Int(1)])
    );
    let codes: Vec<&str> = ev.diagnostics.iter().map(|d| d.code()).collect();
    assert_eq!(codes, ["E2021", "E2029"]);
    // Memoized: evaluating again reports nothing new.
    assert_eq!(ev.const_eval(&inp, idx), ConstValue::Error);
    assert_eq!(ev.diagnostics.len(), 2);
}

#[test]
fn enum_variants_take_their_position_or_discriminant() {
    let mut inp = input();
    let e = def(&mut inp, "E", DefKind::Enum);
    let a = def(&mut inp, "A", DefKind::EnumVariant { parent: e });
    let b = def(&mut inp, "B", DefKind::EnumVariant { parent: e });
    inp.variant_info[a as usize] = Some((0, None));
    let seven = expr(&mut inp, ExprKind::IntLit(7));
    inp.variant_info[b as usize] = Some((1, Some(seven)));
    let ua = path(&mut inp, "A", a);
    let ub = path(&mut inp, "B", b);
    let mut ev = ConstEvaluator::new(&inp);
    assert_eq!(ev.const_eval(&inp, ua), ConstValue::EnumVariant { def: DefId(a), discriminant: 0 });
    assert_eq!(ev.const_eval(&inp, ub), ConstValue::EnumVariant { def: DefId(b), discriminant: 7 });
}

#[test]
fn type_positions_check_widths_and_lengths() {
    let mut inp = input();
    let zero = expr(&mut inp, ExprKind::IntLit(0));
    let big = expr(&mut inp, ExprKind::IntLit(2_000_000));
    inp.types.push(TypeRef::Bits(zero));
    inp.types.push(TypeRef::Array { elem: 0, len: big });
    inp.type_positions.push(1);
    let mut ev = ConstEvaluator::new(&inp);
    ev.check_type_positions(&inp);
    let codes: Vec<&str> = ev.diagnostics.iter().map(|d| d.code()).collect();
    assert_eq!(codes, ["E2025", "E2026"]);
}

#[test]
fn every_constant_is_memoized_after_evaluating_all() {
    let mut inp = input();
    let a = def(&mut inp, "A", DefKind::Const);
    let b = def(&mut inp, "B", DefKind::Const);
    let three = expr(&mut inp, ExprKind::IntLit(3));
    inp.const_inits[a as usize] = Some(three);
    let a_use = path(&mut inp, "A", a);
    let neg = expr(&mut inp, ExprKind::Unary { op: UnOp::Neg, operand: a_use });
    inp.const_inits[b as usize] = Some(neg);
    let mut ev = ConstEvaluator::new(&inp);
    assert!(ev.def_cache.iter().all(|c| c.is_none()));
    ev.eval_all_consts(&inp);
    assert_eq!(ev.def_cache[a as usize], Some(ConstValue::Int(3)));
    assert_eq!(ev.def_cache[b as usize], Some(ConstValue::Int(-3)));
    // The initializer's value is memoized too.
    assert_eq!(ev.expr_cache[neg], Some(ConstValue::Int(-3)));
}

#[test]
fn a_conditional_takes_the_selected_branch_and_rejects_other_conditions() {
    let mut inp = input();
    let t = expr(&mut inp, ExprKind::BoolLit(true));
    let one = expr(&mut inp, ExprKind::IntLit(1));
    let two = expr(&mut inp, ExprKind::IntLit(2));
    let pick = expr(&mut inp, ExprKind::If { cond: t, then_expr: one, else_expr: two });
    let bad = expr(&mut inp, ExprKind::If { cond: one, then_expr: one, else_expr: two });
    let mut ev = ConstEvaluator::new(&inp);
    assert_eq!(ev.const_eval(&inp, pick), ConstValue::Int(1));
    assert_eq!(ev.const_eval(&inp, bad), ConstValue::Error);
    assert_eq!(ev.diagnostics.len(), 1);
    assert_eq!(ev.diagnostics[0].code(), "E2003");
}

#[test]
fn every_width_in_a_type_position_is_evaluated() {
    let mut inp = input();
    let eight = expr(&mut inp, ExprKind::IntLit(8));
    let four = expr(&mut inp, ExprKind::IntLit(4));
    inp.types.push(TypeRef::Bits(eight));
    inp.types.push(TypeRef::Array { elem: 0, len: four });
    inp.types.push(TypeRef::Tuple(vec![0, 1]));
    inp.type_positions.push(2);
    let mut ev = ConstEvaluator::new(&inp);
    ev.check_type_positions(&inp);
    assert!(ev.diagnostics.is_empty());
    assert_eq!(ev.expr_cache[eight], Some(ConstValue::Int(8)));
    assert_eq!(ev.expr_cache[four], Some(ConstValue::Int(4)));
    assert_eq!(ev.eval_type_arg(&inp, eight), Some(8));
}

#[test]
fn left_shift_leaving_i128_is_overflow() {
    let s = sp(0);
    let (v, d) = eval_binop(BinOp::Shl, &ConstValue::Int(1), &ConstValue::Int(127), s);
    assert_eq!(v, ConstValue::Error);
    assert_eq!(d.unwrap().code(), "E2022");
    let (v, d) = eval_binop(BinOp::Shl, &ConstValue::Int(-1), &ConstValue::Int(127), s);
    assert_eq!((v, d), (ConstValue::Int(i128::MIN), None));
    let (v, d) = eval_binop(BinOp::Shl, &ConstValue::Int(3), &ConstValue::Int(126), s);
    assert_eq!(v, ConstValue::Error);
    assert_eq!(d, Some(ConstDiag::Overflow { span: s }));
}

#[test]
fn a_cached_array_is_returned_again() {
    let mut inp = input();
    let one = expr(&mut inp, ExprKind::IntLit(1));
    let two = expr(&mut inp, ExprKind::IntLit(2));
    let arr = expr(&mut inp, ExprKind::ArrayList(vec![one, two]));
    let mut ev = ConstEvaluator::new(&inp);
    let first = ev.const_eval(&inp, arr);
    let n = ev.diagnostics.len();
    let second = ev.const_eval(&inp, arr);
    assert_eq!(first, second);
    assert_eq!(first, ConstValue::Array(vec![ConstValue::Int(1), ConstValue::Int(2)]));
    assert_eq!(ev.diagnostics.len(), n);
}

#[test]
fn an_index_takes_the_element_or_reports_e2029() {
    let mut inp = input();
    let ten = expr(&mut inp, ExprKind::IntLit(10));
    let twenty = expr(&mut inp, ExprKind::IntLit(20));
    let thirty = expr(&mut inp, ExprKind::IntLit(30));
    let arr = expr(&mut inp, ExprKind::ArrayList(vec![ten, twenty, thirty]));
    let i1 = expr(&mut inp, ExprKind::IntLit(1));
    let i3 = expr(&mut inp, ExprKind::IntLit(3));
    let at1 = expr(&mut inp, ExprKind::Index { base: arr, index: i1 });
    let at3 = expr(&mut inp, ExprKind::Index { base: arr, index: i3 });
    let mut ev = ConstEvaluator::new(&inp);
    assert_eq!(ev.const_eval(&inp, at1), ConstValue::Int(20));
    assert!(ev.diagnostics.is_empty());
    assert_eq!(ev.const_eval(&inp, at3), ConstValue::Error);
    assert_eq!(ev.diagnostics, [ConstDiag::IndexOutOfRange { span: sp(at3 as u32 * 10), index: 3, len: 3 }]);
}

#[test]
fn an_if_with_a_non_boolean_condition_is_one_e2003() {
    let mut inp = input();
    let c = expr(&mut inp, ExprKind::IntLit(1));
    let t = expr(&mut inp, ExprKind::IntLit(2));
    let f = expr(&mut inp, ExprKind::IntLit(3));
    let e = expr(&mut inp, ExprKind::If { cond: c, then_expr: t, else_expr: f });
    let mut ev = ConstEvaluator::new(&inp);
    assert_eq!(ev.const_eval(&inp, e), ConstValue::Error);
    let codes: Vec<&str> = ev.diagnostics.iter().map(|d| d.code()).collect();
    assert_eq!(codes, ["E2003"]);
}

#[test]
fn widths_report_exactly_one_finding_when_out_of_range() {
    let mut inp = input();
    let w0 = expr(&mut inp, ExprKind::IntLit(0));
    let w1 = expr(&mut inp, ExprKind::IntLit(65536));
    let w2 = expr(&mut inp, ExprKind::IntLit(65537));
    let mut ev = ConstEvaluator::new(&inp);
    assert_eq!(ev.eval_type_arg(&inp, w0), None);
    assert_eq!(ev.diagnostics.len(), 1);
    assert_eq!(ev.eval_type_arg(&inp, w1), Some(65536));
    assert_eq!(ev.diagnostics.len(), 1);
    assert_eq!(ev.eval_type_arg(&inp, w2), None);
    let codes: Vec<&str> = ev.diagnostics.iter().map(|d| d.code()).collect();
    assert_eq!(codes, ["E2025", "E2025"]);
}

#[test]
fn clog2_calls_give_the_bit_count_or_one_e2021() {
    let mut inp = input();
    let clog = def(&mut inp, "clog2", DefKind::Builtin(BuiltinKind::Clog2));
    let mut calls = Vec::new();
    for n in [1u128, 2, 3, 8, 0] {
        let arg = expr(&mut inp, ExprKind::IntLit(n));
        let callee = path(&mut inp, "clog2", clog);
        calls.push(expr(&mut inp, ExprKind::Call { callee, args: vec![arg] }));
    }
    let mut ev = ConstEvaluator::new(&inp);
    assert_eq!(ev.const_eval(&inp, calls[0]), ConstValue::Int(0));
    assert_eq!(ev.const_eval(&inp, calls[1]), ConstValue::Int(1));
    assert_eq!(ev.const_eval(&inp, calls[2]), ConstValue::Int(2));
    assert_eq!(ev.const_eval(&inp, calls[3]), ConstValue::Int(3));
    assert!(ev.diagnostics.is_empty());
    assert_eq!(ev.const_eval(&inp, calls[4]), ConstValue::Error);
    let codes: Vec<&str> = ev.diagnostics.iter().map(|d| d.code()).collect();
    assert_eq!(codes, ["E2021"]);
}

#[test]
fn only_the_chosen_branch_is_evaluated() {
    let mut inp = input();
    let c = expr(&mut inp, ExprKind::BoolLit(true));
    let one = expr(&mut inp, ExprKind::IntLit(1));
    let one2 = expr(&mut inp, ExprKind::IntLit(1));
    let zero = expr(&mut inp, ExprKind::IntLit(0));
    let div = expr(&mut inp, ExprKind::Binary { op: BinOp::Div, lhs: one2, rhs: zero });
    let e = expr(&mut inp, ExprKind::If { cond: c, then_expr: one, else_expr: div });
    let mut ev = ConstEvaluator::new(&inp);
    assert_eq!(ev.const_eval(&inp, e), ConstValue::Int(1));
    assert!(ev.diagnostics.is_empty());
}
