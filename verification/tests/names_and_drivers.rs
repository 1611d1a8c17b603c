use volt_hir::ast::Span;
use volt_hir::defs::DefId;
use volt_hir::defs::PortDir;
use volt_hir::drivers::{gaps, DriverKind, DriverRecord, DriverTable, OutputPort};
use volt_hir::names::{is_widened_int_type, mono_base};
use volt_hir::suggest::{closest_match, levenshtein};

fn rec(group: u32, kind: DriverKind, bits: Option<(u32, u32)>) -> DriverRecord {
    DriverRecord { span: Span { file: 0, start: 0, end: 1 }, group, kind, bits, partial: false, field: None }
}

#[test]
fn only_overlapping_bits_from_different_groups_conflict() {
    let low = rec(1, DriverKind::Assign, Some((0, 4)));
    let high = rec(2, DriverKind::Assign, Some((4, 8)));
    let mid = rec(3, DriverKind::Assign, Some((3, 5)));
    let whole = rec(4, DriverKind::Assign, None);
    assert!(!low.conflicts_with(&high), "adjacent ranges are disjoint");
    assert!(low.conflicts_with(&mid) && high.conflicts_with(&mid));
    assert!(whole.conflicts_with(&low), "an unknown range is the whole signal");
    let same_block = rec(1, DriverKind::Assign, Some((0, 8)));
    assert!(!low.conflicts_with(&same_block), "one block is one driver");
}

#[test]
fn gaps_are_the_uncovered_bit_ranges() {
    assert_eq!(gaps(&mut vec![(0, 4)], 8), [(4, 8)]);
    assert_eq!(gaps(&mut vec![(4, 8), (0, 2)], 8), [(2, 4)]);
    assert!(gaps(&mut vec![(0, 5), (3, 8)], 8).is_empty());
    assert_eq!(gaps(&mut vec![(1, 2)], 4), [(0, 1), (2, 4)]);
}

#[test]
fn gaps_sorts_its_ranges_in_place() {
    let mut ranges = vec![(4, 8), (0, 2), (1, 3)];
    assert_eq!(gaps(&mut ranges, 10), [(3, 4), (8, 10)]);
    assert_eq!(ranges, [(0, 2), (1, 3), (4, 8)]);
    let mut repeated = vec![(1, 2), (0, 1), (1, 2)];
    assert_eq!(gaps(&mut repeated, 4), [(2, 4)]);
    assert_eq!(repeated, [(0, 1), (1, 2), (1, 2)]);
}

#[test]
fn shared_lines_are_compatible_only_with_each_other() {
    let line = |g| {
        rec(g, DriverKind::SharedLine { instance: "p".into(), port: "dq".into() }, None)
    };
    assert!(!line(1).conflicts_with(&line(2)));
    assert!(line(1).conflicts_with(&rec(3, DriverKind::Assign, None)));
    assert!(rec(3, DriverKind::LetInit, None).conflicts_with(&line(1)));
}

#[test]
fn let_initializers_and_parent_inputs_are_not_user_assignments() {
    let mut table = DriverTable::new();
    let span = Span { file: 0, start: 0, end: 1 };
    table.record_kind(1, span, 1, DriverKind::LetInit);
    table.record_kind(2, span, 2, DriverKind::ParentInput);
    assert!(!table.is_driven(1) && !table.is_driven(2));
    table.record(2, span, 3, false, None);
    assert!(table.is_driven(2));
}

#[test]
fn def_ids_order_by_declaration_index() {
    let mut ids = vec![DefId(3), DefId(0), DefId(2)];
    ids.sort();
    assert_eq!(ids, [DefId(0), DefId(2), DefId(3)]);
}

#[test]
fn mono_base_strips_numeric_suffixes_only() {
    assert_eq!(mono_base("Fifo_8_16"), "Fifo");
    assert_eq!(mono_base("Fifo"), "Fifo");
    assert_eq!(mono_base("uart_tx"), "uart_tx");
    assert_eq!(mono_base("Shift_reg_4"), "Shift_reg");
}

#[test]
fn mono_base_keeps_trailing_underscore_names() {
    assert_eq!(mono_base("x_"), "x_");
    assert_eq!(mono_base("_"), "_");
}

#[test]
fn widened_int_types_are_a_letter_followed_by_digits_only() {
    assert!(is_widened_int_type("u9"));
    assert!(is_widened_int_type("i128"));
    assert!(!is_widened_int_type("u"));
    assert!(!is_widened_int_type("uart"));
    assert!(!is_widened_int_type("x8"));
    assert!(!is_widened_int_type("u8_t"));
}

fn names(list: &[&str]) -> Vec<String> {
    list.iter().map(|s| s.to_string()).collect()
}

#[test]
fn levenshtein_counts_single_character_edits() {
    assert_eq!(levenshtein("count", "count"), 0);
    assert_eq!(levenshtein("count", "coutn"), 2);
    assert_eq!(levenshtein("clk", "clock"), 2);
    assert_eq!(levenshtein("", "abc"), 3);
}

#[test]
fn levenshtein_is_symmetric_and_zero_only_for_equal_names() {
    assert_eq!(levenshtein("clk", "clock"), levenshtein("clock", "clk"));
    assert_eq!(levenshtein("data_a", "dat"), levenshtein("dat", "data_a"));
    assert!(levenshtein("ab", "ba") > 0);
    assert_eq!(levenshtein("ab", "ab"), 0);
}

#[test]
fn closest_match_prefers_the_first_of_equally_distant_candidates() {
    let candidates = names(&["data_b", "data_a", "data_c"]);
    assert_eq!(closest_match("data_x", &candidates).as_deref(), Some("data_b"));
}

#[test]
fn closest_match_skips_exact_synthetic_and_distant_names() {
    assert_eq!(closest_match("clk", &names(&["clk"])), None);
    assert_eq!(closest_match("hata", &names(&["<hata>"])), None);
    assert_eq!(closest_match("clk", &names(&["reset_n"])), None);
}

fn port(dir: PortDir, def: Option<u32>, name: &str, at: u32) -> OutputPort {
    OutputPort { dir, def, span: Span { file: 0, start: at, end: at + 3 }, name: name.to_string() }
}

#[test]
fn undriven_outputs_are_the_outputs_without_an_assignment() {
    let mut t = DriverTable::new();
    let sp = Span { file: 0, start: 50, end: 55 };
    t.record(1, sp, 0, false, None);
    // An input driven by the parent does not count as an assignment.
    t.record_kind(3, sp, 1, DriverKind::ParentInput);
    t.record_kind(2, sp, 2, DriverKind::LetInit);
    let ports = vec![
        port(PortDir::In, Some(0), "a", 0),
        port(PortDir::Out, Some(1), "y", 10),
        port(PortDir::Out, Some(2), "z", 20),
        port(PortDir::Out, Some(3), "hs.data", 30),
        port(PortDir::Out, None, "unresolved", 40),
    ];
    let out = t.check_undriven_outputs(&ports);
    let names: Vec<&str> = out.iter().map(|u| u.name.as_str()).collect();
    assert_eq!(names, ["z", "hs.data"]);
    assert_eq!(out[0].span, Span { file: 0, start: 20, end: 23 });
    assert_eq!(out[0].code(), "E4002");
}

#[test]
fn a_default_table_has_no_drivers() {
    let t = DriverTable::default();
    let ports = vec![port(PortDir::Out, Some(1), "y", 10)];
    let out = t.check_undriven_outputs(&ports);
    let names: Vec<&str> = out.iter().map(|u| u.name.as_str()).collect();
    assert_eq!(names, ["y"]);
}
