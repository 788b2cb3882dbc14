use tolk_inspect::allocation::{array_size, layout_size, place_block, plan_change, Change, ALIGN};
use tolk_inspect::calls::{call_graph, normalize_call_sites, sorted_texts};
use tolk_inspect::constants::{constant_collection_key, constant_value};
use tolk_inspect::facts::{ConstantFact, Evaluated, SymbolKind};
use tolk_inspect::flow::{EdgeKind, FlowKind};
use tolk_inspect::graphs::{control_flow_edge_kind, control_flow_node_kind};
use tolk_inspect::ids::SymbolRef;
use tolk_inspect::inspect::VersionInfo;
use tolk_inspect::methods::{classify_maker, classify_method, unquoted, Maker, Method};
use tolk_inspect::model::{
    ByteRange, CallSite, ConstantValue, Position, SourceLocation, SourceRange,
};
use tolk_inspect::nodes::{camel_kind, node_id_text};
use tolk_inspect::position::{location, point_to_byte, utf16_position};
use tolk_inspect::syntax::{IntLiteral, SyntaxNode};
use tolk_inspect::symbols::{global_symbol_id, symbol_kind};
use tolk_inspect::text::{decimal_text, slice_bytes};

#[test]
fn grammar_names_become_camel_case() {
    assert_eq!(camel_kind("function_declaration"), "functionDeclaration");
    assert_eq!(camel_kind("source_file"), "sourceFile");
    assert_eq!(camel_kind("ERROR"), "ERROR");
    assert_eq!(camel_kind(";"), ";");
    assert_eq!(camel_kind(""), "");
    assert_eq!(camel_kind("_leading__double_"), "LeadingDouble");
    // One character may have several in upper case.
    assert_eq!(camel_kind("a_ßb"), "aSSb");
    assert_eq!(camel_kind("a_éb"), "aÉb");
}

#[test]
fn camel_case_is_final_and_goes_part_by_part() {
    for raw in ["function_declaration", "_a_1", "x__y_", "plain", "A_b_C_9_z", "é_ß_ǆ_ŉ", "_", ""] {
        let once = camel_kind(raw);
        assert!(!once.contains('_'));
        assert_eq!(camel_kind(&once), once);
        for other in ["", "b", "_b", "one_two"] {
            let behind = format!("_{}", other);
            assert_eq!(
                camel_kind(&format!("{}{}", raw, behind)),
                format!("{}{}", once, camel_kind(&behind))
            );
        }
    }
    assert_eq!(camel_kind("a_z_A_9_{"), "aZA9{");
}

#[test]
fn positions_count_utf16_units() {
    let source = "a😀b\né\n";
    let at = |byte: usize| {
        let position = utf16_position(source, byte);
        (position.line, position.character)
    };
    assert_eq!(at(0), (0, 0));
    assert_eq!(at(1), (0, 1));
    assert_eq!(at(5), (0, 3));
    assert_eq!(at(6), (0, 4));
    assert_eq!(at(7), (1, 0));
    assert_eq!(at(9), (1, 1));
    assert_eq!(at(10), (2, 0));
    // Beyond the end is the end.
    assert_eq!(at(100), (2, 0));
}

#[test]
fn rows_and_columns_become_bytes() {
    let source = "ab\ncd\n";
    assert_eq!(point_to_byte(source, 0, 1), 1);
    assert_eq!(point_to_byte(source, 1, 0), 3);
    assert_eq!(point_to_byte(source, 1, 2), 5);
    assert_eq!(point_to_byte(source, 1, 50), 6);
    assert_eq!(point_to_byte(source, 9, 0), 6);
}

#[test]
fn locations_hold_both_kinds_of_positions() {
    let place = location("/x", "😀y", 4, 5);
    assert_eq!(place.path, "/x");
    assert_eq!(place.range.start, Position { line: 0, character: 2 });
    assert_eq!(place.range.end, Position { line: 0, character: 3 });
    assert_eq!(place.byte_range, ByteRange { start: 4, end: 5 });
}

#[test]
fn texts_are_cut_between_characters_only() {
    assert_eq!(slice_bytes("a😀b", 1, 5), Some("😀".to_string()));
    assert_eq!(slice_bytes("a😀b", 1, 3), None);
    assert_eq!(slice_bytes("ab", 1, 5), None);
    assert_eq!(slice_bytes("ab", 2, 2), Some(String::new()));
    assert_eq!(decimal_text(0), "0");
    assert_eq!(decimal_text(u64::MAX), "18446744073709551615");
}

#[test]
fn nodes_are_known_by_place_kind_and_position() {
    let node = SyntaxNode {
        kind: "identifier".into(),
        start: 3,
        end: 10,
        named: true,
        error: false,
        missing: false,
        field: None,
        literal: IntLiteral::Invalid,
        children: vec![],
    };
    assert_eq!(node_id_text("/a.tolk", &node, 2), "n:/a.tolk:3:10:identifier:2");
}

#[test]
fn symbols_are_known_by_file_and_number() {
    let id = global_symbol_id("/a.tolk", SymbolRef { file: 4, local: 7 });
    assert_eq!(id, "g:/a.tolk:7");
    assert_eq!(symbol_kind(SymbolKind::Function), "function");
    assert_eq!(symbol_kind(SymbolKind::Method { instance: true }), "method");
    assert_eq!(symbol_kind(SymbolKind::EnumMember), "enumMember");
}

fn place(start: u32) -> SourceLocation {
    let position = Position { line: 0, character: start };
    SourceLocation {
        path: "/a.tolk".into(),
        range: SourceRange { start: position, end: position },
        byte_range: ByteRange { start, end: start },
    }
}

fn site(start: u32, targets: &[&str], complete: bool) -> CallSite {
    CallSite {
        caller: "caller".into(),
        location: place(start),
        node_id: None,
        dispatch: "indirect".into(),
        targets: targets.iter().map(|id| id.to_string()).collect(),
        complete,
    }
}

#[test]
fn records_of_one_call_become_one() {
    let mut sites = vec![
        site(5, &["b", "a"], true),
        site(1, &[], true),
        site(5, &["a", "c"], false),
    ];
    normalize_call_sites(&mut sites);
    assert_eq!(sites.len(), 2);
    assert_eq!(sites[0].location.byte_range.start, 1);
    assert_eq!(sites[1].targets, vec!["a".to_string(), "b".to_string(), "c".to_string()]);
    assert!(!sites[1].complete);
}

#[test]
fn the_call_graph_has_an_edge_for_each_target() {
    let sites = vec![site(5, &["a", "b"], true), site(1, &[], false), site(9, &["a"], true)];
    let edges = call_graph(&sites);
    let found: Vec<(u32, String)> = edges
        .iter()
        .map(|edge| (edge.call_site.byte_range.start, edge.callee.clone()))
        .collect();
    assert_eq!(
        found,
        vec![(5, "a".to_string()), (5, "b".to_string()), (9, "a".to_string())]
    );
    assert!(edges.iter().all(|edge| edge.caller == "caller" && edge.dispatch == "indirect"));
}

#[test]
fn texts_are_sorted_by_code_points_and_listed_once() {
    let texts: Vec<String> = ["b", "B", "é", "a", "b"].iter().map(|t| t.to_string()).collect();
    assert_eq!(sorted_texts(&texts), vec!["B", "a", "b", "é"]);
}

#[test]
fn constants_keep_their_values() {
    let given = |value: Evaluated| constant_value(&ConstantFact { value, display: "shown".into() });
    assert!(matches!(
        given(Evaluated::Int("-5".into())),
        ConstantValue::Int { value, display } if value == "-5" && display == "shown"
    ));
    assert!(matches!(given(Evaluated::Bool(true)), ConstantValue::Bool { value: true, .. }));
    assert!(matches!(
        given(Evaluated::Text("x".into())),
        ConstantValue::Text { value, .. } if value == "x"
    ));
    assert!(matches!(given(Evaluated::Overflow), ConstantValue::Overflow { .. }));
    assert!(matches!(
        given(Evaluated::Unknown),
        ConstantValue::Unknown { display } if display == "shown"
    ));
}

#[test]
fn constants_are_keys_of_collections() {
    let key = |value: Evaluated| constant_collection_key(&value);
    assert_eq!(key(Evaluated::Int("7".into())), Some("int:7".to_string()));
    assert_eq!(key(Evaluated::Bool(false)), Some("bool:false".to_string()));
    assert_eq!(key(Evaluated::Text("k".into())), Some("string:k".to_string()));
    assert_eq!(key(Evaluated::Overflow), None);
    assert_eq!(key(Evaluated::Unknown), None);
}

#[test]
fn methods_and_makers_are_known_by_name() {
    assert_eq!(classify_method("get"), Method::Get);
    assert_eq!(classify_method("findKeyLess"), Method::Find);
    assert_eq!(classify_method("frobnicate"), Method::Other);
    assert_eq!(classify_maker("createEmptyTuple"), Maker::Empty);
    assert_eq!(classify_maker("create"), Maker::Other);
    assert_eq!(unquoted("\"a\"b\"\""), "a\"b");
}

#[test]
fn graph_kinds_have_names() {
    assert_eq!(control_flow_node_kind(FlowKind::CatchBinding), "catchBinding");
    assert_eq!(control_flow_node_kind(FlowKind::Join), "join");
    assert_eq!(control_flow_edge_kind(EdgeKind::Exceptional), "exceptional");
    assert_eq!(control_flow_edge_kind(EdgeKind::LoopBack), "loopBack");
}

#[test]
fn blocks_are_aligned_behind_their_headers() {
    assert_eq!(layout_size(0, 8), None);
    assert_eq!(layout_size(100, 8), Some(123));
    assert_eq!(layout_size(usize::MAX, 8), None);
    let (address, header) = place_block(1000, 123, 8);
    assert_eq!(address, 1008);
    assert_eq!(address % ALIGN, 0);
    assert_eq!(header.offset, 8);
    assert_eq!(header.requested_size(8), 100);
    let (address, header) = place_block(1009, 123, 8);
    assert_eq!(address, 1024);
    assert_eq!(header.offset, 15);
    assert!(address + 100 <= 1009 + 123);
}

#[test]
fn changes_of_size_copy_what_fits() {
    assert_eq!(plan_change(None, 5), Change::Allocate);
    assert_eq!(plan_change(Some(5), 0), Change::Free);
    assert_eq!(plan_change(Some(5), 9), Change::Replace { copied: 5 });
    assert_eq!(plan_change(Some(9), 5), Change::Replace { copied: 5 });
    assert_eq!(array_size(3, 4), Some(12));
    assert_eq!(array_size(usize::MAX, 2), None);
}

#[test]
fn versions_are_those_of_the_package_and_the_language() {
    let info = VersionInfo::current();
    assert_eq!(info.package_version, "0.1.1");
    assert_eq!(info.tolk_version, "1.4.2");
    assert_eq!(info.acton_revision.len(), 40);
}
