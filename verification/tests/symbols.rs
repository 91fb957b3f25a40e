use constellation::graph::{Language, Node, NodeKind, Span};
use constellation::symbols::{
    field_signature, is_coverage_checkable, is_definition_kind, is_dispatch_method_name,
    is_orphan_candidate, python_import_line, qualified_name_ends_with, symbol_role, targetable_name,
};

fn symbol(name: &str, qualified: &str, file: &str, kind: NodeKind) -> Node {
    Node {
        id: format!("blog::{qualified}"),
        project_id: "blog".to_string(),
        kind,
        language: Language::Python,
        name: name.to_string(),
        qualified_name: qualified.to_string(),
        file_path: file.to_string(),
        span: Span { start_line: 1, end_line: 1 },
        signature: None,
        docstring: None,
        decorators: Vec::new(),
        in_test_file: false,
        in_generated_file: false,
        marker: String::new(),
    }
}

#[test]
fn common_dispatch_methods_are_recognized() {
    for name in ["get", "save", "filter", "create", "delete", "all", "values", "refresh_from_db"] {
        assert!(is_dispatch_method_name(name), "{name:?} is a codebase-wide dispatch method");
    }
}

#[test]
fn distinctive_names_are_not_dispatch() {
    for name in ["recalculate_totals", "generate_order_number", "Inventory", "Order"] {
        assert!(!is_dispatch_method_name(name), "{name:?} is distinctive, a real dark-caller signal");
    }
}

#[test]
fn definitions_are_told_apart_from_members() {
    assert!(is_definition_kind(NodeKind::Class));
    assert!(is_definition_kind(NodeKind::Function));
    assert!(!is_definition_kind(NodeKind::Import));
}

#[test]
fn an_import_line_names_the_module_and_the_symbol() {
    let order = symbol("Order", "app/shop/models.py::Order", "app/shop/models.py", NodeKind::Model);

    assert_eq!(python_import_line(&order).as_deref(), Some("from app.shop.models import Order"));
}

#[test]
fn a_targetable_name_is_never_empty() {
    let method = symbol("save", "app/models.py::Order.save", "app/models.py", NodeKind::Method);

    assert!(targetable_name(&method).contains("save"));
}

#[test]
fn what_the_framework_reaches_is_no_orphan() {
    assert!(is_orphan_candidate(false));
    assert!(!is_orphan_candidate(true));
}

#[test]
fn a_field_shows_its_signature() {
    let mut title = symbol("title", "m.py::Article.title", "m.py", NodeKind::Field);

    assert_eq!(field_signature(&title), "");
    title.signature = Some("title = CharField()".to_string());
    assert!(field_signature(&title).contains("CharField()"));
}

#[test]
fn coverage_is_asked_only_of_top_level_definitions() {
    let mut view = symbol("detail", "v.py::detail", "v.py", NodeKind::Function);

    assert!(is_coverage_checkable(&view));
    view.kind = NodeKind::Method;
    assert!(!is_coverage_checkable(&view), "a method inherits coverage from its owner");
    assert!(!is_coverage_checkable(&symbol("Meta", "v.py::A.Meta", "v.py", NodeKind::Class)));
    assert!(!is_coverage_checkable(&symbol("Row", "v.py::A.Row", "v.py", NodeKind::Class)), "nested");
    assert!(!is_coverage_checkable(&symbol("inner", "v.py::f.inner", "v.py", NodeKind::Function)));
    assert!(!is_coverage_checkable(&symbol("__str__", "v.py::__str__", "v.py", NodeKind::Function)));
    assert_eq!(symbol_role(&symbol("x", "v.py::x", "v.py", NodeKind::Variable)), None);
}

#[test]
fn qualified_name_ends_with_matches_only_at_name_boundaries() {
    assert!(
        qualified_name_ends_with(
            "app/services.py::PaymentGatewayService.save_model_obj",
            "PaymentGatewayService.save_model_obj",
        ),
        "the owner.member tail matches after the :: file boundary",
    );

    assert!(
        qualified_name_ends_with("a/b.py::Outer.Inner.run", "Inner.run"),
        "a nested tail matches after a . boundary",
    );

    assert!(
        qualified_name_ends_with("save_model_obj", "save_model_obj"),
        "an exactly equal qualified name matches",
    );

    assert!(
        !qualified_name_ends_with("a/b.py::Resync.save", "ync.save"),
        "a suffix landing mid-identifier does not match",
    );

    assert!(
        !qualified_name_ends_with("a/b.py::Other.save_model_obj", "Gateway.save_model_obj"),
        "a different owner does not match",
    );
}
