use std::collections::HashSet;
use std::sync::Arc;

use constellation::graph::{EdgeKind, Language, Node, NodeKind, Span};
use constellation::resolution::context::{
    FileImports, ImportMapping, ProjectFile, ProjectGraph, ResolutionContext,
};
use constellation::resolution::framework::{FrameworkExtractionResult, FrameworkResolver};
use constellation::resolution::frameworks::{is_pascal_word, DjangoResolver};
use constellation::resolution::paths::{
    file_stem, js_module_stem, module_file_path, module_stem, path_in_module,
    shared_directory_depth, top_owner,
};
use constellation::resolution::refs::{ResolvedBy, ResolvedRef, UnresolvedRef};
use constellation::resolution::resolver::{
    edge_from_resolved, preferred_by_locality, resolve_reference, QUERYSET_DISPATCH, SERVICE_DISPATCH, SUPER_DISPATCH,
    TYPED_RECEIVER,
};

fn node(name: &str, file: &str, kind: NodeKind) -> Arc<Node> {
    owned(name, &format!("{file}::{name}"), file, kind, Language::Python)
}

fn owned(name: &str, qualified: &str, file: &str, kind: NodeKind, language: Language) -> Arc<Node> {
    Arc::new(Node {
        id: format!("blog::{qualified}"),
        project_id: "blog".to_string(),
        kind,
        language,
        name: name.to_string(),
        qualified_name: qualified.to_string(),
        file_path: file.to_string(),
        span: Span { start_line: 1, end_line: 1 },
        signature: None,
        docstring: None,
        decorators: Vec::new(),
        in_test_file: false,
        in_generated_file: false,
        marker: String::new(),
    })
}

fn blog() -> ProjectGraph {
    ProjectGraph {
        root: "/tmp/blog".to_string(),
        nodes: Vec::new(),
        files: Vec::new(),
        imports: Vec::new(),
    }
}

fn with_file(mut graph: ProjectGraph, path: &str, contents: &str) -> ProjectGraph {
    graph.files.push(ProjectFile { path: path.to_string(), contents: Some(contents.to_string()) });
    graph
}

fn with_node(mut graph: ProjectGraph, name: &str, file: &str, kind: NodeKind) -> ProjectGraph {
    graph.nodes.push(node(name, file, kind));
    graph
}

fn with_owned(mut graph: ProjectGraph, name: &str, qualified: &str, file: &str, kind: NodeKind) -> ProjectGraph {
    graph.nodes.push(owned(name, qualified, file, kind, Language::Python));
    graph
}

fn with_import(mut graph: ProjectGraph, file: &str, local: &str, exported: &str, source: &str) -> ProjectGraph {
    graph.imports.push(FileImports {
        path: file.to_string(),
        language: Language::Python,
        mappings: vec![ImportMapping {
            local_name: local.to_string(),
            exported_name: exported.to_string(),
            source: source.to_string(),
            is_default: false,
            is_namespace: false,
            resolved_path: None,
        }],
    });
    graph
}

fn reference(name: &str) -> UnresolvedRef {
    UnresolvedRef::new(
        "blog::urls.py::urlpatterns".to_string(),
        name,
        EdgeKind::RoutesTo,
        1,
        0,
        "blog/urls.py",
        Language::Python,
    )
}

fn refer(name: &str, kind: EdgeKind, file: &str, candidates: &[&str]) -> UnresolvedRef {
    let mut reference = UnresolvedRef::new(
        "blog::caller".to_string(),
        name,
        kind,
        7,
        3,
        file,
        Language::Python,
    );
    reference.candidates = candidates.iter().map(|text| text.to_string()).collect();
    reference
}

#[test]
fn detect_reads_django_from_a_requirements_marker() {
    let context = with_file(blog(), "requirements.txt", "Django==5.0\npsycopg2\n");

    assert!(DjangoResolver.detect(&context), "a requirements file naming Django marks the project");
}

#[test]
fn detect_finds_django_by_manage_py() {
    let context = with_file(blog(), "manage.py", "#!/usr/bin/env python\n");

    assert!(DjangoResolver.detect(&context), "a manage.py marks a Django project even with no dependency marker");
}

#[test]
fn detect_is_false_without_any_marker() {
    let context = with_file(blog(), "README.md", "a plain project\n");

    assert!(!DjangoResolver.detect(&context), "no dependency mention and no manage.py means not Django");
}

#[test]
fn resolve_prefers_the_view_directory_among_ambiguous_candidates() {
    let context = with_node(
        with_node(blog(), "ArticleView", "blog/api/article.py", NodeKind::Class),
        "ArticleView",
        "blog/core/article.py",
        NodeKind::Class,
    );

    let resolved = DjangoResolver
        .resolve(&reference("ArticleView"), &context)
        .expect("the api-directory candidate disambiguates the view");

    assert_eq!(resolved.confidence, 80, "a framework resolution carries the convention confidence");
    assert_eq!(resolved.resolved_by, ResolvedBy::Framework, "the strategy is recorded as framework");

    assert_eq!(
        resolved.target_node_id,
        node("ArticleView", "blog/api/article.py", NodeKind::Class).id,
        "the candidate under /api/ wins",
    );
}

#[test]
fn resolve_binds_a_sole_candidate_regardless_of_directory() {
    let context = with_node(blog(), "ContactForm", "blog/anywhere/contact.py", NodeKind::Class);

    let resolved = DjangoResolver.resolve(&reference("ContactForm"), &context);

    assert!(resolved.is_some(), "a single Form candidate resolves even outside a forms/ directory");
}

#[test]
fn resolve_treats_a_pascal_word_as_a_model() {
    let context = with_node(blog(), "Article", "blog/models/article.py", NodeKind::Model);

    let resolved = DjangoResolver.resolve(&reference("Article"), &context);

    assert!(resolved.is_some(), "a bare PascalCase name resolves as a model by convention");
}

#[test]
fn resolve_is_none_when_ambiguous_with_no_directory_preference() {
    let context = with_node(
        with_node(blog(), "Article", "blog/alpha/article.py", NodeKind::Model),
        "Article",
        "blog/beta/article.py",
        NodeKind::Model,
    );

    assert!(
        DjangoResolver.resolve(&reference("Article"), &context).is_none(),
        "two models in non-conventional directories stay ambiguous",
    );
}

#[test]
fn resolve_ignores_a_name_that_matches_no_convention() {
    let context = with_node(blog(), "helper", "blog/utils.py", NodeKind::Function);

    assert!(
        DjangoResolver.resolve(&reference("helper"), &context).is_none(),
        "a lowercase non-suffixed name is not a model, view, or form reference",
    );
}

#[test]
fn resolved_by_labels_are_distinct_and_kebab_case() {
    let strategies = [
        ResolvedBy::ExactMatch,
        ResolvedBy::QualifiedName,
        ResolvedBy::Import,
        ResolvedBy::InstanceMethod,
        ResolvedBy::Framework,
        ResolvedBy::FilePath,
        ResolvedBy::Fuzzy,
    ];

    let labels: HashSet<&str> = strategies.iter().map(|strategy| strategy.as_str()).collect();

    assert_eq!(labels.len(), strategies.len(), "every strategy has a distinct label");
    assert_eq!(ResolvedBy::QualifiedName.as_str(), "qualified-name", "multiword labels are kebab-case");
    assert_eq!(ResolvedBy::InstanceMethod.as_str(), "instance-method", "multiword labels are kebab-case");
}

#[test]
fn unresolved_ref_starts_with_no_candidates() {
    let reference = reference("ArticleView");

    assert!(reference.candidates.is_empty(), "a fresh reference carries no dispatch candidates");
    assert_eq!(reference.reference_kind, EdgeKind::RoutesTo, "the reference kind is preserved");
}

#[test]
fn resolved_ref_copies_the_origin_fields_from_the_reference() {
    let reference = reference("Article");
    let target = "blog::models/article.py::Article";

    let resolved = ResolvedRef::new(&reference, target, 80, ResolvedBy::Framework);

    assert_eq!(resolved.from_node_id, reference.from_node_id, "the origin node carries over");
    assert_eq!(resolved.reference_kind, EdgeKind::RoutesTo, "the edge kind carries over");
    assert_eq!(resolved.target_node_id, target, "the bound target is stored");
}

#[test]
fn pascal_word_is_one_capitalized_then_lowercase_word() {
    assert!(is_pascal_word("Article"), "a leading capital then lowercase is a model name");
    assert!(is_pascal_word("Ab"), "two letters, capital then lowercase, qualify");
}

#[test]
fn non_pascal_words_are_rejected() {
    assert!(!is_pascal_word("article"), "a lowercase first letter is not pascal");
    assert!(!is_pascal_word("ARTICLE"), "an all-caps acronym is not a single pascal word");
    assert!(!is_pascal_word("AbCdef"), "an inner capital breaks the single-word convention");
    assert!(!is_pascal_word("A"), "a single letter is too short to disambiguate");
    assert!(!is_pascal_word("Ar7icle"), "a digit is not a lowercase letter");
    assert!(!is_pascal_word(""), "the empty string is not a word");
}

#[test]
fn shared_directory_depth_counts_leading_app_segments() {
    assert_eq!(
        shared_directory_depth("customer/contact/urls.py", "customer/contact/views.py"),
        2,
        "sibling files share their whole directory depth",
    );

    assert_eq!(
        shared_directory_depth("customer/contact/urls.py", "customer/interaction/views.py"),
        1,
        "different apps under one parent share only that parent",
    );

    assert_eq!(
        shared_directory_depth("customer/contact/urls.py", "inventory/views.py"),
        0,
        "unrelated app trees share nothing",
    );

    assert_eq!(
        shared_directory_depth("urls.py", "views.py"),
        0,
        "files with no directory share nothing",
    );

    assert_eq!(
        shared_directory_depth("a\\b\\urls.py", "a\\b\\views.py"),
        2,
        "windows separators count the same as forward slashes",
    );
}

#[test]
fn paths_come_apart_at_their_separators() {
    assert_eq!(file_stem("app/models.py"), "models");
    assert_eq!(file_stem("app\\archive.tar.gz"), "archive.tar");
    assert_eq!(module_stem(".models"), "models");
    assert_eq!(module_stem("a.b.c"), "c");
    assert_eq!(module_stem("."), "");
    assert_eq!(top_owner("a/b.py::Cls.save"), "Cls");
    assert_eq!(top_owner("a/b.py::helper"), "helper");
    assert_eq!(js_module_stem("./utils/card.js"), "card");
    assert_eq!(js_module_stem("./utils/card"), "card");
    assert_eq!(module_file_path("a.b.views", "page_views", "x/urls.py"), "a/b/views/page_views.py");
    assert_eq!(module_file_path("..views", "page_views", "x/y/urls.py"), "x/views/page_views.py");
    assert_eq!(module_file_path(".", "views", "urls.py"), "views.py");
    assert_eq!(module_file_path(".", "views", "x/urls.py"), "x/views.py");
    assert_eq!(module_file_path("..", "views", "x/urls.py"), "views.py");
    assert!(path_in_module("employee/views.py", "app/employee/views.py"));
    assert!(!path_in_module("employment/views.py", "app/employee/views.py"));
}

#[test]
fn a_project_in_memory_answers_by_every_key() {
    let graph = with_owned(
        with_file(blog(), "a.py", "x = 1\n"),
        "Save",
        "a.py::Order.Save",
        "a.py",
        NodeKind::Method,
    );

    assert_eq!(graph.nodes_by_name("Save").len(), 1);
    assert_eq!(graph.nodes_by_name("save").len(), 0);
    assert_eq!(graph.nodes_by_lower_name("save").len(), 1);
    assert_eq!(graph.nodes_by_qualified_name("a.py::Order.Save").len(), 1);
    assert_eq!(graph.nodes_by_kind(NodeKind::Method).len(), 1);
    assert_eq!(graph.nodes_by_kind(NodeKind::Class).len(), 0);
    assert_eq!(graph.nodes_in_file("a.py").len(), 1);
    assert!(graph.file_exists("a.py") && !graph.file_exists("b.py"));
    assert_eq!(graph.read_file("a.py").as_deref(), Some("x = 1\n"));
    assert_eq!(graph.all_files(), vec!["a.py"]);
    assert_eq!(graph.project_root(), "/tmp/blog");
    assert!(graph.import_mappings("a.py", Language::Python).is_empty());
}

#[test]
fn an_exact_match_makes_an_edge_with_its_strategy() {
    let graph = with_node(blog(), "Order", "app/models.py", NodeKind::Model);
    let resolved =
        resolve_reference(&refer("Order", EdgeKind::RelatesTo, "app/line.py", &[]), &graph).unwrap();

    assert_eq!(resolved.confidence, 90);
    assert_eq!(resolved.resolved_by, ResolvedBy::ExactMatch);

    let edge = edge_from_resolved(&resolved);

    assert_eq!(edge.source, "blog::caller");
    assert_eq!(edge.target, "blog::app/models.py::Order");
    assert_eq!(edge.kind, EdgeKind::RelatesTo);
    assert_eq!((edge.line, edge.column), (Some(7), Some(3)));
    assert_eq!(edge.provenance.as_deref(), Some("resolution:exact-match"));
}

#[test]
fn a_name_that_differs_in_case_is_the_last_resort() {
    let graph = with_node(blog(), "Order", "app/models.py", NodeKind::Model);
    let resolved =
        resolve_reference(&refer("order", EdgeKind::RelatesTo, "app/line.py", &[]), &graph).unwrap();

    assert_eq!((resolved.confidence, resolved.resolved_by), (50, ResolvedBy::Fuzzy));
}

#[test]
fn nothing_refers_to_itself() {
    let graph = with_node(blog(), "Order", "app/models.py", NodeKind::Model);
    let mut reference = refer("Order", EdgeKind::RelatesTo, "app/models.py", &[]);

    reference.from_node_id = "blog::app/models.py::Order".to_string();
    assert!(resolve_reference(&reference, &graph).is_none());
}

#[test]
fn imports_and_stubs_are_never_bound_to() {
    let graph = with_node(
        with_node(blog(), "Order", "app/a.py", NodeKind::Import),
        "Order",
        "app/b.py",
        NodeKind::External,
    );

    assert!(resolve_reference(&refer("Order", EdgeKind::References, "app/c.py", &[]), &graph).is_none());
}

#[test]
fn template_pipeline_references_stay_pending() {
    let graph = with_node(blog(), "title", "app/models.py", NodeKind::Field);

    for kind in [
        EdgeKind::AccessesMember,
        EdgeKind::ContextType,
        EdgeKind::LoopBinding,
        EdgeKind::ReverseAccessor,
        EdgeKind::DerivedCollection,
    ] {
        assert!(resolve_reference(&refer("title", kind, "app/a.html", &[]), &graph).is_none());
    }
}

#[test]
fn a_call_needs_an_import_to_cross_files() {
    let graph = with_node(blog(), "helper", "app/util.py", NodeKind::Function);
    let call = refer("helper", EdgeKind::Calls, "app/views.py", &[]);

    assert!(resolve_reference(&call, &graph).is_none(), "no import, no edge");

    let graph = with_import(graph, "app/views.py", "helper", "helper", "app.util");
    let resolved = resolve_reference(&call, &graph).unwrap();

    assert_eq!(resolved.target_node_id, "blog::app/util.py::helper");
    assert_eq!(resolved.resolved_by, ResolvedBy::ExactMatch);
}

#[test]
fn an_alias_means_the_exported_name() {
    let graph = with_import(
        with_node(blog(), "fetch", "app/util.py", NodeKind::Function),
        "app/views.py",
        "grab",
        "fetch",
        "app.util",
    );
    let resolved = resolve_reference(&refer("grab", EdgeKind::Calls, "app/views.py", &[]), &graph).unwrap();

    assert_eq!(resolved.target_node_id, "blog::app/util.py::fetch");
    assert_eq!((resolved.confidence, resolved.resolved_by), (90, ResolvedBy::Import));
}

#[test]
fn a_self_call_stays_in_its_class() {
    let graph = with_owned(
        with_owned(blog(), "save", "a.py::Order.save", "a.py", NodeKind::Method),
        "save",
        "b.py::Quota.save",
        "b.py",
        NodeKind::Method,
    );
    let resolved =
        resolve_reference(&refer("save", EdgeKind::Calls, "c.py", &["b.py::Quota"]), &graph).unwrap();

    assert_eq!(resolved.target_node_id, "blog::b.py::Quota.save");
    assert_eq!((resolved.confidence, resolved.resolved_by), (95, ResolvedBy::InstanceMethod));
    assert!(
        resolve_reference(&refer("save", EdgeKind::Calls, "c.py", &[SUPER_DISPATCH, "b.py::Quota"]), &graph)
            .is_none(),
        "a super call is left to the base chain",
    );
}

#[test]
fn a_typed_receiver_picks_its_class() {
    let graph = with_owned(
        with_owned(blog(), "save", "a.py::Order.save", "a.py", NodeKind::Method),
        "save",
        "b.py::Quota.save",
        "b.py",
        NodeKind::Method,
    );
    let resolved =
        resolve_reference(&refer("save", EdgeKind::Calls, "c.py", &[TYPED_RECEIVER, "Order"]), &graph).unwrap();

    assert_eq!(resolved.target_node_id, "blog::a.py::Order.save");
    assert_eq!(resolved.confidence, 90);
}

#[test]
fn a_manager_method_goes_to_the_models_own_queryset() {
    let graph = with_owned(
        with_owned(blog(), "active", "a.py::InventoryQuerySet.active", "a.py", NodeKind::Method),
        "active",
        "b.py::InventoryRecordQuerySet.active",
        "b.py",
        NodeKind::Method,
    );
    let call = |model: &str| refer("active", EdgeKind::Calls, "c.py", &[QUERYSET_DISPATCH, model]);
    let resolved = resolve_reference(&call("Inventory"), &graph).unwrap();

    assert_eq!(resolved.target_node_id, "blog::a.py::InventoryQuerySet.active");
    assert_eq!((resolved.confidence, resolved.resolved_by), (80, ResolvedBy::Framework));
    assert!(resolve_reference(&call("Order"), &graph).is_none());

    let builtin = with_owned(blog(), "filter", "a.py::OrderQuerySet.filter", "a.py", NodeKind::Method);

    assert!(
        resolve_reference(&refer("filter", EdgeKind::Calls, "c.py", &[QUERYSET_DISPATCH]), &builtin).is_none(),
        "a builtin never binds to an override",
    );
}

#[test]
fn a_sole_service_method_is_bound() {
    let graph = with_owned(blog(), "recalculate", "a.py::OrderProcessorService.recalculate", "a.py", NodeKind::Method);
    let resolved =
        resolve_reference(&refer("recalculate", EdgeKind::Calls, "c.py", &[SERVICE_DISPATCH]), &graph).unwrap();

    assert_eq!((resolved.confidence, resolved.resolved_by), (85, ResolvedBy::Framework));

    let base = with_owned(blog(), "save_model_obj", "a.py::OrderService.save_model_obj", "a.py", NodeKind::Method);

    assert!(
        resolve_reference(&refer("save_model_obj", EdgeKind::Calls, "c.py", &[SERVICE_DISPATCH]), &base).is_none(),
    );
}

#[test]
fn a_route_goes_to_the_module_its_receiver_names() {
    let graph = with_import(
        with_node(
            with_node(blog(), "detail_view", "a/employment/views/page_views.py", NodeKind::Function),
            "detail_view",
            "a/employee/views/page_views.py",
            NodeKind::Function,
        ),
        "a/employee/urls.py",
        "page_views",
        "page_views",
        "a.employee.views",
    );
    let resolved =
        resolve_reference(&refer("detail_view", EdgeKind::RoutesTo, "a/employee/urls.py", &["page_views"]), &graph)
            .unwrap();

    assert_eq!(resolved.target_node_id, "blog::a/employee/views/page_views.py::detail_view");
}

#[test]
fn the_nearest_of_several_is_taken_at_lower_confidence() {
    let graph = with_node(
        with_node(blog(), "Order", "other/models.py", NodeKind::Model),
        "Order",
        "shop/cart/models.py",
        NodeKind::Model,
    );
    let resolved =
        resolve_reference(&refer("Order", EdgeKind::RelatesTo, "shop/cart/line.py", &[]), &graph).unwrap();

    assert_eq!(resolved.target_node_id, "blog::shop/cart/models.py::Order");
    assert_eq!(resolved.confidence, 60);
}

#[test]
fn an_import_follows_package_re_exports() {
    let graph = with_import(
        with_import(
            with_file(
                with_file(
                    with_node(blog(), "Order", "shop/models/order.py", NodeKind::Model),
                    "shop/__init__.py",
                    "",
                ),
                "shop/models/__init__.py",
                "",
            ),
            "shop/__init__.py",
            "Order",
            "Order",
            ".models",
        ),
        "shop/models/__init__.py",
        "Order",
        "Order",
        ".order",
    );
    let resolved = resolve_reference(&refer("Order", EdgeKind::Imports, "app/views.py", &["shop"]), &graph).unwrap();

    assert_eq!(resolved.target_node_id, "blog::shop/models/order.py::Order");
    assert_eq!((resolved.confidence, resolved.resolved_by), (80, ResolvedBy::Import));
}

#[test]
fn a_circular_re_export_ends_without_a_target() {
    let graph = with_import(
        with_file(blog(), "shop/__init__.py", ""),
        "shop/__init__.py",
        "Order",
        "Order",
        "shop",
    );

    assert!(resolve_reference(&refer("Order", EdgeKind::Imports, "app/views.py", &["shop"]), &graph).is_none());
}

#[test]
fn a_script_import_links_only_relative_specifiers() {
    let mut graph = blog();
    graph.nodes.push(owned("card", "static/card.js", "static/card.js", NodeKind::File, Language::JavaScript));
    graph.nodes.push(owned("render", "static/card.js::render", "static/card.js", NodeKind::Function, Language::JavaScript));

    let mut symbol = refer("render", EdgeKind::Imports, "static/app.js", &["./card.js"]);
    symbol.language = Language::JavaScript;

    assert_eq!(resolve_reference(&symbol, &graph).unwrap().target_node_id, "blog::static/card.js::render");

    let mut module = refer("./card.js", EdgeKind::Imports, "static/app.js", &[]);
    module.language = Language::JavaScript;

    assert_eq!(resolve_reference(&module, &graph).unwrap().confidence, 85);

    let mut bare = refer("react", EdgeKind::Imports, "static/app.js", &[]);
    bare.language = Language::JavaScript;

    assert!(resolve_reference(&bare, &graph).is_none());
}

#[test]
fn a_resolver_adds_nothing_unless_it_says_so() {
    let empty = FrameworkExtractionResult::empty();

    assert!(empty.nodes.is_empty() && empty.references.is_empty());

    let django: &dyn Fn(&str) -> bool =
        &|name| FrameworkResolver::<ProjectGraph>::claims_reference(&DjangoResolver, name);

    assert!(!django("_iterable_class"));
    assert_eq!(FrameworkResolver::<ProjectGraph>::name(&DjangoResolver), "django");
    assert_eq!(FrameworkResolver::<ProjectGraph>::languages(&DjangoResolver), vec![Language::Python]);
}

#[test]
fn a_strict_kind_never_lands_on_another_kind() {
    let graph = with_node(blog(), "User", "app/models.py", NodeKind::Field);
    let relation = refer("User", EdgeKind::RelatesTo, "app/models.py", &[]);

    assert!(resolve_reference(&relation, &graph).is_none(), "a field is no model");

    let graph = with_node(graph, "User", "auth/models.py", NodeKind::Model);
    let resolved = resolve_reference(&relation, &graph).unwrap();

    assert_eq!(resolved.target_node_id, "blog::auth/models.py::User");
}

#[test]
fn an_instantiation_may_name_a_symbol_of_another_kind() {
    let graph = with_import(
        with_node(blog(), "make_order", "app/util.py", NodeKind::Function),
        "app/views.py",
        "make_order",
        "make_order",
        "app.util",
    );
    let made = refer("make_order", EdgeKind::Instantiates, "app/views.py", &[]);

    assert_eq!(
        resolve_reference(&made, &graph).unwrap().target_node_id,
        "blog::app/util.py::make_order",
    );
}

#[test]
fn a_handler_stays_in_its_own_template() {
    let mut graph = blog();

    for file in ["b.html", "a.html"] {
        graph.nodes.push(owned(
            "submitOrder",
            &format!("{file}::submitOrder"),
            file,
            NodeKind::Method,
            Language::JavaScript,
        ));
    }

    for file in ["a.html", "b.html"] {
        let resolved =
            resolve_reference(&refer("submitOrder", EdgeKind::Handles, file, &[]), &graph).unwrap();

        assert_eq!(resolved.target_node_id, format!("blog::{file}::submitOrder"));
    }
}

#[test]
fn an_ambiguous_service_call_stays_pending() {
    let graph = with_owned(
        with_owned(blog(), "total", "a.py::OrderService.total", "a.py", NodeKind::Method),
        "total",
        "b.py::InvoiceService.total",
        "b.py",
        NodeKind::Method,
    );
    let call = |candidates: &[&str]| {
        resolve_reference(&refer("total", EdgeKind::Calls, "views.py", candidates), &graph)
    };

    assert!(call(&[SERVICE_DISPATCH]).is_none());
    assert_eq!(
        call(&[SERVICE_DISPATCH, "Invoice"]).unwrap().target_node_id,
        "blog::b.py::InvoiceService.total",
    );
}

#[test]
fn the_nearest_of_a_preferred_kind_is_chosen() {
    let candidates = [
        node("detail", "a/b/fields.py", NodeKind::Field),
        node("detail", "c/views.py", NodeKind::View),
        node("detail", "a/views.py", NodeKind::View),
        node("detail", "a/other.py", NodeKind::Function),
    ];
    let nearest = |preferred: &[NodeKind]| preferred_by_locality(&candidates, preferred, "a/b/urls.py");

    assert_eq!(nearest(&[NodeKind::View, NodeKind::Function]), Some(2), "a tie keeps the first");
    assert_eq!(nearest(&[NodeKind::Function]), Some(3));
    assert_eq!(nearest(&[NodeKind::Model]), None, "none is of a preferred kind");
    assert_eq!(preferred_by_locality(&[], &[NodeKind::View], "a/b/urls.py"), None);
}
