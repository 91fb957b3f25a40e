//! Facts about a node that several tools need to agree on.
//!
//! What counts as a definition, what counts as an orphan, what role a symbol plays in a
//! Django project. Each is a judgment call, so each is made once here.
use crate::chars::{
    after_last, after_last_spec, before_first, before_first_spec, cat2, cat4, contains, copy,
    ends_with, lemma_after_last, lemma_before_first, occurs, replace, replaced, same_text,
    starts_with, strip_suffix,
};
use crate::graph::{Language, Node, NodeKind};
use vstd::prelude::*;

verus! {

/// A method name dispatched dynamically across the whole codebase: queryset and manager
/// builtins, model lifecycle hooks, and dict, list and str methods. For such a name the
/// count of unresolved calls is dispatch noise, not hidden callers of one definition.
pub open spec fn dispatch_method_name(name: Seq<char>) -> bool {
    name == "add"@
        || name == "aggregate"@
        || name == "all"@
        || name == "annotate"@
        || name == "append"@
        || name == "bulk_create"@
        || name == "bulk_update"@
        || name == "clean"@
        || name == "clean_fields"@
        || name == "count"@
        || name == "create"@
        || name == "defer"@
        || name == "delete"@
        || name == "distinct"@
        || name == "exclude"@
        || name == "exists"@
        || name == "extend"@
        || name == "filter"@
        || name == "first"@
        || name == "full_clean"@
        || name == "get"@
        || name == "get_or_create"@
        || name == "items"@
        || name == "keys"@
        || name == "last"@
        || name == "latest"@
        || name == "none"@
        || name == "only"@
        || name == "order_by"@
        || name == "pop"@
        || name == "prefetch_related"@
        || name == "refresh_from_db"@
        || name == "remove"@
        || name == "save"@
        || name == "select_related"@
        || name == "setdefault"@
        || name == "update"@
        || name == "update_or_create"@
        || name == "values"@
        || name == "values_list"@
}

/// Whether a symbol name is a codebase-wide dynamic-dispatch method.
pub fn is_dispatch_method_name(name: &str) -> (found: bool)
    ensures
        found == dispatch_method_name(name@),
{
    same_text(name, "add")
        || same_text(name, "aggregate")
        || same_text(name, "all")
        || same_text(name, "annotate")
        || same_text(name, "append")
        || same_text(name, "bulk_create")
        || same_text(name, "bulk_update")
        || same_text(name, "clean")
        || same_text(name, "clean_fields")
        || same_text(name, "count")
        || same_text(name, "create")
        || same_text(name, "defer")
        || same_text(name, "delete")
        || same_text(name, "distinct")
        || same_text(name, "exclude")
        || same_text(name, "exists")
        || same_text(name, "extend")
        || same_text(name, "filter")
        || same_text(name, "first")
        || same_text(name, "full_clean")
        || same_text(name, "get")
        || same_text(name, "get_or_create")
        || same_text(name, "items")
        || same_text(name, "keys")
        || same_text(name, "last")
        || same_text(name, "latest")
        || same_text(name, "none")
        || same_text(name, "only")
        || same_text(name, "order_by")
        || same_text(name, "pop")
        || same_text(name, "prefetch_related")
        || same_text(name, "refresh_from_db")
        || same_text(name, "remove")
        || same_text(name, "save")
        || same_text(name, "select_related")
        || same_text(name, "setdefault")
        || same_text(name, "update")
        || same_text(name, "update_or_create")
        || same_text(name, "values")
        || same_text(name, "values_list")
}

/// A kind that defines behavior worth seeding structural ranking from.
pub open spec fn definition_kind(kind: NodeKind) -> bool {
    kind is Function || kind is Method || kind is Class || kind is Model || kind is View
        || kind is Route
}

pub fn is_definition_kind(kind: NodeKind) -> (found: bool)
    ensures
        found == definition_kind(kind),
{
    match kind {
        NodeKind::Function
        | NodeKind::Method
        | NodeKind::Class
        | NodeKind::Model
        | NodeKind::View
        | NodeKind::Route => true,
        _ => false,
    }
}

/// The qualified name ends with the dotted path at a name boundary: it is the path, or what
/// stands before the path ends with `.` or `::`.
pub open spec fn ends_at_boundary(qualified: Seq<char>, path: Seq<char>) -> bool {
    qualified == path || (path.is_suffix_of(qualified) && {
        let head = qualified.take(qualified.len() - path.len());
        "."@.is_suffix_of(head) || "::"@.is_suffix_of(head)
    })
}

/// Whether `qualified` ends with the dotted `path` at a name boundary: `a/b.py::Sync.save`
/// ends with `Sync.save`, not with `ave`.
pub fn qualified_name_ends_with(qualified: &str, path: &str) -> (found: bool)
    requires
        path@.len() > 0,
    ensures
        found == ends_at_boundary(qualified@, path@),
{
    if same_text(qualified, path) {
        return true;
    }
    match strip_suffix(qualified, path) {
        Some(head) => ends_with(head.as_str(), ".") || ends_with(head.as_str(), "::"),
        None => false,
    }
}

/// A match is never in the middle of an identifier: where the path is not the whole name,
/// the character before it is a dot or a colon.
pub proof fn law_match_stands_at_a_boundary(qualified: Seq<char>, path: Seq<char>)
    requires
        ends_at_boundary(qualified, path),
        qualified != path,
    ensures
        path.len() < qualified.len(),
        qualified[qualified.len() - path.len() - 1] == '.' || qualified[qualified.len() - path.len()
            - 1] == ':',
{
    reveal_strlit(".");
    reveal_strlit("::");
    let head = qualified.take(qualified.len() - path.len());
    if "."@.is_suffix_of(head) {
        assert(head.subrange(head.len() - 1, head.len() as int)[0] == head.last());
    } else {
        assert(head.subrange(head.len() - 2, head.len() as int)[1] == head.last());
    }
}

/// A kind that is not an importable name.
pub open spec fn unimportable_kind(kind: NodeKind) -> bool {
    kind is File || kind is Import || kind is Module || kind is Route || kind is Template
        || kind is Selector || kind is Parameter || kind is External
}

/// The text without one trailing pattern, where it has one.
pub open spec fn without_suffix(text: Seq<char>, pattern: Seq<char>) -> Seq<char> {
    if pattern.is_suffix_of(text) {
        text.take(text.len() - pattern.len())
    } else {
        text
    }
}

/// The import of a definition: the dotted module its file is, and the first name after the
/// file in its qualified name. A package's `__init__.py` is imported as the package.
pub open spec fn import_line(node: Node) -> Option<Seq<char>> {
    let path = replaced(node.file_path@, '\\', '/');
    let module = without_suffix(without_suffix(path, ".py"@), "/__init__"@);
    let owner = before_first_spec(after_last_spec(node.qualified_name@, "::"@), "."@);
    if !(node.language is Python) || unimportable_kind(node.kind) || !".py"@.is_suffix_of(path)
        || module.len() == 0 || owner.len() == 0 {
        None
    } else {
        Some("from "@ + replaced(module, '/', '.') + " import "@ + owner)
    }
}

/// The canonical Python import for a definition: `app/x/models.py::Order.save` is imported
/// by `from app.x.models import Order`. `None` for non-Python nodes and for kinds that are
/// not importable names.
pub fn python_import_line(node: &Node) -> (line: Option<String>)
    ensures
        match line {
            Some(line) => import_line(*node) == Some(line@),
            None => import_line(*node) is None,
        },
{
    match node.language {
        Language::Python => {},
        _ => {
            return None;
        },
    }
    match node.kind {
        NodeKind::File
        | NodeKind::Import
        | NodeKind::Module
        | NodeKind::Route
        | NodeKind::Template
        | NodeKind::Selector
        | NodeKind::Parameter
        | NodeKind::External => {
            return None;
        },
        _ => {},
    }
    let path = replace(node.file_path.as_str(), '\\', '/');
    let bare = match strip_suffix(path.as_str(), ".py") {
        Some(bare) => bare,
        None => {
            return None;
        },
    };
    let module = match strip_suffix(bare.as_str(), "/__init__") {
        Some(package) => package,
        None => bare,
    };
    if module.as_str().is_empty() {
        return None;
    }
    let dotted = replace(module.as_str(), '/', '.');
    let after = after_last(node.qualified_name.as_str(), "::");
    let owner = before_first(after.as_str(), ".");
    if owner.as_str().is_empty() {
        return None;
    }
    Some(cat4("from ", dotted.as_str(), " import ", owner.as_str()))
}

/// The qualified name has an owner: the part behind the file names a member.
pub open spec fn has_owner(qualified: Seq<char>) -> bool {
    occurs(after_last_spec(qualified, "::"@), "."@)
}

/// A top-level definition a reader would test directly, not a method, property, nested
/// `Meta` or dunder, which inherit coverage from their owner.
pub open spec fn coverage_checkable(node: Node) -> bool {
    (node.kind is Class || node.kind is Model || node.kind is Function || node.kind is View)
        && !has_owner(node.qualified_name@) && node.name@ != "Meta"@ && !("__"@.is_prefix_of(
        node.name@,
    ) && "__"@.is_suffix_of(node.name@))
}

/// Whether a symbol is worth a "no covering tests" flag.
pub fn is_coverage_checkable(node: &Node) -> (found: bool)
    ensures
        found == coverage_checkable(*node),
{
    let kind = match node.kind {
        NodeKind::Class | NodeKind::Model | NodeKind::Function | NodeKind::View => true,
        _ => false,
    };
    let name = node.name.as_str();
    let tail = after_last(node.qualified_name.as_str(), "::");
    kind && !contains(tail.as_str(), ".") && !same_text(name, "Meta") && !(starts_with(name, "__") && ends_with(name, "__"))
}

/// Whether an edgeless definition is a real dead-code candidate, not a hook the framework
/// reaches without a static caller.
pub fn is_orphan_candidate(framework_reached: bool) -> (found: bool)
    ensures
        found == !framework_reached,
{
    !framework_reached
}

/// A field's type suffix, as ` - CharField(max_length=200)`, or nothing where the extractor
/// captured no signature.
pub open spec fn field_signature_spec(field: Node) -> Seq<char> {
    match field.signature {
        Some(signature) => if signature@.len() > 0 {
            " - "@ + replaced(signature@, '\n', ' ')
        } else {
            ""@
        },
        None => ""@,
    }
}

pub fn field_signature(field: &Node) -> (suffix: String)
    ensures
        suffix@ == field_signature_spec(*field),
{
    match &field.signature {
        Some(signature) => if !signature.as_str().is_empty() {
            cat2(" - ", replace(signature.as_str(), '\n', ' ').as_str())
        } else {
            copy("")
        },
        None => copy(""),
    }
}

/// The `Owner.member` tail of a qualified name where it has an owner, else the whole
/// `file::name` form: the shortest form a caller can pass to target this exact node.
pub open spec fn targetable_spec(qualified: Seq<char>) -> Seq<char> {
    if has_owner(qualified) {
        after_last_spec(qualified, "::"@)
    } else {
        qualified
    }
}

pub fn targetable_name(node: &Node) -> (name: String)
    ensures
        name@ == targetable_spec(node.qualified_name@),
{
    let tail = after_last(node.qualified_name.as_str(), "::");
    if contains(tail.as_str(), ".") {
        tail
    } else {
        copy(node.qualified_name.as_str())
    }
}

/// The layer named by a class-name convention, most specific first.
pub open spec fn role_by_name(name: Seq<char>) -> Option<Seq<char>> {
    if "QuerySet"@.is_suffix_of(name) || "Manager"@.is_suffix_of(name) {
        Some("queryset"@)
    } else if "Service"@.is_suffix_of(name) {
        Some("service"@)
    } else if "Form"@.is_suffix_of(name) {
        Some("form"@)
    } else if "Serializer"@.is_suffix_of(name) {
        Some("serializer"@)
    } else if "Admin"@.is_suffix_of(name) {
        Some("admin"@)
    } else if "Choices"@.is_suffix_of(name) {
        Some("choices"@)
    } else {
        None
    }
}

/// The layer named by a file-path convention.
pub open spec fn role_by_path(path: Seq<char>) -> Option<Seq<char>> {
    if occurs(path, "json_views"@) {
        Some("json-view"@)
    } else if occurs(path, "form_views"@) {
        Some("form-view"@)
    } else if occurs(path, "page_views"@) {
        Some("page-view"@)
    } else if occurs(path, "template_views"@) {
        Some("template-view"@)
    } else if "/views.py"@.is_suffix_of(path) || occurs(path, "/views/"@) {
        Some("view"@)
    } else if occurs(path, "queryset"@) {
        Some("queryset"@)
    } else if occurs(path, "factories"@) || occurs(path, "factory"@) {
        Some("factory"@)
    } else if "/services.py"@.is_suffix_of(path) || occurs(path, "/services/"@) {
        Some("service"@)
    } else if "/forms.py"@.is_suffix_of(path) {
        Some("form"@)
    } else if "/admin.py"@.is_suffix_of(path) {
        Some("admin"@)
    } else if "/serializers.py"@.is_suffix_of(path) {
        Some("serializer"@)
    } else {
        None
    }
}

/// The architectural layer of a symbol: by its kind, then by its being test code, then by
/// its name, then by its path.
pub open spec fn role_spec(node: Node) -> Option<Seq<char>> {
    match node.kind {
        NodeKind::Route => Some("route"@),
        NodeKind::Template => Some("template"@),
        NodeKind::Selector => Some("css-selector"@),
        NodeKind::Model => Some("model"@),
        _ => if node.in_test_file {
            Some("test"@)
        } else {
            match role_by_name(node.name@) {
                Some(role) => Some(role),
                None => role_by_path(node.file_path@),
            }
        },
    }
}

/// A role as a value.
pub open spec fn role_view(role: Option<&'static str>) -> Option<Seq<char>> {
    match role {
        Some(role) => Some(role@),
        None => None,
    }
}

/// The architectural layer a symbol belongs to, inferred from file and name conventions.
/// `None` for ordinary code that matches no convention.
pub fn symbol_role(node: &Node) -> (role: Option<&'static str>)
    ensures
        role_view(role) == role_spec(*node),
{
    let path = node.file_path.as_str();
    let name = node.name.as_str();
    match node.kind {
        NodeKind::Route => {
            return Some("route");
        },
        NodeKind::Template => {
            return Some("template");
        },
        NodeKind::Selector => {
            return Some("css-selector");
        },
        NodeKind::Model => {
            return Some("model");
        },
        _ => {},
    }
    if node.in_test_file {
        return Some("test");
    }
    if ends_with(name, "QuerySet") || ends_with(name, "Manager") {
        return Some("queryset");
    }
    if ends_with(name, "Service") {
        return Some("service");
    }
    if ends_with(name, "Form") {
        return Some("form");
    }
    if ends_with(name, "Serializer") {
        return Some("serializer");
    }
    if ends_with(name, "Admin") {
        return Some("admin");
    }
    if ends_with(name, "Choices") {
        return Some("choices");
    }
    if contains(path, "json_views") {
        Some("json-view")
    } else if contains(path, "form_views") {
        Some("form-view")
    } else if contains(path, "page_views") {
        Some("page-view")
    } else if contains(path, "template_views") {
        Some("template-view")
    } else if ends_with(path, "/views.py") || contains(path, "/views/") {
        Some("view")
    } else if contains(path, "queryset") {
        Some("queryset")
    } else if contains(path, "factories") || contains(path, "factory") {
        Some("factory")
    } else if ends_with(path, "/services.py") || contains(path, "/services/") {
        Some("service")
    } else if ends_with(path, "/forms.py") {
        Some("form")
    } else if ends_with(path, "/admin.py") {
        Some("admin")
    } else if ends_with(path, "/serializers.py") {
        Some("serializer")
    } else {
        None
    }
}

// ---------------------------------------------------------------------------
// What the names of a symbol say

/// A top-level symbol of a Python module is imported from it by its name: the module is the path
/// of the file without its extension, with dots for slashes.
pub proof fn law_a_symbol_is_imported_from_its_module(
    node: Node,
    module: Seq<char>,
    file: Seq<char>,
    owner: Seq<char>,
    member: Seq<char>,
)
    requires
        node.language is Python,
        !(node.kind is File || node.kind is Import || node.kind is Module || node.kind is Route
            || node.kind is Template || node.kind is Selector || node.kind is Parameter
            || node.kind is External),
        module.len() > 0,
        !module.contains('\\'),
        !"/__init__"@.is_suffix_of(module),
        node.file_path@ == module + ".py"@ || node.file_path@ == module + "/__init__.py"@,
        owner.len() > 0,
        !owner.contains('.'),
        !owner.contains(':'),
        !member.contains(':'),
        node.qualified_name@ == file + "::"@ + owner || node.qualified_name@ == file + "::"@ + (owner
            + seq!['.'] + member),
    ensures
        import_line(node) == Some(
            "from "@ + replaced(module, '/', '.') + " import "@ + owner,
        ),
{
    reveal_strlit("::");
    reveal_strlit(".");
    reveal_strlit(".py");
    reveal_strlit("/__init__");
    reveal_strlit("/__init__.py");
    assert("."@ =~= seq!['.']);
    let path = node.file_path@;
    let plain = replaced(path, '\\', '/');
    assert forall|k: int| 0 <= k < path.len() implies #[trigger] path[k] != '\\' by {
        if k < module.len() {
            assert(path[k] == module[k]);
            assert(module.contains(module[k]));
        }
    }
    assert(plain =~= path);
    assert("/__init__.py"@ =~= "/__init__"@ + ".py"@);
    let bare = without_suffix(path, ".py"@);
    if path == module + ".py"@ {
        assert(path.subrange(module.len() as int, path.len() as int) =~= ".py"@);
        assert(bare =~= module);
    } else {
        assert(path =~= module + "/__init__"@ + ".py"@);
        assert(path.subrange(path.len() - 3, path.len() as int) =~= ".py"@);
        assert(bare =~= module + "/__init__"@);
        assert(bare.subrange(module.len() as int, bare.len() as int) =~= "/__init__"@);
        assert(without_suffix(bare, "/__init__"@) =~= module);
    }
    let behind = if node.qualified_name@ == file + "::"@ + owner {
        owner
    } else {
        owner + seq!['.'] + member
    };
    assert(!behind.contains(':')) by {
        if behind.contains(':') {
            let k = choose|k: int| 0 <= k < behind.len() && behind[k] == ':';
            if k < owner.len() {
                assert(owner.contains(owner[k]));
            } else if k > owner.len() {
                assert(behind[k] == member[k - owner.len() - 1]);
                assert(member.contains(':'));
            }
        }
    }
    lemma_after_last(file, "::"@, behind);
    lemma_before_first(owner, '.', member);
}

/// A member goes by its owner's name and its own, a top-level symbol by its whole qualified name.
pub proof fn law_a_symbol_is_targeted_by_its_shortest_name(
    file: Seq<char>,
    owner: Seq<char>,
    member: Seq<char>,
)
    requires
        !owner.contains('.'),
        !owner.contains(':'),
        !member.contains(':'),
    ensures
        targetable_spec(file + "::"@ + (owner + seq!['.'] + member)) == owner + seq!['.'] + member,
        targetable_spec(file + "::"@ + owner) == file + "::"@ + owner,
{
    lemma_owner_named(file, owner, member);
}

proof fn lemma_owner_named(file: Seq<char>, owner: Seq<char>, member: Seq<char>)
    requires
        !owner.contains('.'),
        !owner.contains(':'),
        !member.contains(':'),
    ensures
        after_last_spec(file + "::"@ + (owner + seq!['.'] + member), "::"@) == owner + seq!['.']
            + member,
        has_owner(file + "::"@ + (owner + seq!['.'] + member)),
        !has_owner(file + "::"@ + owner),
{
    reveal_strlit("::");
    reveal_strlit(".");
    assert("."@ =~= seq!['.']);
    let behind = owner + seq!['.'] + member;
    if behind.contains(':') {
        let k = choose|k: int| 0 <= k < behind.len() && behind[k] == ':';
        if k < owner.len() {
            assert(owner.contains(owner[k]));
        } else if k > owner.len() {
            assert(behind[k] == member[k - owner.len() - 1]);
            assert(member.contains(':'));
        }
    }
    lemma_after_last(file, "::"@, behind);
    lemma_after_last(file, "::"@, owner);
    lemma_before_first(owner, '.', member);
}

/// A top-level function, class, model or view is worth a test of its own, and a member of one is
/// not. Neither is a symbol of another kind, a `Meta` class or a symbol named between double
/// underscores.
pub proof fn law_top_level_definitions_are_checked_for_tests(
    node: Node,
    file: Seq<char>,
    owner: Seq<char>,
    member: Seq<char>,
)
    requires
        !owner.contains('.'),
        !owner.contains(':'),
        !member.contains(':'),
    ensures
        node.qualified_name@ == file + "::"@ + owner ==> (coverage_checkable(node) <==> (
        node.kind is Class || node.kind is Function || node.kind is Model || node.kind is View)
            && node.name@ != "Meta"@ && !("__"@.is_prefix_of(node.name@) && "__"@.is_suffix_of(
            node.name@,
        ))),
        node.qualified_name@ == file + "::"@ + (owner + seq!['.'] + member) ==> !coverage_checkable(
            node,
        ),
{
    lemma_owner_named(file, owner, member);
}

/// A name that ends in a convention says the layer of its symbol, unless the symbol is test code or
/// of a kind that is a layer by itself.
pub proof fn law_a_name_says_its_layer(node: Node, stem: Seq<char>)
    requires
        !(node.kind is Route || node.kind is Template || node.kind is Selector || node.kind
            is Model),
    ensures
        node.in_test_file ==> role_spec(node) == Some("test"@),
        !node.in_test_file && node.name@ == stem + "QuerySet"@ ==> role_spec(node) == Some(
            "queryset"@,
        ),
        !node.in_test_file && node.name@ == stem + "Manager"@ ==> role_spec(node) == Some(
            "queryset"@,
        ),
        !node.in_test_file && node.name@ == stem + "Service"@ ==> role_spec(node) == Some(
            "service"@,
        ),
        !node.in_test_file && node.name@ == stem + "Form"@ ==> role_spec(node) == Some("form"@),
        !node.in_test_file && node.name@ == stem + "Serializer"@ ==> role_spec(node) == Some(
            "serializer"@,
        ),
        !node.in_test_file && node.name@ == stem + "Admin"@ ==> role_spec(node) == Some("admin"@),
        !node.in_test_file && node.name@ == stem + "Choices"@ ==> role_spec(node) == Some(
            "choices"@,
        ),
{
    reveal_strlit("QuerySet");
    reveal_strlit("Manager");
    reveal_strlit("Service");
    reveal_strlit("Form");
    reveal_strlit("Serializer");
    reveal_strlit("Admin");
    reveal_strlit("Choices");
    let name = node.name@;
    lemma_one_ending(stem, "QuerySet"@, name);
    lemma_one_ending(stem, "Manager"@, name);
    lemma_one_ending(stem, "Service"@, name);
    lemma_one_ending(stem, "Form"@, name);
    lemma_one_ending(stem, "Serializer"@, name);
    lemma_one_ending(stem, "Admin"@, name);
    lemma_one_ending(stem, "Choices"@, name);
    lemma_ending_char("QuerySet"@, name);
    lemma_ending_char("Manager"@, name);
    lemma_ending_char("Service"@, name);
    lemma_ending_char("Form"@, name);
    lemma_ending_char("Serializer"@, name);
    lemma_ending_char("Admin"@, name);
    lemma_ending_char("Choices"@, name);
}

proof fn lemma_one_ending(stem: Seq<char>, ending: Seq<char>, name: Seq<char>)
    ensures
        name == stem + ending ==> ending.is_suffix_of(name),
{
    if name == stem + ending {
        assert(name.subrange(stem.len() as int, name.len() as int) =~= ending);
    }
}

proof fn lemma_ending_char(ending: Seq<char>, name: Seq<char>)
    requires
        ending.len() >= 3,
    ensures
        ending.is_suffix_of(name) ==> name.len() >= 3 && name.last() == ending.last()
            && name[name.len() - 2] == ending[ending.len() - 2] && name[name.len() - 3]
            == ending[ending.len() - 3],
{
    if ending.is_suffix_of(name) {
        let tail = name.subrange(name.len() - ending.len(), name.len() as int);
        assert(tail == ending);
        assert(tail[ending.len() - 1] == name.last());
        assert(tail[ending.len() - 2] == name[name.len() - 2]);
        assert(tail[ending.len() - 3] == name[name.len() - 3]);
    }
}

/// A qualified name ends with a path where what stands before the path is a dot or a double colon,
/// or nothing; and never in the middle of a name.
pub proof fn law_a_path_ends_a_name_at_its_parts(head: Seq<char>, path: Seq<char>)
    requires
        path.len() > 0,
    ensures
        ends_at_boundary(path, path),
        ends_at_boundary(head + "."@ + path, path),
        ends_at_boundary(head + "::"@ + path, path),
        head.len() > 0 && head.last() != '.' && head.last() != ':' ==> !ends_at_boundary(
            head + path,
            path,
        ),
{
    reveal_strlit(".");
    reveal_strlit("::");
    let dotted = head + "."@ + path;
    assert(dotted.subrange(dotted.len() - path.len(), dotted.len() as int) =~= path);
    let front = dotted.take(dotted.len() - path.len());
    assert(front.subrange(front.len() - 1, front.len() as int) =~= "."@);
    let filed = head + "::"@ + path;
    assert(filed.subrange(filed.len() - path.len(), filed.len() as int) =~= path);
    let front = filed.take(filed.len() - path.len());
    assert(front.subrange(front.len() - 2, front.len() as int) =~= "::"@);
    let joined = head + path;
    let front = joined.take(joined.len() - path.len());
    assert(front =~= head);
    if head.len() > 0 {
        if "."@.is_suffix_of(head) {
            assert("."@.last() == head.last());
        }
        if "::"@.is_suffix_of(head) {
            assert("::"@.last() == head.last());
        }
        assert(joined.len() != path.len());
    }
}

/// What a kind is settles its layer wherever it stands, and a class or function that its name says
/// nothing of is told by the one mark that its path bears.
pub proof fn law_a_path_says_its_layer(node: Node)
    requires
        !node.in_test_file,
        role_by_name(node.name@) is None,
        !(node.kind is Route || node.kind is Template || node.kind is Selector || node.kind
            is Model),
    ensures
        ({
            let path = node.file_path@;
            let role = role_spec(node);
            let special = occurs(path, "json_views"@) || occurs(path, "form_views"@) || occurs(
                path,
                "page_views"@,
            ) || occurs(path, "template_views"@);
            let viewed = special || "/views.py"@.is_suffix_of(path) || occurs(path, "/views/"@);
            let helped = viewed || occurs(path, "queryset"@) || occurs(path, "factories"@)
                || occurs(path, "factory"@);
            let served = helped || "/services.py"@.is_suffix_of(path) || occurs(
                path,
                "/services/"@,
            );
            &&& role == Some("view"@) <==> viewed && !special
            &&& role == Some("service"@) <==> served && !helped
            &&& role == Some("form"@) <==> !served && "/forms.py"@.is_suffix_of(path)
            &&& role is Some && !served ==> "/forms.py"@.is_suffix_of(path)
                || "/admin.py"@.is_suffix_of(path) || "/serializers.py"@.is_suffix_of(path)
            &&& served ==> role is Some
        }),
{
    reveal_strlit("json-view");
    reveal_strlit("form-view");
    reveal_strlit("page-view");
    reveal_strlit("template-view");
    reveal_strlit("view");
    reveal_strlit("queryset");
    reveal_strlit("factory");
    reveal_strlit("service");
    reveal_strlit("form");
    reveal_strlit("admin");
    reveal_strlit("serializer");
    assert("json-view"@.len() == 9 && "form-view"@.len() == 9 && "page-view"@.len() == 9);
    assert("template-view"@.len() == 13 && "view"@.len() == 4 && "queryset"@.len() == 8);
    assert("factory"@.len() == 7 && "service"@.len() == 7 && "form"@.len() == 4);
    assert("admin"@.len() == 5 && "serializer"@.len() == 10);
    assert("factory"@[0] == 'f' && "service"@[0] == 's');
    assert("form"@[0] == 'f' && "view"@[0] == 'v');
}

/// Nothing but a definition of a Python module can be imported by name: not what is written in
/// another language, nor a file, a module, an import, a route, a template, a selector, a parameter
/// or what lies outside.
pub proof fn law_only_definitions_are_imported(node: Node)
    requires
        import_line(node) is Some,
    ensures
        node.language is Python,
        !(node.kind is External || node.kind is File || node.kind is Import || node.kind is Module
            || node.kind is Parameter || node.kind is Route || node.kind is Selector || node.kind
            is Template),
        ".py"@.is_suffix_of(replaced(node.file_path@, '\\', '/')),
{
}

} // verus!
