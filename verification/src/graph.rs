//! The graph's vocabulary: the kinds of node and edge, and the node itself.
use crate::chars::same_text;
use vstd::prelude::*;

verus! {

/// What a node of the graph stands for.
#[derive(Clone, Copy, Debug, PartialEq, Eq, Hash, Structural)]
pub enum NodeKind {
    Model,
    Class,
    Function,
    Method,
    View,
    Route,
    Template,
    Selector,
    Field,
    Property,
    Module,
    File,
    External,
    Constant,
    Variable,
    Parameter,
    Import,
}

impl NodeKind {
    /// The label the graph writes for this value.
    pub open spec fn label(self) -> Seq<char> {
        match self {
            NodeKind::Model => "model"@,
            NodeKind::Class => "class"@,
            NodeKind::Function => "function"@,
            NodeKind::Method => "method"@,
            NodeKind::View => "view"@,
            NodeKind::Route => "route"@,
            NodeKind::Template => "template"@,
            NodeKind::Selector => "selector"@,
            NodeKind::Field => "field"@,
            NodeKind::Property => "property"@,
            NodeKind::Module => "module"@,
            NodeKind::File => "file"@,
            NodeKind::External => "external"@,
            NodeKind::Constant => "constant"@,
            NodeKind::Variable => "variable"@,
            NodeKind::Parameter => "parameter"@,
            NodeKind::Import => "import"@,
        }
    }

    pub fn as_str(self) -> (label: &'static str)
        ensures
            label@ == self.label(),
    {
        match self {
            NodeKind::Model => "model",
            NodeKind::Class => "class",
            NodeKind::Function => "function",
            NodeKind::Method => "method",
            NodeKind::View => "view",
            NodeKind::Route => "route",
            NodeKind::Template => "template",
            NodeKind::Selector => "selector",
            NodeKind::Field => "field",
            NodeKind::Property => "property",
            NodeKind::Module => "module",
            NodeKind::File => "file",
            NodeKind::External => "external",
            NodeKind::Constant => "constant",
            NodeKind::Variable => "variable",
            NodeKind::Parameter => "parameter",
            NodeKind::Import => "import",
        }
    }

    /// The value that carries this label, if one does.
    pub open spec fn named(text: Seq<char>) -> Option<NodeKind> {
        if text == "model"@ {
            Some(NodeKind::Model)
        } else if text == "class"@ {
            Some(NodeKind::Class)
        } else if text == "function"@ {
            Some(NodeKind::Function)
        } else if text == "method"@ {
            Some(NodeKind::Method)
        } else if text == "view"@ {
            Some(NodeKind::View)
        } else if text == "route"@ {
            Some(NodeKind::Route)
        } else if text == "template"@ {
            Some(NodeKind::Template)
        } else if text == "selector"@ {
            Some(NodeKind::Selector)
        } else if text == "field"@ {
            Some(NodeKind::Field)
        } else if text == "property"@ {
            Some(NodeKind::Property)
        } else if text == "module"@ {
            Some(NodeKind::Module)
        } else if text == "file"@ {
            Some(NodeKind::File)
        } else if text == "external"@ {
            Some(NodeKind::External)
        } else if text == "constant"@ {
            Some(NodeKind::Constant)
        } else if text == "variable"@ {
            Some(NodeKind::Variable)
        } else if text == "parameter"@ {
            Some(NodeKind::Parameter)
        } else if text == "import"@ {
            Some(NodeKind::Import)
        } else {
            None
        }
    }

    pub fn from_str_label(text: &str) -> (found: Option<NodeKind>)
        ensures
            found == NodeKind::named(text@),
    {
        if same_text(text, "model") {
            return Some(NodeKind::Model);
        }
        if same_text(text, "class") {
            return Some(NodeKind::Class);
        }
        if same_text(text, "function") {
            return Some(NodeKind::Function);
        }
        if same_text(text, "method") {
            return Some(NodeKind::Method);
        }
        if same_text(text, "view") {
            return Some(NodeKind::View);
        }
        if same_text(text, "route") {
            return Some(NodeKind::Route);
        }
        if same_text(text, "template") {
            return Some(NodeKind::Template);
        }
        if same_text(text, "selector") {
            return Some(NodeKind::Selector);
        }
        if same_text(text, "field") {
            return Some(NodeKind::Field);
        }
        if same_text(text, "property") {
            return Some(NodeKind::Property);
        }
        if same_text(text, "module") {
            return Some(NodeKind::Module);
        }
        if same_text(text, "file") {
            return Some(NodeKind::File);
        }
        if same_text(text, "external") {
            return Some(NodeKind::External);
        }
        if same_text(text, "constant") {
            return Some(NodeKind::Constant);
        }
        if same_text(text, "variable") {
            return Some(NodeKind::Variable);
        }
        if same_text(text, "parameter") {
            return Some(NodeKind::Parameter);
        }
        if same_text(text, "import") {
            return Some(NodeKind::Import);
        }
        None
    }
}

/// Every label reads back as the value that carries it.
pub proof fn law_node_kind_labels_read_back(value: NodeKind)
    ensures
        NodeKind::named(value.label()) == Some(value),
{
    reveal_strlit("model");
    reveal_strlit("class");
    reveal_strlit("function");
    reveal_strlit("method");
    reveal_strlit("view");
    reveal_strlit("route");
    reveal_strlit("template");
    reveal_strlit("selector");
    reveal_strlit("field");
    reveal_strlit("property");
    reveal_strlit("module");
    reveal_strlit("file");
    reveal_strlit("external");
    reveal_strlit("constant");
    reveal_strlit("variable");
    reveal_strlit("parameter");
    reveal_strlit("import");
    assert("model"@.len() == 5);
    assert("class"@.len() == 5);
    assert("function"@.len() == 8);
    assert("method"@.len() == 6);
    assert("view"@.len() == 4);
    assert("route"@.len() == 5);
    assert("template"@.len() == 8);
    assert("selector"@.len() == 8);
    assert("field"@.len() == 5);
    assert("property"@.len() == 8);
    assert("module"@.len() == 6);
    assert("file"@.len() == 4);
    assert("external"@.len() == 8);
    assert("constant"@.len() == 8);
    assert("variable"@.len() == 8);
    assert("parameter"@.len() == 9);
    assert("import"@.len() == 6);
    assert("model"@[0] == 'm');
    assert("class"@[0] == 'c');
    assert("function"@[0] == 'f');
    assert("method"@[0] == 'm');
    assert("method"@[1] == 'e');
    assert("view"@[0] == 'v');
    assert("route"@[0] == 'r');
    assert("template"@[0] == 't');
    assert("selector"@[0] == 's');
    assert("field"@[0] == 'f');
    assert("property"@[0] == 'p');
    assert("module"@[0] == 'm');
    assert("module"@[1] == 'o');
    assert("file"@[0] == 'f');
    assert("external"@[0] == 'e');
    assert("constant"@[0] == 'c');
    assert("variable"@[0] == 'v');
    assert("import"@[0] == 'i');
}

/// What an edge of the graph says of its two ends.
#[derive(Clone, Copy, Debug, PartialEq, Eq, Hash, Structural)]
pub enum EdgeKind {
    Contains,
    Imports,
    References,
    Returns,
    TypeOf,
    Calls,
    RoutesTo,
    Renders,
    Resolves,
    Handles,
    Receives,
    Instantiates,
    Overrides,
    Decorates,
    Extends,
    ExtendsTemplate,
    IncludesTemplate,
    OverridesTemplate,
    RelatesTo,
    AccessesMember,
    ContextType,
    LoopBinding,
    ReverseAccessor,
    DerivedCollection,
    AdminOf,
    Tests,
    Reads,
    UsesTag,
    Styles,
}

impl EdgeKind {
    /// The label the graph writes for this value.
    pub open spec fn label(self) -> Seq<char> {
        match self {
            EdgeKind::Contains => "contains"@,
            EdgeKind::Imports => "imports"@,
            EdgeKind::References => "references"@,
            EdgeKind::Returns => "returns"@,
            EdgeKind::TypeOf => "type_of"@,
            EdgeKind::Calls => "calls"@,
            EdgeKind::RoutesTo => "routes_to"@,
            EdgeKind::Renders => "renders"@,
            EdgeKind::Resolves => "resolves"@,
            EdgeKind::Handles => "handles"@,
            EdgeKind::Receives => "receives"@,
            EdgeKind::Instantiates => "instantiates"@,
            EdgeKind::Overrides => "overrides"@,
            EdgeKind::Decorates => "decorates"@,
            EdgeKind::Extends => "extends"@,
            EdgeKind::ExtendsTemplate => "extends_template"@,
            EdgeKind::IncludesTemplate => "includes_template"@,
            EdgeKind::OverridesTemplate => "overrides_template"@,
            EdgeKind::RelatesTo => "relates_to"@,
            EdgeKind::AccessesMember => "accesses_member"@,
            EdgeKind::ContextType => "context_type"@,
            EdgeKind::LoopBinding => "loop_binding"@,
            EdgeKind::ReverseAccessor => "reverse_accessor"@,
            EdgeKind::DerivedCollection => "derived_collection"@,
            EdgeKind::AdminOf => "admin_of"@,
            EdgeKind::Tests => "tests"@,
            EdgeKind::Reads => "reads"@,
            EdgeKind::UsesTag => "uses_tag"@,
            EdgeKind::Styles => "styles"@,
        }
    }

    pub fn as_str(self) -> (label: &'static str)
        ensures
            label@ == self.label(),
    {
        match self {
            EdgeKind::Contains => "contains",
            EdgeKind::Imports => "imports",
            EdgeKind::References => "references",
            EdgeKind::Returns => "returns",
            EdgeKind::TypeOf => "type_of",
            EdgeKind::Calls => "calls",
            EdgeKind::RoutesTo => "routes_to",
            EdgeKind::Renders => "renders",
            EdgeKind::Resolves => "resolves",
            EdgeKind::Handles => "handles",
            EdgeKind::Receives => "receives",
            EdgeKind::Instantiates => "instantiates",
            EdgeKind::Overrides => "overrides",
            EdgeKind::Decorates => "decorates",
            EdgeKind::Extends => "extends",
            EdgeKind::ExtendsTemplate => "extends_template",
            EdgeKind::IncludesTemplate => "includes_template",
            EdgeKind::OverridesTemplate => "overrides_template",
            EdgeKind::RelatesTo => "relates_to",
            EdgeKind::AccessesMember => "accesses_member",
            EdgeKind::ContextType => "context_type",
            EdgeKind::LoopBinding => "loop_binding",
            EdgeKind::ReverseAccessor => "reverse_accessor",
            EdgeKind::DerivedCollection => "derived_collection",
            EdgeKind::AdminOf => "admin_of",
            EdgeKind::Tests => "tests",
            EdgeKind::Reads => "reads",
            EdgeKind::UsesTag => "uses_tag",
            EdgeKind::Styles => "styles",
        }
    }

    /// The value that carries this label, if one does.
    pub open spec fn named(text: Seq<char>) -> Option<EdgeKind> {
        if text == "contains"@ {
            Some(EdgeKind::Contains)
        } else if text == "imports"@ {
            Some(EdgeKind::Imports)
        } else if text == "references"@ {
            Some(EdgeKind::References)
        } else if text == "returns"@ {
            Some(EdgeKind::Returns)
        } else if text == "type_of"@ {
            Some(EdgeKind::TypeOf)
        } else if text == "calls"@ {
            Some(EdgeKind::Calls)
        } else if text == "routes_to"@ {
            Some(EdgeKind::RoutesTo)
        } else if text == "renders"@ {
            Some(EdgeKind::Renders)
        } else if text == "resolves"@ {
            Some(EdgeKind::Resolves)
        } else if text == "handles"@ {
            Some(EdgeKind::Handles)
        } else if text == "receives"@ {
            Some(EdgeKind::Receives)
        } else if text == "instantiates"@ {
            Some(EdgeKind::Instantiates)
        } else if text == "overrides"@ {
            Some(EdgeKind::Overrides)
        } else if text == "decorates"@ {
            Some(EdgeKind::Decorates)
        } else if text == "extends"@ {
            Some(EdgeKind::Extends)
        } else if text == "extends_template"@ {
            Some(EdgeKind::ExtendsTemplate)
        } else if text == "includes_template"@ {
            Some(EdgeKind::IncludesTemplate)
        } else if text == "overrides_template"@ {
            Some(EdgeKind::OverridesTemplate)
        } else if text == "relates_to"@ {
            Some(EdgeKind::RelatesTo)
        } else if text == "accesses_member"@ {
            Some(EdgeKind::AccessesMember)
        } else if text == "context_type"@ {
            Some(EdgeKind::ContextType)
        } else if text == "loop_binding"@ {
            Some(EdgeKind::LoopBinding)
        } else if text == "reverse_accessor"@ {
            Some(EdgeKind::ReverseAccessor)
        } else if text == "derived_collection"@ {
            Some(EdgeKind::DerivedCollection)
        } else if text == "admin_of"@ {
            Some(EdgeKind::AdminOf)
        } else if text == "tests"@ {
            Some(EdgeKind::Tests)
        } else if text == "reads"@ {
            Some(EdgeKind::Reads)
        } else if text == "uses_tag"@ {
            Some(EdgeKind::UsesTag)
        } else if text == "styles"@ {
            Some(EdgeKind::Styles)
        } else {
            None
        }
    }

    pub fn from_str_label(text: &str) -> (found: Option<EdgeKind>)
        ensures
            found == EdgeKind::named(text@),
    {
        if same_text(text, "contains") {
            return Some(EdgeKind::Contains);
        }
        if same_text(text, "imports") {
            return Some(EdgeKind::Imports);
        }
        if same_text(text, "references") {
            return Some(EdgeKind::References);
        }
        if same_text(text, "returns") {
            return Some(EdgeKind::Returns);
        }
        if same_text(text, "type_of") {
            return Some(EdgeKind::TypeOf);
        }
        if same_text(text, "calls") {
            return Some(EdgeKind::Calls);
        }
        if same_text(text, "routes_to") {
            return Some(EdgeKind::RoutesTo);
        }
        if same_text(text, "renders") {
            return Some(EdgeKind::Renders);
        }
        if same_text(text, "resolves") {
            return Some(EdgeKind::Resolves);
        }
        if same_text(text, "handles") {
            return Some(EdgeKind::Handles);
        }
        if same_text(text, "receives") {
            return Some(EdgeKind::Receives);
        }
        if same_text(text, "instantiates") {
            return Some(EdgeKind::Instantiates);
        }
        if same_text(text, "overrides") {
            return Some(EdgeKind::Overrides);
        }
        if same_text(text, "decorates") {
            return Some(EdgeKind::Decorates);
        }
        if same_text(text, "extends") {
            return Some(EdgeKind::Extends);
        }
        if same_text(text, "extends_template") {
            return Some(EdgeKind::ExtendsTemplate);
        }
        if same_text(text, "includes_template") {
            return Some(EdgeKind::IncludesTemplate);
        }
        if same_text(text, "overrides_template") {
            return Some(EdgeKind::OverridesTemplate);
        }
        if same_text(text, "relates_to") {
            return Some(EdgeKind::RelatesTo);
        }
        if same_text(text, "accesses_member") {
            return Some(EdgeKind::AccessesMember);
        }
        if same_text(text, "context_type") {
            return Some(EdgeKind::ContextType);
        }
        if same_text(text, "loop_binding") {
            return Some(EdgeKind::LoopBinding);
        }
        if same_text(text, "reverse_accessor") {
            return Some(EdgeKind::ReverseAccessor);
        }
        if same_text(text, "derived_collection") {
            return Some(EdgeKind::DerivedCollection);
        }
        if same_text(text, "admin_of") {
            return Some(EdgeKind::AdminOf);
        }
        if same_text(text, "tests") {
            return Some(EdgeKind::Tests);
        }
        if same_text(text, "reads") {
            return Some(EdgeKind::Reads);
        }
        if same_text(text, "uses_tag") {
            return Some(EdgeKind::UsesTag);
        }
        if same_text(text, "styles") {
            return Some(EdgeKind::Styles);
        }
        None
    }
}

/// Every label reads back as the value that carries it.
pub proof fn law_edge_kind_labels_read_back(value: EdgeKind)
    ensures
        EdgeKind::named(value.label()) == Some(value),
{
    reveal_strlit("contains");
    reveal_strlit("imports");
    reveal_strlit("references");
    reveal_strlit("returns");
    reveal_strlit("type_of");
    reveal_strlit("calls");
    reveal_strlit("routes_to");
    reveal_strlit("renders");
    reveal_strlit("resolves");
    reveal_strlit("handles");
    reveal_strlit("receives");
    reveal_strlit("instantiates");
    reveal_strlit("overrides");
    reveal_strlit("decorates");
    reveal_strlit("extends");
    reveal_strlit("extends_template");
    reveal_strlit("includes_template");
    reveal_strlit("overrides_template");
    reveal_strlit("relates_to");
    reveal_strlit("accesses_member");
    reveal_strlit("context_type");
    reveal_strlit("loop_binding");
    reveal_strlit("reverse_accessor");
    reveal_strlit("derived_collection");
    reveal_strlit("admin_of");
    reveal_strlit("tests");
    reveal_strlit("reads");
    reveal_strlit("uses_tag");
    reveal_strlit("styles");
    assert("contains"@.len() == 8);
    assert("imports"@.len() == 7);
    assert("references"@.len() == 10);
    assert("returns"@.len() == 7);
    assert("type_of"@.len() == 7);
    assert("calls"@.len() == 5);
    assert("routes_to"@.len() == 9);
    assert("renders"@.len() == 7);
    assert("resolves"@.len() == 8);
    assert("handles"@.len() == 7);
    assert("receives"@.len() == 8);
    assert("instantiates"@.len() == 12);
    assert("overrides"@.len() == 9);
    assert("decorates"@.len() == 9);
    assert("extends"@.len() == 7);
    assert("extends_template"@.len() == 16);
    assert("includes_template"@.len() == 17);
    assert("overrides_template"@.len() == 18);
    assert("relates_to"@.len() == 10);
    assert("accesses_member"@.len() == 15);
    assert("context_type"@.len() == 12);
    assert("loop_binding"@.len() == 12);
    assert("reverse_accessor"@.len() == 16);
    assert("derived_collection"@.len() == 18);
    assert("admin_of"@.len() == 8);
    assert("tests"@.len() == 5);
    assert("reads"@.len() == 5);
    assert("uses_tag"@.len() == 8);
    assert("styles"@.len() == 6);
    assert("contains"@[0] == 'c');
    assert("imports"@[0] == 'i');
    assert("references"@[2] == 'f');
    assert("returns"@[0] == 'r');
    assert("returns"@[2] == 't');
    assert("type_of"@[0] == 't');
    assert("calls"@[0] == 'c');
    assert("routes_to"@[0] == 'r');
    assert("renders"@[0] == 'r');
    assert("renders"@[2] == 'n');
    assert("resolves"@[0] == 'r');
    assert("resolves"@[2] == 's');
    assert("handles"@[0] == 'h');
    assert("receives"@[0] == 'r');
    assert("receives"@[2] == 'c');
    assert("instantiates"@[0] == 'i');
    assert("overrides"@[0] == 'o');
    assert("decorates"@[0] == 'd');
    assert("extends"@[0] == 'e');
    assert("extends_template"@[0] == 'e');
    assert("overrides_template"@[0] == 'o');
    assert("relates_to"@[2] == 'l');
    assert("context_type"@[0] == 'c');
    assert("loop_binding"@[0] == 'l');
    assert("reverse_accessor"@[0] == 'r');
    assert("derived_collection"@[0] == 'd');
    assert("admin_of"@[0] == 'a');
    assert("tests"@[0] == 't');
    assert("reads"@[0] == 'r');
    assert("uses_tag"@[0] == 'u');
}

/// The language a file is written in.
#[derive(Clone, Copy, Debug, PartialEq, Eq, Hash, Structural)]
pub enum Language {
    Python,
    HtmlDjango,
    JavaScript,
    Css,
}

impl Language {
    /// The label the graph writes for this value.
    pub open spec fn label(self) -> Seq<char> {
        match self {
            Language::Python => "python"@,
            Language::HtmlDjango => "htmldjango"@,
            Language::JavaScript => "javascript"@,
            Language::Css => "css"@,
        }
    }

    pub fn as_str(self) -> (label: &'static str)
        ensures
            label@ == self.label(),
    {
        match self {
            Language::Python => "python",
            Language::HtmlDjango => "htmldjango",
            Language::JavaScript => "javascript",
            Language::Css => "css",
        }
    }

    /// The value that carries this label, if one does.
    pub open spec fn named(text: Seq<char>) -> Option<Language> {
        if text == "python"@ {
            Some(Language::Python)
        } else if text == "htmldjango"@ {
            Some(Language::HtmlDjango)
        } else if text == "javascript"@ {
            Some(Language::JavaScript)
        } else if text == "css"@ {
            Some(Language::Css)
        } else {
            None
        }
    }

    pub fn from_str_label(text: &str) -> (found: Option<Language>)
        ensures
            found == Language::named(text@),
    {
        if same_text(text, "python") {
            return Some(Language::Python);
        }
        if same_text(text, "htmldjango") {
            return Some(Language::HtmlDjango);
        }
        if same_text(text, "javascript") {
            return Some(Language::JavaScript);
        }
        if same_text(text, "css") {
            return Some(Language::Css);
        }
        None
    }
}

/// Every label reads back as the value that carries it.
pub proof fn law_language_labels_read_back(value: Language)
    ensures
        Language::named(value.label()) == Some(value),
{
    reveal_strlit("python");
    reveal_strlit("htmldjango");
    reveal_strlit("javascript");
    reveal_strlit("css");
    assert("python"@.len() == 6);
    assert("htmldjango"@.len() == 10);
    assert("javascript"@.len() == 10);
    assert("css"@.len() == 3);
    assert("htmldjango"@[0] == 'h');
    assert("javascript"@[0] == 'j');
}

/// The lines a definition stands on, counted from one.
#[derive(Clone, Copy, Debug, PartialEq, Eq, Structural)]
pub struct Span {
    pub start_line: u32,
    pub end_line: u32,
}

/// One symbol of an indexed project.
///
/// `in_test_file` and `in_generated_file` record what the index judged of the file the
/// symbol stands in, and `marker` is the working-tree marker that file carries: nothing for
/// a clean file.
#[derive(Debug)]
pub struct Node {
    pub id: String,
    pub project_id: String,
    pub kind: NodeKind,
    pub language: Language,
    pub name: String,
    pub qualified_name: String,
    pub file_path: String,
    pub span: Span,
    pub signature: Option<String>,
    pub docstring: Option<String>,
    pub decorators: Vec<String>,
    pub in_test_file: bool,
    pub in_generated_file: bool,
    pub marker: String,
}

/// One indexed project.
#[derive(Debug)]
pub struct Project {
    pub id: String,
    pub name: String,
    pub root_path: String,
    pub indexed_at: i64,
}

/// The project answers to this name: it is its id or its display name.
pub open spec fn answers_to(project: Project, name: Seq<char>) -> bool {
    project.id@ == name || project.name@ == name
}

/// The position, from `from` on, of the first project that answers to this name.
pub open spec fn project_named(projects: Seq<Project>, name: Seq<char>, from: int) -> Option<int>
    decreases projects.len() - from,
{
    if from < 0 || from >= projects.len() {
        None
    } else if answers_to(projects[from], name) {
        Some(from)
    } else {
        project_named(projects, name, from + 1)
    }
}

/// The position of the first project whose id or display name equals `name`, or `None`
/// when no project matches.
pub fn find_project(projects: &[Project], name: &str) -> (found: Option<usize>)
    ensures
        match found {
            Some(at) => at < projects@.len() && project_named(projects@, name@, 0) == Some(
                at as int,
            ),
            None => project_named(projects@, name@, 0) is None,
        },
{
    for i in 0..projects.len()
        invariant
            project_named(projects@, name@, 0) == project_named(projects@, name@, i as int),
    {
        if same_text(projects[i].id.as_str(), name) || same_text(projects[i].name.as_str(), name) {
            return Some(i);
        }
    }
    None
}

/// The text is made of small letters and underscores.
pub open spec fn one_word(text: Seq<char>) -> bool {
    forall|i: int| 0 <= i < text.len() ==> 'a' <= #[trigger] text[i] <= 'z' || text[i] == '_'
}

/// The label of a kind of node is one word of small letters and underscores.
pub proof fn lemma_node_label_is_one_word(value: NodeKind)
    ensures
        value.label().len() > 0,
        one_word(value.label()),
{
    match value {
        NodeKind::Model => {
            reveal_strlit("model");
        },
        NodeKind::Class => {
            reveal_strlit("class");
        },
        NodeKind::Function => {
            reveal_strlit("function");
        },
        NodeKind::Method => {
            reveal_strlit("method");
        },
        NodeKind::View => {
            reveal_strlit("view");
        },
        NodeKind::Route => {
            reveal_strlit("route");
        },
        NodeKind::Template => {
            reveal_strlit("template");
        },
        NodeKind::Selector => {
            reveal_strlit("selector");
        },
        NodeKind::Field => {
            reveal_strlit("field");
        },
        NodeKind::Property => {
            reveal_strlit("property");
        },
        NodeKind::Module => {
            reveal_strlit("module");
        },
        NodeKind::File => {
            reveal_strlit("file");
        },
        NodeKind::External => {
            reveal_strlit("external");
        },
        NodeKind::Constant => {
            reveal_strlit("constant");
        },
        NodeKind::Variable => {
            reveal_strlit("variable");
        },
        NodeKind::Parameter => {
            reveal_strlit("parameter");
        },
        NodeKind::Import => {
            reveal_strlit("import");
        },
    }
}

/// The label of a kind of edge is one word of small letters and underscores.
pub proof fn lemma_edge_label_is_one_word(value: EdgeKind)
    ensures
        value.label().len() > 0,
        one_word(value.label()),
{
    match value {
        EdgeKind::Contains => {
            reveal_strlit("contains");
        },
        EdgeKind::Imports => {
            reveal_strlit("imports");
        },
        EdgeKind::References => {
            reveal_strlit("references");
        },
        EdgeKind::Returns => {
            reveal_strlit("returns");
        },
        EdgeKind::TypeOf => {
            reveal_strlit("type_of");
        },
        EdgeKind::Calls => {
            reveal_strlit("calls");
        },
        EdgeKind::RoutesTo => {
            reveal_strlit("routes_to");
        },
        EdgeKind::Renders => {
            reveal_strlit("renders");
        },
        EdgeKind::Resolves => {
            reveal_strlit("resolves");
        },
        EdgeKind::Handles => {
            reveal_strlit("handles");
        },
        EdgeKind::Receives => {
            reveal_strlit("receives");
        },
        EdgeKind::Instantiates => {
            reveal_strlit("instantiates");
        },
        EdgeKind::Overrides => {
            reveal_strlit("overrides");
        },
        EdgeKind::Decorates => {
            reveal_strlit("decorates");
        },
        EdgeKind::Extends => {
            reveal_strlit("extends");
        },
        EdgeKind::ExtendsTemplate => {
            reveal_strlit("extends_template");
        },
        EdgeKind::IncludesTemplate => {
            reveal_strlit("includes_template");
        },
        EdgeKind::OverridesTemplate => {
            reveal_strlit("overrides_template");
        },
        EdgeKind::RelatesTo => {
            reveal_strlit("relates_to");
        },
        EdgeKind::AccessesMember => {
            reveal_strlit("accesses_member");
        },
        EdgeKind::ContextType => {
            reveal_strlit("context_type");
        },
        EdgeKind::LoopBinding => {
            reveal_strlit("loop_binding");
        },
        EdgeKind::ReverseAccessor => {
            reveal_strlit("reverse_accessor");
        },
        EdgeKind::DerivedCollection => {
            reveal_strlit("derived_collection");
        },
        EdgeKind::AdminOf => {
            reveal_strlit("admin_of");
        },
        EdgeKind::Tests => {
            reveal_strlit("tests");
        },
        EdgeKind::Reads => {
            reveal_strlit("reads");
        },
        EdgeKind::UsesTag => {
            reveal_strlit("uses_tag");
        },
        EdgeKind::Styles => {
            reveal_strlit("styles");
        },
    }
}

/// The first project whose id or display name is the one asked for is found, and where there is none
/// nothing is.
pub proof fn law_a_project_is_found_by_id_or_name(
    projects: Seq<Project>,
    name: Seq<char>,
    from: int,
)
    requires
        0 <= from,
    ensures
        match project_named(projects, name, from) {
            Some(at) => from <= at < projects.len() && (projects[at].id@ == name
                || projects[at].name@ == name) && forall|k: int|
                from <= k < at ==> (#[trigger] projects[k]).id@ != name && projects[k].name@ != name,
            None => forall|k: int|
                from <= k < projects.len() ==> (#[trigger] projects[k]).id@ != name
                    && projects[k].name@ != name,
        },
    decreases projects.len() - from,
{
    if from < projects.len() && projects[from].id@ != name && projects[from].name@ != name {
        law_a_project_is_found_by_id_or_name(projects, name, from + 1);
    }
}

} // verus!
