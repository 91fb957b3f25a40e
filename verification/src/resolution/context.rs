//! What a resolver reads of a project while it turns references into edges.
use crate::chars::{copy, lowercase, lowercased, same_text, views};
use crate::graph::{Language, Node, NodeKind};
use std::sync::Arc;
use vstd::prelude::*;

verus! {

/// A name brought into a file by an import statement, resolved to its origin where the origin is
/// local to the project.
#[derive(Debug)]
pub struct ImportMapping {
    pub local_name: String,
    pub exported_name: String,
    pub source: String,
    pub is_default: bool,
    pub is_namespace: bool,
    pub resolved_path: Option<String>,
}

/// An import binding as a value.
pub struct ImportView {
    pub local_name: Seq<char>,
    pub exported_name: Seq<char>,
    pub source: Seq<char>,
    pub is_default: bool,
    pub is_namespace: bool,
    pub resolved_path: Option<Seq<char>>,
}

impl View for ImportMapping {
    type V = ImportView;

    open spec fn view(&self) -> ImportView {
        ImportView {
            local_name: self.local_name@,
            exported_name: self.exported_name@,
            source: self.source@,
            is_default: self.is_default,
            is_namespace: self.is_namespace,
            resolved_path: match self.resolved_path {
                Some(path) => Some(path@),
                None => None,
            },
        }
    }
}

/// Import bindings as values.
pub open spec fn import_views(mappings: Seq<ImportMapping>) -> Seq<ImportView> {
    mappings.map_values(|mapping: ImportMapping| mapping@)
}

/// Whether an [`EventRecord`] dispatches an event or registers a listener.
#[derive(Clone, Copy, Debug, PartialEq, Eq, Structural)]
pub enum EventRole {
    Dispatch,
    Listen,
}

/// An event-channel observation from script source: a dispatch site or a listener registration.
/// Correlated by `event` name across a project to synthesize the dispatcher to handler edges that
/// static parsing misses.
#[derive(Debug)]
pub struct EventRecord {
    pub role: EventRole,
    pub event: String,
    /// The id of the dispatching node for a `Dispatch`, or the handler's name for a `Listen`.
    pub symbol: String,
    pub line: u32,
    pub column: u32,
}

/// The read-only view of a single project's graph that resolvers query while turning references
/// into edges. Each look-up answers from one fixed project: the same question has the same answer.
pub trait ResolutionContext {
    /// The nodes of this simple name.
    spec fn named(&self, name: Seq<char>) -> Seq<Arc<Node>>;

    /// The nodes whose simple name lowercases to this.
    spec fn lower_named(&self, lower_name: Seq<char>) -> Seq<Arc<Node>>;

    /// The nodes of this qualified name.
    spec fn qualified(&self, qualified_name: Seq<char>) -> Seq<Arc<Node>>;

    /// The nodes of this kind.
    spec fn of_kind(&self, kind: NodeKind) -> Seq<Arc<Node>>;

    /// The nodes defined in this file.
    spec fn in_file(&self, file_path: Seq<char>) -> Seq<Arc<Node>>;

    /// The project has this file.
    spec fn has_file(&self, file_path: Seq<char>) -> bool;

    /// The source of this file, where it can be read.
    spec fn source(&self, file_path: Seq<char>) -> Option<Seq<char>>;

    /// The paths of all files.
    spec fn files(&self) -> Seq<Seq<char>>;

    /// The root the project was indexed from.
    spec fn root(&self) -> Seq<char>;

    /// The import bindings declared in this file.
    spec fn imports(&self, file_path: Seq<char>, language: Language) -> Seq<ImportView>;

    /// The nodes whose simple name equals `name`, matched case-sensitively. Empty when nothing
    /// matches.
    fn nodes_by_name(&self, name: &str) -> (nodes: Vec<Arc<Node>>)
        ensures
            nodes@ == self.named(name@),
    ;

    /// The nodes whose simple name lowercases to `lower_name`, the case-insensitive fallback used
    /// after an exact-name lookup misses.
    fn nodes_by_lower_name(&self, lower_name: &str) -> (nodes: Vec<Arc<Node>>)
        ensures
            nodes@ == self.lower_named(lower_name@),
    ;

    /// The nodes whose fully qualified name equals `qualified_name`.
    fn nodes_by_qualified_name(&self, qualified_name: &str) -> (nodes: Vec<Arc<Node>>)
        ensures
            nodes@ == self.qualified(qualified_name@),
    ;

    /// The nodes of the given kind across the project.
    fn nodes_by_kind(&self, kind: NodeKind) -> (nodes: Vec<Arc<Node>>)
        ensures
            nodes@ == self.of_kind(kind),
    ;

    /// The nodes defined in `file_path`.
    fn nodes_in_file(&self, file_path: &str) -> (nodes: Vec<Arc<Node>>)
        ensures
            nodes@ == self.in_file(file_path@),
    ;

    /// Whether the project contains a file at `file_path`.
    fn file_exists(&self, file_path: &str) -> (exists_there: bool)
        ensures
            exists_there == self.has_file(file_path@),
    ;

    /// The source of a project file, or `None` when it is absent or unreadable.
    fn read_file(&self, file_path: &str) -> (contents: Option<String>)
        ensures
            match contents {
                Some(text) => self.source(file_path@) == Some(text@),
                None => self.source(file_path@) is None,
            },
    ;

    /// The path of every file in the project.
    fn all_files(&self) -> (paths: Vec<String>)
        ensures
            views(paths@) == self.files(),
    ;

    /// The absolute filesystem root the project was indexed from.
    fn project_root(&self) -> (root: &str)
        ensures
            root@ == self.root(),
    ;

    /// The import bindings declared in `file_path` for `language`, each mapping a local name to
    /// the origin it was imported from.
    fn import_mappings(&self, file_path: &str, language: Language) -> (mappings: Vec<ImportMapping>)
        ensures
            import_views(mappings@) == self.imports(file_path@, language),
    ;

    /// A look-up by name gives nodes of that name.
    proof fn lemma_named(&self, name: Seq<char>)
        ensures
            forall|i: int|
                0 <= i < self.named(name).len() ==> (#[trigger] self.named(name)[i]).name@ == name,
    ;

    /// A look-up by qualified name gives nodes of that qualified name.
    proof fn lemma_qualified(&self, qualified_name: Seq<char>)
        ensures
            forall|i: int|
                0 <= i < self.qualified(qualified_name).len() ==> (
                #[trigger] self.qualified(qualified_name)[i]).qualified_name@ == qualified_name,
    ;

    /// A look-up by kind gives nodes of that kind.
    proof fn lemma_of_kind(&self, kind: NodeKind)
        ensures
            forall|i: int|
                0 <= i < self.of_kind(kind).len() ==> (#[trigger] self.of_kind(kind)[i]).kind
                    == kind,
    ;
}

/// `Arc::clone`: another handle on the same value.
#[verifier::external_body]
pub(crate) fn share(node: &Arc<Node>) -> (shared: Arc<Node>)
    ensures
        shared == *node,
{
    Arc::clone(node)
}

// ---------------------------------------------------------------------------
// A project held in memory

/// A file of a project, with its source where that could be read.
pub struct ProjectFile {
    pub path: String,
    pub contents: Option<String>,
}

/// The import bindings of a file.
pub struct FileImports {
    pub path: String,
    pub language: Language,
    pub mappings: Vec<ImportMapping>,
}

/// A whole project held in memory, answering every look-up by going through it.
pub struct ProjectGraph {
    pub root: String,
    pub nodes: Vec<Arc<Node>>,
    pub files: Vec<ProjectFile>,
    pub imports: Vec<FileImports>,
}

/// Those of the first `count` nodes that are wanted.
pub open spec fn chosen_upto(
    nodes: Seq<Arc<Node>>,
    wanted: spec_fn(Node) -> bool,
    count: int,
) -> Seq<Arc<Node>>
    decreases count,
{
    if count <= 0 {
        Seq::empty()
    } else if wanted(*nodes[count - 1]) {
        chosen_upto(nodes, wanted, count - 1).push(nodes[count - 1])
    } else {
        chosen_upto(nodes, wanted, count - 1)
    }
}

/// Those of the nodes that are wanted, in order.
pub open spec fn chosen(nodes: Seq<Arc<Node>>, wanted: spec_fn(Node) -> bool) -> Seq<Arc<Node>> {
    chosen_upto(nodes, wanted, nodes.len() as int)
}

/// What is chosen is wanted, and comes from the nodes.
pub proof fn lemma_chosen(nodes: Seq<Arc<Node>>, wanted: spec_fn(Node) -> bool, count: int)
    requires
        count <= nodes.len(),
    ensures
        forall|i: int|
            0 <= i < chosen_upto(nodes, wanted, count).len() ==> wanted(
                *#[trigger] chosen_upto(nodes, wanted, count)[i],
            ) && nodes.contains(chosen_upto(nodes, wanted, count)[i]),
    decreases count,
{
    if count > 0 {
        lemma_chosen(nodes, wanted, count - 1);
        let before = chosen_upto(nodes, wanted, count - 1);
        assert(nodes.contains(nodes[count - 1]));
        assert forall|i: int| 0 <= i < chosen_upto(nodes, wanted, count).len() implies wanted(
            *#[trigger] chosen_upto(nodes, wanted, count)[i],
        ) && nodes.contains(chosen_upto(nodes, wanted, count)[i]) by {
            if i < before.len() {
                assert(chosen_upto(nodes, wanted, count)[i] == before[i]);
            }
        }
    }
}

/// A wanted node among the first `count` is chosen.
pub proof fn lemma_chosen_holds(
    nodes: Seq<Arc<Node>>,
    wanted: spec_fn(Node) -> bool,
    count: int,
    at: int,
)
    requires
        0 <= at < count <= nodes.len(),
        wanted(*nodes[at]),
    ensures
        chosen_upto(nodes, wanted, count).contains(nodes[at]),
    decreases count,
{
    let before = chosen_upto(nodes, wanted, count - 1);
    let after = chosen_upto(nodes, wanted, count);
    if at < count - 1 {
        lemma_chosen_holds(nodes, wanted, count - 1, at);
        let k = choose|k: int| 0 <= k < before.len() && before[k] == nodes[at];
        assert(after[k] == nodes[at]);
    } else {
        assert(after.last() == nodes[at]);
    }
}

/// The nodes that a test keeps, in order.
pub(crate) fn retain<F: Fn(&Node) -> bool>(
    nodes: &[Arc<Node>],
    keep: F,
    Ghost(wanted): Ghost<spec_fn(Node) -> bool>,
) -> (kept: Vec<Arc<Node>>)
    requires
        forall|node: &Node| #[trigger] keep.requires((node,)),
        forall|node: &Node, answer: bool| #[trigger]
            keep.ensures((node,), answer) ==> answer == wanted(*node),
    ensures
        kept@ == chosen(nodes@, wanted),
{
    let mut kept: Vec<Arc<Node>> = Vec::new();
    for i in 0..nodes.len()
        invariant
            forall|node: &Node| #[trigger] keep.requires((node,)),
            forall|node: &Node, answer: bool| #[trigger]
                keep.ensures((node,), answer) ==> answer == wanted(*node),
            kept@ == chosen_upto(nodes@, wanted, i as int),
    {
        if keep(&nodes[i]) {
            kept.push(share(&nodes[i]));
        }
    }
    kept
}

/// The paths of the files.
pub open spec fn file_paths(files: Seq<ProjectFile>) -> Seq<Seq<char>> {
    files.map_values(|file: ProjectFile| file.path@)
}

/// The first file, from `from` on, at this path.
pub open spec fn file_at(files: Seq<ProjectFile>, path: Seq<char>, from: int) -> Option<int>
    decreases files.len() - from,
{
    if from < 0 || from >= files.len() {
        None
    } else if files[from].path@ == path {
        Some(from)
    } else {
        file_at(files, path, from + 1)
    }
}

/// The bindings of the first entry, from `from` on, for this file and language.
pub open spec fn imports_at(
    imports: Seq<FileImports>,
    path: Seq<char>,
    language: Language,
    from: int,
) -> Seq<ImportView>
    decreases imports.len() - from,
{
    if from < 0 || from >= imports.len() {
        Seq::empty()
    } else if imports[from].path@ == path && imports[from].language == language {
        import_views(imports[from].mappings@)
    } else {
        imports_at(imports, path, language, from + 1)
    }
}

impl ProjectGraph {
    fn find_file(&self, path: &str) -> (found: Option<usize>)
        ensures
            match found {
                Some(at) => at < self.files@.len() && file_at(self.files@, path@, 0) == Some(
                    at as int,
                ),
                None => file_at(self.files@, path@, 0) is None,
            },
    {
        for i in 0..self.files.len()
            invariant
                file_at(self.files@, path@, 0) == file_at(self.files@, path@, i as int),
        {
            if same_text(self.files[i].path.as_str(), path) {
                return Some(i);
            }
        }
        None
    }
}

fn copy_mapping(mapping: &ImportMapping) -> (copied: ImportMapping)
    ensures
        copied@ == mapping@,
{
    ImportMapping {
        local_name: copy(mapping.local_name.as_str()),
        exported_name: copy(mapping.exported_name.as_str()),
        source: copy(mapping.source.as_str()),
        is_default: mapping.is_default,
        is_namespace: mapping.is_namespace,
        resolved_path: match &mapping.resolved_path {
            Some(path) => Some(copy(path.as_str())),
            None => None,
        },
    }
}

fn copy_mappings(mappings: &[ImportMapping]) -> (copied: Vec<ImportMapping>)
    ensures
        import_views(copied@) == import_views(mappings@),
{
    let ghost all = import_views(mappings@);
    let mut copied: Vec<ImportMapping> = Vec::new();
    assert(import_views(copied@) =~= all.take(0));
    for i in 0..mappings.len()
        invariant
            all == import_views(mappings@),
            import_views(copied@) == all.take(i as int),
    {
        let ghost before = copied@;
        let mapping = copy_mapping(&mappings[i]);
        copied.push(mapping);
        assert(import_views(copied@) =~= import_views(before).push(all[i as int]));
        assert(all.take(i + 1) =~= all.take(i as int).push(all[i as int]));
    }
    assert(all.take(mappings@.len() as int) =~= all);
    copied
}

/// The test of a node for its name.
pub open spec fn bears(name: Seq<char>) -> spec_fn(Node) -> bool {
    |node: Node| node.name@ == name
}

/// The test of a node for its name in lower case.
pub open spec fn bears_lower(lower_name: Seq<char>) -> spec_fn(Node) -> bool {
    |node: Node| lowercased(node.name@) == lower_name
}

/// The test of a node for its qualified name.
pub open spec fn bears_qualified(qualified_name: Seq<char>) -> spec_fn(Node) -> bool {
    |node: Node| node.qualified_name@ == qualified_name
}

/// The test of a node for its kind.
pub open spec fn is_of(kind: NodeKind) -> spec_fn(Node) -> bool {
    |node: Node| node.kind == kind
}

/// The test of a node for the file it stands in.
pub open spec fn stands_in(file_path: Seq<char>) -> spec_fn(Node) -> bool {
    |node: Node| node.file_path@ == file_path
}

impl ResolutionContext for ProjectGraph {
    open spec fn named(&self, name: Seq<char>) -> Seq<Arc<Node>> {
        chosen(self.nodes@, bears(name))
    }

    open spec fn lower_named(&self, lower_name: Seq<char>) -> Seq<Arc<Node>> {
        chosen(self.nodes@, bears_lower(lower_name))
    }

    open spec fn qualified(&self, qualified_name: Seq<char>) -> Seq<Arc<Node>> {
        chosen(self.nodes@, bears_qualified(qualified_name))
    }

    open spec fn of_kind(&self, kind: NodeKind) -> Seq<Arc<Node>> {
        chosen(self.nodes@, is_of(kind))
    }

    open spec fn in_file(&self, file_path: Seq<char>) -> Seq<Arc<Node>> {
        chosen(self.nodes@, stands_in(file_path))
    }

    open spec fn has_file(&self, file_path: Seq<char>) -> bool {
        file_at(self.files@, file_path, 0) is Some
    }

    open spec fn source(&self, file_path: Seq<char>) -> Option<Seq<char>> {
        match file_at(self.files@, file_path, 0) {
            Some(at) => match self.files@[at].contents {
                Some(text) => Some(text@),
                None => None,
            },
            None => None,
        }
    }

    open spec fn files(&self) -> Seq<Seq<char>> {
        file_paths(self.files@)
    }

    open spec fn root(&self) -> Seq<char> {
        self.root@
    }

    open spec fn imports(&self, file_path: Seq<char>, language: Language) -> Seq<ImportView> {
        imports_at(self.imports@, file_path, language, 0)
    }

    proof fn lemma_named(&self, name: Seq<char>) {
        lemma_chosen(
            self.nodes@,
            bears(name),
            self.nodes@.len() as int,
        );
    }

    proof fn lemma_qualified(&self, qualified_name: Seq<char>) {
        lemma_chosen(
            self.nodes@,
            bears_qualified(qualified_name),
            self.nodes@.len() as int,
        );
    }

    proof fn lemma_of_kind(&self, kind: NodeKind) {
        lemma_chosen(self.nodes@, is_of(kind), self.nodes@.len() as int);
    }

    fn nodes_by_name(&self, name: &str) -> (nodes: Vec<Arc<Node>>) {
        let keep = |node: &Node| -> (kept: bool)
            ensures
                kept == (node.name@ == name@),
        {
            same_text(node.name.as_str(), name)
        };
        retain(
            self.nodes.as_slice(),
            keep,
            Ghost(bears(name@)),
        )
    }

    fn nodes_by_lower_name(&self, lower_name: &str) -> (nodes: Vec<Arc<Node>>) {
        let keep = |node: &Node| -> (kept: bool)
            ensures
                kept == (lowercased(node.name@) == lower_name@),
        {
            same_text(lowercase(node.name.as_str()).as_str(), lower_name)
        };
        retain(
            self.nodes.as_slice(),
            keep,
            Ghost(bears_lower(lower_name@)),
        )
    }

    fn nodes_by_qualified_name(&self, qualified_name: &str) -> (nodes: Vec<Arc<Node>>) {
        let keep = |node: &Node| -> (kept: bool)
            ensures
                kept == (node.qualified_name@ == qualified_name@),
        {
            same_text(node.qualified_name.as_str(), qualified_name)
        };
        retain(
            self.nodes.as_slice(),
            keep,
            Ghost(bears_qualified(qualified_name@)),
        )
    }

    fn nodes_by_kind(&self, kind: NodeKind) -> (nodes: Vec<Arc<Node>>) {
        let keep = |node: &Node| -> (kept: bool)
            ensures
                kept == (node.kind == kind),
        {
            node.kind == kind
        };
        retain(
            self.nodes.as_slice(),
            keep,
            Ghost(is_of(kind)),
        )
    }

    fn nodes_in_file(&self, file_path: &str) -> (nodes: Vec<Arc<Node>>) {
        let keep = |node: &Node| -> (kept: bool)
            ensures
                kept == (node.file_path@ == file_path@),
        {
            same_text(node.file_path.as_str(), file_path)
        };
        retain(
            self.nodes.as_slice(),
            keep,
            Ghost(stands_in(file_path@)),
        )
    }

    fn file_exists(&self, file_path: &str) -> (exists_there: bool) {
        self.find_file(file_path).is_some()
    }

    fn read_file(&self, file_path: &str) -> (contents: Option<String>) {
        match self.find_file(file_path) {
            Some(at) => match &self.files[at].contents {
                Some(text) => Some(copy(text.as_str())),
                None => None,
            },
            None => None,
        }
    }

    fn all_files(&self) -> (paths: Vec<String>) {
        let ghost all = file_paths(self.files@);
        let mut paths: Vec<String> = Vec::new();
        assert(views(paths@) =~= all.take(0));
        for i in 0..self.files.len()
            invariant
                all == file_paths(self.files@),
                views(paths@) == all.take(i as int),
        {
            let ghost before = paths@;
            paths.push(copy(self.files[i].path.as_str()));
            assert(views(paths@) =~= views(before).push(all[i as int]));
            assert(all.take(i + 1) =~= all.take(i as int).push(all[i as int]));
        }
        assert(all.take(self.files@.len() as int) =~= all);
        paths
    }

    fn project_root(&self) -> (root: &str) {
        self.root.as_str()
    }

    fn import_mappings(&self, file_path: &str, language: Language) -> (mappings: Vec<
        ImportMapping,
    >) {
        for i in 0..self.imports.len()
            invariant
                imports_at(self.imports@, file_path@, language, 0) == imports_at(
                    self.imports@,
                    file_path@,
                    language,
                    i as int,
                ),
        {
            if same_text(self.imports[i].path.as_str(), file_path) && self.imports[i].language
                == language {
                return copy_mappings(self.imports[i].mappings.as_slice());
            }
        }
        let mappings: Vec<ImportMapping> = Vec::new();
        assert(import_views(mappings@) =~= Seq::empty());
        mappings
    }
}

} // verus!
