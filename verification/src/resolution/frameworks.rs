//! Django, by the conventional places of its models, views and forms.
use super::bindings::lemma_chosen_sole;
use super::context::{
    chosen, lemma_chosen, lemma_chosen_holds, retain, ResolutionContext,
};
use super::framework::FrameworkResolver;
use super::refs::{ResolvedBy, ResolvedRef, UnresolvedRef};
use super::resolver::{answers, first_as, is_kind_among, Target};
use crate::chars::{chars_of, contains, ends_with, lowercase, lowercased, occurs};
use crate::graph::{Language, Node, NodeKind};
use std::sync::Arc;
use vstd::prelude::*;

verus! {

/// The files whose text names the frameworks a project depends on.
pub const MARKER_FILES: [&'static str; 4] = [
    "requirements.txt",
    "pyproject.toml",
    "setup.py",
    "Pipfile",
];

/// The directory fragments where models conventionally live.
pub const MODEL_DIRECTORIES: [&'static str; 1] = ["models"];

/// The directory fragments where views conventionally live.
pub const VIEW_DIRECTORIES: [&'static str; 2] = ["views", "/api/"];

/// The directory fragments where forms conventionally live.
pub const FORM_DIRECTORIES: [&'static str; 1] = ["forms"];

/// The kinds a model name may have.
pub const MODEL_KINDS: [NodeKind; 2] = [NodeKind::Class, NodeKind::Model];

/// The kinds a view name may have.
pub const VIEW_KINDS: [NodeKind; 3] = [NodeKind::Class, NodeKind::Function, NodeKind::View];

/// The kinds a form name may have.
pub const FORM_KINDS: [NodeKind; 1] = [NodeKind::Class];

/// The text is a single capitalized word.
pub open spec fn is_pascal(text: Seq<char>) -> bool {
    &&& text.len() > 1
    &&& 'A' <= text[0] <= 'Z'
    &&& forall|i: int| 1 <= i < text.len() ==> 'a' <= #[trigger] text[i] <= 'z'
}

/// Whether `text` is a single capitalized word (`Article`), the convention for a model class name.
pub fn is_pascal_word(text: &str) -> (pascal: bool)
    ensures
        pascal == is_pascal(text@),
{
    let chars = chars_of(text);
    if chars.len() < 2 || chars[0] < 'A' || chars[0] > 'Z' {
        return false;
    }
    for i in 1..chars.len()
        invariant
            chars@ == text@,
            forall|k: int| 1 <= k < i ==> 'a' <= #[trigger] text@[k] <= 'z',
    {
        if chars[i] < 'a' || chars[i] > 'z' {
            assert(!('a' <= text@[i as int] <= 'z'));
            return false;
        }
    }
    true
}

/// The path holds one of the fragments.
pub open spec fn holds_one(path: Seq<char>, fragments: Seq<&'static str>) -> bool {
    exists|i: int| 0 <= i < fragments.len() && occurs(path, (#[trigger] fragments[i])@)
}

fn holds_fragment(path: &str, fragments: &[&'static str]) -> (found: bool)
    ensures
        found == holds_one(path@, fragments@),
{
    for i in 0..fragments.len()
        invariant
            forall|k: int| 0 <= k < i ==> !occurs(path@, (#[trigger] fragments@[k])@),
    {
        if contains(path, fragments[i]) {
            return true;
        }
    }
    false
}

/// The node of these kinds that a name means: the only one, or among several the first in a
/// conventional directory.
pub open spec fn conventional<C: ResolutionContext>(
    context: C,
    name: Seq<char>,
    kinds: Seq<NodeKind>,
    directories: Seq<&'static str>,
) -> Option<Target> {
    let found = chosen(context.named(name), |node: Node| kinds.contains(node.kind));
    if found.len() == 1 {
        first_as(found, 80, ResolvedBy::Framework)
    } else {
        first_as(
            chosen(found, |node: Node| holds_one(node.file_path@, directories)),
            80,
            ResolvedBy::Framework,
        )
    }
}

fn bind_first(reference: &UnresolvedRef, nodes: &[Arc<Node>]) -> (found: Option<ResolvedRef>)
    ensures
        answers(found, *reference, first_as(nodes@, 80, ResolvedBy::Framework)),
{
    if nodes.len() > 0 {
        Some(ResolvedRef::new(reference, nodes[0].id.as_str(), 80, ResolvedBy::Framework))
    } else {
        None
    }
}

/// The node of an accepted kind a name resolves to, preferring the conventional directories. A
/// sole candidate wins outright; among several, only a directory-preferred one resolves, otherwise
/// the match stays ambiguous.
pub fn by_name_in_directories<C: ResolutionContext>(
    reference: &UnresolvedRef,
    context: &C,
    kinds: &[NodeKind],
    directories: &[&'static str],
) -> (found: Option<ResolvedRef>)
    ensures
        answers(
            found,
            *reference,
            conventional(*context, reference.reference_name@, kinds@, directories@),
        ),
{
    let keep = |node: &Node| -> (matching: bool)
        ensures
            matching == kinds@.contains(node.kind),
    {
        is_kind_among(node.kind, kinds)
    };
    let nodes = context.nodes_by_name(reference.reference_name.as_str());
    let candidates = retain(
        nodes.as_slice(),
        keep,
        Ghost(|node: Node| kinds@.contains(node.kind)),
    );
    if candidates.len() == 1 {
        return bind_first(reference, candidates.as_slice());
    }
    let keep = |node: &Node| -> (matching: bool)
        ensures
            matching == holds_one(node.file_path@, directories@),
    {
        holds_fragment(node.file_path.as_str(), directories)
    };
    let placed = retain(
        candidates.as_slice(),
        keep,
        Ghost(|node: Node| holds_one(node.file_path@, directories@)),
    );
    bind_first(reference, placed.as_slice())
}

/// The Django resolver that binds name-convention references to the conventional app directories.
///
/// Detects a Django project and resolves model, view, and form references by directory convention.
/// Route extraction is handled structurally by the extractor, so this resolver carries no
/// extraction of its own.
pub struct DjangoResolver;

/// A marker file of the project names Django.
pub open spec fn names_django<C: ResolutionContext>(context: C) -> bool {
    exists|i: int|
        0 <= i < MARKER_FILES@.len() && marks_django(context, #[trigger] MARKER_FILES@[i])
}

/// The file can be read and its text, lowercased, names Django.
pub open spec fn marks_django<C: ResolutionContext>(context: C, marker: &'static str) -> bool {
    match context.source(marker@) {
        Some(text) => occurs(lowercased(text), "django"@),
        None => false,
    }
}

impl<C: ResolutionContext> FrameworkResolver<C> for DjangoResolver {
    open spec fn label(&self) -> Seq<char> {
        "django"@
    }

    open spec fn served(&self) -> Seq<Language> {
        seq![Language::Python]
    }

    open spec fn applies(&self, context: C) -> bool {
        names_django(context) || context.has_file("manage.py"@)
    }

    open spec fn target(
        &self,
        reference: UnresolvedRef,
        context: C,
    ) -> Option<Target> {
        let name = reference.reference_name@;
        if "View"@.is_suffix_of(name) || "ViewSet"@.is_suffix_of(name) {
            conventional(context, name, VIEW_KINDS@, VIEW_DIRECTORIES@)
        } else if "Form"@.is_suffix_of(name) {
            conventional(context, name, FORM_KINDS@, FORM_DIRECTORIES@)
        } else if "Model"@.is_suffix_of(name) || is_pascal(name) {
            conventional(context, name, MODEL_KINDS@, MODEL_DIRECTORIES@)
        } else {
            None
        }
    }

    fn name(&self) -> (name: &str) {
        "django"
    }

    fn languages(&self) -> (languages: Vec<Language>) {
        vec![Language::Python]
    }

    fn detect(&self, context: &C) -> (detected: bool) {
        let markers: [&'static str; 4] = MARKER_FILES;
        for i in 0..markers.len()
            invariant
                markers@ == MARKER_FILES@,
                forall|k: int|
                    0 <= k < i ==> !marks_django(*context, #[trigger] MARKER_FILES@[k]),
        {
            assert(markers@[i as int] == MARKER_FILES@[i as int]);
            if let Some(contents) = context.read_file(markers[i]) {
                if contains(lowercase(contents.as_str()).as_str(), "django") {
                    return true;
                }
            }
        }
        context.file_exists("manage.py")
    }

    fn resolve(&self, reference: &UnresolvedRef, context: &C) -> (found:
        Option<ResolvedRef>) {
        let name = reference.reference_name.as_str();
        if ends_with(name, "View") || ends_with(name, "ViewSet") {
            let kinds: [NodeKind; 3] = VIEW_KINDS;
            let directories: [&'static str; 2] = VIEW_DIRECTORIES;
            by_name_in_directories(reference, context, kinds.as_slice(), directories.as_slice())
        } else if ends_with(name, "Form") {
            let kinds: [NodeKind; 1] = FORM_KINDS;
            let directories: [&'static str; 1] = FORM_DIRECTORIES;
            by_name_in_directories(reference, context, kinds.as_slice(), directories.as_slice())
        } else if ends_with(name, "Model") || is_pascal_word(name) {
            let kinds: [NodeKind; 2] = MODEL_KINDS;
            let directories: [&'static str; 1] = MODEL_DIRECTORIES;
            by_name_in_directories(reference, context, kinds.as_slice(), directories.as_slice())
        } else {
            None
        }
    }
}

// ---------------------------------------------------------------------------
// What a convention finds

proof fn lemma_conventional<C: ResolutionContext>(
    context: C,
    name: Seq<char>,
    kinds: Seq<NodeKind>,
    directories: Seq<&'static str>,
    at: int,
)
    requires
        0 <= at < context.named(name).len(),
        kinds.contains(context.named(name)[at].kind),
    ensures
        (forall|k: int|
            0 <= k < context.named(name).len() && k != at ==> !kinds.contains(
                (#[trigger] context.named(name)[k]).kind,
            )) ==> conventional(context, name, kinds, directories) == Some(
            (Target {
                node: context.named(name)[at],
                confidence: 80,
                resolved_by: ResolvedBy::Framework,
            }),
        ),
        holds_one(context.named(name)[at].file_path@, directories) ==> (conventional(
            context,
            name,
            kinds,
            directories,
        ) matches Some(target) && target.node.name@ == name && kinds.contains(target.node.kind)
            && holds_one(target.node.file_path@, directories)),
        conventional(context, name, kinds, directories) matches Some(target) ==> target.node.name@
            == name && kinds.contains(target.node.kind) && target.confidence == 80
            && target.resolved_by == ResolvedBy::Framework,
{
    let named = context.named(name);
    let wanted = |node: Node| kinds.contains(node.kind);
    let placed = |node: Node| holds_one(node.file_path@, directories);
    let found = chosen(named, wanted);
    let near = chosen(found, placed);
    context.lemma_named(name);
    lemma_chosen_holds(named, wanted, named.len() as int, at);
    lemma_chosen(named, wanted, named.len() as int);
    lemma_chosen(found, placed, found.len() as int);
    let f = choose|f: int| 0 <= f < found.len() && found[f] == named[at];
    if holds_one(named[at].file_path@, directories) {
        lemma_chosen_holds(found, placed, found.len() as int, f);
    }
    assert forall|k: int| 0 <= k < found.len() implies (#[trigger] found[k]).name@ == name by {
        assert(named.contains(found[k]));
    }
    assert forall|k: int| 0 <= k < near.len() implies (#[trigger] near[k]).name@ == name
        && kinds.contains(near[k].kind) by {
        assert(found.contains(near[k]));
        let i = choose|i: int| 0 <= i < found.len() && found[i] == near[k];
        assert(found[i].name@ == name);
    }
    if forall|k: int|
        0 <= k < named.len() && k != at ==> !kinds.contains((#[trigger] named[k]).kind) {
        lemma_chosen_sole(named, wanted, named.len() as int, at);
    }
}

/// A view is found by its name: the one class, function or view of that name, or among several one
/// whose path says that it is among the views or in an API.
pub proof fn law_views_are_found_by_convention<C: ResolutionContext>(
    reference: UnresolvedRef,
    context: C,
    stem: Seq<char>,
    at: int,
)
    requires
        reference.reference_name@ == stem + "View"@ || reference.reference_name@ == stem
            + "ViewSet"@,
        0 <= at < context.named(reference.reference_name@).len(),
        ({
            let kind = context.named(reference.reference_name@)[at].kind;
            kind is Class || kind is Function || kind is View
        }),
    ensures
        ({
            let named = context.named(reference.reference_name@);
            let target = FrameworkResolver::<C>::target(&DjangoResolver, reference, context);
            &&& (forall|k: int|
                0 <= k < named.len() && k != at ==> !((#[trigger] named[k]).kind is Class
                    || named[k].kind is Function || named[k].kind is View)) ==> target == Some(
                (Target {
                    node: named[at],
                    confidence: 80,
                    resolved_by: ResolvedBy::Framework,
                }),
            )
            &&& occurs(named[at].file_path@, "views"@) || occurs(named[at].file_path@, "/api/"@)
                ==> (target matches Some(target) && target.node.name@ == reference.reference_name@
                && (target.node.kind is Class || target.node.kind is Function
                || target.node.kind is View) && (occurs(target.node.file_path@, "views"@) || occurs(
                target.node.file_path@,
                "/api/"@,
            )))
        }),
{
    let name = reference.reference_name@;
    let named = context.named(name);
    lemma_ends(stem, "View"@);
    lemma_ends(stem, "ViewSet"@);
    assert forall|kind: NodeKind| #[trigger] VIEW_KINDS@.contains(kind) == (kind is Class
        || kind is Function || kind is View) by {
        assert(VIEW_KINDS@[0] == NodeKind::Class);
        assert(VIEW_KINDS@[1] == NodeKind::Function);
        assert(VIEW_KINDS@[2] == NodeKind::View);
    }
    assert(VIEW_DIRECTORIES@[0]@ == "views"@);
    assert(VIEW_DIRECTORIES@[1]@ == "/api/"@);
    assert forall|path: Seq<char>| #[trigger] holds_one(path, VIEW_DIRECTORIES@) == (occurs(
        path,
        "views"@,
    ) || occurs(path, "/api/"@)) by {
        if occurs(path, "views"@) {
            assert(occurs(path, VIEW_DIRECTORIES@[0]@));
        }
        if occurs(path, "/api/"@) {
            assert(occurs(path, VIEW_DIRECTORIES@[1]@));
        }
    }
    assert(VIEW_KINDS@.contains(named[at].kind));
    assert(holds_one(named[at].file_path@, VIEW_DIRECTORIES@) == (occurs(
        named[at].file_path@,
        "views"@,
    ) || occurs(named[at].file_path@, "/api/"@)));
    lemma_conventional(context, name, VIEW_KINDS@, VIEW_DIRECTORIES@, at);
}

proof fn lemma_ends(stem: Seq<char>, ending: Seq<char>)
    ensures
        ending.is_suffix_of(stem + ending),
{
    let name = stem + ending;
    assert(name.subrange(stem.len() as int, name.len() as int) =~= ending);
}

/// A form is found by its name: the one class of that name, or among several one whose path says
/// that it is among the forms.
pub proof fn law_forms_are_found_by_convention<C: ResolutionContext>(
    reference: UnresolvedRef,
    context: C,
    stem: Seq<char>,
    at: int,
)
    requires
        reference.reference_name@ == stem + "Form"@,
        0 <= at < context.named(reference.reference_name@).len(),
        context.named(reference.reference_name@)[at].kind is Class,
    ensures
        ({
            let named = context.named(reference.reference_name@);
            let target = FrameworkResolver::<C>::target(&DjangoResolver, reference, context);
            &&& (forall|k: int|
                0 <= k < named.len() && k != at ==> !((#[trigger] named[k]).kind is Class))
                ==> target == Some(
                (Target {
                    node: named[at],
                    confidence: 80,
                    resolved_by: ResolvedBy::Framework,
                }),
            )
            &&& occurs(named[at].file_path@, "forms"@) ==> (target matches Some(target)
                && target.node.name@ == reference.reference_name@ && target.node.kind is Class
                && occurs(target.node.file_path@, "forms"@))
        }),
{
    let name = reference.reference_name@;
    let named = context.named(name);
    lemma_ends(stem, "Form"@);
    reveal_strlit("Form");
    reveal_strlit("View");
    reveal_strlit("ViewSet");
    assert(name.last() == 'm');
    if "View"@.is_suffix_of(name) {
        assert(name.subrange(name.len() - 4, name.len() as int)[3] == name.last());
    }
    if "ViewSet"@.is_suffix_of(name) {
        assert(name.subrange(name.len() - 7, name.len() as int)[6] == name.last());
    }
    assert forall|kind: NodeKind| #[trigger] FORM_KINDS@.contains(kind) == (kind is Class) by {
        assert(FORM_KINDS@[0] == NodeKind::Class);
    }
    assert(FORM_DIRECTORIES@[0]@ == "forms"@);
    assert forall|path: Seq<char>| #[trigger] holds_one(path, FORM_DIRECTORIES@) == occurs(
        path,
        "forms"@,
    ) by {
        if occurs(path, "forms"@) {
            assert(occurs(path, FORM_DIRECTORIES@[0]@));
        }
    }
    assert(FORM_KINDS@.contains(named[at].kind));
    assert(holds_one(named[at].file_path@, FORM_DIRECTORIES@) == occurs(
        named[at].file_path@,
        "forms"@,
    ));
    lemma_conventional(context, name, FORM_KINDS@, FORM_DIRECTORIES@, at);
}

/// A model is found by its name, one that ends in `Model` or is a single capitalized word and names
/// no view or form: the one class or model of that name, or among several one whose path says that
/// it is among the models.
pub proof fn law_models_are_found_by_convention<C: ResolutionContext>(
    reference: UnresolvedRef,
    context: C,
    at: int,
)
    requires
        ({
            let name = reference.reference_name@;
            &&& !"View"@.is_suffix_of(name)
            &&& !"ViewSet"@.is_suffix_of(name)
            &&& !"Form"@.is_suffix_of(name)
            &&& "Model"@.is_suffix_of(name) || (name.len() > 1 && 'A' <= name[0] <= 'Z' && forall|
                i: int,
            |
                1 <= i < name.len() ==> 'a' <= #[trigger] name[i] <= 'z')
        }),
        0 <= at < context.named(reference.reference_name@).len(),
        ({
            let kind = context.named(reference.reference_name@)[at].kind;
            kind is Class || kind is Model
        }),
    ensures
        ({
            let named = context.named(reference.reference_name@);
            let target = FrameworkResolver::<C>::target(&DjangoResolver, reference, context);
            &&& (forall|k: int|
                0 <= k < named.len() && k != at ==> !((#[trigger] named[k]).kind is Class
                    || named[k].kind is Model)) ==> target == Some(
                (Target {
                    node: named[at],
                    confidence: 80,
                    resolved_by: ResolvedBy::Framework,
                }),
            )
            &&& occurs(named[at].file_path@, "models"@) ==> (target matches Some(target)
                && target.node.name@ == reference.reference_name@ && (target.node.kind is Class
                || target.node.kind is Model) && occurs(target.node.file_path@, "models"@))
        }),
{
    let name = reference.reference_name@;
    let named = context.named(name);
    assert forall|kind: NodeKind| #[trigger] MODEL_KINDS@.contains(kind) == (kind is Class
        || kind is Model) by {
        assert(MODEL_KINDS@[0] == NodeKind::Class);
        assert(MODEL_KINDS@[1] == NodeKind::Model);
    }
    assert(MODEL_DIRECTORIES@[0]@ == "models"@);
    assert forall|path: Seq<char>| #[trigger] holds_one(path, MODEL_DIRECTORIES@) == occurs(
        path,
        "models"@,
    ) by {
        if occurs(path, "models"@) {
            assert(occurs(path, MODEL_DIRECTORIES@[0]@));
        }
    }
    assert(MODEL_KINDS@.contains(named[at].kind));
    assert(holds_one(named[at].file_path@, MODEL_DIRECTORIES@) == occurs(
        named[at].file_path@,
        "models"@,
    ));
    lemma_conventional(context, name, MODEL_KINDS@, MODEL_DIRECTORIES@, at);
}

/// A project is taken for a Django project where it has a `manage.py`, or where one of the files
/// that list its dependencies names Django, whatever the case; and not otherwise.
pub proof fn law_a_django_project_is_told_by_its_files<C: ResolutionContext>(context: C)
    ensures
        FrameworkResolver::<C>::applies(&DjangoResolver, context) <==> {
            let names = |file: Seq<char>|
                context.source(file) is Some && occurs(
                    lowercased(context.source(file)->0),
                    "django"@,
                );
            ||| context.has_file("manage.py"@)
            ||| names("requirements.txt"@)
            ||| names("pyproject.toml"@)
            ||| names("setup.py"@)
            ||| names("Pipfile"@)
        },
{
    assert(MARKER_FILES@[0]@ == "requirements.txt"@);
    assert(MARKER_FILES@[1]@ == "pyproject.toml"@);
    assert(MARKER_FILES@[2]@ == "setup.py"@);
    assert(MARKER_FILES@[3]@ == "Pipfile"@);
    assert(marks_django(context, MARKER_FILES@[0]) ==> names_django(context));
    assert(marks_django(context, MARKER_FILES@[1]) ==> names_django(context));
    assert(marks_django(context, MARKER_FILES@[2]) ==> names_django(context));
    assert(marks_django(context, MARKER_FILES@[3]) ==> names_django(context));
}

} // verus!
