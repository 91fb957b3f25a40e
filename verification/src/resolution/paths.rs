//! Project-relative paths and dotted module names, taken apart.
use crate::chars::{
    after_last, after_last_spec, before_first, before_first_spec, cat2, cat3, chars_of, copy,
    ends_with, join_spec, last_to, law_pieces_join_back, lemma_last_to, lemma_no_rsplit,
    lemma_rsplit_at, occurs_at, replace, replaced, rsplit_once, rsplit_once_spec, same_text, split,
    split_spec, strip_suffix, text_between, trim_end_char, trim_end_of, trim_start_char,
    trim_start_of, views,
};
use vstd::prelude::*;

verus! {

/// The deepest directory nesting compared between two paths, far past any real source tree.
pub const PATH_SEGMENTS_MAX: u32 = 64;

/// The extensions a script module may carry.
pub const SCRIPT_EXTENSIONS: [&'static str; 6] = [".js", ".mjs", ".cjs", ".jsx", ".ts", ".tsx"];

/// The last place before `to` that holds either character.
pub open spec fn last_either(text: Seq<char>, a: char, b: char, to: int) -> Option<int>
    decreases to,
{
    if to <= 0 {
        None
    } else if text[to - 1] == a || text[to - 1] == b {
        Some(to - 1)
    } else {
        last_either(text, a, b, to - 1)
    }
}

/// What stands after the last of either character; the whole text where neither occurs.
pub open spec fn tail_after(text: Seq<char>, a: char, b: char) -> Seq<char> {
    match last_either(text, a, b, text.len() as int) {
        Some(at) => text.skip(at + 1),
        None => text,
    }
}

/// What stands before the last of either character; empty where neither occurs.
pub open spec fn head_before(text: Seq<char>, a: char, b: char) -> Seq<char> {
    match last_either(text, a, b, text.len() as int) {
        Some(at) => text.take(at),
        None => Seq::empty(),
    }
}

fn find_last_either(text: &[char], a: char, b: char, to: usize) -> (found: Option<usize>)
    requires
        to <= text@.len(),
    ensures
        match found {
            Some(at) => at < to && last_either(text@, a, b, to as int) == Some(at as int),
            None => last_either(text@, a, b, to as int) is None,
        },
{
    let mut at: usize = to;
    while at > 0
        invariant
            at <= to <= text@.len(),
            last_either(text@, a, b, to as int) == last_either(text@, a, b, at as int),
        decreases at,
    {
        let c = text[at - 1];
        if c == a || c == b {
            return Some(at - 1);
        }
        at = at - 1;
    }
    None
}

fn after_either(text: &str, a: char, b: char) -> (tail: String)
    ensures
        tail@ == tail_after(text@, a, b),
{
    let chars = chars_of(text);
    match find_last_either(chars.as_slice(), a, b, chars.len()) {
        Some(at) => {
            let tail = text_between(chars.as_slice(), at + 1, chars.len());
            assert(tail@ =~= text@.skip(at + 1));
            tail
        },
        None => copy(text),
    }
}

fn before_either(text: &str, a: char, b: char) -> (head: String)
    ensures
        head@ == head_before(text@, a, b),
{
    let chars = chars_of(text);
    match find_last_either(chars.as_slice(), a, b, chars.len()) {
        Some(at) => {
            let head = text_between(chars.as_slice(), 0, at);
            assert(head@ =~= text@.take(at as int));
            head
        },
        None => {
            let head = String::new();
            assert(head@ =~= Seq::empty());
            head
        },
    }
}

/// The directory portion of a path: `app/models.py` has `app`, `models.py` has none.
pub open spec fn parent_directory_spec(path: Seq<char>) -> Seq<char> {
    head_before(path, '/', '\\')
}

/// The directory portion of a path.
pub fn parent_directory(path: &str) -> (directory: String)
    ensures
        directory@ == parent_directory_spec(path@),
{
    before_either(path, '/', '\\')
}

/// The final segment of a path.
pub open spec fn base_name_spec(path: Seq<char>) -> Seq<char> {
    tail_after(path, '/', '\\')
}

/// The final segment of a path.
pub fn base_name(path: &str) -> (base: String)
    ensures
        base@ == base_name_spec(path@),
{
    after_either(path, '/', '\\')
}

/// A path's base name without its extension: `app/models.py` has `models`.
pub open spec fn file_stem_spec(path: Seq<char>) -> Seq<char> {
    match rsplit_once_spec(base_name_spec(path), "."@) {
        Some((stem, _)) => stem,
        None => base_name_spec(path),
    }
}

/// A path's base name without its extension.
pub fn file_stem(path: &str) -> (stem: String)
    ensures
        stem@ == file_stem_spec(path@),
{
    let base = base_name(path);
    match rsplit_once(base.as_str(), ".") {
        Some((stem, _)) => stem,
        None => base,
    }
}

/// The final directory segment of a path's parent: `a/b/__init__.py` has `b`.
pub open spec fn directory_basename_spec(path: Seq<char>) -> Seq<char> {
    base_name_spec(parent_directory_spec(path))
}

/// The final directory segment of a path's parent.
pub fn directory_basename(path: &str) -> (base: String)
    ensures
        base@ == directory_basename_spec(path@),
{
    base_name(parent_directory(path).as_str())
}

/// Whether a path is a package initializer.
pub fn is_init_file(path: &str) -> (found: bool)
    ensures
        found == (base_name_spec(path@) == "__init__.py"@),
{
    same_text(base_name(path).as_str(), "__init__.py")
}

/// The text without the separators it ends with.
pub open spec fn trim_separators(source: Seq<char>) -> Seq<char>
    decreases source.len(),
{
    if source.len() > 0 && (source.last() == '.' || source.last() == '/') {
        trim_separators(source.drop_last())
    } else {
        source
    }
}

/// The final non-empty segment of a dotted or relative import source: `.models` has `models`,
/// `a.b.c` has `c`, a bare `.` has none.
pub open spec fn module_stem_spec(source: Seq<char>) -> Seq<char> {
    tail_after(trim_separators(source), '.', '/')
}

/// The final non-empty segment of a dotted or relative import source, empty where it has none.
pub fn module_stem(source: &str) -> (stem: String)
    ensures
        stem@ == module_stem_spec(source@),
{
    let chars = chars_of(source);
    let mut end: usize = chars.len();
    assert(chars@.take(end as int) =~= source@);
    while end > 0 && (chars[end - 1] == '.' || chars[end - 1] == '/')
        invariant
            end <= chars@.len(),
            trim_separators(source@) == trim_separators(chars@.take(end as int)),
        decreases end,
    {
        assert(chars@.take(end as int).drop_last() =~= chars@.take(end - 1));
        end = end - 1;
    }
    let trimmed = text_between(chars.as_slice(), 0, end);
    assert(trimmed@ =~= chars@.take(end as int));
    after_either(trimmed.as_str(), '.', '/')
}

/// The top-level owner of a qualified name: the class a method hangs off, or the symbol itself for
/// a free function. `a/b.py::Cls.save` has `Cls`, `a/b.py::helper` has `helper`.
pub open spec fn top_owner_spec(qualified_name: Seq<char>) -> Seq<char> {
    before_first_spec(after_last_spec(qualified_name, "::"@), "."@)
}

/// The top-level owner of a qualified name.
pub fn top_owner(qualified_name: &str) -> (owner: String)
    ensures
        owner@ == top_owner_spec(qualified_name@),
{
    before_first(after_last(qualified_name, "::").as_str(), ".")
}

/// The first of the extensions, from `from` on, that the text ends with, taken off.
pub open spec fn without_extension(text: Seq<char>, from: int) -> Seq<char>
    decreases SCRIPT_EXTENSIONS@.len() - from,
{
    if from < 0 || from >= SCRIPT_EXTENSIONS@.len() {
        text
    } else if SCRIPT_EXTENSIONS@[from]@.is_suffix_of(text) {
        text.take(text.len() - SCRIPT_EXTENSIONS@[from]@.len())
    } else {
        without_extension(text, from + 1)
    }
}

/// The bare module name of a script specifier: `./utils/card.js` has `card`.
pub open spec fn js_module_stem_spec(module: Seq<char>) -> Seq<char> {
    without_extension(after_last_spec(module, "/"@), 0)
}

/// The bare module name of a script specifier.
pub fn js_module_stem(module: &str) -> (stem: String)
    ensures
        stem@ == js_module_stem_spec(module@),
{
    let last = after_last(module, "/");
    let extensions: [&'static str; 6] = SCRIPT_EXTENSIONS;
    for i in 0..extensions.len()
        invariant
            extensions@ == SCRIPT_EXTENSIONS@,
            last@ == after_last_spec(module@, "/"@),
            without_extension(last@, 0) == without_extension(last@, i as int),
    {
        if let Some(stem) = strip_suffix(last.as_str(), extensions[i]) {
            return stem;
        }
    }
    last
}

/// The directory segments of a path, its file name excluded.
pub open spec fn directory_segments(path: Seq<char>) -> Seq<Seq<char>> {
    split_spec(replaced(parent_directory_spec(path), '\\', '/'), "/"@)
}

/// The non-empty segments, from `from` on, that both lists hold in the same places.
pub open spec fn shared_from(left: Seq<Seq<char>>, right: Seq<Seq<char>>, from: int) -> nat
    decreases left.len() - from,
{
    if 0 <= from < left.len() && from < right.len() && left[from].len() > 0 && left[from]
        == right[from] {
        1 + shared_from(left, right, from + 1)
    } else {
        0
    }
}

/// The number of leading directory segments two paths share.
pub open spec fn shared_depth(source: Seq<char>, target: Seq<char>) -> nat {
    shared_from(directory_segments(source), directory_segments(target), 0)
}

/// The number of leading directory segments two paths share.
pub fn shared_segments(source: &str, target: &str) -> (shared: usize)
    ensures
        shared == shared_depth(source@, target@),
{
    let source_directory = replace(parent_directory(source).as_str(), '\\', '/');
    let target_directory = replace(parent_directory(target).as_str(), '\\', '/');
    proof {
        reveal_strlit("/");
    }
    let left = split(source_directory.as_str(), "/");
    let right = split(target_directory.as_str(), "/");
    let mut shared: usize = 0;
    while shared < left.len() && shared < right.len() && !left[shared].as_str().is_empty()
        && same_text(left[shared].as_str(), right[shared].as_str())
        invariant
            shared <= left@.len(),
            shared_from(views(left@), views(right@), 0) == shared + shared_from(
                views(left@),
                views(right@),
                shared as int,
            ),
        decreases left@.len() - shared,
    {
        shared = shared + 1;
    }
    shared
}

/// The number of leading directory segments two paths share, comparing directory components only
/// (the file name is excluded), so sibling files in one directory share their whole directory
/// depth. `a/b/urls.py` and `a/b/views.py` share two; `a/b/urls.py` and `a/c/views.py` share one.
pub fn shared_directory_depth(source: &str, target: &str) -> (shared: u32)
    requires
        shared_depth(source@, target@) <= PATH_SEGMENTS_MAX,
    ensures
        shared == shared_depth(source@, target@),
{
    shared_segments(source, target) as u32
}

proof fn lemma_shared_symmetric(left: Seq<Seq<char>>, right: Seq<Seq<char>>, from: int)
    ensures
        shared_from(left, right, from) == shared_from(right, left, from),
    decreases left.len() - from,
{
    if 0 <= from < left.len() && from < right.len() && left[from].len() > 0 && left[from]
        == right[from] {
        lemma_shared_symmetric(left, right, from + 1);
    }
}

/// Which of two paths comes first does not matter to the depth they share.
pub proof fn law_shared_depth_is_symmetric(source: Seq<char>, target: Seq<char>)
    ensures
        shared_depth(source, target) == shared_depth(target, source),
{
    lemma_shared_symmetric(directory_segments(source), directory_segments(target), 0);
}

/// The text without the slashes at either end.
pub open spec fn trim_slashes(text: Seq<char>) -> Seq<char> {
    trim_end_char(trim_start_char(text, '/'), '/')
}

/// The directory reached by climbing from `directory` this many times.
pub open spec fn climbed(directory: Seq<char>, count: nat) -> Seq<char>
    decreases count,
{
    if count == 0 {
        directory
    } else {
        climbed(parent_directory_spec(directory), (count - 1) as nat)
    }
}

/// The directory and the path below it as one path.
pub open spec fn below(directory: Seq<char>, tail: Seq<char>) -> Seq<char> {
    if directory.len() == 0 {
        tail
    } else if tail.len() == 0 {
        directory
    } else {
        directory + "/"@ + tail
    }
}

/// The relative path of the file a `from source import module` names, where `module` is itself a
/// module. Absolute (`a.b.c`) maps to `a/b/c/<module>.py`; relative (`.x`, `..x`) climbs one
/// directory from the referencing file for each dot.
pub open spec fn module_file_spec(
    source: Seq<char>,
    module: Seq<char>,
    reference_file: Seq<char>,
) -> Seq<char> {
    let tail = trim_start_char(source, '.');
    let dots = (source.len() - tail.len()) as nat;
    let base = if dots == 0 {
        replaced(source, '.', '/')
    } else {
        below(climbed(reference_file, dots), replaced(tail, '.', '/'))
    };
    below(trim_slashes(base), module + ".py"@)
}

proof fn lemma_trim_shortens(text: Seq<char>, c: char)
    ensures
        trim_start_char(text, c).len() <= text.len(),
        text.len() > 0 && text[0] == c ==> trim_start_char(text, c).len() < text.len(),
        !(text.len() > 0 && text[0] == c) ==> trim_start_char(text, c) == text,
    decreases text.len(),
{
    if text.len() > 0 && text[0] == c {
        lemma_trim_shortens(text.skip(1), c);
    }
}

fn char_count(text: &str) -> (count: usize)
    ensures
        count == text@.len(),
{
    chars_of(text).len()
}

/// The relative path of the file a `from source import module` names.
pub fn module_file_path(source: &str, module: &str, reference_file: &str) -> (path: String)
    ensures
        path@ == module_file_spec(source@, module@, reference_file@),
{
    let tail = trim_start_of(source, '.');
    proof {
        lemma_trim_shortens(source@, '.');
    }
    let dots: usize = char_count(source) - char_count(tail.as_str());
    let base = if dots == 0 {
        replace(source, '.', '/')
    } else {
        let mut directory = copy(reference_file);
        let mut left: usize = dots;
        while left > 0
            invariant
                climbed(reference_file@, dots as nat) == climbed(directory@, left as nat),
            decreases left,
        {
            directory = parent_directory(directory.as_str());
            left = left - 1;
        }
        let tail = replace(tail.as_str(), '.', '/');
        if directory.as_str().is_empty() {
            tail
        } else if tail.as_str().is_empty() {
            directory
        } else {
            cat3(directory.as_str(), "/", tail.as_str())
        }
    };
    let start = trim_start_of(base.as_str(), '/');
    let trimmed = trim_end_of(start.as_str(), '/');
    let leaf = cat2(module, ".py");
    assert(leaf@.len() >= 1) by {
        reveal_strlit(".py");
    }
    if trimmed.as_str().is_empty() {
        leaf
    } else {
        cat3(trimmed.as_str(), "/", leaf.as_str())
    }
}

/// Whether a project-relative file path names the same module file as `module_file`, compared as a
/// path suffix in either direction: an index rooted below the import's top package still matches
/// the right module, a sibling does not.
pub open spec fn path_in_module_spec(candidate: Seq<char>, module_file: Seq<char>) -> bool {
    let candidate = replaced(candidate, '\\', '/');
    ||| module_file == candidate
    ||| ("/"@ + candidate).is_suffix_of(module_file)
    ||| ("/"@ + module_file).is_suffix_of(candidate)
}

/// Whether a project-relative file path names the same module file as `module_file`.
pub fn path_in_module(candidate: &str, module_file: &str) -> (same: bool)
    ensures
        same == path_in_module_spec(candidate@, module_file@),
{
    let candidate = replace(candidate, '\\', '/');
    same_text(module_file, candidate.as_str()) || ends_with(
        module_file,
        cat2("/", candidate.as_str()).as_str(),
    ) || ends_with(candidate.as_str(), cat2("/", module_file).as_str())
}

/// The text holds neither a dot nor a slash of either kind.
pub open spec fn is_plain(text: Seq<char>) -> bool {
    !text.contains('.') && !text.contains('/') && !text.contains('\\')
}

/// The path is a directory, the stem and at most an extension, written one behind another.
pub open spec fn spells_stem(
    path: Seq<char>,
    directory: Seq<char>,
    stem: Seq<char>,
    extension: Seq<char>,
) -> bool {
    &&& path == directory + stem + extension
    &&& directory.len() == 0 || directory.last() == '/' || directory.last() == '\\'
    &&& extension.len() == 0 || (extension[0] == '.' && is_plain(extension.skip(1)))
}

/// The file at the path is called this, in whatever directory and with whatever extension.
pub open spec fn is_called(path: Seq<char>, stem: Seq<char>) -> bool {
    exists|directory: Seq<char>, extension: Seq<char>|
        spells_stem(path, directory, stem, extension)
}

proof fn lemma_last_either(text: Seq<char>, a: char, b: char, to: int)
    requires
        0 <= to <= text.len(),
    ensures
        match last_either(text, a, b, to) {
            Some(at) => 0 <= at < to && (text[at] == a || text[at] == b) && forall|k: int|
                at < k < to ==> #[trigger] text[k] != a && text[k] != b,
            None => forall|k: int| 0 <= k < to ==> #[trigger] text[k] != a && text[k] != b,
        },
    decreases to,
{
    if to > 0 && text[to - 1] != a && text[to - 1] != b {
        lemma_last_either(text, a, b, to - 1);
    }
}

/// A path is its directory and its base name, and the base name holds no slash.
proof fn lemma_base_name(path: Seq<char>) -> (directory: Seq<char>)
    ensures
        path == directory + base_name_spec(path),
        directory.len() == 0 || directory.last() == '/' || directory.last() == '\\',
        !base_name_spec(path).contains('/'),
        !base_name_spec(path).contains('\\'),
{
    lemma_last_either(path, '/', '\\', path.len() as int);
    let base = base_name_spec(path);
    let cut = match last_either(path, '/', '\\', path.len() as int) {
        Some(at) => at + 1,
        None => 0,
    };
    assert(base =~= path.skip(cut));
    assert(path =~= path.take(cut) + base);
    assert forall|k: int| 0 <= k < base.len() implies #[trigger] base[k] != '/' && base[k]
        != '\\' by {
        assert(base[k] == path[cut + k]);
    }
    path.take(cut)
}

/// What stands behind a directory and holds no slash is the base name.
proof fn lemma_base_name_is(directory: Seq<char>, name: Seq<char>)
    requires
        directory.len() == 0 || directory.last() == '/' || directory.last() == '\\',
        !name.contains('/'),
        !name.contains('\\'),
    ensures
        base_name_spec(directory + name) == name,
{
    let path = directory + name;
    let cut = directory.len() as int;
    lemma_last_either(path, '/', '\\', path.len() as int);
    assert forall|k: int| cut <= k < path.len() implies #[trigger] path[k] != '/' && path[k]
        != '\\' by {
        assert(path[k] == name[k - cut]);
        assert(name.contains(name[k - cut]));
    }
    if cut > 0 {
        assert(path[cut - 1] == directory.last());
    }
    assert(path.skip(cut) =~= name);
    assert(cut == 0 ==> path =~= name);
}

proof fn lemma_called_by_stem(path: Seq<char>)
    requires
        is_plain(file_stem_spec(path)),
    ensures
        is_called(path, file_stem_spec(path)),
{
    reveal_strlit(".");
    assert("."@ =~= seq!['.']);
    let stem = file_stem_spec(path);
    let base = base_name_spec(path);
    let directory = lemma_base_name(path);
    lemma_last_to(base, "."@, base.len() as int);
    match last_to(base, "."@, base.len() as int) {
        Some(dot) => {
            assert(base.subrange(dot, dot + 1)[0] == base[dot]);
            let extension = base.skip(dot);
            let shown = extension.skip(1);
            assert(base =~= stem + extension);
            assert forall|k: int| 0 <= k < shown.len() implies #[trigger] shown[k] != '.'
                && shown[k] != '/' && shown[k] != '\\' by {
                assert(shown[k] == base[dot + 1 + k]);
                assert(base.contains(base[dot + 1 + k]));
                if shown[k] == '.' {
                    assert(base.subrange(dot + 1 + k, dot + 2 + k) =~= "."@);
                    assert(occurs_at(base, "."@, dot + 1 + k));
                }
            }
            assert(path =~= directory + stem + extension);
            assert(spells_stem(path, directory, stem, extension));
        },
        None => {
            assert(path =~= directory + stem + Seq::<char>::empty());
            assert(spells_stem(path, directory, stem, Seq::empty()));
        },
    }
}

proof fn lemma_stem_of_called(
    path: Seq<char>,
    directory: Seq<char>,
    stem: Seq<char>,
    extension: Seq<char>,
)
    requires
        is_plain(stem),
        spells_stem(path, directory, stem, extension),
    ensures
        file_stem_spec(path) == stem,
{
    reveal_strlit(".");
    assert("."@ =~= seq!['.']);
    let name = stem + extension;
    assert forall|k: int| 0 <= k < name.len() implies #[trigger] name[k] != '/' && name[k]
        != '\\' by {
        if k < stem.len() {
            assert(stem.contains(stem[k]));
        } else if k > stem.len() {
            let shown = extension.skip(1);
            assert(shown[k - stem.len() - 1] == name[k]);
            assert(shown.contains(name[k]));
        }
    }
    assert(path =~= directory + name);
    lemma_base_name_is(directory, name);
    if extension.len() == 0 {
        assert(name =~= stem);
        lemma_no_rsplit(name, '.', name.len() as int);
    } else {
        let shown = extension.skip(1);
        assert(name =~= stem + seq!['.'] + shown);
        lemma_rsplit_at(stem, '.', shown);
    }
}

/// The stem of a file's name is what stands between its directory and its extension.
pub proof fn law_a_file_is_called_by_its_stem(path: Seq<char>, stem: Seq<char>)
    requires
        is_plain(stem),
    ensures
        file_stem_spec(path) == stem <==> is_called(path, stem),
{
    if file_stem_spec(path) == stem {
        lemma_called_by_stem(path);
    }
    if is_called(path, stem) {
        let (directory, extension) = choose|directory: Seq<char>, extension: Seq<char>|
            spells_stem(path, directory, stem, extension);
        lemma_stem_of_called(path, directory, stem, extension);
    }
}

// ---------------------------------------------------------------------------
// What the parts of a path are

/// A path is its directory, a slash of either kind, and its base name, which holds no slash; a path
/// without a slash is a base name in no directory.
pub proof fn law_a_path_is_its_directory_and_its_base_name(
    directory: Seq<char>,
    slash: char,
    base: Seq<char>,
)
    requires
        slash == '/' || slash == '\\',
        !base.contains('/'),
        !base.contains('\\'),
    ensures
        parent_directory_spec(directory + seq![slash] + base) == directory,
        base_name_spec(directory + seq![slash] + base) == base,
        parent_directory_spec(base) == Seq::<char>::empty(),
        base_name_spec(base) == base,
{
    let path = directory + seq![slash] + base;
    let cut = directory.len() as int;
    lemma_last_either(path, '/', '\\', path.len() as int);
    lemma_last_either(base, '/', '\\', base.len() as int);
    assert(path[cut] == slash);
    assert forall|k: int| cut < k < path.len() implies #[trigger] path[k] != '/' && path[k]
        != '\\' by {
        assert(path[k] == base[k - cut - 1]);
        assert(base.contains(base[k - cut - 1]));
    }
    assert(path.take(cut) =~= directory);
    assert(path.skip(cut + 1) =~= base);
    if last_either(base, '/', '\\', base.len() as int) is Some {
        let at = last_either(base, '/', '\\', base.len() as int)->0;
        assert(base.contains(base[at]));
    }
}

/// The stem of a dotted or slashed module is its last segment, whatever stands before it and
/// whatever separators it ends in.
pub proof fn law_a_module_goes_by_its_last_segment(
    package: Seq<char>,
    separator: char,
    segment: Seq<char>,
)
    requires
        separator == '.' || separator == '/',
        segment.len() > 0,
        !segment.contains('.'),
        !segment.contains('/'),
    ensures
        module_stem_spec(package + seq![separator] + segment) == segment,
        module_stem_spec(segment) == segment,
        module_stem_spec(package + seq![separator] + segment + seq!['.']) == segment,
        module_stem_spec(package + seq![separator] + segment + seq!['/']) == segment,
{
    let source = package + seq![separator] + segment;
    assert(segment.contains(segment.last()));
    assert(source.last() == segment.last());
    assert(trim_separators(source) == source);
    assert(trim_separators(segment) == segment);
    lemma_tail_is(package, separator, segment);
    let dotted = source + seq!['.'];
    assert(dotted.drop_last() =~= source);
    assert(trim_separators(dotted) == source);
    let slashed = source + seq!['/'];
    assert(slashed.drop_last() =~= source);
    assert(trim_separators(slashed) == source);
}

proof fn lemma_tail_is(package: Seq<char>, separator: char, segment: Seq<char>)
    requires
        separator == '.' || separator == '/',
        !segment.contains('.'),
        !segment.contains('/'),
    ensures
        tail_after(package + seq![separator] + segment, '.', '/') == segment,
        tail_after(segment, '.', '/') == segment,
{
    let source = package + seq![separator] + segment;
    let cut = package.len() as int;
    lemma_last_either(source, '.', '/', source.len() as int);
    lemma_last_either(segment, '.', '/', segment.len() as int);
    assert(source[cut] == separator);
    assert forall|k: int| cut < k < source.len() implies #[trigger] source[k] != '.' && source[k]
        != '/' by {
        assert(source[k] == segment[k - cut - 1]);
        assert(segment.contains(segment[k - cut - 1]));
    }
    assert(source.skip(cut + 1) =~= segment);
    if last_either(segment, '.', '/', segment.len() as int) is Some {
        let at = last_either(segment, '.', '/', segment.len() as int)->0;
        assert(segment.contains(segment[at]));
    }
}

/// The stem of a script specifier is its last segment without the extension of a script.
pub proof fn law_a_script_goes_by_its_bare_name(directory: Seq<char>, stem: Seq<char>)
    requires
        stem.len() > 0,
        is_plain(stem),
    ensures
        js_module_stem_spec(directory + seq!['/'] + stem) == stem,
        js_module_stem_spec(directory + seq!['/'] + (stem + ".js"@)) == stem,
        js_module_stem_spec(directory + seq!['/'] + (stem + ".mjs"@)) == stem,
        js_module_stem_spec(directory + seq!['/'] + (stem + ".cjs"@)) == stem,
        js_module_stem_spec(directory + seq!['/'] + (stem + ".jsx"@)) == stem,
        js_module_stem_spec(directory + seq!['/'] + (stem + ".ts"@)) == stem,
        js_module_stem_spec(directory + seq!['/'] + (stem + ".tsx"@)) == stem,
{
    reveal_strlit("/");
    reveal_strlit(".js");
    reveal_strlit(".mjs");
    reveal_strlit(".cjs");
    reveal_strlit(".jsx");
    reveal_strlit(".ts");
    reveal_strlit(".tsx");
    assert("/"@ =~= seq!['/']);
    lemma_script_ending(directory, stem, ""@);
    lemma_script_ending(directory, stem, ".js"@);
    lemma_script_ending(directory, stem, ".mjs"@);
    lemma_script_ending(directory, stem, ".cjs"@);
    lemma_script_ending(directory, stem, ".jsx"@);
    lemma_script_ending(directory, stem, ".ts"@);
    lemma_script_ending(directory, stem, ".tsx"@);
    reveal_strlit("");
    assert(stem + ""@ =~= stem);
}

proof fn lemma_script_ending(directory: Seq<char>, stem: Seq<char>, ending: Seq<char>)
    requires
        stem.len() > 0,
        is_plain(stem),
        ending == ""@ || ending == ".js"@ || ending == ".mjs"@ || ending == ".cjs"@ || ending
            == ".jsx"@ || ending == ".ts"@ || ending == ".tsx"@,
    ensures
        js_module_stem_spec(directory + seq!['/'] + (stem + ending)) == stem,
{
    reveal_strlit("");
    reveal_strlit("/");
    reveal_strlit(".js");
    reveal_strlit(".mjs");
    reveal_strlit(".cjs");
    reveal_strlit(".jsx");
    reveal_strlit(".ts");
    reveal_strlit(".tsx");
    assert("/"@ =~= seq!['/']);
    let name = stem + ending;
    assert(!name.contains('/')) by {
        if name.contains('/') {
            let k = choose|k: int| 0 <= k < name.len() && name[k] == '/';
            if k < stem.len() {
                assert(stem.contains(stem[k]));
            }
        }
    }
    lemma_rsplit_at(directory, '/', name);
    assert(after_last_spec(directory + seq!['/'] + name, "/"@) == name);
    assert forall|from: int| 0 <= from < 6 implies #[trigger] SCRIPT_EXTENSIONS@[from]@.is_suffix_of(
        name,
    ) ==> SCRIPT_EXTENSIONS@[from]@ == ending by {
        let extension = SCRIPT_EXTENSIONS@[from]@;
        if extension.is_suffix_of(name) {
            lemma_only_ending(stem, ending, extension);
        }
    }
    lemma_stripped(stem, ending, 0);
}

/// Of what starts with a dot, only the ending of a plain stem ends the whole.
proof fn lemma_only_ending(stem: Seq<char>, ending: Seq<char>, extension: Seq<char>)
    requires
        is_plain(stem),
        extension.len() > 0,
        extension[0] == '.',
        ending.len() == 0 || ending[0] == '.',
        forall|k: int| 1 <= k < ending.len() ==> #[trigger] ending[k] != '.',
        extension.is_suffix_of(stem + ending),
    ensures
        extension == ending,
{
    let name = stem + ending;
    let at = name.len() - extension.len();
    let tail = name.subrange(at, name.len() as int);
    assert(tail == extension);
    assert(tail[0] == name[at]);
    if at < stem.len() {
        assert(stem.contains(stem[at]));
    } else if at > stem.len() {
        assert(name[at] == ending[at - stem.len()]);
    } else {
        assert(tail =~= ending);
    }
}

proof fn lemma_stripped(stem: Seq<char>, ending: Seq<char>, from: int)
    requires
        0 <= from <= 6,
        forall|k: int|
            0 <= k < 6 ==> #[trigger] SCRIPT_EXTENSIONS@[k]@.is_suffix_of(stem + ending)
                ==> SCRIPT_EXTENSIONS@[k]@ == ending,
        ending.len() == 0 || exists|k: int| from <= k < 6 && #[trigger] SCRIPT_EXTENSIONS@[k]@ == ending,
        ending.len() == 0 ==> forall|k: int|
            0 <= k < 6 ==> (#[trigger] SCRIPT_EXTENSIONS@[k])@.len() > 0,
    ensures
        without_extension(stem + ending, from) == stem,
    decreases 6 - from,
{
    let name = stem + ending;
    if from < 6 {
        let extension = SCRIPT_EXTENSIONS@[from]@;
        if extension.is_suffix_of(name) {
            assert(name.take(name.len() - extension.len()) =~= stem);
        } else {
            if ending.len() > 0 {
                assert(name.subrange(stem.len() as int, name.len() as int) =~= ending);
                assert(ending.is_suffix_of(name));
            }
            lemma_stripped(stem, ending, from + 1);
        }
    } else {
        assert(name =~= stem);
    }
}

/// Both lists hold the same segment at this place, one that is not empty.
pub open spec fn same_at(left: Seq<Seq<char>>, right: Seq<Seq<char>>, at: int) -> bool {
    0 <= at < left.len() && at < right.len() && left[at] == right[at] && left[at].len() > 0
}

proof fn lemma_shared_from(left: Seq<Seq<char>>, right: Seq<Seq<char>>, from: int)
    requires
        0 <= from,
    ensures
        forall|i: int|
            from <= i < from + shared_from(left, right, from) ==> #[trigger] same_at(left, right, i),
        !same_at(left, right, from + shared_from(left, right, from)),
    decreases left.len() - from,
{
    if from < left.len() && from < right.len() && left[from].len() > 0 && left[from]
        == right[from] {
        lemma_shared_from(left, right, from + 1);
        let rest = shared_from(left, right, from + 1);
        assert(shared_from(left, right, from) == 1 + rest);
        assert forall|i: int| from <= i < from + 1 + rest implies same_at(left, right, i) by {
            if i > from {
                assert(same_at(left, right, i));
            }
        }
    }
}

/// Two paths share the directories that they start with in common: the depth they share counts
/// segments that are the same in both, and the segments behind those differ, or one path has no
/// more. The segments of a path, joined again, are its directory.
pub proof fn law_shared_depth_counts_the_common_directories(source: Seq<char>, target: Seq<char>)
    ensures
        ({
            let (left, right) = (directory_segments(source), directory_segments(target));
            let depth = shared_depth(source, target) as int;
            &&& join_spec(left, "/"@) == replaced(parent_directory_spec(source), '\\', '/')
            &&& forall|i: int| 0 <= i < depth ==> #[trigger] same_at(left, right, i)
            &&& !same_at(left, right, depth)
        }),
{
    reveal_strlit("/");
    law_pieces_join_back(replaced(parent_directory_spec(source), '\\', '/'), "/"@);
    lemma_shared_from(directory_segments(source), directory_segments(target), 0);
}

/// A path names the file of a module where, with its slashes turned, it is the path of that file,
/// or one of the two is the other behind further directories.
pub proof fn law_a_path_names_a_module_by_its_end(
    candidate: Seq<char>,
    module_file: Seq<char>,
    above: Seq<char>,
)
    requires
        !candidate.contains('\\'),
    ensures
        candidate == module_file ==> path_in_module_spec(candidate, module_file),
        candidate == above + seq!['/'] + module_file ==> path_in_module_spec(
            candidate,
            module_file,
        ),
        module_file == above + seq!['/'] + candidate ==> path_in_module_spec(
            candidate,
            module_file,
        ),
        path_in_module_spec(candidate, module_file) ==> candidate == module_file || exists|
            head: Seq<char>,
        |
            candidate == #[trigger] (head + seq!['/'] + module_file) || module_file == head + seq![
                '/',
            ] + candidate,
{
    reveal_strlit("/");
    assert("/"@ =~= seq!['/']);
    assert(replaced(candidate, '\\', '/') =~= candidate) by {
        assert forall|k: int| 0 <= k < candidate.len() implies #[trigger] candidate[k] != '\\' by {
            assert(candidate.contains(candidate[k]));
        }
    }
    if candidate == above + seq!['/'] + module_file {
        assert(candidate.subrange(above.len() as int, candidate.len() as int) =~= "/"@
            + module_file);
    }
    if module_file == above + seq!['/'] + candidate {
        assert(module_file.subrange(above.len() as int, module_file.len() as int) =~= "/"@
            + candidate);
    }
    if ("/"@ + module_file).is_suffix_of(candidate) {
        let head = candidate.take(candidate.len() - module_file.len() - 1);
        assert(candidate =~= head + (seq!['/'] + module_file));
        assert(candidate =~= head + seq!['/'] + module_file);
    }
    if ("/"@ + candidate).is_suffix_of(module_file) {
        let head = module_file.take(module_file.len() - candidate.len() - 1);
        assert(module_file =~= head + (seq!['/'] + candidate));
        assert(module_file =~= head + seq!['/'] + candidate);
        assert(head + seq!['/'] + module_file == head + seq!['/'] + module_file);
    }
}

/// An absolute module is the path that its dots spell, and a relative one is spelled from the
/// directory of the file that refers to it.
pub proof fn law_a_module_is_where_its_dots_lead(
    source: Seq<char>,
    module: Seq<char>,
    directory: Seq<char>,
    base: Seq<char>,
)
    requires
        source.len() > 0,
        source[0] != '.',
        source[0] != '/',
        source.last() != '.',
        source.last() != '/',
        directory.len() > 0,
        directory[0] != '/',
        directory[0] != '\\',
        directory.last() != '/',
        !base.contains('/'),
        !base.contains('\\'),
    ensures
        module_file_spec(source, module, directory + seq!['/'] + base) == replaced(source, '.', '/')
            + "/"@ + (module + ".py"@),
        module_file_spec(seq!['.'] + source, module, directory + seq!['/'] + base) == directory
            + "/"@ + replaced(source, '.', '/') + "/"@ + (module + ".py"@),
{
    reveal_strlit("/");
    reveal_strlit(".py");
    let file = directory + seq!['/'] + base;
    let spelled = replaced(source, '.', '/');
    lemma_trim_shortens(source, '.');
    assert(trim_start_char(source, '.') == source);
    assert(spelled[0] == source[0]);
    assert(spelled.last() == source.last());
    lemma_trim_shortens(spelled, '/');
    assert(trim_slashes(spelled) == spelled);
    let relative = seq!['.'] + source;
    assert(relative.skip(1) =~= source);
    assert(trim_start_char(relative, '.') == source);
    law_a_path_is_its_directory_and_its_base_name(directory, '/', base);
    assert(climbed(file, 1) == climbed(directory, 0));
    let whole = directory + "/"@ + spelled;
    assert(below(directory, spelled) == whole);
    assert(whole[0] == directory[0]);
    assert(whole.last() == spelled.last());
    lemma_trim_shortens(whole, '/');
    assert(trim_slashes(whole) == whole);
}

} // verus!
