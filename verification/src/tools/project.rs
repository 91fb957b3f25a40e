//! The shape of a project, and of the constellation around it: its files, an overview, its
//! routes, and the links between projects.
use crate::chars::{
    cat2, cat3, cat5, contains, copy, join, join_spec, law_pieces_join_back, lowercase, lowercased,
    occurs, occurs_at, quote, quoted, same_text, split, split_spec, views,
};
use crate::cursor::{
    next_line, next_line_spec, next_text, next_text_line, note_line, note_text, slice, slice_spec,
    Page,
};
use crate::graph::{answers_to, EdgeKind, Node, NodeKind, Project};
use crate::keys::{key_at, last_at, lemma_key_at, text_for, KeyIndex, PlaceIndex, TextIndex};
use crate::limits::{
    LINKS_FETCH_MAX, OVERVIEW_PACKAGES_MAX, ROUTES_PER_PROJECT_MAX, ROUTES_UNBOUND_NAMED_MAX,
};
use crate::numbers::{
    self, decimal, decimal_i128, decimal_i64, decimal_spec, decimal_u32, decimal_usize,
    lemma_indices, signed_spec,
};
use crate::order::{
    arrange, arranged, indices, key_view, keys_view, law_arranging_keeps_the_items,
    law_arranging_sorts, lemma_key_order, lemma_not_after, lemma_sorted_order, sort_order,
    sorted_order, text_less, Part, PartView,
};
use crate::rank::{path_penalty, path_penalty_spec};
use vstd::prelude::*;

verus! {

// ---------------------------------------------------------------------------
// Files

/// The directories one project's layout lists.
pub const DIRECTORIES_MAX: usize = 80;

/// The files one page of a filtered listing shows.
pub const FILES_MATCH_MAX: usize = 100;

/// One indexed file: its path, how many symbols it holds, and what the index judged of it.
pub struct FileRow {
    pub path: String,
    pub node_count: i64,
    pub generated: bool,
    pub test: bool,
}

/// A project with its files.
pub struct ProjectFiles {
    pub project: Project,
    pub files: Vec<FileRow>,
}

/// The symbols the files hold together.
pub open spec fn symbol_total(files: Seq<FileRow>) -> int
    decreases files.len(),
{
    if files.len() == 0 {
        0
    } else {
        symbol_total(files.drop_last()) + files.last().node_count
    }
}

/// The symbols the indexed files hold, the denominator every package breakdown below a header is
/// built from.
pub fn file_symbol_total(files: &[FileRow]) -> (total: i128)
    ensures
        total == symbol_total(files@),
{
    let mut total: i128 = 0;
    for i in 0..files.len()
        invariant
            total == symbol_total(files@.take(i as int)),
            -(i * 0x8000_0000_0000_0000) <= total <= i * 0x8000_0000_0000_0000,
    {
        assert(files@.take(i + 1).drop_last() =~= files@.take(i as int));
        total = total + files[i].node_count as i128;
    }
    assert(files@.take(files@.len() as int) =~= files@);
    total
}

/// The directory a file is counted under: its first `depth` path segments, or `(root)`.
pub open spec fn directory_of(path: Seq<char>, depth: int) -> Seq<char> {
    let segments = split_spec(path, "/"@);
    if segments.len() <= 1 {
        "(root)"@
    } else {
        join_spec(
            segments.take(if depth < segments.len() - 1 { depth } else { segments.len() - 1 }),
            "/"@,
        )
    }
}

/// One directory with its files and symbols.
pub struct DirectoryView {
    pub name: Seq<char>,
    pub files: int,
    pub symbols: int,
}

/// The names of the directories.
pub open spec fn directory_names(directories: Seq<DirectoryView>) -> Seq<Seq<char>> {
    directories.map_values(|directory: DirectoryView| directory.name)
}

/// The directories of the first `count` files, in order of first appearance.
pub open spec fn directories_upto(files: Seq<FileRow>, depth: int, count: int) -> Seq<DirectoryView>
    decreases count,
{
    if count <= 0 {
        Seq::empty()
    } else {
        let known = directories_upto(files, depth, count - 1);
        let name = directory_of(files[count - 1].path@, depth);
        let symbols = files[count - 1].node_count as int;
        match key_at(directory_names(known), name, 0) {
            Some(at) => known.update(
                at,
                DirectoryView {
                    name,
                    files: known[at].files + 1,
                    symbols: known[at].symbols + symbols,
                },
            ),
            None => known.push(DirectoryView { name, files: 1, symbols }),
        }
    }
}

/// The sort key of a directory: the most symbols first, then by name.
pub open spec fn directory_key(directory: DirectoryView) -> Seq<PartView> {
    seq![PartView::Number(-directory.symbols), PartView::Text(directory.name)]
}

/// The directories of the files, the most symbols first.
pub open spec fn directories_spec(files: Seq<FileRow>, depth: int) -> Seq<DirectoryView> {
    let found = directories_upto(files, depth, files.len() as int);
    sorted_order(found.map_values(|directory: DirectoryView| directory_key(directory))).map_values(
        |k: int| found[k],
    )
}

/// One directory with its files and symbols.
pub struct Directory {
    pub name: String,
    pub files: usize,
    pub symbols: i128,
}

/// So many files hold no more symbols than this many, nor less than as many below zero.
spec fn symbols_within(symbols: i128, files: int) -> bool {
    -(files * 0x8000_0000_0000_0000) <= symbols <= files * 0x8000_0000_0000_0000
}

impl View for Directory {
    type V = DirectoryView;

    open spec fn view(&self) -> DirectoryView {
        DirectoryView {
            name: self.name@,
            files: self.files as int,
            symbols: self.symbols as int,
        }
    }
}

/// Directories as values.
pub open spec fn directory_views(directories: Seq<Directory>) -> Seq<DirectoryView> {
    directories.map_values(|directory: Directory| directory@)
}

fn directory_name(path: &str, depth: usize) -> (name: String)
    requires
        depth >= 1,
    ensures
        name@ == directory_of(path@, depth as int),
{
    proof {
        reveal_strlit("/");
    }
    let segments = split(path, "/");
    assert(segments@.len() == views(segments@).len());
    if segments.len() <= 1 {
        return copy("(root)");
    }
    let count: usize = if depth < segments.len() - 1 { depth } else { segments.len() - 1 };
    let kept = vstd::slice::slice_subrange(segments.as_slice(), 0, count);
    assert(views(kept@) =~= views(segments@).take(count as int));
    join(kept, "/")
}

fn collect_directories(files: &[FileRow], depth: usize) -> (directories: Vec<Directory>)
    requires
        depth >= 1,
    ensures
        directory_views(directories@) == directories_upto(
            files@,
            depth as int,
            files@.len() as int,
        ),
        forall|k: int|
            0 <= k < directories@.len() ==> symbols_within(
                (#[trigger] directories@[k]).symbols,
                files@.len() as int,
            ),
{
    let mut index = KeyIndex::new();
    let mut directories: Vec<Directory> = Vec::new();
    assert(directory_views(directories@) =~= Seq::empty());
    assert(index@ =~= directory_names(directory_views(directories@)));
    for i in 0..files.len()
        invariant
            depth >= 1,
            index.wf(),
            index@ == directory_names(directory_views(directories@)),
            directories@.len() <= i,
            directory_views(directories@) == directories_upto(files@, depth as int, i as int),
            forall|k: int|
                0 <= k < directories@.len() ==> (#[trigger] directories@[k]).files <= i
                    && symbols_within(directories@[k].symbols, i as int),
    {
        let ghost before = directory_views(directories@);
        let name = directory_name(files[i].path.as_str(), depth);
        match index.find(name.as_str()) {
            Some(at) => {
                proof {
                    lemma_key_at(index@, name@, 0);
                }
                assert(before[at as int] == directories@[at as int]@);
                let grown = Directory {
                    name,
                    files: directories[at].files + 1,
                    symbols: directories[at].symbols + files[i].node_count as i128,
                };
                let ghost entry = grown@;
                directories.set(at, grown);
                assert(directory_views(directories@) =~= before.update(at as int, entry));
                assert(index@ =~= directory_names(directory_views(directories@)));
            },
            None => {
                index.add(name.as_str());
                let fresh = Directory { name, files: 1, symbols: files[i].node_count as i128 };
                let ghost entry = fresh@;
                directories.push(fresh);
                assert(directory_views(directories@) =~= before.push(entry));
                assert(index@ =~= directory_names(directory_views(directories@)));
            },
        }
    }
    directories
}

/// The files aggregated by their first `depth` path directory segments (root files under
/// `(root)`), with file and symbol counts, sorted by symbol count descending then name.
pub fn aggregate_by_depth(files: &[FileRow], depth: usize) -> (directories: Vec<Directory>)
    requires
        depth >= 1,
    ensures
        directory_views(directories@) == directories_spec(files@, depth as int),
{
    let found = collect_directories(files, depth);
    let file_count: usize = files.len();
    let ghost found_list = directory_views(found@);
    let ghost key_list = found_list.map_values(
        |directory: DirectoryView| directory_key(directory),
    );
    let mut keys: Vec<Vec<Part>> = Vec::new();
    for i in 0..found.len()
        invariant
            found_list == directory_views(found@),
            key_list == found_list.map_values(
                |directory: DirectoryView| directory_key(directory),
            ),
            keys_view(keys@) == key_list.take(i as int),
            forall|k: int|
                0 <= k < found@.len() ==> symbols_within(
                    (#[trigger] found@[k]).symbols,
                    files@.len() as int,
                ),
            files@.len() <= usize::MAX,
    {
        let ghost before = keys@;
        assert(found_list[i as int] == found@[i as int]@);
        let mut key: Vec<Part> = Vec::new();
        key.push(Part::Number(-found[i].symbols));
        key.push(Part::Text(copy(found[i].name.as_str())));
        assert(key_view(key) =~= key_list[i as int]);
        keys.push(key);
        assert(keys_view(keys@) =~= keys_view(before).push(key_list[i as int]));
        assert(key_list.take(i + 1) =~= key_list.take(i as int).push(key_list[i as int]));
    }
    assert(key_list.take(found@.len() as int) =~= key_list);
    assert(keys@.len() == keys_view(keys@).len());
    let order = sort_order(&keys);
    let ghost wanted = directories_spec(files@, depth as int);
    assert(indices(order@).len() == order@.len());
    let mut directories: Vec<Directory> = Vec::new();
    for i in 0..order.len()
        invariant
            found_list == directory_views(found@),
            forall|k: int| 0 <= k < order@.len() ==> #[trigger] order@[k] < found@.len(),
            wanted == indices(order@).map_values(|k: int| found_list[k]),
            wanted.len() == order@.len(),
            directory_views(directories@) == wanted.take(i as int),
    {
        let ghost before = directories@;
        assert(order@[i as int] < found@.len());
        assert(indices(order@)[i as int] == order@[i as int]);
        let entry = &found[order[i]];
        assert(found_list[order@[i as int] as int] == entry@);
        directories.push(
            Directory {
                name: copy(entry.name.as_str()),
                files: entry.files,
                symbols: entry.symbols,
            },
        );
        assert(directory_views(directories@) =~= directory_views(before).push(wanted[i as int]));
        assert(wanted.take(i + 1) =~= wanted.take(i as int).push(wanted[i as int]));
    }
    assert(wanted.take(order@.len() as int) =~= wanted);
    directories
}

/// The first `count` directories of a layout, one per line.
pub open spec fn directory_lines(directories: Seq<DirectoryView>, count: int) -> Seq<char>
    decreases count,
{
    if count <= 0 {
        ""@
    } else {
        let directory = directories[count - 1];
        directory_lines(directories, count - 1) + ("  "@ + directory.name + "/ ("@ + decimal_spec(
            directory.files as nat,
        ) + " files, "@ + signed_spec(directory.symbols) + " symbols)\n"@)
    }
}

/// The smaller of a length and a cap.
pub open spec fn at_most(length: nat, cap: int) -> int {
    if length > cap {
        cap
    } else {
        length as int
    }
}

/// The heading of a project with the size of its files.
pub open spec fn project_heading(row: ProjectFiles) -> Seq<char> {
    "["@ + row.project.id@ + "] "@ + row.project.name@ + " ("@ + decimal_spec(row.files@.len())
        + " files, "@ + signed_spec(symbol_total(row.files@)) + " symbols)\n"@
}

/// The layout of a project: its directories, the largest first.
pub open spec fn layout_block(row: ProjectFiles, focused: bool) -> Seq<char> {
    let directories = directories_spec(row.files@, 2);
    let more = if directories.len() > DIRECTORIES_MAX {
        "  (+"@ + decimal_spec((directories.len() - DIRECTORIES_MAX) as nat)
            + " more directories)\n"@
    } else {
        ""@
    };
    let tip = if focused {
        ""@
    } else {
        "  (pass project=<id> to focus a single project, or pattern=<text> to list files)\n"@
    };
    project_heading(row) + directory_lines(
        directories,
        at_most(directories.len(), DIRECTORIES_MAX as int),
    ) + more + tip
}

/// The positions, below `count`, of the files whose path holds the needle.
pub open spec fn matching_files(files: Seq<FileRow>, needle: Seq<char>, count: int) -> Seq<usize>
    decreases count,
{
    if count <= 0 {
        Seq::empty()
    } else if occurs(lowercased(files[count - 1].path@), needle) {
        matching_files(files, needle, count - 1).push((count - 1) as usize)
    } else {
        matching_files(files, needle, count - 1)
    }
}

/// The sort key of a listed file: source before tests before generated files, then by path.
pub open spec fn file_key(file: FileRow) -> Seq<PartView> {
    seq![
        PartView::Number(path_penalty_spec(file.generated, file.test)),
        PartView::Text(file.path@),
    ]
}

/// The matching files in listing order.
pub open spec fn matched_files(files: Seq<FileRow>, needle: Seq<char>) -> Seq<usize> {
    let found = matching_files(files, needle, files.len() as int);
    arranged(found, found.map_values(|p: usize| file_key(files[p as int])))
}

/// The first `count` of the files at these positions, one per line.
pub open spec fn file_lines(files: Seq<FileRow>, shown: Seq<usize>, count: int) -> Seq<char>
    decreases count,
{
    if count <= 0 {
        ""@
    } else {
        let file = files[shown[count - 1] as int];
        file_lines(files, shown, count - 1) + ("  "@ + file.path@ + " ("@ + signed_spec(
            file.node_count as int,
        ) + " symbols)\n"@)
    }
}

/// The files of a project whose path holds the needle, one page of them.
pub open spec fn match_block(row: ProjectFiles, needle: Seq<char>, page: Page, generation: u64) -> Seq<
    char,
> {
    let matched = matched_files(row.files@, needle);
    let window = slice_spec(matched, page.offset as int, FILES_MATCH_MAX as int);
    let next = match next_line_spec(
        page.offset as int,
        window.len() as int,
        matched.len() as int,
        generation,
    ) {
        Some(line) => "  "@ + line + "\n"@,
        None => ""@,
    };
    let empty = if matched.len() == 0 {
        "  (no files matching "@ + quoted(needle) + ")\n"@
    } else {
        ""@
    };
    "["@ + row.project.id@ + "] "@ + row.project.name@ + " ("@ + decimal_spec(matched.len())
        + " files matching "@ + quoted(needle) + ", of "@ + decimal_spec(row.files@.len())
        + " in the project)\n"@ + file_lines(row.files@, window, window.len() as int) + next + empty
}

/// The project is asked for: there is no filter, or it answers to it.
pub open spec fn wanted_project(project: Project, filter: Option<&str>) -> bool {
    match filter {
        Some(filter) => answers_to(project, filter@),
        None => true,
    }
}

/// The blocks of the first `count` projects that are asked for.
pub open spec fn file_blocks(
    projects: Seq<ProjectFiles>,
    filter: Option<&str>,
    pattern: Option<&str>,
    page: Page,
    generation: u64,
    count: int,
) -> Seq<char>
    decreases count,
{
    if count <= 0 {
        ""@
    } else {
        let before = file_blocks(projects, filter, pattern, page, generation, count - 1);
        let row = projects[count - 1];
        if !wanted_project(row.project, filter) {
            before
        } else {
            before + (match pattern {
                Some(pattern) => match_block(row, lowercased(pattern@), page, generation),
                None => layout_block(row, filter is Some),
            }) + "\n"@
        }
    }
}

/// Some project among the first `count` is asked for.
pub open spec fn any_wanted(projects: Seq<ProjectFiles>, filter: Option<&str>, count: int) -> bool {
    exists|k: int| 0 <= k < count && wanted_project((#[trigger] projects[k]).project, filter)
}

/// The answer where no project is asked for.
pub open spec fn no_project_text(filter: Option<&str>) -> Seq<char> {
    match filter {
        Some(filter) => "no project matches "@ + quoted(filter@),
        None => "no projects indexed"@,
    }
}

/// The file layout.
pub open spec fn files_text_spec(
    projects: Seq<ProjectFiles>,
    filter: Option<&str>,
    pattern: Option<&str>,
    page: Page,
    generation: u64,
) -> Seq<char> {
    if any_wanted(projects, filter, projects.len() as int) {
        note_text(page) + file_blocks(
            projects,
            filter,
            pattern,
            page,
            generation,
            projects.len() as int,
        )
    } else {
        no_project_text(filter)
    }
}

fn heading(row: &ProjectFiles) -> (text: String)
    ensures
        text@ == project_heading(*row),
{
    let mut text = cat5("[", row.project.id.as_str(), "] ", row.project.name.as_str(), " (");
    text.append(decimal_usize(row.files.len()).as_str());
    text.append(" files, ");
    text.append(decimal_i128(file_symbol_total(row.files.as_slice())).as_str());
    text.append(" symbols)\n");
    text
}

fn layout(row: &ProjectFiles, focused: bool) -> (text: String)
    ensures
        text@ == layout_block(*row, focused),
{
    let directories = aggregate_by_depth(row.files.as_slice(), 2);
    let ghost all = directories_spec(row.files@, 2);
    assert(directories@.len() == all.len()) by {
        assert(directory_views(directories@).len() == directories@.len());
    }
    let shown: usize = if directories.len() > DIRECTORIES_MAX {
        DIRECTORIES_MAX
    } else {
        directories.len()
    };
    let mut listed = copy("");
    for i in 0..shown
        invariant
            shown <= directories@.len(),
            all == directory_views(directories@),
            listed@ == directory_lines(all, i as int),
    {
        assert(all[i as int] == directories@[i as int]@);
        let mut line = cat3("  ", directories[i].name.as_str(), "/ (");
        line.append(decimal_usize(directories[i].files).as_str());
        line.append(" files, ");
        line.append(decimal_i128(directories[i].symbols).as_str());
        line.append(" symbols)\n");
        listed.append(line.as_str());
    }
    let more = if directories.len() > DIRECTORIES_MAX {
        cat3(
            "  (+",
            decimal_usize(directories.len() - DIRECTORIES_MAX).as_str(),
            " more directories)\n",
        )
    } else {
        copy("")
    };
    let tip: &str = if focused {
        ""
    } else {
        "  (pass project=<id> to focus a single project, or pattern=<text> to list files)\n"
    };
    let mut text = heading(row);
    text.append(listed.as_str());
    text.append(more.as_str());
    text.append(tip);
    text
}

fn match_files(files: &[FileRow], needle: &str) -> (matched: Vec<usize>)
    ensures
        matched@ == matched_files(files@, needle@),
        forall|i: int| 0 <= i < matched@.len() ==> #[trigger] matched@[i] < files@.len(),
{
    let mut found: Vec<usize> = Vec::new();
    for i in 0..files.len()
        invariant
            found@ == matching_files(files@, needle@, i as int),
            forall|k: int| 0 <= k < found@.len() ==> #[trigger] found@[k] < files@.len(),
    {
        let path = lowercase(files[i].path.as_str());
        if contains(path.as_str(), needle) {
            found.push(i);
        }
    }
    let ghost key_list = found@.map_values(|p: usize| file_key(files@[p as int]));
    let mut keys: Vec<Vec<Part>> = Vec::new();
    for i in 0..found.len()
        invariant
            forall|k: int| 0 <= k < found@.len() ==> #[trigger] found@[k] < files@.len(),
            key_list == found@.map_values(|p: usize| file_key(files@[p as int])),
            keys_view(keys@) == key_list.take(i as int),
    {
        let ghost before = keys@;
        assert(found@[i as int] < files@.len());
        let file = &files[found[i]];
        let mut key: Vec<Part> = Vec::new();
        key.push(Part::Number(path_penalty(file.generated, file.test) as i128));
        key.push(Part::Text(copy(file.path.as_str())));
        assert(key_view(key) =~= key_list[i as int]);
        keys.push(key);
        assert(keys_view(keys@) =~= keys_view(before).push(key_list[i as int]));
        assert(key_list.take(i + 1) =~= key_list.take(i as int).push(key_list[i as int]));
    }
    assert(key_list.take(found@.len() as int) =~= key_list);
    assert(keys@.len() == keys_view(keys@).len());
    let matched = arrange(found.as_slice(), &keys);
    proof {
        assert forall|i: int| 0 <= i < matched@.len() implies #[trigger] matched@[i]
            < files@.len() by {
            assert(found@.contains(matched@[i]));
            let k = choose|k: int| 0 <= k < found@.len() && found@[k] == matched@[i];
            assert(found@[k] < files@.len());
        }
    }
    matched
}

fn list_matches(row: &ProjectFiles, needle: &str, page: &Page, generation: u64) -> (text: String)
    ensures
        text@ == match_block(*row, needle@, *page, generation),
{
    let matched = match_files(row.files.as_slice(), needle);
    let window = slice(matched.as_slice(), page.offset, FILES_MATCH_MAX);
    let mut listed = copy("");
    for i in 0..window.len()
        invariant
            window@ == slice_spec(matched@, page.offset as int, FILES_MATCH_MAX as int),
            forall|i: int| 0 <= i < matched@.len() ==> #[trigger] matched@[i] < row.files@.len(),
            listed@ == file_lines(row.files@, window@, i as int),
    {
        assert(window@[i as int] == matched@[page.offset + i]);
        let file = &row.files[window[i]];
        let line = cat5(
            "  ",
            file.path.as_str(),
            " (",
            decimal_i64(file.node_count).as_str(),
            " symbols)\n",
        );
        listed.append(line.as_str());
    }
    let next = match next_line(page.offset, window.len(), matched.len(), generation) {
        Some(line) => cat3("  ", line.as_str(), "\n"),
        None => copy(""),
    };
    let quoted_needle = quote(needle);
    let empty = if matched.len() == 0 {
        cat3("  (no files matching ", quoted_needle.as_str(), ")\n")
    } else {
        copy("")
    };
    let mut text = cat5("[", row.project.id.as_str(), "] ", row.project.name.as_str(), " (");
    text.append(decimal_usize(matched.len()).as_str());
    text.append(" files matching ");
    text.append(quoted_needle.as_str());
    text.append(", of ");
    text.append(decimal_usize(row.files.len()).as_str());
    text.append(" in the project)\n");
    text.append(listed.as_str());
    text.append(next.as_str());
    text.append(empty.as_str());
    text
}

/// Whether the project is asked for: there is no filter, or it answers to it.
pub fn is_wanted(project: &Project, filter: Option<&str>) -> (wanted: bool)
    ensures
        wanted == wanted_project(*project, filter),
{
    match filter {
        Some(filter) => same_text(project.id.as_str(), filter) || same_text(
            project.name.as_str(),
            filter,
        ),
        None => true,
    }
}

fn no_project(filter: Option<&str>) -> (text: String)
    ensures
        text@ == no_project_text(filter),
{
    match filter {
        Some(filter) => cat2("no project matches ", quote(filter).as_str()),
        None => copy("no projects indexed"),
    }
}

/// The constellation's file layout. With no pattern, each project is summarized by package (file
/// and symbol counts, a layout map, not a file dump); with one, the files whose path holds it are
/// listed, source files first.
pub fn files_text(
    projects: &[ProjectFiles],
    filter: Option<&str>,
    pattern: Option<&str>,
    page: &Page,
    generation: u64,
) -> (text: String)
    ensures
        text@ == files_text_spec(projects@, filter, pattern, *page, generation),
{
    let needle: Option<String> = match pattern {
        Some(pattern) => Some(lowercase(pattern)),
        None => None,
    };
    let mut blocks = copy("");
    let mut shown: bool = false;
    for i in 0..projects.len()
        invariant
            match (needle, pattern) {
                (Some(needle), Some(pattern)) => needle@ == lowercased(pattern@),
                (None, None) => true,
                _ => false,
            },
            blocks@ == file_blocks(projects@, filter, pattern, *page, generation, i as int),
            shown == any_wanted(projects@, filter, i as int),
    {
        let row = &projects[i];
        if is_wanted(&row.project, filter) {
            let block = match &needle {
                Some(needle) => list_matches(row, needle.as_str(), page, generation),
                None => layout(row, filter.is_some()),
            };
            blocks.append(block.as_str());
            blocks.append("\n");
            shown = true;
            assert(wanted_project(projects@[i as int].project, filter));
        } else {
            proof {
                if any_wanted(projects@, filter, i + 1) {
                    let k = choose|k: int|
                        0 <= k < i + 1 && wanted_project((#[trigger] projects@[k]).project, filter);
                    assert(k < i);
                }
            }
        }
    }
    if !shown {
        return no_project(filter);
    }
    cat2(note_line(page).as_str(), blocks.as_str())
}

// ---------------------------------------------------------------------------
// Overview

/// A project with its files and how many nodes of each kind it has.
pub struct ProjectSurvey {
    pub row: ProjectFiles,
    pub counts: Vec<(NodeKind, u32)>,
}

/// How many nodes of a kind there are, by the last entry for it among the first `upto`.
pub open spec fn count_of(counts: Seq<(NodeKind, u32)>, kind: NodeKind, upto: int) -> u32
    decreases upto,
{
    if upto <= 0 {
        0
    } else if counts[upto - 1].0 == kind {
        counts[upto - 1].1
    } else {
        count_of(counts, kind, upto - 1)
    }
}

/// A kind with the word a summary names it by.
pub struct NamedKind {
    pub label: &'static str,
    pub kind: NodeKind,
}

/// The counts of the kinds that are present, in the given order.
pub open spec fn kind_parts(counts: Seq<(NodeKind, u32)>, kinds: Seq<NamedKind>) -> Seq<Seq<char>>
    decreases kinds.len(),
{
    if kinds.len() == 0 {
        Seq::empty()
    } else {
        let rest = kind_parts(counts, kinds.drop_last());
        let count = count_of(counts, kinds.last().kind, counts.len() as int);
        if count > 0 {
            rest.push(decimal_spec(count as nat) + " "@ + kinds.last().label@)
        } else {
            rest
        }
    }
}

fn count_kind(counts: &[(NodeKind, u32)], kind: NodeKind) -> (count: u32)
    ensures
        count == count_of(counts@, kind, counts@.len() as int),
{
    let mut i: usize = counts.len();
    while i > 0
        invariant
            i <= counts@.len(),
            count_of(counts@, kind, counts@.len() as int) == count_of(counts@, kind, i as int),
        decreases i,
    {
        if counts[i - 1].0 == kind {
            return counts[i - 1].1;
        }
        i -= 1;
    }
    0
}

/// A `12 models, 3 views` summary of the given kinds, in the given order, dropping any with a zero
/// count. Empty when none are present.
pub fn kind_summary(counts: &[(NodeKind, u32)], kinds: &[NamedKind]) -> (text: String)
    ensures
        text@ == join_spec(kind_parts(counts@, kinds@), ", "@),
{
    let mut parts: Vec<String> = Vec::new();
    assert(views(parts@) =~= kind_parts(counts@, kinds@.take(0)));
    for i in 0..kinds.len()
        invariant
            views(parts@) == kind_parts(counts@, kinds@.take(i as int)),
    {
        assert(kinds@.take(i + 1).drop_last() =~= kinds@.take(i as int));
        let count = count_kind(counts, kinds[i].kind);
        if count > 0 {
            let ghost before = parts@;
            parts.push(cat3(decimal_u32(count).as_str(), " ", kinds[i].label));
            assert(views(parts@) =~= views(before).push(parts@.last()@));
        }
    }
    assert(kinds@.take(kinds@.len() as int) =~= kinds@);
    join(parts.as_slice(), ", ")
}

/// The kinds of the Django surface.
pub open spec fn django_kinds() -> Seq<NamedKind> {
    seq![
        NamedKind { label: "models", kind: NodeKind::Model },
        NamedKind { label: "views", kind: NodeKind::View },
        NamedKind { label: "routes", kind: NodeKind::Route },
        NamedKind { label: "templates", kind: NodeKind::Template },
    ]
}

/// The kinds of the code surface.
pub open spec fn code_kinds() -> Seq<NamedKind> {
    seq![
        NamedKind { label: "classes", kind: NodeKind::Class },
        NamedKind { label: "functions", kind: NodeKind::Function },
        NamedKind { label: "methods", kind: NodeKind::Method },
    ]
}

/// The largest packages, as `app/orders/ (12f 340s)`.
pub open spec fn package_parts(directories: Seq<DirectoryView>, count: int) -> Seq<Seq<char>> {
    Seq::new(
        count as nat,
        |i: int|
            directories[i].name + "/ ("@ + decimal_spec(directories[i].files as nat) + "f "@
                + signed_spec(directories[i].symbols) + "s)"@,
    )
}

/// A line of the overview, left out where it has nothing to say.
pub open spec fn labelled_line(label: Seq<char>, body: Seq<char>) -> Seq<char> {
    if body.len() == 0 {
        ""@
    } else {
        label + body + "\n"@
    }
}

/// The overview of one project.
pub open spec fn overview_block(survey: ProjectSurvey) -> Seq<char> {
    let directories = directories_spec(survey.row.files@, 2);
    let packages = if directories.len() == 0 {
        ""@
    } else {
        "  packages: "@ + join_spec(
            package_parts(
                directories,
                at_most(directories.len(), OVERVIEW_PACKAGES_MAX as int),
            ),
            ", "@,
        ) + "\n"@
    };
    project_heading(survey.row) + labelled_line(
        "  django: "@,
        join_spec(kind_parts(survey.counts@, django_kinds()), ", "@),
    ) + labelled_line(
        "  code: "@,
        join_spec(kind_parts(survey.counts@, code_kinds()), ", "@),
    ) + packages + "\n"@
}

fn labelled(label: &str, body: &str) -> (text: String)
    ensures
        text@ == labelled_line(label@, body@),
{
    if body.is_empty() {
        copy("")
    } else {
        cat3(label, body, "\n")
    }
}

/// The overview block for one project: file and symbol counts, the Django surface, the code
/// surface, and the largest packages.
pub fn overview_project(survey: &ProjectSurvey) -> (text: String)
    ensures
        text@ == overview_block(*survey),
{
    let mut django: Vec<NamedKind> = Vec::new();
    django.push(NamedKind { label: "models", kind: NodeKind::Model });
    django.push(NamedKind { label: "views", kind: NodeKind::View });
    django.push(NamedKind { label: "routes", kind: NodeKind::Route });
    django.push(NamedKind { label: "templates", kind: NodeKind::Template });
    assert(django@ =~= django_kinds());
    let mut code: Vec<NamedKind> = Vec::new();
    code.push(NamedKind { label: "classes", kind: NodeKind::Class });
    code.push(NamedKind { label: "functions", kind: NodeKind::Function });
    code.push(NamedKind { label: "methods", kind: NodeKind::Method });
    assert(code@ =~= code_kinds());
    let mut text = heading(&survey.row);
    let surface = kind_summary(survey.counts.as_slice(), django.as_slice());
    text.append(labelled("  django: ", surface.as_str()).as_str());
    let surface = kind_summary(survey.counts.as_slice(), code.as_slice());
    text.append(labelled("  code: ", surface.as_str()).as_str());
    let directories = aggregate_by_depth(survey.row.files.as_slice(), 2);
    let ghost all = directories_spec(survey.row.files@, 2);
    assert(directories@.len() == all.len()) by {
        assert(directory_views(directories@).len() == directories@.len());
    }
    let shown: usize = if directories.len() > OVERVIEW_PACKAGES_MAX {
        OVERVIEW_PACKAGES_MAX
    } else {
        directories.len()
    };
    let mut parts: Vec<String> = Vec::new();
    for i in 0..shown
        invariant
            shown <= directories@.len(),
            all == directory_views(directories@),
            views(parts@) == package_parts(all, i as int),
    {
        let ghost before = parts@;
        assert(all[i as int] == directories@[i as int]@);
        let mut part = cat2(directories[i].name.as_str(), "/ (");
        part.append(decimal_usize(directories[i].files).as_str());
        part.append("f ");
        part.append(decimal_i128(directories[i].symbols).as_str());
        part.append("s)");
        parts.push(part);
        assert(views(parts@) =~= views(before).push(parts@.last()@));
        assert(package_parts(all, i + 1) =~= package_parts(all, i as int).push(
            package_parts(all, i + 1)[i as int],
        ));
    }
    let packages = if directories.len() == 0 {
        copy("")
    } else {
        cat3("  packages: ", join(parts.as_slice(), ", ").as_str(), "\n")
    };
    text.append(packages.as_str());
    text.append("\n");
    text
}

/// The overview blocks of the first `count` projects that are asked for.
pub open spec fn overview_blocks(
    surveys: Seq<ProjectSurvey>,
    filter: Option<&str>,
    count: int,
) -> Seq<char>
    decreases count,
{
    if count <= 0 {
        ""@
    } else if wanted_project(surveys[count - 1].row.project, filter) {
        overview_blocks(surveys, filter, count - 1) + overview_block(surveys[count - 1])
    } else {
        overview_blocks(surveys, filter, count - 1)
    }
}

/// Some project among the first `count` is asked for.
pub open spec fn any_surveyed(surveys: Seq<ProjectSurvey>, filter: Option<&str>, count: int) -> bool {
    exists|k: int| 0 <= k < count && wanted_project((#[trigger] surveys[k]).row.project, filter)
}

/// The orientation digest.
pub open spec fn overview_spec(
    surveys: Seq<ProjectSurvey>,
    links: u64,
    filter: Option<&str>,
) -> Seq<char> {
    if any_surveyed(surveys, filter, surveys.len() as int) {
        overview_blocks(surveys, filter, surveys.len() as int) + "cross-project links: "@
            + decimal_spec(links as nat) + (if links > 0 {
            " (`links` to list)"@
        } else {
            ""@
        }) + "\n"@
    } else {
        no_project_text(filter)
    }
}

/// A one-call orientation digest: per project the file and symbol counts, the Django surface, the
/// dominant packages, and the constellation-wide cross-project link total.
pub fn overview_text(surveys: &[ProjectSurvey], links: u64, filter: Option<&str>) -> (text: String)
    ensures
        text@ == overview_spec(surveys@, links, filter),
{
    let mut text = copy("");
    let mut shown: bool = false;
    for i in 0..surveys.len()
        invariant
            text@ == overview_blocks(surveys@, filter, i as int),
            shown == any_surveyed(surveys@, filter, i as int),
    {
        if is_wanted(&surveys[i].row.project, filter) {
            text.append(overview_project(&surveys[i]).as_str());
            shown = true;
            assert(wanted_project(surveys@[i as int].row.project, filter));
        } else {
            proof {
                if any_surveyed(surveys@, filter, i + 1) {
                    let k = choose|k: int|
                        0 <= k < i + 1 && wanted_project(
                            (#[trigger] surveys@[k]).row.project,
                            filter,
                        );
                    assert(k < i);
                }
            }
        }
    }
    if !shown {
        return no_project(filter);
    }
    text.append("cross-project links: ");
    text.append(decimal(links).as_str());
    text.append(if links > 0 { " (`links` to list)" } else { "" });
    text.append("\n");
    text
}

// ---------------------------------------------------------------------------
// Routes

/// The handler an unbound route named, and the line it is written on.
pub struct Pending {
    pub route_id: String,
    pub reference: String,
    pub file_path: String,
    pub line: u32,
}

/// A route with the fragment its own `urls.py` declares, what it leads to, and what the view it
/// leads to leads to.
pub struct RouteEntry {
    pub route: Node,
    pub fragment: String,
    pub callees: Vec<(EdgeKind, Node)>,
    pub view_callees: Vec<(EdgeKind, Node)>,
}

/// A project with its routes and the handlers that stayed unbound.
pub struct ProjectRoutes {
    pub project: Project,
    pub routes: Vec<RouteEntry>,
    pub pending: Vec<Pending>,
}

/// The first callee, from `from` on, over an edge of this kind.
pub open spec fn first_of_kind(
    callees: Seq<(EdgeKind, Node)>,
    kind: EdgeKind,
    from: int,
) -> Option<int>
    decreases callees.len() - from,
{
    if from < 0 || from >= callees.len() {
        None
    } else if callees[from].0 == kind {
        Some(from)
    } else {
        first_of_kind(callees, kind, from + 1)
    }
}

/// The first callee over an edge of this kind.
pub fn find_of_kind(callees: &[(EdgeKind, Node)], kind: EdgeKind) -> (found: Option<usize>)
    ensures
        match found {
            Some(at) => at < callees@.len() && first_of_kind(callees@, kind, 0) == Some(at as int),
            None => first_of_kind(callees@, kind, 0) is None,
        },
{
    let mut i: usize = 0;
    while i < callees.len()
        invariant
            i <= callees@.len(),
            first_of_kind(callees@, kind, 0) == first_of_kind(callees@, kind, i as int),
        decreases callees@.len() - i,
    {
        if callees[i].0 == kind {
            return Some(i);
        }
        i += 1;
    }
    None
}

/// The routes that the unbound handlers are of.
pub open spec fn pending_routes(pending: Seq<Pending>) -> Seq<Seq<char>> {
    pending.map_values(|handler: Pending| handler.route_id@)
}

fn index_pending(pending: &[Pending]) -> (places: PlaceIndex)
    ensures
        places.wf(),
        places@ == pending_routes(pending@),
{
    let ghost keys = pending_routes(pending@);
    let mut places = PlaceIndex::new();
    assert(places@ =~= keys.take(0));
    for i in 0..pending.len()
        invariant
            keys == pending_routes(pending@),
            places.wf(),
            places@ == keys.take(i as int),
    {
        assert(pending.len() == keys.len());
        places.push(pending[i].route_id.as_str());
        assert(keys.take(i + 1) =~= keys.take(i as int).push(keys[i as int]));
    }
    assert(keys.take(pending@.len() as int) =~= keys);
    places
}

/// One row of the URL map, and where its handler is written if that stayed unbound.
pub struct RouteRowView {
    pub reverse_name: Seq<char>,
    pub pattern: Seq<char>,
    pub view_name: Seq<char>,
    pub template_name: Seq<char>,
    pub unbound: Option<Seq<char>>,
}

/// One row of the URL map, and where its handler is written if that stayed unbound.
pub struct RouteRow {
    pub reverse_name: String,
    pub pattern: String,
    pub view_name: String,
    pub template_name: String,
    pub unbound: Option<String>,
}

impl View for RouteRow {
    type V = RouteRowView;

    open spec fn view(&self) -> RouteRowView {
        RouteRowView {
            reverse_name: self.reverse_name@,
            pattern: self.pattern@,
            view_name: self.view_name@,
            template_name: self.template_name@,
            unbound: crate::cursor::note_view(self.unbound),
        }
    }
}

/// Rows as values.
pub open spec fn row_views(rows: Seq<RouteRow>) -> Seq<RouteRowView> {
    rows.map_values(|row: RouteRow| row@)
}

/// The names of routes and the paths they are mounted at, each by route id.
pub struct RouteNames<'a> {
    pub reverse_names: &'a [(String, String)],
    pub url_paths: &'a [(String, String)],
}

/// The route is a mount point, not an endpoint: it has no view of its own and a bare URL for its
/// name.
pub open spec fn is_mount(entry: RouteEntry) -> bool {
    first_of_kind(entry.callees@, EdgeKind::RoutesTo, 0) is None && occurs(entry.route.name@, "/"@)
}

/// The unbound handler of a route, where it has no view.
pub open spec fn pending_of(entry: RouteEntry, pending: Seq<Pending>) -> Option<int> {
    if first_of_kind(entry.callees@, EdgeKind::RoutesTo, 0) is Some {
        None
    } else {
        last_at(pending_routes(pending), entry.route.id@, pending.len() as int)
    }
}

/// The text, or what stands in its place.
pub open spec fn text_or(text: Option<Seq<char>>, other: Seq<char>) -> Seq<char> {
    match text {
        Some(text) => text,
        None => other,
    }
}

/// The row of a route: its reverse name, its mounted path or else the fragment it declares, its
/// view, and the template the view renders.
pub open spec fn route_row(
    entry: RouteEntry,
    pending: Seq<Pending>,
    reverse_names: Seq<(String, String)>,
    url_paths: Seq<(String, String)>,
) -> RouteRowView {
    let view = first_of_kind(entry.callees@, EdgeKind::RoutesTo, 0);
    let template = first_of_kind(entry.view_callees@, EdgeKind::Renders, 0);
    RouteRowView {
        reverse_name: text_or(text_for(reverse_names, entry.route.id@), "(no name)"@),
        pattern: text_or(text_for(url_paths, entry.route.id@), entry.fragment@),
        view_name: match view {
            Some(at) => entry.callees@[at].1.name@,
            None => match pending_of(entry, pending) {
                Some(at) => "(unresolved: "@ + pending[at].reference@ + ")"@,
                None => "(unresolved)"@,
            },
        },
        template_name: if view is Some && template is Some {
            entry.view_callees@[template->0].1.name@
        } else {
            "(no template)"@
        },
        unbound: match pending_of(entry, pending) {
            Some(at) => Some(unbound_entry(pending[at])),
            None => None,
        },
    }
}

/// The row holds the needle, in any of its parts or in the route's full name.
pub open spec fn row_matches(row: RouteRowView, qualified: Seq<char>, needle: Option<Seq<char>>) -> bool {
    match needle {
        Some(needle) => occurs(
            lowercased(
                row.pattern + " "@ + row.view_name + " "@ + row.template_name + " "@
                    + row.reverse_name + " "@ + qualified,
            ),
            needle,
        ),
        None => true,
    }
}

/// What the routes of a project amount to: the rows that match, and the mount points left out.
pub struct RouteTable {
    pub rows: Seq<RouteRowView>,
    pub mounts: int,
}

/// Where an unbound handler is written.
pub open spec fn unbound_entry(pending: Pending) -> Seq<char> {
    pending.file_path@ + ":"@ + decimal_spec(pending.line as nat) + " "@ + pending.reference@
}

/// The table of the first `count` routes of a project, in the order given.
pub open spec fn table_upto(
    routes: Seq<RouteEntry>,
    order: Seq<int>,
    pending: Seq<Pending>,
    reverse_names: Seq<(String, String)>,
    url_paths: Seq<(String, String)>,
    needle: Option<Seq<char>>,
    count: int,
) -> RouteTable
    decreases count,
{
    if count <= 0 {
        RouteTable { rows: Seq::empty(), mounts: 0 }
    } else {
        let table = table_upto(routes, order, pending, reverse_names, url_paths, needle, count - 1);
        let entry = routes[order[count - 1]];
        let row = route_row(entry, pending, reverse_names, url_paths);
        if is_mount(entry) {
            RouteTable { mounts: table.mounts + 1, ..table }
        } else if !row_matches(row, entry.route.qualified_name@, needle) {
            table
        } else {
            RouteTable { rows: table.rows.push(row), ..table }
        }
    }
}

/// The sort key of a route: by file, then by line.
pub open spec fn route_key(entry: RouteEntry) -> Seq<PartView> {
    seq![
        PartView::Text(entry.route.file_path@),
        PartView::Number(entry.route.span.start_line as int),
    ]
}

/// The routes of a project in the order of where they are declared.
pub open spec fn route_order(routes: Seq<RouteEntry>) -> Seq<int> {
    sorted_order(routes.map_values(|entry: RouteEntry| route_key(entry)))
}

/// The table of a project.
pub open spec fn route_table(
    row: ProjectRoutes,
    reverse_names: Seq<(String, String)>,
    url_paths: Seq<(String, String)>,
    needle: Option<Seq<char>>,
) -> RouteTable {
    table_upto(
        row.routes@,
        route_order(row.routes@),
        row.pending@,
        reverse_names,
        url_paths,
        needle,
        row.routes@.len() as int,
    )
}

struct Table {
    rows: Vec<RouteRow>,
    mounts: usize,
}

impl View for Table {
    type V = RouteTable;

    closed spec fn view(&self) -> RouteTable {
        RouteTable {
            rows: row_views(self.rows@),
            mounts: self.mounts as int,
        }
    }
}

fn make_row(
    entry: &RouteEntry,
    view: Option<usize>,
    pending: Option<usize>,
    all_pending: &[Pending],
    reverse_names: &TextIndex<'_>,
    url_paths: &TextIndex<'_>,
) -> (row: RouteRow)
    requires
        reverse_names.wf(),
        url_paths.wf(),
        match view {
            Some(at) => at < entry.callees@.len() && first_of_kind(
                entry.callees@,
                EdgeKind::RoutesTo,
                0,
            ) == Some(at as int),
            None => first_of_kind(entry.callees@, EdgeKind::RoutesTo, 0) is None,
        },
        match pending {
            Some(at) => at < all_pending@.len() && pending_of(*entry, all_pending@) == Some(
                at as int,
            ),
            None => pending_of(*entry, all_pending@) is None,
        },
    ensures
        row@ == route_row(*entry, all_pending@, reverse_names.pairs(), url_paths.pairs()),
{
    let template: Option<usize> = find_of_kind(entry.view_callees.as_slice(), EdgeKind::Renders);
    let reverse_name = copy(
        match reverse_names.get(entry.route.id.as_str()) {
            Some(name) => name,
            None => "(no name)",
        },
    );
    let pattern = copy(
        match url_paths.get(entry.route.id.as_str()) {
            Some(path) => path,
            None => entry.fragment.as_str(),
        },
    );
    let view_name = match view {
        Some(at) => copy(entry.callees[at].1.name.as_str()),
        None => match pending {
            Some(at) => cat3("(unresolved: ", all_pending[at].reference.as_str(), ")"),
            None => copy("(unresolved)"),
        },
    };
    let template_name = match (view, template) {
        (Some(_), Some(at)) => copy(entry.view_callees[at].1.name.as_str()),
        _ => copy("(no template)"),
    };
    let unbound: Option<String> = match pending {
        Some(at) => {
            let source = &all_pending[at];
            let line = decimal_u32(source.line);
            Some(
                cat5(
                    source.file_path.as_str(),
                    ":",
                    line.as_str(),
                    " ",
                    source.reference.as_str(),
                ),
            )
        },
        None => None,
    };
    RouteRow { reverse_name, pattern, view_name, template_name, unbound }
}

fn row_has(row: &RouteRow, qualified: &str, needle: &Option<String>) -> (found: bool)
    ensures
        found == row_matches(row@, qualified@, crate::cursor::note_view(*needle)),
{
    match needle {
        Some(needle) => {
            let mut haystack = cat5(
                row.pattern.as_str(),
                " ",
                row.view_name.as_str(),
                " ",
                row.template_name.as_str(),
            );
            haystack.append(" ");
            haystack.append(row.reverse_name.as_str());
            haystack.append(" ");
            haystack.append(qualified);
            let lower = lowercase(haystack.as_str());
            contains(lower.as_str(), needle.as_str())
        },
        None => true,
    }
}

fn sort_routes(routes: &[RouteEntry]) -> (order: Vec<usize>)
    ensures
        indices(order@) == route_order(routes@),
        order@.len() == routes@.len(),
        forall|k: int| 0 <= k < order@.len() ==> #[trigger] order@[k] < routes@.len(),
{
    let ghost wanted = routes@.map_values(|entry: RouteEntry| route_key(entry));
    let mut keys: Vec<Vec<Part>> = Vec::new();
    for i in 0..routes.len()
        invariant
            wanted == routes@.map_values(|entry: RouteEntry| route_key(entry)),
            keys_view(keys@) == wanted.take(i as int),
    {
        let ghost before = keys@;
        let mut key: Vec<Part> = Vec::new();
        key.push(Part::Text(copy(routes[i].route.file_path.as_str())));
        key.push(Part::Number(routes[i].route.span.start_line as i128));
        assert(key_view(key) =~= wanted[i as int]);
        keys.push(key);
        assert(keys_view(keys@) =~= keys_view(before).push(wanted[i as int]));
        assert(wanted.take(i + 1) =~= wanted.take(i as int).push(wanted[i as int]));
    }
    assert(wanted.take(routes@.len() as int) =~= wanted);
    assert(keys@.len() == keys_view(keys@).len());
    sort_order(&keys)
}

fn build_table(
    row: &ProjectRoutes,
    reverse_names: &TextIndex<'_>,
    url_paths: &TextIndex<'_>,
    needle: &Option<String>,
) -> (table: Table)
    requires
        reverse_names.wf(),
        url_paths.wf(),
    ensures
        table@ == route_table(
            *row,
            reverse_names.pairs(),
            url_paths.pairs(),
            crate::cursor::note_view(*needle),
        ),
        table.rows@.len() <= row.routes@.len(),
{
    let order = sort_routes(row.routes.as_slice());
    let ghost wanted = crate::cursor::note_view(*needle);
    let handlers = index_pending(row.pending.as_slice());
    assert(pending_routes(row.pending@).len() == row.pending@.len());
    let mut table = Table { rows: Vec::new(), mounts: 0 };
    assert(row_views(table.rows@) =~= Seq::empty());
    for i in 0..order.len()
        invariant
            reverse_names.wf(),
            url_paths.wf(),
            handlers.wf(),
            handlers@ == pending_routes(row.pending@),
            handlers@.len() == row.pending@.len(),
            wanted == crate::cursor::note_view(*needle),
            indices(order@) == route_order(row.routes@),
            order@.len() == row.routes@.len(),
            forall|k: int| 0 <= k < order@.len() ==> #[trigger] order@[k] < row.routes@.len(),
            table.mounts <= i,
            table.rows@.len() <= i,
            table@ == table_upto(
                row.routes@,
                route_order(row.routes@),
                row.pending@,
                reverse_names.pairs(),
                url_paths.pairs(),
                wanted,
                i as int,
            ),
    {
        let ghost before = table@;
        assert(order@[i as int] < row.routes@.len());
        assert(indices(order@)[i as int] == order@[i as int]);
        let entry = &row.routes[order[i]];
        let view: Option<usize> = find_of_kind(entry.callees.as_slice(), EdgeKind::RoutesTo);
        if view.is_none() && contains(entry.route.name.as_str(), "/") {
            table.mounts = table.mounts + 1;
        } else {
            let pending: Option<usize> = match view {
                Some(_) => None,
                None => handlers.get(entry.route.id.as_str()),
            };
            let made = make_row(
                entry,
                view,
                pending,
                row.pending.as_slice(),
                reverse_names,
                url_paths,
            );
            if row_has(&made, entry.route.qualified_name.as_str(), needle) {
                let ghost known = table.rows@;
                let ghost made_view = made@;
                table.rows.push(made);
                assert(row_views(table.rows@) =~= row_views(known).push(made_view));
            }
        }
    }
    table
}

/// The footer naming the route handlers that stayed unbound, where there are any. Past a bound it
/// says how many more there are.
pub open spec fn unbound_note(unbound: Seq<Seq<char>>) -> Seq<char> {
    let named = at_most(unbound.len(), ROUTES_UNBOUND_NAMED_MAX as int);
    let more = if unbound.len() > named {
        "     ... and "@ + decimal_spec((unbound.len() - named) as nat) + " more\n"@
    } else {
        ""@
    };
    if unbound.len() == 0 {
        ""@
    } else {
        "  ("@ + decimal_spec(unbound.len()) + " route handler(s) unresolved:\n"@ + entry_lines(
            unbound,
            named,
        ) + more + "   run `constellation index` if the views module changed since)\n"@
    }
}

/// The first `count` entries, one per line.
pub open spec fn entry_lines(entries: Seq<Seq<char>>, count: int) -> Seq<char>
    decreases count,
{
    if count <= 0 {
        ""@
    } else {
        entry_lines(entries, count - 1) + ("     "@ + entries[count - 1] + "\n"@)
    }
}

/// The footer naming the route handlers that stayed unbound, as `file:line handler`. A per-row
/// `(unresolved: x)` says what failed; this says where to go read it.
pub fn write_unbound_note(unbound: &[String]) -> (text: String)
    ensures
        text@ == unbound_note(views(unbound@)),
{
    assert(unbound@.len() == views(unbound@).len());
    if unbound.len() == 0 {
        return copy("");
    }
    let named: usize = if unbound.len() > ROUTES_UNBOUND_NAMED_MAX {
        ROUTES_UNBOUND_NAMED_MAX
    } else {
        unbound.len()
    };
    let mut listed = copy("");
    for i in 0..named
        invariant
            named <= unbound@.len(),
            listed@ == entry_lines(views(unbound@), i as int),
    {
        assert(views(unbound@)[i as int] == unbound@[i as int]@);
        listed.append(cat3("     ", unbound[i].as_str(), "\n").as_str());
    }
    let more = if unbound.len() > named {
        cat3("     ... and ", decimal_usize(unbound.len() - named).as_str(), " more\n")
    } else {
        copy("")
    };
    let mut text = cat3(
        "  (",
        decimal_usize(unbound.len()).as_str(),
        " route handler(s) unresolved:\n",
    );
    text.append(listed.as_str());
    text.append(more.as_str());
    text.append("   run `constellation index` if the views module changed since)\n");
    text
}

/// The first `count` rows of a table.
pub open spec fn route_lines(rows: Seq<RouteRowView>, count: int) -> Seq<char>
    decreases count,
{
    if count <= 0 {
        ""@
    } else {
        let row = rows[count - 1];
        route_lines(rows, count - 1) + ("  "@ + row.reverse_name + "\n    "@ + row.pattern
            + "  →  "@ + row.view_name + "  →  "@ + row.template_name + "\n"@)
    }
}

/// Where the handlers that stayed unbound are written, of the first `count` rows.
pub open spec fn unbound_of(rows: Seq<RouteRowView>, count: int) -> Seq<Seq<char>>
    decreases count,
{
    if count <= 0 {
        Seq::empty()
    } else {
        match rows[count - 1].unbound {
            Some(entry) => unbound_of(rows, count - 1).push(entry),
            None => unbound_of(rows, count - 1),
        }
    }
}

/// One project's table, over the rows that this page shows. Its footer names the unbound handlers
/// of those rows and of no others.
pub open spec fn route_block(
    project: Project,
    table: RouteTable,
    window: Seq<RouteRowView>,
    needle: Option<Seq<char>>,
) -> Seq<char> {
    let matching = match needle {
        Some(needle) => " matching "@ + quoted(needle),
        None => ""@,
    };
    let mounts = if table.mounts > 0 {
        "  ("@ + decimal_spec(table.mounts as nat)
            + " include() prefix row(s) folded into the paths above)\n"@
    } else {
        ""@
    };
    "["@ + project.id@ + "] "@ + project.name@ + " ("@ + decimal_spec(table.rows.len())
        + " routes"@ + matching + ")\n"@ + route_lines(window, window.len() as int) + mounts
        + unbound_note(unbound_of(window, window.len() as int)) + "\n"@
}

/// What has been written of the URL map: its text, the projects and rows shown, and the rows
/// there are.
pub struct RoutesState {
    pub text: Seq<char>,
    pub projects: int,
    pub rows: int,
    pub total: int,
}

/// The rows of a table that this page shows, behind the rows of the projects before. Where the page
/// had to leave out rows of those projects it shows none of this one's: they come on the next page.
pub open spec fn route_window(
    rows: Seq<RouteRowView>,
    before: int,
    shown: int,
    limit: u32,
    offset: int,
) -> Seq<RouteRowView> {
    let local = if offset > before { offset - before } else { 0 };
    let remaining = if offset + shown < before || limit < shown { 0 } else { limit - shown };
    slice_spec(
        rows,
        local,
        if remaining < ROUTES_PER_PROJECT_MAX {
            remaining
        } else {
            ROUTES_PER_PROJECT_MAX as int
        },
    )
}

/// The URL map of the first `count` projects.
pub open spec fn routes_upto(
    projects: Seq<ProjectRoutes>,
    reverse_names: Seq<(String, String)>,
    url_paths: Seq<(String, String)>,
    filter: Option<&str>,
    needle: Option<Seq<char>>,
    limit: u32,
    offset: int,
    count: int,
) -> RoutesState
    decreases count,
{
    if count <= 0 {
        RoutesState { text: ""@, projects: 0, rows: 0, total: 0 }
    } else {
        let state = routes_upto(
            projects,
            reverse_names,
            url_paths,
            filter,
            needle,
            limit,
            offset,
            count - 1,
        );
        let row = projects[count - 1];
        let table = route_table(row, reverse_names, url_paths, needle);
        let window = route_window(table.rows, state.total, state.rows, limit, offset);
        if !wanted_project(row.project, filter) {
            state
        } else if window.len() == 0 {
            RoutesState { total: state.total + table.rows.len(), ..state }
        } else {
            RoutesState {
                text: state.text + route_block(row.project, table, window, needle),
                projects: state.projects + 1,
                rows: state.rows + window.len(),
                total: state.total + table.rows.len(),
            }
        }
    }
}

/// How many routes the first `count` projects have.
pub open spec fn route_count(projects: Seq<ProjectRoutes>, count: int) -> int
    decreases count,
{
    if count <= 0 {
        0
    } else {
        route_count(projects, count - 1) + projects[count - 1].routes@.len()
    }
}

/// The lower-case form of a pattern.
pub open spec fn lower_pattern(pattern: Option<&str>) -> Option<Seq<char>> {
    match pattern {
        Some(pattern) => Some(lowercased(pattern@)),
        None => None,
    }
}

/// The answer where no route is shown.
pub open spec fn no_routes_text(project_filter: Option<&str>, pattern_filter: Option<&str>) -> Seq<
    char,
> {
    match pattern_filter {
        Some(pattern) => "no routes matching "@ + quoted(pattern@),
        None => match project_filter {
            Some(filter) => "no routes for "@ + quoted(filter@),
            None => "no routes indexed"@,
        },
    }
}

/// The URL map.
pub open spec fn routes_text_spec(
    projects: Seq<ProjectRoutes>,
    reverse_names: Seq<(String, String)>,
    url_paths: Seq<(String, String)>,
    project_filter: Option<&str>,
    pattern_filter: Option<&str>,
    limit: u32,
    page: Page,
    generation: u64,
) -> Seq<char> {
    let state = routes_upto(
        projects,
        reverse_names,
        url_paths,
        project_filter,
        lower_pattern(pattern_filter),
        limit,
        page.offset as int,
        projects.len() as int,
    );
    if state.projects == 0 {
        no_routes_text(project_filter, pattern_filter)
    } else {
        note_text(page) + state.text + next_text(
            page.offset as int,
            state.rows,
            state.total,
            generation,
        )
    }
}

fn render_table(
    project: &Project,
    table: &Table,
    window: &[RouteRow],
    needle: &Option<String>,
) -> (text: String)
    ensures
        text@ == route_block(
            *project,
            table@,
            row_views(window@),
            crate::cursor::note_view(*needle),
        ),
{
    let matching = match needle {
        Some(needle) => cat2(" matching ", quote(needle.as_str()).as_str()),
        None => copy(""),
    };
    let mut text = cat5("[", project.id.as_str(), "] ", project.name.as_str(), " (");
    assert(table@.rows.len() == table.rows@.len());
    text.append(decimal_usize(table.rows.len()).as_str());
    text.append(" routes");
    text.append(matching.as_str());
    text.append(")\n");
    let mut listed = copy("");
    let mut unbound: Vec<String> = Vec::new();
    assert(views(unbound@) =~= Seq::empty());
    for i in 0..window.len()
        invariant
            listed@ == route_lines(row_views(window@), i as int),
            views(unbound@) == unbound_of(row_views(window@), i as int),
    {
        assert(row_views(window@)[i as int] == window@[i as int]@);
        let row = &window[i];
        let mut line = cat5("  ", row.reverse_name.as_str(), "\n    ", row.pattern.as_str(), "  →  ");
        line.append(row.view_name.as_str());
        line.append("  →  ");
        line.append(row.template_name.as_str());
        line.append("\n");
        listed.append(line.as_str());
        if let Some(entry) = &row.unbound {
            let ghost known = unbound@;
            unbound.push(copy(entry.as_str()));
            assert(views(unbound@) =~= views(known).push(entry@));
        }
    }
    assert(row_views(window@).len() == window@.len());
    text.append(listed.as_str());
    let mounts = if table.mounts > 0 {
        cat3(
            "  (",
            decimal_usize(table.mounts).as_str(),
            " include() prefix row(s) folded into the paths above)\n",
        )
    } else {
        copy("")
    };
    text.append(mounts.as_str());
    text.append(write_unbound_note(unbound.as_slice()).as_str());
    text.append("\n");
    text
}

/// The URL map: every route's pattern to its view to the template the view renders, grouped by
/// project. The page offset is global across projects, so a page boundary may fall inside one
/// project's table without losing or repeating a row.
pub fn routes_text(
    projects: &[ProjectRoutes],
    names: &RouteNames<'_>,
    project_filter: Option<&str>,
    pattern_filter: Option<&str>,
    limit: u32,
    page: &Page,
    generation: u64,
) -> (text: String)
    requires
        route_count(projects@, projects@.len() as int) <= usize::MAX,
    ensures
        text@ == routes_text_spec(
            projects@,
            names.reverse_names@,
            names.url_paths@,
            project_filter,
            pattern_filter,
            limit,
            *page,
            generation,
        ),
{
    let needle: Option<String> = match pattern_filter {
        Some(pattern) => Some(lowercase(pattern)),
        None => None,
    };
    let ghost wanted = lower_pattern(pattern_filter);
    assert(crate::cursor::note_view(needle) == wanted);
    let reverse_names = TextIndex::new(names.reverse_names);
    let url_paths = TextIndex::new(names.url_paths);
    let mut out = copy("");
    let mut shown_projects: usize = 0;
    let mut total: usize = 0;
    let mut shown_rows: usize = 0;
    for i in 0..projects.len()
        invariant
            wanted == crate::cursor::note_view(needle),
            reverse_names.wf(),
            url_paths.wf(),
            reverse_names.pairs() == names.reverse_names@,
            url_paths.pairs() == names.url_paths@,
            route_count(projects@, projects@.len() as int) <= usize::MAX,
            total <= route_count(projects@, i as int),
            shown_projects <= i,
            shown_rows <= limit,
            routes_upto(
                projects@,
                names.reverse_names@,
                names.url_paths@,
                project_filter,
                wanted,
                limit,
                page.offset as int,
                i as int,
            ) == (RoutesState {
                text: out@,
                projects: shown_projects as int,
                rows: shown_rows as int,
                total: total as int,
            }),
    {
        proof {
            lemma_route_count_grows(projects@, i + 1, projects@.len() as int);
        }
        let row = &projects[i];
        if is_wanted(&row.project, project_filter) {
            let table = build_table(row, &reverse_names, &url_paths, &needle);
            assert(table@.rows.len() == table.rows@.len());
            let already: usize = total;
            total = total + table.rows.len();
            let local: usize = if page.offset > already { page.offset - already } else { 0 };
            let left_out: bool = already > page.offset && already - page.offset > shown_rows;
            let remaining: usize = if left_out { 0 } else { limit as usize - shown_rows };
            let room: usize = if remaining < ROUTES_PER_PROJECT_MAX {
                remaining
            } else {
                ROUTES_PER_PROJECT_MAX
            };
            let window = slice(table.rows.as_slice(), local, room);
            assert(row_views(window@) =~= slice_spec(
                row_views(table.rows@),
                local as int,
                room as int,
            ));
            assert(row_views(window@).len() == window@.len());
            if window.len() > 0 {
                shown_projects = shown_projects + 1;
                shown_rows = shown_rows + window.len();
                out.append(render_table(&row.project, &table, window, &needle).as_str());
            }
        }
    }
    if shown_projects == 0 {
        return match pattern_filter {
            Some(pattern) => cat2("no routes matching ", quote(pattern).as_str()),
            None => match project_filter {
                Some(filter) => cat2("no routes for ", quote(filter).as_str()),
                None => copy("no routes indexed"),
            },
        };
    }
    let mut text = note_line(page);
    text.append(out.as_str());
    text.append(next_text_line(page.offset, shown_rows, total, generation).as_str());
    text
}

proof fn lemma_route_count_grows(projects: Seq<ProjectRoutes>, fewer: int, more: int)
    requires
        fewer <= more,
    ensures
        route_count(projects, fewer) <= route_count(projects, more),
    decreases more - fewer,
{
    if fewer < more {
        lemma_route_count_grows(projects, fewer, more - 1);
    }
}

// ---------------------------------------------------------------------------
// Links

/// A symbol of one project resolved to a definition in another.
pub struct LinkEdge {
    pub source: Node,
    pub target: Node,
    pub kind: EdgeKind,
}

/// How many links lead from one project to another.
pub struct PairCount {
    pub source: String,
    pub target: String,
    pub count: u32,
}

/// How many links a page of links fetches.
pub open spec fn links_fetch_spec(offset: int, limit: int) -> int {
    let sum = offset + limit;
    let wanted = if sum > u32::MAX { u32::MAX as int } else { sum };
    let wide = if wanted * 2 > u32::MAX { u32::MAX as int } else { wanted * 2 };
    if wide < limit {
        limit
    } else if wide > LINKS_FETCH_MAX {
        LINKS_FETCH_MAX as int
    } else {
        wide
    }
}

/// How many links a page of links fetches: twice what the page reaches to, within a hard cap.
pub fn links_fetch(offset: usize, limit: u32) -> (count: u32)
    requires
        limit <= LINKS_FETCH_MAX,
    ensures
        count == links_fetch_spec(offset as int, limit as int),
{
    let sum: u128 = offset as u128 + limit as u128;
    let wide: u128 = sum * 2;
    if wide > LINKS_FETCH_MAX as u128 {
        LINKS_FETCH_MAX
    } else if wide < limit as u128 {
        limit
    } else {
        wide as u32
    }
}

/// The links of all pairs together.
pub open spec fn link_total(pairs: Seq<PairCount>, count: int) -> int
    decreases count,
{
    if count <= 0 {
        0
    } else {
        link_total(pairs, count - 1) + pairs[count - 1].count
    }
}

/// The link goes from this project to that one.
pub open spec fn links_pair(link: LinkEdge, source: Seq<char>, target: Seq<char>) -> bool {
    link.source.project_id@ == source && link.target.project_id@ == target
}

/// Two links join the same two projects, in the same direction.
pub open spec fn same_pair(left: LinkEdge, right: LinkEdge) -> bool {
    links_pair(left, right.source.project_id@, right.target.project_id@)
}

/// The group, from `from` on, of the links that join the same pair.
pub open spec fn pair_group_at(
    links: Seq<LinkEdge>,
    groups: Seq<Seq<usize>>,
    link: LinkEdge,
    from: int,
) -> Option<int>
    decreases groups.len() - from,
{
    if from < 0 || from >= groups.len() {
        None
    } else if same_pair(links[groups[from][0] as int], link) {
        Some(from)
    } else {
        pair_group_at(links, groups, link, from + 1)
    }
}

/// The first `count` links grouped by pair, in order of first appearance.
pub open spec fn pair_groups(links: Seq<LinkEdge>, count: int) -> Seq<Seq<usize>>
    decreases count,
{
    if count <= 0 {
        Seq::empty()
    } else {
        let groups = pair_groups(links, count - 1);
        let at = (count - 1) as usize;
        match pair_group_at(links, groups, links[count - 1], 0) {
            Some(group) => groups.update(group, groups[group].push(at)),
            None => groups.push(seq![at]),
        }
    }
}

/// The groups one after another.
pub open spec fn flattened(groups: Seq<Seq<usize>>, count: int) -> Seq<usize>
    decreases count,
{
    if count <= 0 {
        Seq::empty()
    } else {
        flattened(groups, count - 1) + groups[count - 1]
    }
}

/// How many links the pair that a link joins has.
pub open spec fn link_pair_total(link: LinkEdge, pairs: Seq<PairCount>) -> int {
    pair_total(
        pairs,
        link.source.project_id@,
        link.target.project_id@,
        pairs.len() as int,
    ) as int
}

/// The sort key of a group of links: the pair with the most links first.
pub open spec fn group_key(links: Seq<LinkEdge>, pairs: Seq<PairCount>, group: Seq<usize>) -> Seq<
    PartView,
> {
    seq![PartView::Number(-link_pair_total(links[group[0] as int], pairs))]
}

/// The links in the order they are listed: pair by pair, the pair with the most links first.
pub open spec fn ordered_links(links: Seq<LinkEdge>, pairs: Seq<PairCount>) -> Seq<usize> {
    let groups = pair_groups(links, links.len() as int);
    let order = sorted_order(
        groups.map_values(|group: Seq<usize>| group_key(links, pairs, group)),
    );
    flattened(order.map_values(|k: int| groups[k]), order.len() as int)
}

/// How many links a pair has: by the last count for it among the first `count`.
pub open spec fn pair_total(
    pairs: Seq<PairCount>,
    source: Seq<char>,
    target: Seq<char>,
    count: int,
) -> u32
    decreases count,
{
    if count <= 0 {
        0
    } else if pairs[count - 1].source@ == source && pairs[count - 1].target@ == target {
        pairs[count - 1].count
    } else {
        pair_total(pairs, source, target, count - 1)
    }
}

/// One link on a line of its own.
pub open spec fn link_line(link: LinkEdge) -> Seq<char> {
    "  ["@ + link.kind.label() + "] "@ + link.source.name@ + " ("@ + link.source.file_path@ + ":"@
        + decimal_spec(link.source.span.start_line as nat) + ") -> "@ + link.target.name@ + " ("@
        + link.target.file_path@ + ":"@ + decimal_spec(link.target.span.start_line as nat) + ")\n"@
}

/// The heading of a pair.
pub open spec fn pair_heading(link: LinkEdge, pairs: Seq<PairCount>) -> Seq<char> {
    "\n"@ + link.source.project_id@ + " -> "@ + link.target.project_id@ + ": "@ + decimal_spec(
        link_pair_total(link, pairs) as nat,
    ) + "\n"@
}

/// The first `count` listed links, each pair under its heading.
pub open spec fn link_lines(
    links: Seq<LinkEdge>,
    pairs: Seq<PairCount>,
    window: Seq<usize>,
    count: int,
) -> Seq<char>
    decreases count,
{
    if count <= 0 {
        ""@
    } else {
        let link = links[window[count - 1] as int];
        let heading = if count == 1 || !same_pair(links[window[count - 2] as int], link) {
            pair_heading(link, pairs)
        } else {
            ""@
        };
        link_lines(links, pairs, window, count - 1) + heading + link_line(link)
    }
}

/// The larger of two numbers.
pub open spec fn larger(left: int, right: int) -> int {
    if left >= right {
        left
    } else {
        right
    }
}

/// The cross-project links.
pub open spec fn links_text_spec(
    link_count: u64,
    pairs: Seq<PairCount>,
    links: Seq<LinkEdge>,
    filter: Option<&str>,
    limit: u32,
    page: Page,
    generation: u64,
) -> Seq<char> {
    let total = link_total(pairs, pairs.len() as int);
    let ordered = ordered_links(links, pairs);
    let window = slice_spec(ordered, page.offset as int, limit as int);
    if link_count == 0 {
        "no cross-project links (index a second repo with `constellation link`)"@
    } else if links.len() == 0 {
        match filter {
            Some(filter) => "no cross-project links touching "@ + quoted(filter@),
            None => "no cross-project links"@,
        }
    } else {
        note_text(page) + "cross-project links: "@ + decimal_spec(window.len()) + " shown of "@
            + decimal_spec(total as nat) + "\n"@ + link_lines(
            links,
            pairs,
            window,
            window.len() as int,
        ) + next_text(
            page.offset as int,
            window.len() as int,
            larger(total, at_most(ordered.len(), u32::MAX as int)),
            generation,
        )
    }
}

spec fn group_views(groups: Seq<Vec<usize>>) -> Seq<Seq<usize>> {
    groups.map_values(|group: Vec<usize>| group@)
}

spec fn link_groups_ok(links: Seq<LinkEdge>, groups: Seq<Vec<usize>>) -> bool {
    forall|g: int|
        0 <= g < groups.len() ==> (#[trigger] groups[g])@.len() > 0 && group_ok(links, groups[g]@)
}

spec fn group_ok(links: Seq<LinkEdge>, group: Seq<usize>) -> bool {
    forall|i: int| 0 <= i < group.len() ==> #[trigger] group[i] < links.len()
}

fn joins_same_pair(left: &LinkEdge, right: &LinkEdge) -> (same: bool)
    ensures
        same == same_pair(*left, *right),
{
    same_text(left.source.project_id.as_str(), right.source.project_id.as_str()) && same_text(
        left.target.project_id.as_str(),
        right.target.project_id.as_str(),
    )
}

fn group_links(links: &[LinkEdge]) -> (groups: Vec<Vec<usize>>)
    ensures
        group_views(groups@) == pair_groups(links@, links@.len() as int),
        link_groups_ok(links@, groups@),
        groups@.len() <= links@.len(),
        forall|g: int|
            0 <= g < groups@.len() ==> (#[trigger] groups@[g])@.len() <= links@.len(),
        flat_count(group_views(groups@), groups@.len() as int) == links@.len(),
{
    let mut groups: Vec<Vec<usize>> = Vec::new();
    assert(group_views(groups@) =~= Seq::empty());
    for i in 0..links.len()
        invariant
            group_views(groups@) == pair_groups(links@, i as int),
            link_groups_ok(links@, groups@),
            groups@.len() <= i,
            forall|g: int| 0 <= g < groups@.len() ==> (#[trigger] groups@[g])@.len() <= i,
            flat_count(group_views(groups@), groups@.len() as int) == i,
    {
        let ghost before = group_views(groups@);
        let mut at: usize = 0;
        let mut found: bool = false;
        while at < groups.len() && !found
            invariant
                before == group_views(groups@),
                link_groups_ok(links@, groups@),
                i < links@.len(),
                at <= groups@.len(),
                pair_group_at(links@, before, links@[i as int], 0) == pair_group_at(
                    links@,
                    before,
                    links@[i as int],
                    at as int,
                ),
                found ==> at < groups@.len() && pair_group_at(
                    links@,
                    before,
                    links@[i as int],
                    0,
                ) == Some(at as int),
            decreases groups@.len() - at, if found { 0int } else { 1 },
        {
            assert(before[at as int] == groups@[at as int]@);
            assert(group_ok(links@, groups@[at as int]@));
            assert(groups@[at as int]@[0] < links@.len());
            if joins_same_pair(&links[groups[at][0]], &links[i]) {
                found = true;
            } else {
                at += 1;
            }
        }
        if found {
            let mut group: Vec<usize> = Vec::new();
            let count: usize = groups[at].len();
            for k in 0..count
                invariant
                    at < groups@.len(),
                    count == groups@[at as int]@.len(),
                    group@ == groups@[at as int]@.take(k as int),
            {
                group.push(groups[at][k]);
                assert(groups@[at as int]@.take(k + 1) =~= groups@[at as int]@.take(k as int).push(
                    groups@[at as int]@[k as int],
                ));
            }
            assert(group@ =~= groups@[at as int]@);
            assert(before[at as int] == group@);
            assert(group_ok(links@, groups@[at as int]@));
            group.push(i);
            let ghost grown = group@;
            let ghost old_groups = groups@;
            groups.set(at, group);
            proof {
                assert(group_views(groups@) =~= before.update(at as int, grown));
                lemma_flat_count_update(before, at as int, grown, before.len() as int);
            }
        } else {
            let mut group: Vec<usize> = Vec::new();
            group.push(i);
            assert(group@ =~= seq![i]);
            groups.push(group);
            proof {
                assert(group_views(groups@) =~= before.push(seq![i]));
                lemma_flat_count_prefix(before, before.push(seq![i]), before.len() as int);
            }
        }
    }
    groups
}

/// How many members the first `count` groups have.
spec fn flat_count(groups: Seq<Seq<usize>>, count: int) -> int
    decreases count,
{
    if count <= 0 {
        0
    } else {
        flat_count(groups, count - 1) + groups[count - 1].len()
    }
}

proof fn lemma_flat_count_prefix(left: Seq<Seq<usize>>, right: Seq<Seq<usize>>, count: int)
    requires
        count <= left.len() <= right.len(),
        forall|i: int| 0 <= i < left.len() ==> left[i] == right[i],
    ensures
        flat_count(left, count) == flat_count(right, count),
    decreases count,
{
    if count > 0 {
        lemma_flat_count_prefix(left, right, count - 1);
    }
}

proof fn lemma_flat_count_update(groups: Seq<Seq<usize>>, at: int, grown: Seq<usize>, count: int)
    requires
        0 <= at < groups.len(),
        0 <= count <= groups.len(),
    ensures
        flat_count(groups.update(at, grown), count) == flat_count(groups, count) + (if at < count {
            grown.len() - groups[at].len()
        } else {
            0
        }),
    decreases count,
{
    if count > 0 {
        lemma_flat_count_update(groups, at, grown, count - 1);
    }
}

proof fn lemma_flattened_len(groups: Seq<Seq<usize>>, count: int)
    ensures
        flattened(groups, count).len() == flat_count(groups, count),
    decreases count,
{
    if count > 0 {
        lemma_flattened_len(groups, count - 1);
    }
}

fn order_links(links: &[LinkEdge], pairs: &[PairCount]) -> (ordered: Vec<usize>)
    ensures
        ordered@ == ordered_links(links@, pairs@),
        forall|i: int| 0 <= i < ordered@.len() ==> #[trigger] ordered@[i] < links@.len(),
{
    let groups = group_links(links);
    let ghost group_list = group_views(groups@);
    assert(groups@.len() == group_list.len());
    let ghost key_list = group_list.map_values(
        |group: Seq<usize>| group_key(links@, pairs@, group),
    );
    let mut keys: Vec<Vec<Part>> = Vec::new();
    for i in 0..groups.len()
        invariant
            group_list == group_views(groups@),
            link_groups_ok(links@, groups@),
            key_list == group_list.map_values(
                |group: Seq<usize>| group_key(links@, pairs@, group),
            ),
            keys_view(keys@) == key_list.take(i as int),
    {
        let ghost before = keys@;
        assert(group_list[i as int] == groups@[i as int]@);
        let mut key: Vec<Part> = Vec::new();
        assert(groups@[i as int]@.len() > 0 && group_ok(links@, groups@[i as int]@));
        assert(groups@[i as int]@[0] < links@.len());
        let first = &links[groups[i][0]];
        let count = total_for(
            pairs,
            first.source.project_id.as_str(),
            first.target.project_id.as_str(),
        );
        key.push(Part::Number(-(count as i128)));
        assert(key_view(key) =~= key_list[i as int]);
        keys.push(key);
        assert(keys_view(keys@) =~= keys_view(before).push(key_list[i as int]));
        assert(key_list.take(i + 1) =~= key_list.take(i as int).push(key_list[i as int]));
    }
    assert(key_list.take(groups@.len() as int) =~= key_list);
    assert(keys@.len() == keys_view(keys@).len());
    let order = sort_order(&keys);
    assert(indices(order@).len() == order@.len());
    let ghost arranged_groups = indices(order@).map_values(|k: int| group_list[k]);
    let mut ordered: Vec<usize> = Vec::new();
    for i in 0..order.len()
        invariant
            group_list == group_views(groups@),
            link_groups_ok(links@, groups@),
            forall|k: int| 0 <= k < order@.len() ==> #[trigger] order@[k] < groups@.len(),
            arranged_groups == indices(order@).map_values(|k: int| group_list[k]),
            ordered@ == flattened(arranged_groups, i as int),
            forall|k: int| 0 <= k < ordered@.len() ==> #[trigger] ordered@[k] < links@.len(),
    {
        assert(order@[i as int] < groups@.len());
        assert(indices(order@)[i as int] == order@[i as int]);
        let at: usize = order[i];
        assert(group_list[at as int] == groups@[at as int]@);
        assert(group_ok(links@, groups@[at as int]@));
        let ghost start = ordered@;
        let count: usize = groups[at].len();
        for k in 0..count
            invariant
                at < groups@.len(),
                count == groups@[at as int]@.len(),
                group_ok(links@, groups@[at as int]@),
                ordered@ == start + groups@[at as int]@.take(k as int),
                forall|k: int| 0 <= k < ordered@.len() ==> #[trigger] ordered@[k] < links@.len(),
        {
            assert(groups@[at as int]@[k as int] < links@.len());
            ordered.push(groups[at][k]);
            assert(ordered@ =~= start + groups@[at as int]@.take(k + 1));
        }
        assert(groups@[at as int]@.take(count as int) =~= groups@[at as int]@);
    }
    ordered
}

fn total_for(pairs: &[PairCount], source: &str, target: &str) -> (count: u32)
    ensures
        count == pair_total(pairs@, source@, target@, pairs@.len() as int),
{
    let mut i: usize = pairs.len();
    while i > 0
        invariant
            i <= pairs@.len(),
            pair_total(pairs@, source@, target@, pairs@.len() as int) == pair_total(
                pairs@,
                source@,
                target@,
                i as int,
            ),
        decreases i,
    {
        if same_text(pairs[i - 1].source.as_str(), source) && same_text(
            pairs[i - 1].target.as_str(),
            target,
        ) {
            return pairs[i - 1].count;
        }
        i -= 1;
    }
    0
}

fn link_entry(link: &LinkEdge) -> (text: String)
    ensures
        text@ == link_line(*link),
{
    let mut text = cat5("  [", link.kind.as_str(), "] ", link.source.name.as_str(), " (");
    text.append(link.source.file_path.as_str());
    text.append(":");
    text.append(decimal_u32(link.source.span.start_line).as_str());
    text.append(") -> ");
    text.append(link.target.name.as_str());
    text.append(" (");
    text.append(link.target.file_path.as_str());
    text.append(":");
    text.append(decimal_u32(link.target.span.start_line).as_str());
    text.append(")\n");
    text
}

/// The cross-project links grouped by repo pair: an import in one repo resolved to a definition in
/// another. Pairs are ordered by link count descending; each edge prints its source and target.
/// `link_count` is the number of links there are, `pairs` the counts under the filter.
pub fn links_text(
    link_count: u64,
    pairs: &[PairCount],
    links: &[LinkEdge],
    filter: Option<&str>,
    limit: u32,
    page: &Page,
    generation: u64,
) -> (text: String)
    requires
        link_total(pairs@, pairs@.len() as int) <= u32::MAX,
    ensures
        text@ == links_text_spec(link_count, pairs@, links@, filter, limit, *page, generation),
{
    if link_count == 0 {
        return copy("no cross-project links (index a second repo with `constellation link`)");
    }
    if links.len() == 0 {
        return match filter {
            Some(filter) => cat2("no cross-project links touching ", quote(filter).as_str()),
            None => copy("no cross-project links"),
        };
    }
    let mut total: u32 = 0;
    for i in 0..pairs.len()
        invariant
            link_total(pairs@, pairs@.len() as int) <= u32::MAX,
            total == link_total(pairs@, i as int),
    {
        proof {
            lemma_link_total_grows(pairs@, i + 1, pairs@.len() as int);
        }
        total = total + pairs[i].count;
    }
    let ordered = order_links(links, pairs);
    let window = slice(ordered.as_slice(), page.offset, limit as usize);
    let mut listed = copy("");
    for i in 0..window.len()
        invariant
            window@ == slice_spec(ordered@, page.offset as int, limit as int),
            forall|k: int| 0 <= k < ordered@.len() ==> #[trigger] ordered@[k] < links@.len(),
            listed@ == link_lines(links@, pairs@, window@, i as int),
    {
        assert(window@[i as int] == ordered@[page.offset + i]);
        let link = &links[window[i]];
        let fresh: bool = if i == 0 {
            true
        } else {
            assert(window@[i - 1] == ordered@[page.offset + i - 1]);
            !joins_same_pair(&links[window[i - 1]], link)
        };
        let heading = if fresh {
            let count = total_for(
                pairs,
                link.source.project_id.as_str(),
                link.target.project_id.as_str(),
            );
            let mut heading = cat5(
                "\n",
                link.source.project_id.as_str(),
                " -> ",
                link.target.project_id.as_str(),
                ": ",
            );
            heading.append(decimal_u32(count).as_str());
            heading.append("\n");
            heading
        } else {
            copy("")
        };
        listed.append(heading.as_str());
        listed.append(link_entry(link).as_str());
    }
    let mut text = note_line(page);
    text.append("cross-project links: ");
    text.append(decimal_usize(window.len()).as_str());
    text.append(" shown of ");
    text.append(decimal_u32(total).as_str());
    text.append("\n");
    text.append(listed.as_str());
    let known: usize = if ordered.len() > u32::MAX as usize {
        u32::MAX as usize
    } else {
        ordered.len()
    };
    let remaining: usize = if total as usize >= known { total as usize } else { known };
    text.append(next_text_line(page.offset, window.len(), remaining, generation).as_str());
    text
}

proof fn lemma_link_total_grows(pairs: Seq<PairCount>, fewer: int, more: int)
    requires
        fewer <= more,
    ensures
        link_total(pairs, fewer) <= link_total(pairs, more),
    decreases more - fewer,
{
    if fewer < more {
        lemma_link_total_grows(pairs, fewer, more - 1);
    }
}

/// No link is lost or repeated by the grouping: every link is listed, and the listing has as many
/// entries as there are links.
pub proof fn law_links_are_all_listed(links: Seq<LinkEdge>, pairs: Seq<PairCount>)
    requires
        links.len() <= usize::MAX,
    ensures
        ordered_links(links, pairs).len() == links.len(),
        forall|i: usize| i < links.len() ==> #[trigger] ordered_links(links, pairs).contains(i),
{
    let groups = pair_groups(links, links.len() as int);
    lemma_pair_groups_count(links, links.len() as int);
    let keys = groups.map_values(|group: Seq<usize>| group_key(links, pairs, group));
    let order = sorted_order(keys);
    lemma_sorted_order(keys);
    assert forall|a: int, b: int| 0 <= a < b < order.len() implies #[trigger] order[a]
        != #[trigger] order[b] by {
        lemma_key_order(keys[order[a]], keys[order[a]]);
    }
    let rearranged = order.map_values(|k: int| groups[k]);
    lemma_flattened_len(rearranged, order.len() as int);
    lemma_rearranged_count(groups, order);
    assert forall|i: usize| i < links.len() implies #[trigger] ordered_links(links, pairs).contains(
        i,
    ) by {
        let group = lemma_link_has_a_group(links, links.len() as int, i);
        assert(order.contains(group));
        let k = choose|k: int| 0 <= k < order.len() && order[k] == group;
        assert(rearranged[k].contains(i));
        lemma_flattened_holds(rearranged, order.len() as int, k, i);
    }
}

/// Pairs are ordered by link count: no link is listed before one whose pair has more links, by the
/// counts that the headings give.
pub proof fn law_larger_pairs_are_listed_first(links: Seq<LinkEdge>, pairs: Seq<PairCount>)
    requires
        links.len() <= usize::MAX,
    ensures
        forall|i: int, j: int|
            0 <= i < j < ordered_links(links, pairs).len() ==> link_pair_total(
                links[#[trigger] ordered_links(links, pairs)[i] as int],
                pairs,
            ) >= link_pair_total(links[#[trigger] ordered_links(links, pairs)[j] as int], pairs),
{
    let groups = pair_groups(links, links.len() as int);
    let keys = groups.map_values(|group: Seq<usize>| group_key(links, pairs, group));
    let order = sorted_order(keys);
    lemma_sorted_order(keys);
    lemma_groups_share_a_pair(links, links.len() as int);
    let rearranged = order.map_values(|k: int| groups[k]);
    assert forall|g: int, k: int|
        0 <= g < rearranged.len() && 0 <= k < rearranged[g].len() implies link_pair_total(
        links[#[trigger] rearranged[g][k] as int],
        pairs,
    ) == link_pair_total(links[rearranged[g][0] as int], pairs) by {
        let group = groups[order[g]];
        assert(same_pair(links[group[k] as int], links[group[0] as int]));
    }
    assert forall|a: int, b: int| 0 <= a < b < rearranged.len() implies link_pair_total(
        links[(#[trigger] rearranged[a])[0] as int],
        pairs,
    ) >= link_pair_total(links[(#[trigger] rearranged[b])[0] as int], pairs) by {
        assert(rearranged[a] == groups[order[a]]);
        assert(rearranged[b] == groups[order[b]]);
        let left = keys[order[a]];
        let right = keys[order[b]];
        assert(left[0] == PartView::Number(
            -link_pair_total(links[rearranged[a][0] as int], pairs),
        ));
        assert(right[0] == PartView::Number(
            -link_pair_total(links[rearranged[b][0] as int], pairs),
        ));
    }
    lemma_flattened_descends(links, pairs, rearranged, order.len() as int);
}

proof fn lemma_flattened_descends(
    links: Seq<LinkEdge>,
    pairs: Seq<PairCount>,
    groups: Seq<Seq<usize>>,
    count: int,
)
    requires
        0 <= count <= groups.len(),
        forall|g: int, k: int|
            0 <= g < groups.len() && 0 <= k < groups[g].len() ==> link_pair_total(
                links[#[trigger] groups[g][k] as int],
                pairs,
            ) == link_pair_total(links[groups[g][0] as int], pairs),
        forall|a: int, b: int|
            0 <= a < b < groups.len() ==> link_pair_total(
                links[(#[trigger] groups[a])[0] as int],
                pairs,
            ) >= link_pair_total(links[(#[trigger] groups[b])[0] as int], pairs),
    ensures
        forall|i: int, j: int|
            0 <= i < j < flattened(groups, count).len() ==> link_pair_total(
                links[#[trigger] flattened(groups, count)[i] as int],
                pairs,
            ) >= link_pair_total(links[#[trigger] flattened(groups, count)[j] as int], pairs),
        forall|i: int, g: int|
            0 <= i < flattened(groups, count).len() && count <= g < groups.len()
                ==> link_pair_total(
                links[#[trigger] flattened(groups, count)[i] as int],
                pairs,
            ) >= link_pair_total(links[(#[trigger] groups[g])[0] as int], pairs),
    decreases count,
{
    if count > 0 {
        lemma_flattened_descends(links, pairs, groups, count - 1);
        let before = flattened(groups, count - 1);
        let after = flattened(groups, count);
        let group = groups[count - 1];
        assert forall|i: int| 0 <= i < after.len() implies #[trigger] after[i] == (if i
            < before.len() {
            before[i]
        } else {
            group[i - before.len()]
        }) by {}
        assert forall|k: int| 0 <= k < group.len() implies link_pair_total(
            links[#[trigger] group[k] as int],
            pairs,
        ) == link_pair_total(links[group[0] as int], pairs) by {
            assert(groups[count - 1][k] == group[k]);
        }
    }
}

/// The links of a group all join the same pair.
proof fn lemma_groups_share_a_pair(links: Seq<LinkEdge>, count: int)
    requires
        0 <= count <= links.len() <= usize::MAX,
    ensures
        forall|g: int, k: int|
            0 <= g < pair_groups(links, count).len() && 0 <= k < pair_groups(links, count)[g].len()
                ==> same_pair(
                links[#[trigger] pair_groups(links, count)[g][k] as int],
                links[pair_groups(links, count)[g][0] as int],
            ),
    decreases count,
{
    if count > 0 {
        lemma_groups_share_a_pair(links, count - 1);
        let before = pair_groups(links, count - 1);
        let after = pair_groups(links, count);
        lemma_pair_group_at(links, before, links[count - 1], 0);
        assert forall|g: int, k: int|
            0 <= g < after.len() && 0 <= k < after[g].len() implies same_pair(
            links[#[trigger] after[g][k] as int],
            links[after[g][0] as int],
        ) by {
            if g < before.len() && k < before[g].len() {
                assert(before[g][k] == after[g][k]);
                assert(before[g][0] == after[g][0]);
            }
        }
    }
}

proof fn lemma_link_has_a_group(links: Seq<LinkEdge>, count: int, link: usize) -> (group: int)
    requires
        0 <= link < count <= links.len() <= usize::MAX,
    ensures
        0 <= group < pair_groups(links, count).len(),
        pair_groups(links, count)[group].contains(link),
    decreases count,
{
    let before = pair_groups(links, count - 1);
    let after = pair_groups(links, count);
    lemma_pair_group_at(links, before, links[count - 1], 0);
    if link < count - 1 {
        let group = lemma_link_has_a_group(links, count - 1, link);
        let k = choose|k: int| 0 <= k < before[group].len() && before[group][k] == link;
        assert(after[group][k] == link);
        group
    } else {
        match pair_group_at(links, before, links[count - 1], 0) {
            Some(group) => {
                assert(after[group].last() == link);
                group
            },
            None => {
                assert(after.last()[0] == link);
                after.len() - 1
            },
        }
    }
}

proof fn lemma_flattened_holds(groups: Seq<Seq<usize>>, count: int, group: int, item: usize)
    requires
        0 <= group < count <= groups.len(),
        groups[group].contains(item),
    ensures
        flattened(groups, count).contains(item),
    decreases count,
{
    let before = flattened(groups, count - 1);
    if group < count - 1 {
        lemma_flattened_holds(groups, count - 1, group, item);
        let k = choose|k: int| 0 <= k < before.len() && before[k] == item;
        assert(flattened(groups, count)[k] == item);
    } else {
        let k = choose|k: int| 0 <= k < groups[group].len() && groups[group][k] == item;
        assert(flattened(groups, count)[before.len() + k] == item);
    }
}

proof fn lemma_pair_groups_count(links: Seq<LinkEdge>, count: int)
    requires
        0 <= count <= links.len(),
    ensures
        flat_count(pair_groups(links, count), pair_groups(links, count).len() as int) == count,
    decreases count,
{
    if count > 0 {
        lemma_pair_groups_count(links, count - 1);
        let groups = pair_groups(links, count - 1);
        lemma_pair_group_at(links, groups, links[count - 1], 0);
        let at = (count - 1) as usize;
        match pair_group_at(links, groups, links[count - 1], 0) {
            Some(group) => {
                lemma_flat_count_update(
                    groups,
                    group,
                    groups[group].push(at),
                    groups.len() as int,
                );
            },
            None => {
                lemma_flat_count_prefix(groups, groups.push(seq![at]), groups.len() as int);
            },
        }
    }
}

proof fn lemma_pair_group_at(
    links: Seq<LinkEdge>,
    groups: Seq<Seq<usize>>,
    link: LinkEdge,
    from: int,
)
    requires
        0 <= from,
    ensures
        match pair_group_at(links, groups, link, from) {
            Some(at) => from <= at < groups.len() && same_pair(
                links[groups[at][0] as int],
                link,
            ),
            None => true,
        },
    decreases groups.len() - from,
{
    if from < groups.len() && !same_pair(links[groups[from][0] as int], link) {
        lemma_pair_group_at(links, groups, link, from + 1);
    }
}

/// Putting groups in another order does not change how many members they have.
proof fn lemma_rearranged_count(groups: Seq<Seq<usize>>, order: Seq<int>)
    requires
        order.len() == groups.len(),
        forall|a: int| 0 <= a < order.len() ==> 0 <= #[trigger] order[a] < groups.len(),
        forall|i: int| 0 <= i < groups.len() ==> #[trigger] order.contains(i),
        forall|a: int, b: int|
            0 <= a < b < order.len() ==> #[trigger] order[a] != #[trigger] order[b],
    ensures
        flat_count(order.map_values(|k: int| groups[k]), order.len() as int) == flat_count(
            groups,
            groups.len() as int,
        ),
    decreases groups.len(),
{
    let rearranged = order.map_values(|k: int| groups[k]);
    if groups.len() > 0 {
        let last = groups.len() - 1;
        assert(order.contains(last));
        let at = choose|a: int| 0 <= a < order.len() && order[a] == last;
        let fewer = groups.drop_last();
        let rest = order.remove(at);
        assert forall|a: int| 0 <= a < rest.len() implies 0 <= #[trigger] rest[a] < fewer.len() by {
            let b = if a < at { a } else { a + 1 };
            assert(rest[a] == order[b]);
            if a < at {
                assert(order[a] != order[at]);
            } else {
                assert(order[at] != order[a + 1]);
            }
        }
        assert forall|i: int| 0 <= i < fewer.len() implies #[trigger] rest.contains(i) by {
            assert(order.contains(i));
            let b = choose|b: int| 0 <= b < order.len() && order[b] == i;
            if b < at {
                assert(rest[b] == i);
            } else {
                assert(b > at);
                assert(rest[b - 1] == i);
            }
        }
        assert forall|a: int, b: int| 0 <= a < b < rest.len() implies #[trigger] rest[a]
            != #[trigger] rest[b] by {
            let x = if a < at { a } else { a + 1 };
            let y = if b < at { b } else { b + 1 };
            assert(order[x] != order[y]);
        }
        lemma_rearranged_count(fewer, rest);
        lemma_flat_count_remove(rearranged, at, order.len() as int);
        assert(rest.map_values(|k: int| fewer[k]) =~= rearranged.remove(at));
        lemma_flat_count_prefix(fewer, groups, fewer.len() as int);
    }
}

proof fn lemma_flat_count_remove(groups: Seq<Seq<usize>>, at: int, count: int)
    requires
        0 <= at < count <= groups.len(),
    ensures
        flat_count(groups, count) == flat_count(groups.remove(at), count - 1) + groups[at].len(),
    decreases count,
{
    if at < count - 1 {
        lemma_flat_count_remove(groups, at, count - 1);
        assert(groups.remove(at)[count - 2] == groups[count - 1]);
    } else {
        lemma_flat_count_same(groups, groups.remove(at), count - 1);
    }
}

proof fn lemma_flat_count_same(left: Seq<Seq<usize>>, right: Seq<Seq<usize>>, count: int)
    requires
        count <= left.len(),
        count <= right.len(),
        forall|i: int| 0 <= i < count ==> left[i] == right[i],
    ensures
        flat_count(left, count) == flat_count(right, count),
    decreases count,
{
    if count > 0 {
        lemma_flat_count_same(left, right, count - 1);
    }
}

/// The rows of the first `count` projects that are asked for, one project behind another.
pub open spec fn all_rows(
    projects: Seq<ProjectRoutes>,
    reverse_names: Seq<(String, String)>,
    url_paths: Seq<(String, String)>,
    filter: Option<&str>,
    needle: Option<Seq<char>>,
    count: int,
) -> Seq<RouteRowView>
    decreases count,
{
    if count <= 0 {
        Seq::empty()
    } else {
        let before = all_rows(projects, reverse_names, url_paths, filter, needle, count - 1);
        if wanted_project(projects[count - 1].project, filter) {
            before + route_table(projects[count - 1], reverse_names, url_paths, needle).rows
        } else {
            before
        }
    }
}

/// The rows that a page shows of the first `count` projects.
pub open spec fn page_rows(
    projects: Seq<ProjectRoutes>,
    reverse_names: Seq<(String, String)>,
    url_paths: Seq<(String, String)>,
    filter: Option<&str>,
    needle: Option<Seq<char>>,
    limit: u32,
    offset: int,
    count: int,
) -> Seq<RouteRowView>
    decreases count,
{
    if count <= 0 {
        Seq::empty()
    } else {
        let before = page_rows(
            projects,
            reverse_names,
            url_paths,
            filter,
            needle,
            limit,
            offset,
            count - 1,
        );
        let state = routes_upto(
            projects,
            reverse_names,
            url_paths,
            filter,
            needle,
            limit,
            offset,
            count - 1,
        );
        if wanted_project(projects[count - 1].project, filter) {
            before + route_window(
                route_table(projects[count - 1], reverse_names, url_paths, needle).rows,
                state.total,
                state.rows,
                limit,
                offset,
            )
        } else {
            before
        }
    }
}

/// A page boundary may fall inside one project's table without losing or repeating a row: a page is
/// a slice of all the rows, one project behind another, that starts at the page's offset. It is no
/// longer than asked, as long as asked where that is no more than one project may show, and never
/// empty before the rows end.
pub proof fn law_route_pages_lose_nothing(
    projects: Seq<ProjectRoutes>,
    reverse_names: Seq<(String, String)>,
    url_paths: Seq<(String, String)>,
    filter: Option<&str>,
    needle: Option<Seq<char>>,
    limit: u32,
    offset: int,
    count: int,
)
    requires
        0 <= offset,
        0 <= count <= projects.len(),
    ensures
        ({
            let all = all_rows(projects, reverse_names, url_paths, filter, needle, count);
            let shown = page_rows(
                projects,
                reverse_names,
                url_paths,
                filter,
                needle,
                limit,
                offset,
                count,
            );
            let state = routes_upto(
                projects,
                reverse_names,
                url_paths,
                filter,
                needle,
                limit,
                offset,
                count,
            );
            &&& shown == slice_spec(all, offset, state.rows)
            &&& state.rows == shown.len() <= limit
            &&& state.total == all.len()
            &&& limit <= ROUTES_PER_PROJECT_MAX ==> shown == slice_spec(all, offset, limit as int)
            &&& limit > 0 && offset < all.len() ==> shown.len() > 0
        }),
    decreases count,
{
    if count > 0 {
        law_route_pages_lose_nothing(
            projects,
            reverse_names,
            url_paths,
            filter,
            needle,
            limit,
            offset,
            count - 1,
        );
        let before = all_rows(projects, reverse_names, url_paths, filter, needle, count - 1);
        let all = all_rows(projects, reverse_names, url_paths, filter, needle, count);
        let shown = page_rows(
            projects,
            reverse_names,
            url_paths,
            filter,
            needle,
            limit,
            offset,
            count,
        );
        assert(shown =~= slice_spec(all, offset, shown.len() as int));
        if limit <= ROUTES_PER_PROJECT_MAX {
            assert(shown =~= slice_spec(all, offset, limit as int));
        }
    } else {
        assert(slice_spec(Seq::<RouteRowView>::empty(), offset, limit as int) =~= Seq::empty());
        assert(slice_spec(Seq::<RouteRowView>::empty(), offset, 0) =~= Seq::empty());
    }
}

/// The first `count` numbers added up.
pub open spec fn sum_of(numbers: Seq<int>, count: int) -> int
    decreases count,
{
    if count <= 0 {
        0
    } else {
        sum_of(numbers, count - 1) + numbers[count - 1]
    }
}

proof fn lemma_sum_prefix(left: Seq<int>, right: Seq<int>, count: int)
    requires
        0 <= count <= left.len(),
        count <= right.len(),
        forall|k: int| 0 <= k < count ==> left[k] == right[k],
    ensures
        sum_of(left, count) == sum_of(right, count),
    decreases count,
{
    if count > 0 {
        lemma_sum_prefix(left, right, count - 1);
    }
}

proof fn lemma_sum_update(numbers: Seq<int>, at: int, number: int, count: int)
    requires
        0 <= at < count <= numbers.len(),
    ensures
        sum_of(numbers.update(at, number), count) == sum_of(numbers, count) + number - numbers[at],
    decreases count,
{
    if at < count - 1 {
        lemma_sum_update(numbers, at, number, count - 1);
    } else {
        lemma_sum_prefix(numbers.update(at, number), numbers, count - 1);
    }
}

proof fn lemma_sum_remove(numbers: Seq<int>, at: int, count: int)
    requires
        0 <= at < count <= numbers.len(),
    ensures
        sum_of(numbers, count) == sum_of(numbers.remove(at), count - 1) + numbers[at],
    decreases count,
{
    if at < count - 1 {
        lemma_sum_remove(numbers, at, count - 1);
        assert(numbers.remove(at)[count - 2] == numbers[count - 1]);
    } else {
        lemma_sum_prefix(numbers, numbers.remove(at), count - 1);
    }
}

proof fn lemma_sum_rearranged(numbers: Seq<int>, order: Seq<int>)
    requires
        order.len() == numbers.len(),
        forall|a: int| 0 <= a < order.len() ==> 0 <= #[trigger] order[a] < numbers.len(),
        forall|i: int| 0 <= i < numbers.len() ==> #[trigger] order.contains(i),
        forall|a: int, b: int|
            0 <= a < b < order.len() ==> #[trigger] order[a] != #[trigger] order[b],
    ensures
        sum_of(order.map_values(|k: int| numbers[k]), order.len() as int) == sum_of(
            numbers,
            numbers.len() as int,
        ),
    decreases numbers.len(),
{
    let rearranged = order.map_values(|k: int| numbers[k]);
    if numbers.len() > 0 {
        let last = numbers.len() - 1;
        assert(order.contains(last));
        let at = choose|a: int| 0 <= a < order.len() && order[a] == last;
        let fewer = numbers.drop_last();
        let rest = order.remove(at);
        assert forall|a: int| 0 <= a < rest.len() implies 0 <= #[trigger] rest[a] < fewer.len() by {
            if a < at {
                assert(order[a] != order[at]);
            } else {
                assert(order[at] != order[a + 1]);
            }
        }
        assert forall|i: int| 0 <= i < fewer.len() implies #[trigger] rest.contains(i) by {
            assert(order.contains(i));
            let b = choose|b: int| 0 <= b < order.len() && order[b] == i;
            if b < at {
                assert(rest[b] == i);
            } else {
                assert(rest[b - 1] == i);
            }
        }
        assert forall|a: int, b: int| 0 <= a < b < rest.len() implies #[trigger] rest[a]
            != #[trigger] rest[b] by {
            let x = if a < at { a } else { a + 1 };
            let y = if b < at { b } else { b + 1 };
            assert(order[x] != order[y]);
        }
        lemma_sum_rearranged(fewer, rest);
        lemma_sum_remove(rearranged, at, order.len() as int);
        assert(rest.map_values(|k: int| fewer[k]) =~= rearranged.remove(at));
        lemma_sum_prefix(fewer, numbers, fewer.len() as int);
    }
}

/// The symbols of the directories.
pub open spec fn directory_symbols(directories: Seq<DirectoryView>) -> Seq<int> {
    directories.map_values(|directory: DirectoryView| directory.symbols)
}

/// The file counts of the directories.
pub open spec fn directory_files(directories: Seq<DirectoryView>) -> Seq<int> {
    directories.map_values(|directory: DirectoryView| directory.files)
}

proof fn lemma_directories_account(files: Seq<FileRow>, depth: int, count: int)
    requires
        0 <= count <= files.len(),
    ensures
        ({
            let found = directories_upto(files, depth, count);
            &&& sum_of(directory_symbols(found), found.len() as int) == symbol_total(
                files.take(count),
            )
            &&& sum_of(directory_files(found), found.len() as int) == count
        }),
    decreases count,
{
    if count > 0 {
        lemma_directories_account(files, depth, count - 1);
        let known = directories_upto(files, depth, count - 1);
        let found = directories_upto(files, depth, count);
        let name = directory_of(files[count - 1].path@, depth);
        let symbols = files[count - 1].node_count as int;
        assert(files.take(count).drop_last() =~= files.take(count - 1));
        lemma_key_at(directory_names(known), name, 0);
        match key_at(directory_names(known), name, 0) {
            Some(at) => {
                let grown = known[at].symbols + symbols;
                assert(directory_symbols(found) =~= directory_symbols(known).update(at, grown));
                assert(directory_files(found) =~= directory_files(known).update(
                    at,
                    known[at].files + 1,
                ));
                lemma_sum_update(directory_symbols(known), at, grown, known.len() as int);
                lemma_sum_update(
                    directory_files(known),
                    at,
                    known[at].files + 1,
                    known.len() as int,
                );
            },
            None => {
                lemma_sum_prefix(
                    directory_symbols(known),
                    directory_symbols(found),
                    known.len() as int,
                );
                lemma_sum_prefix(directory_files(known), directory_files(found), known.len() as int);
            },
        }
    }
}

/// A breakdown by directory conceals nothing: its rows hold as many files, and as many symbols, as
/// the heading above them says.
pub proof fn law_directories_account_for_everything(files: Seq<FileRow>, depth: int)
    ensures
        ({
            let rows = directories_spec(files, depth);
            &&& sum_of(directory_symbols(rows), rows.len() as int) == symbol_total(files)
            &&& sum_of(directory_files(rows), rows.len() as int) == files.len()
        }),
{
    let found = directories_upto(files, depth, files.len() as int);
    let keys = found.map_values(|directory: DirectoryView| directory_key(directory));
    let order = sorted_order(keys);
    let rows = directories_spec(files, depth);
    lemma_directories_account(files, depth, files.len() as int);
    assert(files.take(files.len() as int) =~= files);
    lemma_sorted_order(keys);
    assert forall|a: int, b: int| 0 <= a < b < order.len() implies #[trigger] order[a]
        != #[trigger] order[b] by {
        lemma_key_order(keys[order[a]], keys[order[a]]);
    }
    lemma_sum_rearranged(directory_symbols(found), order);
    lemma_sum_rearranged(directory_files(found), order);
    assert(directory_symbols(rows) =~= order.map_values(|k: int| directory_symbols(found)[k]));
    assert(directory_files(rows) =~= order.map_values(|k: int| directory_files(found)[k]));
}

// ---------------------------------------------------------------------------
// What a layout counts

proof fn lemma_join_parts(pieces: Seq<Seq<char>>, separator: Seq<char>, cut: int)
    requires
        0 < cut < pieces.len(),
    ensures
        join_spec(pieces, separator) == join_spec(pieces.take(cut), separator) + separator
            + join_spec(pieces.skip(cut), separator),
    decreases pieces.len(),
{
    let shorter = pieces.drop_last();
    if cut == pieces.len() - 1 {
        assert(pieces.take(cut) =~= shorter);
        assert(pieces.skip(cut) =~= seq![pieces.last()]);
        assert(join_spec(pieces.skip(cut), separator) == pieces.last());
    } else {
        lemma_join_parts(shorter, separator, cut);
        assert(shorter.take(cut) =~= pieces.take(cut));
        assert(pieces.skip(cut).drop_last() =~= shorter.skip(cut));
        assert(pieces.skip(cut).last() == pieces.last());
        assert(join_spec(pieces, separator) =~= join_spec(pieces.take(cut), separator) + separator
            + join_spec(pieces.skip(cut), separator));
    }
}

/// A file is counted under a directory that it stands in: its path is that directory, a slash and
/// the rest. A file in no directory is counted under the root.
pub proof fn law_a_file_is_counted_under_its_directory(path: Seq<char>, depth: int)
    requires
        depth >= 1,
    ensures
        !path.contains('/') ==> directory_of(path, depth) == "(root)"@,
        path.contains('/') ==> exists|rest: Seq<char>|
            path == #[trigger] (directory_of(path, depth) + "/"@ + rest),
{
    reveal_strlit("/");
    let segments = split_spec(path, "/"@);
    law_pieces_join_back(path, "/"@);
    if path.contains('/') {
        let at = choose|at: int| 0 <= at < path.len() && path[at] == '/';
        assert(path.subrange(at, at + 1) =~= "/"@);
        assert(occurs_at(path, "/"@, at));
        if segments.len() == 1 {
            assert(join_spec(segments, "/"@) == segments[0]);
            assert(occurs(segments[0], "/"@));
        }
        let cut = if depth < segments.len() - 1 {
            depth
        } else {
            segments.len() - 1
        };
        lemma_join_parts(segments, "/"@, cut);
        assert(path == directory_of(path, depth) + "/"@ + join_spec(segments.skip(cut), "/"@));
    } else if segments.len() > 1 {
        lemma_join_parts(segments, "/"@, 1);
        let head = join_spec(segments.take(1), "/"@);
        assert(path[head.len() as int] == '/');
        assert(path.contains('/'));
    }
}

/// The files that are counted under a directory are those whose directory it is, each once; every
/// file's directory has its row, and no directory has two.
pub proof fn law_every_file_is_counted_once(files: Seq<FileRow>, depth: int, count: int)
    requires
        0 <= count <= files.len(),
    ensures
        ({
            let rows = directories_upto(files, depth, count);
            &&& forall|r: int|
                0 <= r < rows.len() ==> (#[trigger] rows[r]).files == numbers::indices(
                    count,
                    |i: int| directory_of(files[i].path@, depth) == rows[r].name,
                ).len()
            &&& forall|i: int|
                0 <= i < count ==> directory_names(rows).contains(
                    directory_of((#[trigger] files[i]).path@, depth),
                )
            &&& forall|a: int, b: int|
                0 <= a < b < rows.len() ==> (#[trigger] rows[a]).name != (#[trigger] rows[b]).name
        }),
    decreases count,
{
    if count > 0 {
        law_every_file_is_counted_once(files, depth, count - 1);
        let known = directories_upto(files, depth, count - 1);
        let rows = directories_upto(files, depth, count);
        let name = directory_of(files[count - 1].path@, depth);
        let names = directory_names(known);
        lemma_key_at(names, name, 0);
        assert(forall|r: int| 0 <= r < known.len() ==> #[trigger] names[r] == known[r].name);
        let found = key_at(names, name, 0);
        assert(forall|r: int| 0 <= r < known.len() ==> (#[trigger] rows[r]).name == known[r].name);
        assert forall|r: int| 0 <= r < rows.len() implies (#[trigger] rows[r]).files
            == numbers::indices(
            count,
            |i: int| directory_of(files[i].path@, depth) == rows[r].name,
        ).len() by {
            let holds = |i: int| directory_of(files[i].path@, depth) == rows[r].name;
            lemma_indices(count, holds);
            if r < known.len() {
                assert(known[r].files == numbers::indices(
                    count - 1,
                    |i: int| directory_of(files[i].path@, depth) == known[r].name,
                ).len());
                if found is None {
                    assert(names[r] != name);
                } else if found->0 != r {
                    assert(known[found->0].name == name);
                }
            } else {
                lemma_none_counted(files, depth, count - 1, name, names);
            }
        }
        assert forall|i: int| 0 <= i < count implies directory_names(rows).contains(
            directory_of((#[trigger] files[i]).path@, depth),
        ) by {
            let wanted = directory_of(files[i].path@, depth);
            if i < count - 1 {
                assert(names.contains(wanted));
                let r = choose|r: int| 0 <= r < names.len() && names[r] == wanted;
                assert(directory_names(rows)[r] == wanted);
            } else if found is Some {
                assert(directory_names(rows)[found->0] == wanted);
            } else {
                assert(directory_names(rows)[known.len() as int] == wanted);
            }
        }
        assert forall|a: int, b: int| 0 <= a < b < rows.len() implies (#[trigger] rows[a]).name != (
        #[trigger] rows[b]).name by {
            if b == known.len() {
                assert(names[a] != name);
            } else {
                assert(known[a].name != known[b].name);
            }
        }
    }
}

proof fn lemma_none_counted(
    files: Seq<FileRow>,
    depth: int,
    count: int,
    name: Seq<char>,
    names: Seq<Seq<char>>,
)
    requires
        0 <= count <= files.len(),
        forall|i: int|
            0 <= i < count ==> names.contains(directory_of((#[trigger] files[i]).path@, depth)),
        forall|k: int| 0 <= k < names.len() ==> #[trigger] names[k] != name,
    ensures
        numbers::indices(
            count,
            |i: int| directory_of(files[i].path@, depth) == name,
        ).len() == 0,
    decreases count,
{
    let holds = |i: int| directory_of(files[i].path@, depth) == name;
    lemma_indices(count, holds);
    if count > 0 {
        lemma_none_counted(files, depth, count - 1, name, names);
        assert(names.contains(directory_of(files[count - 1].path@, depth)));
    }
}

/// The files that match are those whose path holds what was asked for; of two the earlier is
/// hand-written where the later is a test, and neither is generated before one that is not; files
/// of one standing come by path.
pub proof fn law_matching_files_hold_the_pattern(files: Seq<FileRow>, needle: Seq<char>, at: int)
    requires
        0 <= at < files.len() <= usize::MAX,
    ensures
        matched_files(files, needle).contains(at as usize) <==> occurs(
            lowercased(files[at].path@),
            needle,
        ),
{
    lemma_matching_files(files, needle, files.len() as int, at);
    let found = matching_files(files, needle, files.len() as int);
    let listed = matched_files(files, needle);
    law_arranging_keeps_the_items(found, found.map_values(|p: usize| file_key(files[p as int])));
    if found.contains(at as usize) {
        let k = choose|k: int| 0 <= k < found.len() && found[k] == at as usize;
        assert(listed.contains(found[k]));
    }
    if listed.contains(at as usize) {
        let k = choose|k: int| 0 <= k < listed.len() && listed[k] == at as usize;
        assert(found.contains(listed[k]));
    }
}

/// Of two matching files the earlier is not generated where the later is not, and no test where the
/// later is hand-written; and of two of one standing the earlier path comes first.
pub proof fn law_matching_files_are_in_order(
    files: Seq<FileRow>,
    needle: Seq<char>,
    a: int,
    b: int,
)
    requires
        0 <= a < b < matching_files(files, needle, files.len() as int).len(),
    ensures
        ({
            let listed = matched_files(files, needle);
            let (first, second) = (files[listed[a] as int], files[listed[b] as int]);
            &&& !(first.generated && !second.generated)
            &&& !(!first.generated && first.test && !second.generated && !second.test)
            &&& first.generated == second.generated && (first.generated || first.test
                == second.test) ==> !text_less(second.path@, first.path@)
        }),
{
    let found = matching_files(files, needle, files.len() as int);
    let keys = found.map_values(|p: usize| file_key(files[p as int]));
    law_arranging_sorts(keys, a, b);
    let listed = matched_files(files, needle);
    let (i, j) = (sorted_order(keys)[a], sorted_order(keys)[b]);
    assert(listed[a] == found[i] && listed[b] == found[j]);
    let (left, right) = (keys[i], keys[j]);
    lemma_not_after(left, right);
    if left[0] == right[0] {
        lemma_not_after(left.skip(1), right.skip(1));
        assert(left.skip(1)[0] == left[1] && right.skip(1)[0] == right[1]);
    }
}

/// The count of a kind is the last one given for it, and a kind without one counts for nothing.
pub proof fn law_the_last_count_stands(counts: Seq<(NodeKind, u32)>, kind: NodeKind, at: int)
    requires
        0 <= at < counts.len(),
    ensures
        counts[at].0 == kind && (forall|k: int|
            at < k < counts.len() ==> (#[trigger] counts[k]).0 != kind) ==> count_of(
            counts,
            kind,
            counts.len() as int,
        ) == counts[at].1,
        (forall|k: int| 0 <= k < counts.len() ==> (#[trigger] counts[k]).0 != kind) ==> count_of(
            counts,
            kind,
            counts.len() as int,
        ) == 0,
{
    lemma_count_of(counts, kind, counts.len() as int, at);
}

proof fn lemma_count_of(counts: Seq<(NodeKind, u32)>, kind: NodeKind, upto: int, at: int)
    requires
        0 <= at < counts.len(),
        0 <= upto <= counts.len(),
    ensures
        at < upto && counts[at].0 == kind && (forall|k: int|
            at < k < upto ==> (#[trigger] counts[k]).0 != kind) ==> count_of(counts, kind, upto)
            == counts[at].1,
        (forall|k: int| 0 <= k < upto ==> (#[trigger] counts[k]).0 != kind) ==> count_of(
            counts,
            kind,
            upto,
        ) == 0,
    decreases upto,
{
    if upto > 0 {
        lemma_count_of(counts, kind, upto - 1, at);
    }
}

/// An overview names every kind of its surfaces that the project has, with how many there are, and
/// none that it has not.
pub proof fn law_every_surface_is_counted(counts: Seq<(NodeKind, u32)>)
    ensures
        ({
            let of = |kind: NodeKind| count_of(counts, kind, counts.len() as int) as nat;
            let django = kind_parts(counts, django_kinds());
            let code = kind_parts(counts, code_kinds());
            &&& of(NodeKind::Model) > 0 ==> django.contains(
                decimal_spec(of(NodeKind::Model)) + " "@ + "models"@,
            )
            &&& of(NodeKind::View) > 0 ==> django.contains(
                decimal_spec(of(NodeKind::View)) + " "@ + "views"@,
            )
            &&& of(NodeKind::Route) > 0 ==> django.contains(
                decimal_spec(of(NodeKind::Route)) + " "@ + "routes"@,
            )
            &&& of(NodeKind::Template) > 0 ==> django.contains(
                decimal_spec(of(NodeKind::Template)) + " "@ + "templates"@,
            )
            &&& of(NodeKind::Class) > 0 ==> code.contains(
                decimal_spec(of(NodeKind::Class)) + " "@ + "classes"@,
            )
            &&& of(NodeKind::Function) > 0 ==> code.contains(
                decimal_spec(of(NodeKind::Function)) + " "@ + "functions"@,
            )
            &&& of(NodeKind::Method) > 0 ==> code.contains(
                decimal_spec(of(NodeKind::Method)) + " "@ + "methods"@,
            )
        }),
{
    let django = django_kinds();
    let code = code_kinds();
    lemma_kind_parts(counts, django, 0);
    lemma_kind_parts(counts, django, 1);
    lemma_kind_parts(counts, django, 2);
    lemma_kind_parts(counts, django, 3);
    lemma_kind_parts(counts, code, 0);
    lemma_kind_parts(counts, code, 1);
    lemma_kind_parts(counts, code, 2);
}

proof fn lemma_kind_parts(counts: Seq<(NodeKind, u32)>, kinds: Seq<NamedKind>, at: int)
    requires
        0 <= at < kinds.len(),
    ensures
        ({
            let count = count_of(counts, kinds[at].kind, counts.len() as int);
            count > 0 ==> kind_parts(counts, kinds).contains(
                decimal_spec(count as nat) + " "@ + kinds[at].label@,
            )
        }),
    decreases kinds.len(),
{
    let count = count_of(counts, kinds[at].kind, counts.len() as int);
    let part = decimal_spec(count as nat) + " "@ + kinds[at].label@;
    let parts = kind_parts(counts, kinds);
    if count > 0 {
        if at == kinds.len() - 1 {
            assert(parts[parts.len() - 1] == part);
        } else {
            let shorter = kinds.drop_last();
            lemma_kind_parts(counts, shorter, at);
            let rest = kind_parts(counts, shorter);
            assert(shorter[at] == kinds[at]);
            let k = choose|k: int| 0 <= k < rest.len() && rest[k] == part;
            assert(parts[k] == part);
        }
    }
}

// ---------------------------------------------------------------------------
// What a URL map shows

proof fn lemma_first_of_kind(callees: Seq<(EdgeKind, Node)>, kind: EdgeKind, from: int)
    requires
        0 <= from,
    ensures
        match first_of_kind(callees, kind, from) {
            Some(at) => from <= at < callees.len() && callees[at].0 == kind && forall|k: int|
                from <= k < at ==> (#[trigger] callees[k]).0 != kind,
            None => forall|k: int| from <= k < callees.len() ==> (#[trigger] callees[k]).0 != kind,
        },
    decreases callees.len() - from,
{
    if from < callees.len() && callees[from].0 != kind {
        lemma_first_of_kind(callees, kind, from + 1);
    }
}

/// The row of a route names the first view that the route leads to, and the first template that the
/// view renders.
pub proof fn law_a_route_row_names_its_view(
    entry: RouteEntry,
    pending: Seq<Pending>,
    reverse_names: Seq<(String, String)>,
    url_paths: Seq<(String, String)>,
    view: int,
    template: int,
)
    requires
        0 <= view < entry.callees@.len(),
        entry.callees@[view].0 is RoutesTo,
        forall|k: int| 0 <= k < view ==> !((#[trigger] entry.callees@[k]).0 is RoutesTo),
    ensures
        ({
            let row = route_row(entry, pending, reverse_names, url_paths);
            &&& row.view_name == entry.callees@[view].1.name@
            &&& row.unbound is None
            &&& !is_mount(entry)
            &&& 0 <= template < entry.view_callees@.len() && entry.view_callees@[template].0
                is Renders && (forall|k: int|
                0 <= k < template ==> !((#[trigger] entry.view_callees@[k]).0 is Renders))
                ==> row.template_name == entry.view_callees@[template].1.name@
            &&& (forall|k: int|
                0 <= k < entry.view_callees@.len() ==> !((#[trigger] entry.view_callees@[k]).0
                    is Renders)) ==> row.template_name == "(no template)"@
        }),
{
    lemma_first_of_kind(entry.callees@, EdgeKind::RoutesTo, 0);
    lemma_first_of_kind(entry.view_callees@, EdgeKind::Renders, 0);
}

/// A route that leads to no view is a mount point where its name is a path, and otherwise an
/// endpoint whose handler is not bound: its row says so, and names the handler where it is known.
pub proof fn law_a_route_without_a_view_is_unbound(
    entry: RouteEntry,
    pending: Seq<Pending>,
    reverse_names: Seq<(String, String)>,
    url_paths: Seq<(String, String)>,
    handler: int,
)
    requires
        forall|k: int|
            0 <= k < entry.callees@.len() ==> !((#[trigger] entry.callees@[k]).0 is RoutesTo),
    ensures
        ({
            let row = route_row(entry, pending, reverse_names, url_paths);
            &&& is_mount(entry) <==> entry.route.name@.contains('/')
            &&& row.template_name == "(no template)"@
            &&& 0 <= handler < pending.len() && pending[handler].route_id@ == entry.route.id@ && (
            forall|k: int|
                handler < k < pending.len() ==> (#[trigger] pending[k]).route_id@
                    != entry.route.id@) ==> row.view_name == "(unresolved: "@
                + pending[handler].reference@ + ")"@ && row.unbound == Some(
                unbound_entry(pending[handler]),
            )
            &&& (forall|k: int|
                0 <= k < pending.len() ==> (#[trigger] pending[k]).route_id@ != entry.route.id@)
                ==> row.view_name == "(unresolved)"@ && row.unbound is None
        }),
{
    lemma_first_of_kind(entry.callees@, EdgeKind::RoutesTo, 0);
    reveal_strlit("/");
    let name = entry.route.name@;
    if occurs(name, "/"@) {
        let at = choose|at: int| occurs_at(name, "/"@, at);
        assert(name.subrange(at, at + 1)[0] == name[at]);
        assert(name.contains('/'));
    }
    if name.contains('/') {
        let at = choose|at: int| 0 <= at < name.len() && name[at] == '/';
        assert(name.subrange(at, at + 1) =~= "/"@);
        assert(occurs_at(name, "/"@, at));
    }
    let routes = pending_routes(pending);
    assert(forall|k: int| 0 <= k < pending.len() ==> #[trigger] routes[k] == pending[k].route_id@);
    lemma_last_pending(routes, entry.route.id@, pending.len() as int, handler);
}

proof fn lemma_last_pending(routes: Seq<Seq<char>>, id: Seq<char>, count: int, at: int)
    requires
        0 <= count <= routes.len(),
    ensures
        0 <= at < count && routes[at] == id && (forall|k: int|
            at < k < count ==> #[trigger] routes[k] != id) ==> last_at(routes, id, count) == Some(
            at,
        ),
        (forall|k: int| 0 <= k < count ==> #[trigger] routes[k] != id) ==> last_at(
            routes,
            id,
            count,
        ) is None,
    decreases count,
{
    if count > 0 {
        lemma_last_pending(routes, id, count - 1, at);
    }
}

/// Every route that is an endpoint and matches has its row, in the order of where the routes are
/// declared; the mount points are counted, and nothing else is.
pub proof fn law_every_endpoint_has_its_row(
    routes: Seq<RouteEntry>,
    order: Seq<int>,
    pending: Seq<Pending>,
    reverse_names: Seq<(String, String)>,
    url_paths: Seq<(String, String)>,
    needle: Option<Seq<char>>,
    count: int,
)
    requires
        0 <= count <= order.len(),
    ensures
        ({
            let table = table_upto(
                routes,
                order,
                pending,
                reverse_names,
                url_paths,
                needle,
                count,
            );
            &&& table.mounts == numbers::indices(count, |i: int| is_mount(routes[order[i]])).len()
            &&& table.rows.len() == numbers::indices(
                count,
                |i: int|
                    !is_mount(routes[order[i]]) && row_matches(
                        route_row(routes[order[i]], pending, reverse_names, url_paths),
                        routes[order[i]].route.qualified_name@,
                        needle,
                    ),
            ).len()
            &&& forall|i: int|
                0 <= i < count && !is_mount(routes[#[trigger] order[i]]) && row_matches(
                    route_row(routes[order[i]], pending, reverse_names, url_paths),
                    routes[order[i]].route.qualified_name@,
                    needle,
                ) ==> table.rows.contains(
                    route_row(routes[order[i]], pending, reverse_names, url_paths),
                )
        }),
    decreases count,
{
    let mounted = |i: int| is_mount(routes[order[i]]);
    let shown = |i: int|
        !is_mount(routes[order[i]]) && row_matches(
            route_row(routes[order[i]], pending, reverse_names, url_paths),
            routes[order[i]].route.qualified_name@,
            needle,
        );
    lemma_indices(count, mounted);
    lemma_indices(count, shown);
    if count > 0 {
        law_every_endpoint_has_its_row(
            routes,
            order,
            pending,
            reverse_names,
            url_paths,
            needle,
            count - 1,
        );
        let before = table_upto(
            routes,
            order,
            pending,
            reverse_names,
            url_paths,
            needle,
            count - 1,
        );
        let table = table_upto(routes, order, pending, reverse_names, url_paths, needle, count);
        assert forall|i: int|
            0 <= i < count && !is_mount(routes[#[trigger] order[i]]) && row_matches(
                route_row(routes[order[i]], pending, reverse_names, url_paths),
                routes[order[i]].route.qualified_name@,
                needle,
            ) implies table.rows.contains(
            route_row(routes[order[i]], pending, reverse_names, url_paths),
        ) by {
            let row = route_row(routes[order[i]], pending, reverse_names, url_paths);
            if i < count - 1 {
                assert(before.rows.contains(row));
                let k = choose|k: int| 0 <= k < before.rows.len() && before.rows[k] == row;
                assert(table.rows[k] == row);
            } else {
                assert(table.rows[table.rows.len() - 1] == row);
            }
        }
    }
}

/// The routes of a project come by file, and in one file by line.
pub proof fn law_routes_come_where_they_are_declared(routes: Seq<RouteEntry>, a: int, b: int)
    requires
        0 <= a < b < routes.len(),
    ensures
        ({
            let order = route_order(routes);
            let (first, second) = (routes[order[a]].route, routes[order[b]].route);
            &&& !text_less(second.file_path@, first.file_path@)
            &&& first.file_path@ == second.file_path@ ==> first.span.start_line
                <= second.span.start_line
        }),
{
    let keys = routes.map_values(|entry: RouteEntry| route_key(entry));
    law_arranging_sorts(keys, a, b);
    let (left, right) = (keys[sorted_order(keys)[a]], keys[sorted_order(keys)[b]]);
    lemma_not_after(left, right);
    if left[0] == right[0] {
        lemma_not_after(left.skip(1), right.skip(1));
        assert(left.skip(1)[0] == left[1] && right.skip(1)[0] == right[1]);
    }
}

proof fn lemma_matching_files(files: Seq<FileRow>, needle: Seq<char>, count: int, at: int)
    requires
        0 <= count <= files.len() <= usize::MAX,
        0 <= at < files.len(),
    ensures
        matching_files(files, needle, count).contains(at as usize) <==> at < count && occurs(
            lowercased(files[at].path@),
            needle,
        ),
    decreases count,
{
    if count > 0 {
        lemma_matching_files(files, needle, count - 1, at);
        let before = matching_files(files, needle, count - 1);
        let after = matching_files(files, needle, count);
        if before.contains(at as usize) {
            let k = choose|k: int| 0 <= k < before.len() && before[k] == at as usize;
            assert(after[k] == at as usize);
        }
        if after.contains(at as usize) {
            let k = choose|k: int| 0 <= k < after.len() && after[k] == at as usize;
            if k < before.len() {
                assert(before[k] == at as usize);
            }
        }
        if at == count - 1 && occurs(
            lowercased(files[at].path@),
            needle,
        ) {
            assert(after[after.len() - 1] == at as usize);
        }
    }
}

/// A page of links reads twice as far as it shows, so that whole pairs come together, but no more
/// than may be read and never less than it shows.
pub proof fn law_a_page_of_links_reads_on(offset: int, limit: int)
    requires
        0 <= offset,
        0 <= limit <= LINKS_FETCH_MAX,
    ensures
        limit <= links_fetch_spec(offset, limit) <= LINKS_FETCH_MAX,
        2 * (offset + limit) <= LINKS_FETCH_MAX ==> links_fetch_spec(offset, limit) == 2 * (offset
            + limit),
        2 * (offset + limit) > LINKS_FETCH_MAX ==> links_fetch_spec(offset, limit)
            == LINKS_FETCH_MAX,
{
}

} // verus!
