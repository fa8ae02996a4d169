//! The sources that serve a directory of pages.
use crate::text::{cut_last, rsplit_once, same_text};
use vstd::prelude::*;

verus! {

/// A path, written as the texts that are joined one by one onto a starting
/// point.
#[derive(Debug)]
pub struct JoinPath {
    pub steps: Vec<String>,
}

impl View for JoinPath {
    type V = Seq<Seq<char>>;

    open spec fn view(&self) -> Seq<Seq<char>> {
        self.steps@.map_values(|step: String| step@)
    }
}

impl JoinPath {
    /// The starting point itself.
    pub fn start() -> (path: JoinPath)
        ensures
            path@ == Seq::<Seq<char>>::empty(),
            path.steps@.len() == 0,
    {
        let path = JoinPath { steps: Vec::new() };
        assert(path@ =~= Seq::empty());
        path
    }

    /// The same path once more.
    pub fn copy(&self) -> (path: JoinPath)
        ensures
            path@ == self@,
            path.steps@ == self.steps@,
    {
        let mut steps: Vec<String> = Vec::new();
        for i in 0..self.steps.len()
            invariant
                steps@ == self.steps@.take(i as int),
        {
            steps.push(self.steps[i].clone());
            assert(steps@ =~= self.steps@.take(i + 1));
        }
        assert(steps@ =~= self.steps@);
        JoinPath { steps }
    }

    /// The path with one more text joined onto it.
    pub fn join(&self, step: &str) -> (path: JoinPath)
        ensures
            path@ == self@.push(step@),
            path.steps@.len() == self.steps@.len() + 1,
            path.steps@.drop_last() == self.steps@,
            path.steps@.last()@ == step@,
    {
        let mut path = self.copy();
        let ghost before = path@;
        path.steps.push(step.to_owned());
        assert(path.steps@.drop_last() =~= self.steps@);
        assert(path@ =~= before.push(step@));
        path
    }
}

/// What a directory holds, each entry under its name.
#[derive(Debug)]
pub enum DirectoryContent<F, D> {
    /// The entries, in the order in which they were listed.
    Entries(Vec<(String, DirectoryEntry<F, D>)>),
    /// There is no such directory.
    NotFound,
}

/// An entry of a directory.
#[derive(Debug)]
pub enum DirectoryEntry<F, D> {
    /// A file, known to the caller as `F`.
    File(F),
    /// A directory, known to the caller as `D`.
    Directory(D),
    /// Anything else.
    Other,
}

/// A page, and where it is served and built.
#[derive(Debug)]
pub struct PageSource<F> {
    /// The file that holds the page.
    pub page_file: F,
    /// Where the page is served, from the server root.
    pub server_path: JoinPath,
    /// Where intermediate files of the page go, from the output directory.
    pub intermediate_output_path: JoinPath,
    /// Where the chunks of the page go, from the output directory.
    pub chunk_path: JoinPath,
    /// Whether the chunks can be replaced while the page runs.
    pub hot_module_replacement: bool,
}

/// A directory that is still to be read, and where the pages in it are served
/// and built.
#[derive(Debug)]
pub struct DirectorySource<D> {
    /// The directory.
    pub input_dir: D,
    /// Where the directory is served, from the server root.
    pub server_path: JoinPath,
    /// Where intermediate files of its pages go, from the output directory.
    pub intermediate_output_path: JoinPath,
}

/// A source of content.
#[derive(Debug)]
pub enum ContentSource<F, D> {
    /// One page.
    Page(PageSource<F>),
    /// What comes of a directory once it is read.
    Directory(DirectorySource<D>),
}

/// Sources of content, side by side.
#[derive(Debug)]
pub struct CombinedContentSource<F, D> {
    pub sources: Vec<ContentSource<F, D>>,
}

/// What a `PageSource` holds.
pub struct PageView<F> {
    pub page_file: F,
    pub server_path: Seq<Seq<char>>,
    pub intermediate_output_path: Seq<Seq<char>>,
    pub chunk_path: Seq<Seq<char>>,
    pub hot_module_replacement: bool,
}

/// What a `DirectorySource` holds.
pub struct DirectoryView<D> {
    pub input_dir: D,
    pub server_path: Seq<Seq<char>>,
    pub intermediate_output_path: Seq<Seq<char>>,
}

/// What a `ContentSource` holds.
pub enum SourceView<F, D> {
    Page(PageView<F>),
    Directory(DirectoryView<D>),
}

impl<F> View for PageSource<F> {
    type V = PageView<F>;

    open spec fn view(&self) -> PageView<F> {
        PageView {
            page_file: self.page_file,
            server_path: self.server_path@,
            intermediate_output_path: self.intermediate_output_path@,
            chunk_path: self.chunk_path@,
            hot_module_replacement: self.hot_module_replacement,
        }
    }
}

impl<D> View for DirectorySource<D> {
    type V = DirectoryView<D>;

    open spec fn view(&self) -> DirectoryView<D> {
        DirectoryView {
            input_dir: self.input_dir,
            server_path: self.server_path@,
            intermediate_output_path: self.intermediate_output_path@,
        }
    }
}

impl<F, D> View for ContentSource<F, D> {
    type V = SourceView<F, D>;

    open spec fn view(&self) -> SourceView<F, D> {
        match self {
            ContentSource::Page(page) => SourceView::Page(page@),
            ContentSource::Directory(directory) => SourceView::Directory(directory@),
        }
    }
}

impl<F, D> View for CombinedContentSource<F, D> {
    type V = Seq<SourceView<F, D>>;

    open spec fn view(&self) -> Seq<SourceView<F, D>> {
        self.sources@.map_values(|source: ContentSource<F, D>| source@)
    }
}

/// Whether a file with this extension is a page.
pub open spec fn is_page_extension(extension: Seq<char>) -> bool {
    ||| extension == "js"@
    ||| extension == "ts"@
    ||| extension == "jsx"@
    ||| extension == "tsx"@
}

/// The name of the page that a file holds, from the name of the file; `None`
/// where the file is no page.
pub open spec fn page_name(file_name: Seq<char>) -> Option<Seq<char>> {
    match cut_last(file_name, '.') {
        Some((name, extension)) => if is_page_extension(extension) {
            Some(name)
        } else {
            None
        },
        None => None,
    }
}

/// The directory, from the one that a page is in, that belongs to the page: an
/// index page has the directory itself, any other page one of its own name.
pub open spec fn page_directory(directory: Seq<Seq<char>>, name: Seq<char>) -> Seq<Seq<char>> {
    if name == "index"@ {
        directory
    } else {
        directory.push(name)
    }
}

/// The source of a page that is served at `server_path`.
pub open spec fn page_source<F>(
    page_file: F,
    server_path: Seq<Seq<char>>,
    intermediate_output_path: Seq<Seq<char>>,
) -> PageView<F> {
    PageView {
        page_file,
        server_path,
        intermediate_output_path,
        chunk_path: intermediate_output_path.push("chunks"@),
        hot_module_replacement: false,
    }
}

/// The source of an entry under its name, in a directory that is served at
/// `server_path`: a page for a file that is one, the directory itself for a
/// directory, and none otherwise.
pub open spec fn entry_source<F, D>(
    name: Seq<char>,
    entry: DirectoryEntry<F, D>,
    server_path: Seq<Seq<char>>,
    intermediate_output_path: Seq<Seq<char>>,
) -> Option<SourceView<F, D>> {
    match entry {
        DirectoryEntry::File(page_file) => match page_name(name) {
            Some(page) => Some(
                SourceView::Page(
                    page_source(
                        page_file,
                        page_directory(server_path, page).push("index.html"@),
                        page_directory(intermediate_output_path, page),
                    ),
                ),
            ),
            None => None,
        },
        DirectoryEntry::Directory(input_dir) => Some(
            SourceView::Directory(
                DirectoryView {
                    input_dir,
                    server_path: server_path.push(name),
                    intermediate_output_path: intermediate_output_path.push(name),
                },
            ),
        ),
        DirectoryEntry::Other => None,
    }
}

/// The sources of the entries, in order.
pub open spec fn entry_sources<F, D>(
    entries: Seq<(String, DirectoryEntry<F, D>)>,
    server_path: Seq<Seq<char>>,
    intermediate_output_path: Seq<Seq<char>>,
) -> Seq<SourceView<F, D>>
    decreases entries.len(),
{
    if entries.len() == 0 {
        Seq::empty()
    } else {
        let before = entry_sources(entries.drop_last(), server_path, intermediate_output_path);
        let (name, entry) = entries.last();
        match entry_source(name@, entry, server_path, intermediate_output_path) {
            Some(source) => before.push(source),
            None => before,
        }
    }
}

/// The sources of a directory.
pub open spec fn directory_sources<F, D>(
    content: DirectoryContent<F, D>,
    server_path: Seq<Seq<char>>,
    intermediate_output_path: Seq<Seq<char>>,
) -> Seq<SourceView<F, D>> {
    match content {
        DirectoryContent::Entries(entries) => entry_sources(
            entries@,
            server_path,
            intermediate_output_path,
        ),
        DirectoryContent::NotFound => Seq::empty(),
    }
}

/// Whether a file with this extension is a page.
fn has_page_extension(extension: &str) -> (page: bool)
    ensures
        page == is_page_extension(extension@),
        page <==> (extension@ == "js"@ || extension@ == "ts"@ || extension@ == "jsx"@ || extension@
            == "tsx"@),
{
    same_text(extension, "js") || same_text(extension, "ts") || same_text(extension, "jsx")
        || same_text(extension, "tsx")
}

/// Handles a single page file in the pages directory.
pub fn create_server_rendered_source_for_file<F>(
    page_file: F,
    server_path: JoinPath,
    intermediate_output_path: JoinPath,
) -> (source: PageSource<F>)
    ensures
        source@ == page_source(page_file, server_path@, intermediate_output_path@),
        source.page_file == page_file,
        source.server_path == server_path,
        source.intermediate_output_path == intermediate_output_path,
        source.chunk_path.steps@.len() == intermediate_output_path.steps@.len() + 1,
        source.chunk_path.steps@.drop_last() == intermediate_output_path.steps@,
        source.chunk_path.steps@.last()@ == "chunks"@,
        !source.hot_module_replacement,
{
    let chunk_path = intermediate_output_path.join("chunks");
    PageSource {
        page_file,
        server_path,
        intermediate_output_path,
        chunk_path,
        hot_module_replacement: false,
    }
}

/// Handles one entry of a directory: a page for a file that is one, and the
/// directory, still to be read, for a directory.
fn create_server_rendered_source_for_entry<F: Copy, D: Copy>(
    name: &str,
    entry: &DirectoryEntry<F, D>,
    server_path: &JoinPath,
    intermediate_output_path: &JoinPath,
) -> (source: Option<ContentSource<F, D>>)
    ensures
        match entry_source(name@, *entry, server_path@, intermediate_output_path@) {
            Some(view) => source matches Some(content) && content@ == view,
            None => source is None,
        },
{
    match entry {
        DirectoryEntry::File(file) => {
            if let Some((page, extension)) = rsplit_once(name, '.') {
                if has_page_extension(extension) {
                    let (dev_server_path, page_output_path) = if same_text(page, "index") {
                        (server_path.join("index.html"), intermediate_output_path.copy())
                    } else {
                        (
                            server_path.join(page).join("index.html"),
                            intermediate_output_path.join(page),
                        )
                    };
                    return Some(
                        ContentSource::Page(
                            create_server_rendered_source_for_file(
                                *file,
                                dev_server_path,
                                page_output_path,
                            ),
                        ),
                    );
                }
            }
            None
        },
        DirectoryEntry::Directory(input_dir) => Some(
            ContentSource::Directory(
                DirectorySource {
                    input_dir: *input_dir,
                    server_path: server_path.join(name),
                    intermediate_output_path: intermediate_output_path.join(name),
                },
            ),
        ),
        DirectoryEntry::Other => None,
    }
}

/// Handles a directory in the pages directory (or the pages directory itself),
/// given what came of reading it. Sub directories become sources that are still
/// to be read, to be handled in the same way; for files it calls
/// [create_server_rendered_source_for_file].
///
/// Only where this directory could not be read is there an error, and it is the
/// one that reading it gave.
pub fn create_server_rendered_source_for_directory<F: Copy, D: Copy, E>(
    read: Result<DirectoryContent<F, D>, E>,
    server_path: &JoinPath,
    intermediate_output_path: &JoinPath,
) -> (combined: Result<CombinedContentSource<F, D>, E>)
    ensures
        match read {
            Ok(content) => combined matches Ok(source) && source@ == directory_sources(
                content,
                server_path@,
                intermediate_output_path@,
            ),
            Err(error) => combined == Err::<CombinedContentSource<F, D>, E>(error),
        },
{
    let content: DirectoryContent<F, D> = match read {
        Ok(content) => content,
        Err(error) => return Err(error),
    };
    let mut combined: CombinedContentSource<F, D> = CombinedContentSource { sources: Vec::new() };
    assert(combined@ =~= Seq::empty());
    if let DirectoryContent::Entries(entries) = &content {
        for i in 0..entries.len()
            invariant
                combined@ == entry_sources(
                    entries@.take(i as int),
                    server_path@,
                    intermediate_output_path@,
                ),
        {
            assert(entries@.take(i + 1).drop_last() =~= entries@.take(i as int));
            let (name, entry) = &entries[i];
            if let Some(source) = create_server_rendered_source_for_entry(
                name.as_str(),
                entry,
                server_path,
                intermediate_output_path,
            ) {
                let ghost before = combined@;
                let ghost view = source@;
                combined.sources.push(source);
                assert(combined@ =~= before.push(view));
            }
        }
        assert(entries@.take(entries@.len() as int) =~= entries@);
    }
    Ok(combined)
}

} // verus!
