//! What holds of the sources of pages, said of the names of files and of each
//! field of a source.
use crate::laws::lemma_cut_extension;
use crate::pages::{
    directory_sources, entry_source, entry_sources, is_page_extension, page_directory, page_name,
    page_source, CombinedContentSource, ContentSource, DirectoryContent, DirectoryEntry,
    DirectorySource, DirectoryView, JoinPath, PageSource, PageView, SourceView,
};
use crate::path_laws::law_cut_last;
use crate::text::cut_last;
use vstd::prelude::*;

verus! {

/// The extensions of pages are `js`, `ts`, `jsx` and `tsx`, and no others.
pub proof fn law_page_extensions(extension: Seq<char>)
    ensures
        is_page_extension(extension) <==> (extension == seq!['j', 's'] || extension == seq![
            't',
            's',
        ] || extension == seq!['j', 's', 'x'] || extension == seq!['t', 's', 'x']),
{
    reveal_strlit("js");
    reveal_strlit("ts");
    reveal_strlit("jsx");
    reveal_strlit("tsx");
    assert("js"@ =~= seq!['j', 's']);
    assert("ts"@ =~= seq!['t', 's']);
    assert("jsx"@ =~= seq!['j', 's', 'x']);
    assert("tsx"@ =~= seq!['t', 's', 'x']);
}

/// A file holds the page of a name exactly where it has this name, a dot, and
/// one of the four extensions of pages.
pub proof fn law_page_is_named_before_its_extension(file_name: Seq<char>, page: Seq<char>)
    ensures
        page_name(file_name) == Some(page) <==> (file_name == page + seq!['.', 'j', 's']
            || file_name == page + seq!['.', 't', 's'] || file_name == page + seq![
            '.',
            'j',
            's',
            'x',
        ] || file_name == page + seq!['.', 't', 's', 'x']),
{
    lemma_page_of_suffix(page, seq!['.', 'j', 's'], seq!['j', 's']);
    lemma_page_of_suffix(page, seq!['.', 't', 's'], seq!['t', 's']);
    lemma_page_of_suffix(page, seq!['.', 'j', 's', 'x'], seq!['j', 's', 'x']);
    lemma_page_of_suffix(page, seq!['.', 't', 's', 'x'], seq!['t', 's', 'x']);
    if page_name(file_name) == Some(page) {
        let (before, extension) = cut_last(file_name, '.')->0;
        law_cut_last(file_name, '.', before, extension);
        law_page_extensions(extension);
        assert(file_name =~= page + (seq!['.'] + extension));
        assert(seq!['.'] + seq!['j', 's'] =~= seq!['.', 'j', 's']);
        assert(seq!['.'] + seq!['t', 's'] =~= seq!['.', 't', 's']);
        assert(seq!['.'] + seq!['j', 's', 'x'] =~= seq!['.', 'j', 's', 'x']);
        assert(seq!['.'] + seq!['t', 's', 'x'] =~= seq!['.', 't', 's', 'x']);
    }
}

/// The page of a file whose name ends in a dot and one of the four extensions.
proof fn lemma_page_of_suffix(page: Seq<char>, suffix: Seq<char>, extension: Seq<char>)
    requires
        suffix =~= seq!['.'] + extension,
        extension == seq!['j', 's'] || extension == seq!['t', 's'] || extension == seq![
            'j',
            's',
            'x',
        ] || extension == seq!['t', 's', 'x'],
    ensures
        page_name(page + suffix) == Some(page),
{
    assert(page + suffix =~= page + seq!['.'] + extension);
    assert(!extension.contains('.'));
    lemma_cut_extension(page, extension);
    law_page_extensions(extension);
}

/// A file has a source exactly where its name ends in `.js`, `.ts`, `.jsx` or
/// `.tsx`.
pub proof fn law_only_four_kinds_of_files_have_sources<F, D>(
    file_name: Seq<char>,
    page_file: F,
    server_path: Seq<Seq<char>>,
    intermediate_output_path: Seq<Seq<char>>,
)
    ensures
        ({
            let n = file_name.len() as int;
            entry_source(
                file_name,
                DirectoryEntry::<F, D>::File(page_file),
                server_path,
                intermediate_output_path,
            ) is Some <==> {
                ||| n >= 3 && file_name.skip(n - 3) == seq!['.', 'j', 's']
                ||| n >= 3 && file_name.skip(n - 3) == seq!['.', 't', 's']
                ||| n >= 4 && file_name.skip(n - 4) == seq!['.', 'j', 's', 'x']
                ||| n >= 4 && file_name.skip(n - 4) == seq!['.', 't', 's', 'x']
            }
        }),
{
    let n = file_name.len() as int;
    if n >= 3 {
        assert(file_name =~= file_name.take(n - 3) + file_name.skip(n - 3));
        law_page_is_named_before_its_extension(file_name, file_name.take(n - 3));
    }
    if n >= 4 {
        assert(file_name =~= file_name.take(n - 4) + file_name.skip(n - 4));
        law_page_is_named_before_its_extension(file_name, file_name.take(n - 4));
    }
    if let Some(page) = page_name(file_name) {
        law_page_is_named_before_its_extension(file_name, page);
        let suffix = file_name.skip(page.len() as int);
        if file_name == page + seq!['.', 'j', 's'] {
            assert(suffix =~= seq!['.', 'j', 's']);
        } else if file_name == page + seq!['.', 't', 's'] {
            assert(suffix =~= seq!['.', 't', 's']);
        } else if file_name == page + seq!['.', 'j', 's', 'x'] {
            assert(suffix =~= seq!['.', 'j', 's', 'x']);
        } else {
            assert(suffix =~= seq!['.', 't', 's', 'x']);
        }
    }
}

/// The source of a page keeps the file and both paths as they are given,
/// whatever they are. Its chunks go one step below where its intermediate files
/// go, to `chunks`, and are not replaced while the page runs.
pub proof fn law_page_source_keeps_file_and_paths<F>(
    page_file: F,
    server_path: Seq<Seq<char>>,
    intermediate_output_path: Seq<Seq<char>>,
)
    ensures
        ({
            let source = page_source(page_file, server_path, intermediate_output_path);
            &&& source.page_file == page_file
            &&& source.server_path == server_path
            &&& source.intermediate_output_path == intermediate_output_path
            &&& source.chunk_path.len() == intermediate_output_path.len() + 1
            &&& source.chunk_path.drop_last() == intermediate_output_path
            &&& source.chunk_path.last() == seq!['c', 'h', 'u', 'n', 'k', 's']
            &&& !source.hot_module_replacement
        }),
{
    reveal_strlit("chunks");
    let source = page_source(page_file, server_path, intermediate_output_path);
    assert(source.chunk_path.drop_last() =~= intermediate_output_path);
    assert("chunks"@ =~= seq!['c', 'h', 'u', 'n', 'k', 's']);
}

/// A page is served as `index.html`: the page `index` in the directory that it
/// is found in, any other in a directory of its own name. It is built in the
/// same directory, and its chunks in one more, `chunks`.
pub proof fn law_source_of_a_page<F, D>(
    page: Seq<char>,
    suffix: Seq<char>,
    page_file: F,
    server_path: Seq<Seq<char>>,
    intermediate_output_path: Seq<Seq<char>>,
)
    requires
        suffix == seq!['.', 'j', 's'] || suffix == seq!['.', 't', 's'] || suffix == seq![
            '.',
            'j',
            's',
            'x',
        ] || suffix == seq!['.', 't', 's', 'x'],
    ensures
        ({
            let entry = DirectoryEntry::<F, D>::File(page_file);
            let own = if page == seq!['i', 'n', 'd', 'e', 'x'] {
                Seq::<Seq<char>>::empty()
            } else {
                seq![page]
            };
            entry_source(page + suffix, entry, server_path, intermediate_output_path) == Some(
                SourceView::<F, D>::Page(
                    PageView {
                        page_file,
                        server_path: server_path + own + seq![
                            seq!['i', 'n', 'd', 'e', 'x', '.', 'h', 't', 'm', 'l'],
                        ],
                        intermediate_output_path: intermediate_output_path + own,
                        chunk_path: intermediate_output_path + own + seq![
                            seq!['c', 'h', 'u', 'n', 'k', 's'],
                        ],
                        hot_module_replacement: false,
                    },
                ),
            )
        }),
{
    law_page_is_named_before_its_extension(page + suffix, page);
    reveal_strlit("index");
    reveal_strlit("index.html");
    reveal_strlit("chunks");
    assert("index"@ =~= seq!['i', 'n', 'd', 'e', 'x']);
    assert("index.html"@ =~= seq!['i', 'n', 'd', 'e', 'x', '.', 'h', 't', 'm', 'l']);
    assert("chunks"@ =~= seq!['c', 'h', 'u', 'n', 'k', 's']);
    let own = if page == "index"@ {
        Seq::<Seq<char>>::empty()
    } else {
        seq![page]
    };
    assert(page_directory(server_path, page) =~= server_path + own);
    assert(page_directory(intermediate_output_path, page) =~= intermediate_output_path + own);
    assert(page_directory(server_path, page).push("index.html"@) =~= server_path + own + seq![
        "index.html"@,
    ]);
    assert(page_directory(intermediate_output_path, page).push("chunks"@)
        =~= intermediate_output_path + own + seq!["chunks"@]);
}

/// A directory is a source under its name, in both paths, and is itself what is
/// still to be read. What is neither a file nor a directory has no source.
pub proof fn law_sources_of_other_entries<F, D>(
    name: Seq<char>,
    input_dir: D,
    server_path: Seq<Seq<char>>,
    intermediate_output_path: Seq<Seq<char>>,
)
    ensures
        entry_source(
            name,
            DirectoryEntry::<F, D>::Directory(input_dir),
            server_path,
            intermediate_output_path,
        ) == Some(
            SourceView::<F, D>::Directory(
                DirectoryView {
                    input_dir,
                    server_path: server_path + seq![name],
                    intermediate_output_path: intermediate_output_path + seq![name],
                },
            ),
        ),
        entry_source(
            name,
            DirectoryEntry::<F, D>::Other,
            server_path,
            intermediate_output_path,
        ) is None,
{
    assert(server_path + seq![name] =~= server_path.push(name));
    assert(intermediate_output_path + seq![name] =~= intermediate_output_path.push(name));
}

/// The sources of entries are those of the entries before the last, and then
/// that of the last, if it has one. There are none without entries.
pub proof fn law_sources_grow_by_entries<F, D>(
    entries: Seq<(String, DirectoryEntry<F, D>)>,
    last: (String, DirectoryEntry<F, D>),
    server_path: Seq<Seq<char>>,
    intermediate_output_path: Seq<Seq<char>>,
)
    ensures
        entry_sources(
            Seq::<(String, DirectoryEntry<F, D>)>::empty(),
            server_path,
            intermediate_output_path,
        ) == Seq::<SourceView<F, D>>::empty(),
        entry_sources(entries.push(last), server_path, intermediate_output_path) == match (
        entry_source(last.0@, last.1, server_path, intermediate_output_path)) {
            Some(source) => entry_sources(entries, server_path, intermediate_output_path) + seq![
                source,
            ],
            None => entry_sources(entries, server_path, intermediate_output_path),
        },
{
    let all = entries.push(last);
    assert(all.drop_last() =~= entries);
    assert(all.last() == last);
    let before = entry_sources(entries, server_path, intermediate_output_path);
    if let Some(source) = entry_source(last.0@, last.1, server_path, intermediate_output_path) {
        assert(before.push(source) =~= before + seq![source]);
    }
}

/// A directory has the sources of its entries, all of them; one that is not
/// there has none.
pub proof fn law_sources_of_a_directory<F, D>(
    entries: Vec<(String, DirectoryEntry<F, D>)>,
    server_path: Seq<Seq<char>>,
    intermediate_output_path: Seq<Seq<char>>,
)
    ensures
        directory_sources(
            DirectoryContent::Entries(entries),
            server_path,
            intermediate_output_path,
        ) == entry_sources(entries@, server_path, intermediate_output_path),
        directory_sources(
            DirectoryContent::<F, D>::NotFound,
            server_path,
            intermediate_output_path,
        ) == Seq::<SourceView<F, D>>::empty(),
{
}

/// The view of a path has the text of each step, in order.
pub proof fn law_view_of_a_path(path: JoinPath)
    ensures
        path@.len() == path.steps@.len(),
        forall|i: int| 0 <= i < path.steps@.len() ==> #[trigger] path@[i] == path.steps@[i]@,
{
}

/// The view of a source shows each of its fields, and that of combined sources
/// each source, in order.
pub proof fn law_views_of_sources<F, D>(
    page: PageSource<F>,
    directory: DirectorySource<D>,
    combined: CombinedContentSource<F, D>,
)
    ensures
        page@.page_file == page.page_file,
        page@.server_path == page.server_path@,
        page@.intermediate_output_path == page.intermediate_output_path@,
        page@.chunk_path == page.chunk_path@,
        page@.hot_module_replacement == page.hot_module_replacement,
        directory@.input_dir == directory.input_dir,
        directory@.server_path == directory.server_path@,
        directory@.intermediate_output_path == directory.intermediate_output_path@,
        ContentSource::<F, D>::Page(page)@ == SourceView::<F, D>::Page(page@),
        ContentSource::<F, D>::Directory(directory)@ == SourceView::<F, D>::Directory(directory@),
        combined@.len() == combined.sources@.len(),
        forall|i: int|
            0 <= i < combined.sources@.len() ==> #[trigger] combined@[i] == combined.sources@[i]@,
{
}

} // verus!
