use server_rendered_source::pages::{
    create_server_rendered_source_for_directory, create_server_rendered_source_for_file,
    ContentSource, DirectoryContent, DirectoryEntry, DirectorySource, JoinPath, PageSource,
};
use server_rendered_source::route::regular_expression_source;
use server_rendered_source::server::{
    create_server_rendered_source, ssr_renderer, CompileTarget, EntryType, EnvironmentIntention,
    ExecutionEnvironment, PagesLocation, PagesSearch, ServerRenderedSource,
};

type Entry = (String, DirectoryEntry<u32, char>);

fn file(name: &str, id: u32) -> Entry {
    (name.to_string(), DirectoryEntry::File(id))
}

fn directory(name: &str, id: char) -> Entry {
    (name.to_string(), DirectoryEntry::Directory(id))
}

fn steps(path: &JoinPath) -> Vec<&str> {
    path.steps.iter().map(|step| step.as_str()).collect()
}

fn page(source: &ContentSource<u32, char>) -> &PageSource<u32> {
    match source {
        ContentSource::Page(page) => page,
        ContentSource::Directory(_) => panic!("not a page"),
    }
}

fn sub(source: &ContentSource<u32, char>) -> &DirectorySource<char> {
    match source {
        ContentSource::Page(_) => panic!("not a directory"),
        ContentSource::Directory(directory) => directory,
    }
}

fn below(
    entries: Vec<Entry>,
    server_path: &JoinPath,
    output_path: &JoinPath,
) -> Vec<ContentSource<u32, char>> {
    let read: Result<DirectoryContent<u32, char>, String> = Ok(DirectoryContent::Entries(entries));
    create_server_rendered_source_for_directory(read, server_path, output_path)
        .unwrap()
        .sources
}

fn top(entries: Vec<Entry>) -> Vec<ContentSource<u32, char>> {
    below(entries, &JoinPath::start(), &JoinPath::start())
}

#[test]
fn joined_path() {
    let path = JoinPath::start().join("a").join("b/c");
    assert_eq!(steps(&path), vec!["a", "b/c"]);
    assert_eq!(steps(&path.copy()), vec!["a", "b/c"]);
    assert!(steps(&JoinPath::start()).is_empty());
}

#[test]
fn page_file() {
    let source = create_server_rendered_source_for_file(
        7u32,
        JoinPath::start().join("a").join("index.html"),
        JoinPath::start().join("a"),
    );
    assert_eq!(source.page_file, 7);
    assert_eq!(steps(&source.server_path), vec!["a", "index.html"]);
    assert_eq!(steps(&source.intermediate_output_path), vec!["a"]);
    assert_eq!(steps(&source.chunk_path), vec!["a", "chunks"]);
    assert!(!source.hot_module_replacement);
}

#[test]
fn index_page() {
    let sources = top(vec![file("index.tsx", 1)]);
    assert_eq!(sources.len(), 1);
    assert_eq!(page(&sources[0]).page_file, 1);
    assert_eq!(steps(&page(&sources[0]).server_path), vec!["index.html"]);
    assert!(steps(&page(&sources[0]).intermediate_output_path).is_empty());
    assert_eq!(steps(&page(&sources[0]).chunk_path), vec!["chunks"]);
}

#[test]
fn named_page() {
    let sources = top(vec![file("about.js", 1)]);
    assert_eq!(
        steps(&page(&sources[0]).server_path),
        vec!["about", "index.html"]
    );
    assert_eq!(
        steps(&page(&sources[0]).intermediate_output_path),
        vec!["about"]
    );
}

#[test]
fn page_extensions() {
    let sources = top(vec![
        file("a.js", 1),
        file("b.ts", 2),
        file("c.jsx", 3),
        file("d.tsx", 4),
        file("e.css", 5),
        file("f", 6),
        file("g.JS", 7),
        file("h.mjs", 8),
        file("i.d.ts", 9),
    ]);
    let files: Vec<u32> = sources.iter().map(|source| page(source).page_file).collect();
    assert_eq!(files, vec![1, 2, 3, 4, 9]);
    assert_eq!(
        steps(&page(&sources[4]).server_path),
        vec!["i.d", "index.html"]
    );
}

#[test]
fn nested_directories() {
    let sources = top(vec![
        file("index.js", 1),
        directory("blog", 'b'),
        ("link".to_string(), DirectoryEntry::Other),
        directory("empty.js", 'e'),
    ]);
    assert_eq!(sources.len(), 3);
    let blog = sub(&sources[1]);
    assert_eq!(blog.input_dir, 'b');
    assert_eq!(steps(&blog.server_path), vec!["blog"]);
    assert_eq!(steps(&blog.intermediate_output_path), vec!["blog"]);
    assert_eq!(sub(&sources[2]).input_dir, 'e');
    assert_eq!(steps(&sub(&sources[2]).server_path), vec!["empty.js"]);

    let inside = below(
        vec![
            file("[slug].js", 2),
            file("readme.md", 3),
            directory("drafts", 'd'),
        ],
        &blog.server_path,
        &blog.intermediate_output_path,
    );
    assert_eq!(inside.len(), 2);
    assert_eq!(page(&inside[0]).page_file, 2);
    assert_eq!(
        steps(&page(&inside[0]).server_path),
        vec!["blog", "[slug]", "index.html"]
    );
    assert_eq!(
        steps(&page(&inside[0]).chunk_path),
        vec!["blog", "[slug]", "chunks"]
    );
    assert_eq!(steps(&sub(&inside[1]).server_path), vec!["blog", "drafts"]);
}

#[test]
fn missing_directory_has_no_sources() {
    let read: Result<DirectoryContent<u32, char>, String> = Ok(DirectoryContent::NotFound);
    let combined =
        create_server_rendered_source_for_directory(read, &JoinPath::start(), &JoinPath::start());
    assert!(combined.unwrap().sources.is_empty());
}

#[test]
fn unreadable_directory_fails_alone() {
    let read: Result<DirectoryContent<u32, char>, String> = Err("denied".to_string());
    let combined =
        create_server_rendered_source_for_directory(read, &JoinPath::start(), &JoinPath::start());
    assert_eq!(combined.unwrap_err(), "denied");
    assert_eq!(top(vec![directory("denied", 'x'), file("a.js", 1)]).len(), 2);
}

#[test]
fn entries_do_not_disturb_each_other() {
    let both = top(vec![file("a.js", 1), file("b.css", 2), file("a.ts", 3)]);
    let first = top(vec![file("a.js", 1), file("b.css", 2)]);
    let second = top(vec![file("a.ts", 3)]);
    assert_eq!(both.len(), first.len() + second.len());
    assert_eq!(page(&both[0]).page_file, page(&first[0]).page_file);
    assert_eq!(page(&both[1]).page_file, page(&second[0]).page_file);
}

#[test]
fn each_page_file_is_served_once() {
    let sources = top(vec![
        file("a.js", 1),
        directory("d", 'd'),
        file("x.md", 2),
        directory("denied", 'x'),
        file("a.ts", 3),
    ]);
    let mut served = Vec::new();
    for source in &sources {
        match source {
            ContentSource::Page(page) => served.push(page.page_file),
            ContentSource::Directory(directory) if directory.input_dir == 'd' => {
                for inner in below(
                    vec![file("index.js", 4), file("b.jsx", 5)],
                    &directory.server_path,
                    &directory.intermediate_output_path,
                ) {
                    served.push(page(&inner).page_file);
                }
            }
            ContentSource::Directory(_) => {}
        }
    }
    assert_eq!(served, vec![1, 4, 5, 3]);
}

#[test]
fn page_is_served_like_index_of_sub_directory() {
    let named = top(vec![file("a.js", 1)]);
    let above = top(vec![directory("a", 'a')]);
    let inside = below(
        vec![file("index.tsx", 1)],
        &sub(&above[0]).server_path,
        &sub(&above[0]).intermediate_output_path,
    );
    assert_eq!(
        steps(&page(&named[0]).server_path),
        steps(&page(&inside[0]).server_path)
    );
    assert_eq!(
        steps(&page(&named[0]).chunk_path),
        steps(&page(&inside[0]).chunk_path)
    );
}

#[test]
fn pages_are_built_where_served() {
    let sources = below(
        vec![file("b.js", 1)],
        &JoinPath::start().join("s").join("a"),
        &JoinPath::start().join("o").join("p").join("a"),
    );
    let only = page(&sources[0]);
    assert_eq!(steps(&only.server_path), vec!["s", "a", "b", "index.html"]);
    assert_eq!(
        steps(&only.intermediate_output_path),
        vec!["o", "p", "a", "b"]
    );
    assert_eq!(steps(&only.chunk_path), vec!["o", "p", "a", "b", "chunks"]);
}

#[test]
fn pages_are_served_under_their_names() {
    let sources = top(vec![file("index.js", 1), directory("docs", 'd')]);
    let root = steps(&page(&sources[0]).server_path).join("/");
    assert_eq!(regular_expression_source(Some(&root)).unwrap(), "^index$");
    let docs = below(
        vec![file("[...slug].js", 2), file("[bad.js", 3)],
        &sub(&sources[1]).server_path,
        &sub(&sources[1]).intermediate_output_path,
    );
    let slug = steps(&page(&docs[0]).server_path).join("/");
    assert_eq!(
        regular_expression_source(Some(&slug)).unwrap(),
        "^docs/(?P<slug>[^?]+)$"
    );
    let bad = steps(&page(&docs[1]).server_path).join("/");
    assert_eq!(
        regular_expression_source(Some(&bad))
            .unwrap_err()
            .message("", ""),
        "path (docs/[bad) contains '[' without matching ']'"
    );
}

type Looked = Result<EntryType, String>;

fn locate(pages: Looked, src_pages: Looked) -> Result<PagesSearch, String> {
    let mut search = PagesSearch::start();
    while let PagesSearch::Look(location) = search {
        let there = match location {
            PagesLocation::Pages => pages.clone(),
            PagesLocation::SrcPages => src_pages.clone(),
        };
        search = PagesSearch::after(location, there)?;
    }
    Ok(search)
}

#[test]
fn pages_come_before_src_pages() {
    assert_eq!(PagesSearch::start(), PagesSearch::Look(PagesLocation::Pages));
    let pages = Ok(PagesSearch::Found(PagesLocation::Pages));
    assert_eq!(locate(Ok(EntryType::Directory), Ok(EntryType::Directory)), pages);
    assert_eq!(locate(Ok(EntryType::Directory), Ok(EntryType::NotFound)), pages);
    assert_eq!(
        locate(Ok(EntryType::NotFound), Ok(EntryType::Directory)),
        Ok(PagesSearch::Found(PagesLocation::SrcPages))
    );
    assert_eq!(locate(Ok(EntryType::NotFound), Ok(EntryType::NotFound)), Ok(PagesSearch::Missing));
    assert_eq!(
        locate(Ok(EntryType::File), Ok(EntryType::Other)),
        Ok(PagesSearch::Missing)
    );
    assert_eq!(PagesLocation::Pages.path(), "pages");
    assert_eq!(PagesLocation::SrcPages.path(), "src/pages");
}

#[test]
fn search_fails_only_on_what_it_looks_at() {
    let denied: Looked = Err("denied".to_string());
    assert_eq!(
        locate(Ok(EntryType::Directory), denied.clone()),
        Ok(PagesSearch::Found(PagesLocation::Pages))
    );
    assert_eq!(
        locate(Ok(EntryType::NotFound), denied.clone()),
        Err("denied".to_string())
    );
    assert_eq!(locate(denied, Ok(EntryType::Directory)), Err("denied".to_string()));
}

#[test]
fn project_without_pages() {
    let none: Option<char> = None;
    assert!(matches!(
        create_server_rendered_source(none),
        ServerRenderedSource::NoContent
    ));
}

#[test]
fn project_with_pages() {
    match create_server_rendered_source(Some('p')) {
        ServerRenderedSource::NoContent => panic!("no content"),
        ServerRenderedSource::Pages { context, source } => {
            assert_eq!(context.client_transition, "next-client");
            assert_eq!(
                context.environment,
                ExecutionEnvironment::NodeJsLambda {
                    compile_target: CompileTarget::Current,
                    node_version: 0,
                }
            );
            assert_eq!(context.intention, EnvironmentIntention::Client);
            assert_eq!(context.import_map_of, 'p');
            assert!(context.enable_typescript_transform);
            assert!(context.enable_typescript);
            assert!(context.enable_react);
            assert!(context.enable_node_modules);
            assert!(context.enable_node_native_modules);
            assert_eq!(context.custom_conditions, vec!["development".to_string()]);
            assert_eq!(source.input_dir, 'p');
            assert!(steps(&source.server_path).is_empty());
            assert!(steps(&source.intermediate_output_path).is_empty());
        }
    }
}

#[test]
fn renderer_of_pages() {
    let renderer = ssr_renderer();
    assert_eq!(renderer.file_name, "server-renderer.js");
    assert!(!renderer.react_refresh);
}
