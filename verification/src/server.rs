//! The source that serves a project: where its pages are, and how they are
//! compiled and rendered.
use crate::pages::{DirectorySource, DirectoryView, JoinPath};
use vstd::prelude::*;

verus! {

/// Where in a project the pages can be.
#[derive(Debug, Clone, Copy, PartialEq, Eq, Structural)]
pub enum PagesLocation {
    Pages,
    SrcPages,
}

/// The path of the pages in a project.
pub open spec fn location_path(location: PagesLocation) -> Seq<char> {
    match location {
        PagesLocation::Pages => "pages"@,
        PagesLocation::SrcPages => "src/pages"@,
    }
}

impl PagesLocation {
    /// What to join onto the path of the project.
    pub fn path(&self) -> (path: String)
        ensures
            path@ == location_path(*self),
            self is Pages ==> path@ == "pages"@,
            self is SrcPages ==> path@ == "src/pages"@,
    {
        match self {
            PagesLocation::Pages => "pages".to_owned(),
            PagesLocation::SrcPages => "src/pages".to_owned(),
        }
    }
}

/// How far the search for the pages of a project has come.
#[derive(Debug, Clone, Copy, PartialEq, Eq, Structural)]
pub enum PagesSearch {
    /// It is to be seen whether there is a directory at this location.
    Look(PagesLocation),
    /// The pages are at this location.
    Found(PagesLocation),
    /// The project has no pages.
    Missing,
}

/// What there can be at a location.
#[derive(Debug, Clone, Copy, PartialEq, Eq, Structural)]
pub enum EntryType {
    NotFound,
    File,
    Directory,
    Other,
}

/// The step after a look at a location: only a directory can hold the pages.
pub open spec fn search_step(location: PagesLocation, there: EntryType) -> PagesSearch {
    if there is Directory {
        PagesSearch::Found(location)
    } else {
        match location {
            PagesLocation::Pages => PagesSearch::Look(PagesLocation::SrcPages),
            PagesLocation::SrcPages => PagesSearch::Missing,
        }
    }
}

/// Where a search leads, given what comes of reading what there is at a
/// location. It ends with the first error in reading.
pub open spec fn search<E>(
    state: PagesSearch,
    reads: spec_fn(PagesLocation) -> Result<EntryType, E>,
) -> Result<PagesSearch, E>
    decreases
            match state {
                PagesSearch::Look(PagesLocation::Pages) => 2int,
                PagesSearch::Look(PagesLocation::SrcPages) => 1,
                _ => 0,
            },
{
    match state {
        PagesSearch::Look(location) => match reads(location) {
            Ok(there) => search(search_step(location, there), reads),
            Err(error) => Err(error),
        },
        _ => Ok(state),
    }
}

impl PagesSearch {
    /// The first step of a search.
    pub fn start() -> (first: PagesSearch)
        ensures
            first == PagesSearch::Look(PagesLocation::Pages),
    {
        PagesSearch::Look(PagesLocation::Pages)
    }

    /// The step after a look at a location, given what is there, or why that
    /// could not be read.
    pub fn after<E>(location: PagesLocation, there: Result<EntryType, E>) -> (next: Result<
        PagesSearch,
        E,
    >)
        ensures
            next == match there {
                Ok(there) => Ok(search_step(location, there)),
                Err(error) => Err(error),
            },
            match (there, location) {
                (Ok(EntryType::Directory), _) => next == Ok::<PagesSearch, E>(
                    PagesSearch::Found(location),
                ),
                (Ok(_), PagesLocation::Pages) => next == Ok::<PagesSearch, E>(
                    PagesSearch::Look(PagesLocation::SrcPages),
                ),
                (Ok(_), PagesLocation::SrcPages) => next == Ok::<PagesSearch, E>(
                    PagesSearch::Missing,
                ),
                (Err(error), _) => next == Err::<PagesSearch, E>(error),
            },
    {
        match there {
            Ok(EntryType::Directory) => Ok(PagesSearch::Found(location)),
            Ok(_) => match location {
                PagesLocation::Pages => Ok(PagesSearch::Look(PagesLocation::SrcPages)),
                PagesLocation::SrcPages => Ok(PagesSearch::Missing),
            },
            Err(error) => Err(error),
        }
    }
}

/// The two locations are `pages`, and `pages` in `src`.
pub proof fn law_locations_of_pages(location: PagesLocation)
    ensures
        location_path(location) == if location is SrcPages {
            seq!['s', 'r', 'c', '/', 'p', 'a', 'g', 'e', 's']
        } else {
            seq!['p', 'a', 'g', 'e', 's']
        },
{
    reveal_strlit("pages");
    reveal_strlit("src/pages");
    assert("pages"@ =~= seq!['p', 'a', 'g', 'e', 's']);
    assert("src/pages"@ =~= seq!['s', 'r', 'c', '/', 'p', 'a', 'g', 'e', 's']);
}

/// A search finds `pages` where that is a directory, else `src/pages` where
/// that is one, and else nothing. It fails only where it could not be read what
/// `pages` is, or, if that is no directory, what `src/pages` is.
pub proof fn law_pages_come_before_src_pages<E>(
    reads: spec_fn(PagesLocation) -> Result<EntryType, E>,
)
    ensures
        search(PagesSearch::Look(PagesLocation::Pages), reads) == match reads(
            PagesLocation::Pages,
        ) {
            Err(error) => Err(error),
            Ok(EntryType::Directory) => Ok(PagesSearch::Found(PagesLocation::Pages)),
            Ok(_) => match reads(PagesLocation::SrcPages) {
                Err(error) => Err(error),
                Ok(EntryType::Directory) => Ok(PagesSearch::Found(PagesLocation::SrcPages)),
                Ok(_) => Ok(PagesSearch::Missing),
            },
        },
{
    reveal_with_fuel(search, 3);
}

/// The machine that code is compiled for.
#[derive(Debug, Clone, Copy, PartialEq, Eq, Structural)]
pub enum CompileTarget {
    /// The one that this code runs on.
    Current,
}

/// Where the modules of the server run.
#[derive(Debug, Clone, Copy, PartialEq, Eq, Structural)]
pub enum ExecutionEnvironment {
    /// A lambda of node.js.
    NodeJsLambda { compile_target: CompileTarget, node_version: u32 },
}

/// What the modules of the server are run for.
#[derive(Debug, Clone, Copy, PartialEq, Eq, Structural)]
pub enum EnvironmentIntention {
    /// To render what the client shows.
    Client,
}

/// How the modules of the server are resolved and compiled. Options that it
/// does not hold have their defaults.
#[derive(Debug)]
pub struct ServerContext<D> {
    /// The name under which a module of the server reaches the client.
    pub client_transition: String,
    pub environment: ExecutionEnvironment,
    pub intention: EnvironmentIntention,
    pub enable_typescript_transform: bool,
    pub enable_typescript: bool,
    pub enable_react: bool,
    pub enable_node_modules: bool,
    pub enable_node_native_modules: bool,
    pub custom_conditions: Vec<String>,
    /// The directory of pages whose import map is used.
    pub import_map_of: D,
}

/// The module that renders a page on the server.
#[derive(Debug)]
pub struct RendererModule {
    /// What to join onto the path of the page.
    pub file_name: String,
    /// Whether the React transform keeps the state of components on a change.
    pub react_refresh: bool,
}

/// Whether `context` is the one that all pages of a directory are compiled in.
pub open spec fn is_server_context<D>(context: ServerContext<D>, pages_dir: D) -> bool {
    &&& context.client_transition@ == "next-client"@
    &&& context.environment == (ExecutionEnvironment::NodeJsLambda {
        compile_target: CompileTarget::Current,
        node_version: 0,
    })
    &&& context.intention == EnvironmentIntention::Client
    &&& context.enable_typescript_transform
    &&& context.enable_typescript
    &&& context.enable_react
    &&& context.enable_node_modules
    &&& context.enable_node_native_modules
    &&& context.custom_conditions@.len() == 1
    &&& context.custom_conditions@[0]@ == "development"@
    &&& context.import_map_of == pages_dir
}

/// Whether `renderer` is the one that renders all pages.
pub open spec fn is_ssr_renderer(renderer: RendererModule) -> bool {
    &&& renderer.file_name@ == "server-renderer.js"@
    &&& !renderer.react_refresh
}

/// The context that all pages of a directory are compiled in.
fn server_context<D>(pages_dir: D) -> (context: ServerContext<D>)
    ensures
        is_server_context(context, pages_dir),
{
    let mut custom_conditions: Vec<String> = Vec::new();
    custom_conditions.push("development".to_owned());
    ServerContext {
        client_transition: "next-client".to_owned(),
        environment: ExecutionEnvironment::NodeJsLambda {
            compile_target: CompileTarget::Current,
            node_version: 0,
        },
        intention: EnvironmentIntention::Client,
        enable_typescript_transform: true,
        enable_typescript: true,
        enable_react: true,
        enable_node_modules: true,
        enable_node_native_modules: true,
        custom_conditions,
        import_map_of: pages_dir,
    }
}

/// The node.js renderer for SSR of pages.
pub fn ssr_renderer() -> (renderer: RendererModule)
    ensures
        is_ssr_renderer(renderer),
        renderer.file_name@ == "server-renderer.js"@,
        !renderer.react_refresh,
{
    RendererModule {
        file_name: "server-renderer.js".to_owned(),
        react_refresh: false,
    }
}

/// What serves a project.
#[derive(Debug)]
pub enum ServerRenderedSource<D> {
    /// The project has no pages.
    NoContent,
    /// The directory of the pages, still to be read, and the context that they
    /// are compiled in.
    Pages { context: ServerContext<D>, source: DirectorySource<D> },
}

/// Create a content source serving the `pages` or `src/pages` directory as
/// Next.js pages folder. `pages_dir` is the directory, if it was found. The
/// pages are served from the server root and built from the output directory.
/// What the directory holds, and whether it can be read, has no part in this.
pub fn create_server_rendered_source<D: Copy>(pages_dir: Option<D>) -> (served:
    ServerRenderedSource<D>)
    ensures
        match pages_dir {
            None => served is NoContent,
            Some(input_dir) => {
                &&& served matches ServerRenderedSource::Pages { context, source }
                &&& is_server_context(context, input_dir)
                &&& source@ == (DirectoryView {
                    input_dir,
                    server_path: Seq::empty(),
                    intermediate_output_path: Seq::empty(),
                })
                &&& source.input_dir == input_dir
                &&& source.server_path.steps@.len() == 0
                &&& source.intermediate_output_path.steps@.len() == 0
                &&& context.client_transition@ == "next-client"@
                &&& context.environment == (ExecutionEnvironment::NodeJsLambda {
                    compile_target: CompileTarget::Current,
                    node_version: 0,
                })
                &&& context.intention == EnvironmentIntention::Client
                &&& context.enable_typescript_transform && context.enable_typescript
                &&& context.enable_react
                &&& context.enable_node_modules && context.enable_node_native_modules
                &&& context.custom_conditions@.len() == 1
                &&& context.custom_conditions@[0]@ == "development"@
                &&& context.import_map_of == input_dir
            },
        },
{
    match pages_dir {
        None => ServerRenderedSource::NoContent,
        Some(input_dir) => ServerRenderedSource::Pages {
            context: server_context(input_dir),
            source: DirectorySource {
                input_dir,
                server_path: JoinPath::start(),
                intermediate_output_path: JoinPath::start(),
            },
        },
    }
}

} // verus!
