//! Projects, and the ways in which the server can be reached.
use crate::paths::{file_uri_of, is_absolute_path, joined_path, path_join, path_to_uri};
use crate::text::{equal, texts};
use vstd::prelude::*;

verus! {

/// How a client talks to the server.
#[derive(Clone, PartialEq, Eq, Debug)]
pub enum TransportType {
    Stdio,
    Sse { host: String, port: u16 },
    StreamableHttp { host: String, port: u16 },
}

/// The part of a project's configuration that is for rust-analyzer, as text.
#[derive(Clone, Debug)]
pub struct RustAnalyzerConfig {
    pub text: String,
}

/// A project in the workspace.
#[derive(Clone, Debug)]
pub struct Project {
    pub root: String,
    pub ignore_crates: Vec<String>,
    pub rust_analyzer: Option<RustAnalyzerConfig>,
}

/// What a project is.
pub struct ProjectView {
    pub root: Seq<char>,
    pub ignore_crates: Seq<Seq<char>>,
    pub rust_analyzer: Option<Seq<char>>,
}

impl View for Project {
    type V = ProjectView;

    open spec fn view(&self) -> ProjectView {
        ProjectView {
            root: self.root@,
            ignore_crates: texts(self.ignore_crates@),
            rust_analyzer: match self.rust_analyzer {
                Some(config) => Some(config.text@),
                None => None,
            },
        }
    }
}

/// A project with nothing but its root.
pub open spec fn bare_project(root: Seq<char>) -> ProjectView {
    ProjectView { root, ignore_crates: Seq::empty(), rust_analyzer: None }
}

/// Why a project has no URI.
#[derive(Clone, Copy, PartialEq, Eq, Structural, Debug)]
pub enum UriError {
    /// The root of the project has none.
    ProjectRoot,
    /// The file has none.
    File,
}

/// How the lack of a URI is told.
pub open spec fn uri_error_text(error: UriError) -> Seq<char> {
    match error {
        UriError::ProjectRoot => "Failed to create project root URI"@,
        UriError::File => "Failed to create file URI"@,
    }
}

impl UriError {
    /// The message of the error.
    pub fn message(&self) -> (res: String)
        ensures
            res@ == uri_error_text(*self),
    {
        match self {
            UriError::ProjectRoot => "Failed to create project root URI".to_owned(),
            UriError::File => "Failed to create file URI".to_owned(),
        }
    }
}

/// What comes of asking for the URI of a project's root.
pub open spec fn gives_root_uri(project: ProjectView, res: Result<String, UriError>) -> bool {
    match res {
        Ok(uri) => file_uri_of(project.root) == Some(uri@) && is_absolute_path(project.root)
            && "file://"@.is_prefix_of(uri@),
        Err(e) => file_uri_of(project.root) is None && e == UriError::ProjectRoot,
    }
}

/// What comes of asking for the URI of a file of a project.
pub open spec fn gives_file_uri(
    project: ProjectView,
    relative_path: Seq<char>,
    res: Result<String, UriError>,
) -> bool {
    match res {
        Ok(uri) => file_uri_of(joined_path(project.root, relative_path)) == Some(uri@)
            && is_absolute_path(joined_path(project.root, relative_path))
            && "file://"@.is_prefix_of(uri@),
        Err(e) => file_uri_of(joined_path(project.root, relative_path)) is None && e
            == UriError::File,
    }
}

impl Project {
    /// A project at a root in canonical form.
    pub fn new(root: String) -> (res: Project)
        ensures
            res.root == root,
            res@ == bare_project(root@),
    {
        let res = Project { root, ignore_crates: Vec::new(), rust_analyzer: None };
        assert(texts(res.ignore_crates@) =~= Seq::<Seq<char>>::empty());
        res
    }

    /// The crates that are left out of the project.
    pub fn ignore_crates(&self) -> (res: &Vec<String>)
        ensures
            *res == self.ignore_crates,
    {
        &self.ignore_crates
    }

    /// The root of the project.
    pub fn root(&self) -> (res: &String)
        ensures
            *res == self.root,
    {
        &self.root
    }

    /// The configuration for rust-analyzer, if there is one.
    pub fn rust_analyzer(&self) -> (res: Option<&RustAnalyzerConfig>)
        ensures
            res is Some <==> self.rust_analyzer is Some,
            res is Some ==> *res->0 == self.rust_analyzer->0,
    {
        self.rust_analyzer.as_ref()
    }

    /// The URI of the project's root.
    pub fn uri(&self) -> (res: Result<String, UriError>)
        ensures
            gives_root_uri(self@, res),
    {
        match path_to_uri(self.root.as_str()) {
            Some(uri) => Ok(uri),
            None => Err(UriError::ProjectRoot),
        }
    }

    /// The URI of a file of the project.
    pub fn file_uri(&self, relative_path: &str) -> (res: Result<String, UriError>)
        ensures
            gives_file_uri(self@, relative_path@, res),
    {
        let path = path_join(self.root.as_str(), relative_path);
        match path_to_uri(path.as_str()) {
            Some(uri) => Ok(uri),
            None => Err(UriError::File),
        }
    }

    /// A copy of the project.
    pub fn copy(&self) -> (res: Project)
        ensures
            res@ == self@,
    {
        let mut ignore_crates: Vec<String> = Vec::new();
        let mut i: usize = 0;
        while i < self.ignore_crates.len()
            invariant
                i <= self.ignore_crates@.len(),
                texts(ignore_crates@) == texts(self.ignore_crates@).take(i as int),
            decreases self.ignore_crates@.len() - i,
        {
            let ghost before = ignore_crates@;
            ignore_crates.push(self.ignore_crates[i].clone());
            assert(texts(ignore_crates@) =~= texts(before).push(self.ignore_crates@[i as int]@));
            i += 1;
            assert(texts(ignore_crates@) =~= texts(self.ignore_crates@).take(i as int));
        }
        assert(texts(ignore_crates@) =~= texts(self.ignore_crates@));
        let rust_analyzer = match &self.rust_analyzer {
            Some(config) => Some(RustAnalyzerConfig { text: config.text.clone() }),
            None => None,
        };
        Project { root: self.root.clone(), ignore_crates, rust_analyzer }
    }
}

/// What comes of reading the name of a transport.
pub open spec fn reads_transport(
    name: Seq<char>,
    host: Seq<char>,
    port: u16,
    res: Result<TransportType, String>,
) -> bool {
    match res {
        Ok(TransportType::Stdio) => name == "stdio"@,
        Ok(TransportType::Sse { host: h, port: p }) => name == "sse"@ && h@ == host && p == port,
        Ok(TransportType::StreamableHttp { host: h, port: p }) => name == "streamable-http"@ && h@
            == host && p == port,
        Err(message) => {
            &&& name != "stdio"@
            &&& name != "sse"@
            &&& name != "streamable-http"@
            &&& message@ == "Invalid transport type: "@ + name
        },
    }
}

/// Reads the name of a transport. An unknown name is refused with a message.
pub fn parse_transport(name: &str, host: &str, port: u16) -> (res: Result<TransportType, String>)
    ensures
        reads_transport(name@, host@, port, res),
{
    if equal(name, "stdio") {
        Ok(TransportType::Stdio)
    } else if equal(name, "sse") {
        Ok(TransportType::Sse { host: host.to_owned(), port })
    } else if equal(name, "streamable-http") {
        Ok(TransportType::StreamableHttp { host: host.to_owned(), port })
    } else {
        Err("Invalid transport type: ".to_owned().concat(name))
    }
}

/// Two projects that are the same have the same root, leave out the same crates in the same order,
/// and have the same configuration for rust-analyzer.
pub proof fn law_project_is_known_by_what_it_is(a: Project, b: Project)
    requires
        a@ == b@,
    ensures
        a.root@ == b.root@,
        a.ignore_crates@.len() == b.ignore_crates@.len(),
        forall|i: int|
            0 <= i < a.ignore_crates@.len() ==> (#[trigger] a.ignore_crates@[i])@
                == b.ignore_crates@[i]@,
        a.rust_analyzer is Some <==> b.rust_analyzer is Some,
        a.rust_analyzer is Some ==> a.rust_analyzer->0.text@ == b.rust_analyzer->0.text@,
{
    let (x, y) = (texts(a.ignore_crates@), texts(b.ignore_crates@));
    assert(x == y);
    assert(x.len() == a.ignore_crates@.len() && y.len() == b.ignore_crates@.len());
    assert forall|i: int| 0 <= i < a.ignore_crates@.len() implies (#[trigger] a.ignore_crates@[i])@
        == b.ignore_crates@[i]@ by {
        assert(x[i] == a.ignore_crates@[i]@ && y[i] == b.ignore_crates@[i]@);
    }
}

/// A project at a root has that root; it leaves out no crate, and has no configuration of its own.
pub proof fn law_new_project_has_nothing_but_its_root(project: Project, root: Seq<char>)
    requires
        project@ == bare_project(root),
    ensures
        project.root@ == root,
        project.ignore_crates@.len() == 0,
        project.rust_analyzer is None,
{
    assert(texts(project.ignore_crates@).len() == project.ignore_crates@.len());
}

/// Each of the three names gives its transport, with the host and the port that were given where
/// the transport has them, and no other name gives one.
pub proof fn law_transport_is_read_by_its_name(
    name: Seq<char>,
    host: Seq<char>,
    port: u16,
    res: Result<TransportType, String>,
)
    requires
        reads_transport(name, host, port, res),
    ensures
        name == "stdio"@ ==> (res matches Ok(transport) && transport is Stdio),
        name == "sse"@ ==> (res matches Ok(TransportType::Sse { host: own, port: at }) && own@
            == host && at == port),
        name == "streamable-http"@ ==> (res matches Ok(
            TransportType::StreamableHttp { host: own, port: at },
        ) && own@ == host && at == port),
        res is Ok <==> name == "stdio"@ || name == "sse"@ || name == "streamable-http"@,
        res matches Err(message) ==> message@ == "Invalid transport type: "@ + name,
{
    reveal_strlit("stdio");
    reveal_strlit("sse");
    reveal_strlit("streamable-http");
    assert("stdio"@.len() == 5 && "sse"@.len() == 3 && "streamable-http"@.len() == 15);
}

/// The URI of a project is that of its root, and the URI of one of its files that of the path from
/// the root; where there is none, the error says for which of the two.
pub proof fn law_uris_are_those_of_the_paths(
    project: Project,
    relative_path: Seq<char>,
    root_uri: Result<String, UriError>,
    file_uri: Result<String, UriError>,
)
    requires
        gives_root_uri(project@, root_uri),
        gives_file_uri(project@, relative_path, file_uri),
    ensures
        root_uri is Ok <==> file_uri_of(project.root@) is Some,
        root_uri matches Ok(uri) ==> uri@ == file_uri_of(project.root@)->0,
        root_uri matches Err(e) ==> e == UriError::ProjectRoot,
        file_uri is Ok <==> file_uri_of(joined_path(project.root@, relative_path)) is Some,
        file_uri matches Ok(uri) ==> uri@ == file_uri_of(
            joined_path(project.root@, relative_path),
        )->0,
        file_uri matches Err(e) ==> e == UriError::File,
        root_uri matches Err(e) ==> uri_error_text(e) == "Failed to create project root URI"@,
        file_uri matches Err(e) ==> uri_error_text(e) == "Failed to create file URI"@,
{
}

}
