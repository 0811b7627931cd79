use novaweb::interpreter::{EvalError, HostCall};
use novaweb::parser::ParseError;
use novaweb::server::{
    begin_search, execute_novaw_file, extract_route_params, find_novaw_file, page_name_of,
    page_response, path_segments, request_context, Body, PageError, Probe, Reply, Step,
};
use novaweb::value::{dict_get, Value};

/// A pages directory: its files and directories, as paths relative to it,
/// listed in the order given.
struct Tree {
    files: Vec<&'static str>,
    dirs: Vec<&'static str>,
}

impl Tree {
    fn has(&self, p: &str) -> bool {
        p.is_empty() || self.files.contains(&p) || self.dirs.contains(&p)
    }
    fn is_dir(&self, p: &str) -> bool {
        p.is_empty() || self.dirs.contains(&p)
    }
    fn list(&self, dir: &str) -> Vec<(String, bool)> {
        let prefix = if dir.is_empty() { String::new() } else { format!("{}/", dir) };
        let mut out = Vec::new();
        for (p, is_dir) in self.dirs.iter().map(|d| (*d, true)).chain(self.files.iter().map(|f| (*f, false))) {
            if let Some(rest) = p.strip_prefix(prefix.as_str()) {
                if !rest.is_empty() && !rest.contains('/') {
                    out.push((rest.to_string(), is_dir));
                }
            }
        }
        out
    }
    /// Runs the search for a request path; the found file as a relative path.
    fn find(&self, request: &str) -> Option<String> {
        let mut step = begin_search(request);
        for _ in 0..100 {
            match step {
                Step::Found(names) => return Some(names.join("/")),
                Step::Missing => return None,
                Step::Ask { next, probe } => {
                    let reply = match probe {
                        Probe::Exists(p) => Reply::Answer(self.has(&p.join("/"))),
                        Probe::IsDir(p) => Reply::Answer(self.is_dir(&p.join("/"))),
                        Probe::ListDir(p) => Reply::Entries(self.list(&p.join("/"))),
                    };
                    step = find_novaw_file(next, &reply);
                }
            }
        }
        panic!("the search did not end");
    }
}

fn site() -> Tree {
    Tree {
        files: vec![
            "index.novaw",
            "about.novaw",
            "blog/index.novaw",
            "blog/[slug].novaw",
            "users/[id]/profile.novaw",
            "users/[id]/index.novaw",
            "notes.txt",
        ],
        dirs: vec!["blog", "users", "users/[id]"],
    }
}

#[test]
fn page_names() {
    assert_eq!(page_name_of("/"), "index");
    assert_eq!(page_name_of(""), "index");
    assert_eq!(page_name_of("//about"), "about");
    assert_eq!(page_name_of("/blog/post"), "blog/post");
}

#[test]
fn segments_skip_empty_pieces() {
    assert_eq!(path_segments("/a//b/"), vec!["a".to_string(), "b".to_string()]);
    assert!(path_segments("///").is_empty());
}

#[test]
fn exact_pages_are_found_first() {
    let t = site();
    assert_eq!(t.find("/").as_deref(), Some("index.novaw"));
    assert_eq!(t.find("/about").as_deref(), Some("about.novaw"));
}

#[test]
fn directories_lead_to_their_index() {
    assert_eq!(site().find("/blog").as_deref(), Some("blog/index.novaw"));
}

#[test]
fn dynamic_files_and_directories_match_any_segment() {
    let t = site();
    assert_eq!(t.find("/blog/hello-world").as_deref(), Some("blog/[slug].novaw"));
    // A segment names a directory or a file as it is written: `profile` is not `profile.novaw`.
    assert_eq!(t.find("/users/42/profile"), None);
    assert_eq!(t.find("/users/42/profile.novaw").as_deref(), Some("users/[id]/profile.novaw"));
    assert_eq!(t.find("/users/42").as_deref(), Some("users/[id]/index.novaw"));
}

#[test]
fn files_without_the_extension_and_unknown_paths_are_missing() {
    let t = site();
    assert_eq!(t.find("/notes.txt"), None);
    assert_eq!(t.find("/nothing/here"), None);
}

#[test]
fn a_page_file_matches_only_the_last_segment() {
    assert_eq!(site().find("/about.novaw/extra"), None);
}

#[test]
fn a_file_segment_with_the_extension_is_served() {
    assert_eq!(site().find("/about.novaw").as_deref(), Some("about.novaw"));
}

#[test]
fn route_params_from_directories_count_from_the_start_of_the_path() {
    let params = extract_route_params(&Some("users/[id]".to_string()), "profile.novaw", "/users/42/profile");
    assert_eq!(params.len(), 1);
    assert_eq!(params[0].0, "id");
    assert!(matches!(&params[0].1, Value::String(s) if s == "42"));
    // With the pages directory in the path, positions shift.
    let params = extract_route_params(&Some("pages/users/[id]".to_string()), "profile.novaw", "/users/42/profile");
    assert!(matches!(&params[0].1, Value::String(s) if s == "profile"));
}

#[test]
fn route_param_of_a_file_is_named_inside_its_brackets() {
    let params = extract_route_params(&Some("blog".to_string()), "[slug].novaw", "/blog/hello");
    assert_eq!(params.len(), 1);
    assert_eq!(params[0].0, "slug");
    assert!(matches!(&params[0].1, Value::String(s) if s == "hello"));
}

#[test]
fn no_route_params_without_a_directory_path_or_brackets() {
    assert!(extract_route_params(&None, "[id].novaw", "/x").is_empty());
    assert!(extract_route_params(&Some("pages".to_string()), "about.novaw", "/about").is_empty());
    assert!(extract_route_params(&Some("pages".to_string()), "[id].novaw", "/").is_empty());
}

#[test]
fn request_object_fields() {
    let q = vec![("a".to_string(), "1".to_string()), ("a".to_string(), "2".to_string())];
    let h = vec![("host".to_string(), "example.org".to_string())];
    match request_context("GET", "users/1", &q, &h) {
        Value::Dict(m) => {
            assert_eq!(m.len(), 4);
            assert!(matches!(dict_get(&m, "method"), Some(Value::String(s)) if s == "GET"));
            assert!(matches!(dict_get(&m, "path"), Some(Value::String(s)) if s == "users/1"));
            match dict_get(&m, "query") {
                Some(Value::Dict(qm)) => {
                    assert_eq!(qm.len(), 1);
                    assert!(matches!(dict_get(&qm, "a"), Some(Value::String(s)) if s == "2"));
                }
                _ => panic!("query map"),
            }
            assert!(matches!(dict_get(&m, "headers"), Some(Value::Dict(hm)) if hm.len() == 1));
        }
        _ => panic!("request map"),
    }
}

fn text_of(b: &Body) -> String {
    match b {
        Body::Text(t) => t.clone(),
        Body::Json(_) => panic!("expected text"),
    }
}

#[test]
fn responses_by_outcome() {
    let r = page_response(&None);
    assert_eq!(r.status, 404);
    assert_eq!(text_of(&r.body), "Not Found");
    let r = page_response(&Some(Ok(Value::String("<p>hi</p>".to_string()))));
    assert_eq!(r.status, 200);
    assert_eq!(text_of(&r.body), "<p>hi</p>");
    let r = page_response(&Some(Ok(Value::Null)));
    assert_eq!(r.status, 204);
    assert_eq!(text_of(&r.body), "");
    let r = page_response(&Some(Ok(Value::Int(7))));
    assert_eq!(text_of(&r.body), "7");
    let r = page_response(&Some(Ok(Value::List(vec![Value::Int(1)]))));
    assert_eq!(r.status, 200);
    assert!(matches!(r.body, Body::Json(Value::List(_))));
    let r = page_response(&Some(Err(PageError::Runtime(EvalError::DivisionByZero))));
    assert_eq!(r.status, 500);
    assert_eq!(text_of(&r.body), "Error: Division by zero");
    let r = page_response(&Some(Err(PageError::Unreadable("gone".to_string()))));
    assert_eq!(text_of(&r.body), "Error: gone");
}

#[test]
fn pages_see_request_and_params() {
    let host = |_c: HostCall| Value::Null;
    let request = request_context("GET", "users/42", &vec![], &vec![]);
    let params = vec![("id".to_string(), Value::String("42".to_string()))];
    let src = "return f\"{request.method} {params.id}\";";
    match execute_novaw_file(src, request, params, &host) {
        Ok(Value::String(s)) => assert_eq!(s, "GET 42"),
        _ => panic!("page result"),
    }
}

#[test]
fn pages_without_params_have_no_params_global() {
    let host = |_c: HostCall| Value::Null;
    let request = request_context("GET", "/", &vec![], &vec![]);
    let r = execute_novaw_file("return params;", request, vec![], &host);
    assert!(matches!(r, Err(PageError::Runtime(EvalError::Undefined(_)))));
}

#[test]
fn pages_that_do_not_parse() {
    let host = |_c: HostCall| Value::Null;
    let request = request_context("GET", "/", &vec![], &vec![]);
    let r = execute_novaw_file("let = ;", request, vec![], &host);
    assert!(matches!(r, Err(PageError::Syntax(ParseError::Syntax(1)))));
    assert_eq!(PageError::Syntax(ParseError::Syntax(1)).message(), "Unexpected token at position 1");
}
