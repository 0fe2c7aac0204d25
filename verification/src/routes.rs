//! Which operation an HTTP request asks for: the routes of the movie search
//! service and of the file tools service.

use vstd::prelude::*;
use crate::assets::{asset_path, names_asset};
use crate::catalog::DEFAULT_LIMIT;
use crate::validate::texts;
use crate::order::chars_equal;
use crate::query::{path_segments, path_segments_of, query_usize, split_char, usize_param};
use crate::text::{chars_of, string_from_chars, views};

verus! {

// ---------------------------------------------------------------------------
// The movie search service.
// ---------------------------------------------------------------------------

/// An operation of the movie search service.
#[derive(Debug)]
pub enum MovieRoute {
    Health,
    Version,
    Stats,
    Movies { offset: usize, limit: usize },
    Search,
    /// A page or file of the front end, by the request path's segments.
    Static(Vec<String>),
    MethodNotAllowed(String),
    NotFound(String),
}

/// The routes of the service by their single path segment.
pub open spec fn movie_route_name(seg: Seq<char>) -> bool {
    seg == "health"@ || seg == "version"@ || seg == "stats"@ || seg == "movies"@ || seg == "search"@
}

/// The method that a route answers: `POST` for `search`, `GET` otherwise.
pub open spec fn movie_route_method(seg: Seq<char>) -> Seq<char> {
    if seg == "search"@ {
        "POST"@
    } else {
        "GET"@
    }
}

/// A number query parameter, or its default.
pub open spec fn usize_or(query: Seq<char>, name: Seq<char>, default: int) -> int {
    match usize_param(split_char(query, '&'), name) {
        Some(v) => v,
        None => default,
    }
}

/// The request asks with `GET` for a page or file of the front end.
pub open spec fn frontend_request(method: Seq<char>, path: Seq<char>) -> bool {
    method == "GET"@ && asset_path(path_segments(path)) is Some
}

/// The request names a route of the service with the method it answers.
pub open spec fn movie_route_ok(method: Seq<char>, path: Seq<char>) -> bool {
    let segs = path_segments(path);
    segs.len() == 1 && movie_route_name(segs[0]) && method == movie_route_method(segs[0])
}

/// The characters of each vector as a string.
fn strings_of(v: &Vec<Vec<char>>) -> (r: Vec<String>)
    ensures
        texts(r@) == views(v@),
{
    let mut out: Vec<String> = Vec::new();
    let mut i: usize = 0;
    while i < v.len()
        invariant
            i <= v@.len(),
            texts(out@) == views(v@.take(i as int)),
        decreases v@.len() - i,
    {
        let ghost prev = out@;
        let t = string_from_chars(v[i].as_slice());
        out.push(t);
        proof {
            assert(out@ == prev.push(t));
            assert(texts(out@) =~= texts(prev).push(t@));
            assert(views(v@.take(i + 1)) =~= views(v@.take(i as int)).push(v@[i as int]@));
        }
        i = i + 1;
    }
    proof {
        assert(v@.take(v@.len() as int) =~= v@);
    }
    out
}

/// Routes a request of the movie search service: `GET health`, `version`,
/// `stats` and `movies` (with `offset` and `limit` query numbers, 0 and 20
/// by default), and `POST search`; another method on one of these paths is
/// not allowed. A `GET` of the root, `demo`, `benchmarks`, or a file under
/// `assets/` or `benchmark-data/` asks for the front end; any other path is
/// not found. Empty path segments are ignored.
pub fn route_movie_request(method: &str, path: &str, query: &str) -> (r: MovieRoute)
    ensures
        ({
            let segs = path_segments(path@);
            &&& movie_route_ok(method@, path@) && segs[0] == "health"@ ==> r is Health
            &&& movie_route_ok(method@, path@) && segs[0] == "version"@ ==> r is Version
            &&& movie_route_ok(method@, path@) && segs[0] == "stats"@ ==> r is Stats
            &&& movie_route_ok(method@, path@) && segs[0] == "movies"@ ==> (r matches MovieRoute::Movies {
                offset,
                limit,
            } && offset == usize_or(query@, "offset"@, 0) && limit == usize_or(
                query@,
                "limit"@,
                DEFAULT_LIMIT as int,
            ))
            &&& movie_route_ok(method@, path@) && segs[0] == "search"@ ==> r is Search
            &&& !movie_route_ok(method@, path@) && segs.len() == 1 && movie_route_name(segs[0]) ==> (r matches MovieRoute::MethodNotAllowed(m) && m@ == method@ + " is not allowed for "@ + path@)
            &&& frontend_request(method@, path@) ==> (r matches MovieRoute::Static(s) && texts(s@) == segs)
            &&& !(segs.len() == 1 && movie_route_name(segs[0])) && !frontend_request(method@, path@) ==> (r matches MovieRoute::NotFound(m) && m@ == "route '"@ + path@ + "' was not found"@)
        }),
{
    proof {
        reveal_strlit("health");
        reveal_strlit("version");
        reveal_strlit("stats");
        reveal_strlit("movies");
        reveal_strlit("search");
        reveal_strlit("GET");
        reveal_strlit("POST");
        reveal_strlit("demo");
        reveal_strlit("benchmarks");
        assert("demo"@.len() == 4);
        assert("benchmarks"@.len() == 10);
        assert("health"@.len() == 6 && "health"@[0] == 'h');
        assert("version"@.len() == 7);
        assert("stats"@.len() == 5);
        assert("movies"@.len() == 6 && "movies"@[0] == 'm');
        assert("search"@.len() == 6 && "search"@[0] == 's');
        assert("GET"@.len() == 3);
        assert("POST"@.len() == 4);
    }
    let segs = path_segments_of(path);
    let m = chars_of(method);
    let get = chars_of("GET");
    let post = chars_of("POST");
    let is_get = chars_equal(m.as_slice(), get.as_slice());
    let is_post = chars_equal(m.as_slice(), post.as_slice());
    if is_get && names_asset(&segs) {
        return MovieRoute::Static(strings_of(&segs));
    }
    if segs.len() == 1 {
        let s = segs[0].as_slice();
        proof {
            assert(views(segs@)[0] == segs@[0]@);
        }
        let health = chars_of("health");
        let version = chars_of("version");
        let stats = chars_of("stats");
        let movies = chars_of("movies");
        let search = chars_of("search");
        let known = if chars_equal(s, health.as_slice()) {
            if is_get {
                return MovieRoute::Health;
            }
            true
        } else if chars_equal(s, version.as_slice()) {
            if is_get {
                return MovieRoute::Version;
            }
            true
        } else if chars_equal(s, stats.as_slice()) {
            if is_get {
                return MovieRoute::Stats;
            }
            true
        } else if chars_equal(s, movies.as_slice()) {
            if is_get {
                let offset = match query_usize(query, "offset") {
                    Some(v) => v,
                    None => 0,
                };
                let limit = match query_usize(query, "limit") {
                    Some(v) => v,
                    None => DEFAULT_LIMIT,
                };
                return MovieRoute::Movies { offset, limit };
            }
            true
        } else if chars_equal(s, search.as_slice()) {
            if is_post {
                return MovieRoute::Search;
            }
            true
        } else {
            false
        };
        if known {
            let mut msg = String::from_str(method);
            msg.append(" is not allowed for ");
            msg.append(path);
            return MovieRoute::MethodNotAllowed(msg);
        }
    }
    let mut msg = String::from_str("route '");
    msg.append(path);
    msg.append("' was not found");
    MovieRoute::NotFound(msg)
}

// ---------------------------------------------------------------------------
// The file tools service.
// ---------------------------------------------------------------------------

/// An HTTP method.
#[derive(Clone, Copy, Debug, PartialEq, Eq, Structural)]
pub enum Method {
    Get,
    Post,
    Put,
    Delete,
    Patch,
    Head,
    Options,
    Connect,
    Trace,
    Other,
}

/// An operation of the file tools service.
#[derive(Debug)]
pub enum ToolRoute {
    Routes,
    Health,
    Version,
    ValidateJson,
    JsonToCsv,
    CsvToJson,
    ImageMetadata,
    ImageGrayscale,
    ImageResize,
    MethodNotAllowed,
    NotFound(String),
}

/// `s` without its trailing slashes (`trim_end_matches('/')`).
pub open spec fn trim_end_slashes(s: Seq<char>) -> Seq<char>
    decreases s.len(),
{
    if s.len() > 0 && s.last() == '/' {
        trim_end_slashes(s.drop_last())
    } else {
        s
    }
}

/// The `GET` routes of the tools service.
pub open spec fn tool_get_path(p: Seq<char>) -> bool {
    p == ""@ || p == "/"@ || p == "/health"@ || p == "/version"@ || p == "/routes"@
}

/// The `POST` routes of the tools service.
pub open spec fn tool_post_path(p: Seq<char>) -> bool {
    p == "/validate/json"@ || p == "/convert/json-to-csv"@ || p == "/convert/csv-to-json"@ || p
        == "/image/metadata"@ || p == "/image/grayscale"@ || p == "/image/resize"@
}

/// The operation of a request of the tools service, by method and path
/// without trailing slashes.
pub open spec fn tool_route_spec(method: Method, p: Seq<char>) -> Option<ToolRoute> {
    if method == Method::Get && (p == ""@ || p == "/"@ || p == "/routes"@) {
        Some(ToolRoute::Routes)
    } else if method == Method::Get && p == "/health"@ {
        Some(ToolRoute::Health)
    } else if method == Method::Get && p == "/version"@ {
        Some(ToolRoute::Version)
    } else if method == Method::Post && p == "/validate/json"@ {
        Some(ToolRoute::ValidateJson)
    } else if method == Method::Post && p == "/convert/json-to-csv"@ {
        Some(ToolRoute::JsonToCsv)
    } else if method == Method::Post && p == "/convert/csv-to-json"@ {
        Some(ToolRoute::CsvToJson)
    } else if method == Method::Post && p == "/image/metadata"@ {
        Some(ToolRoute::ImageMetadata)
    } else if method == Method::Post && p == "/image/grayscale"@ {
        Some(ToolRoute::ImageGrayscale)
    } else if method == Method::Post && p == "/image/resize"@ {
        Some(ToolRoute::ImageResize)
    } else if (tool_get_path(p) && p != ""@ && p != "/"@) || tool_post_path(p) {
        Some(ToolRoute::MethodNotAllowed)
    } else {
        None
    }
}

/// `s` without its trailing slashes.
fn trim_end_slashes_exec(s: &[char]) -> (r: Vec<char>)
    ensures
        r@ == trim_end_slashes(s@),
{
    let mut n = s.len();
    proof {
        assert(s@.take(n as int) =~= s@);
    }
    while n > 0 && s[n - 1] == '/'
        invariant
            n <= s@.len(),
            trim_end_slashes(s@) == trim_end_slashes(s@.take(n as int)),
        decreases n,
    {
        proof {
            assert(s@.take(n as int).drop_last() =~= s@.take(n - 1));
        }
        n = n - 1;
    }
    let r = crate::text::slice_chars(s, 0, n);
    proof {
        assert(r@ =~= s@.take(n as int));
    }
    r
}

/// Routes a request of the file tools service: `GET` of the root, `health`,
/// `version` and `routes`, `POST` of the validation, conversion and image
/// operations; another method on one of these paths is not allowed, and any
/// other path is not found. Trailing slashes are ignored.
pub fn route_tool_request(method: Method, path: &str) -> (r: ToolRoute)
    ensures
        ({
            let p = trim_end_slashes(path@);
            match tool_route_spec(method, p) {
                Some(t) => r == t,
                None => r matches ToolRoute::NotFound(m) && m@ == "route '"@ + p + "' was not found"@,
            }
        }),
{
    proof {
        reveal_strlit("");
        reveal_strlit("/");
        reveal_strlit("/health");
        reveal_strlit("/version");
        reveal_strlit("/routes");
        reveal_strlit("/validate/json");
        reveal_strlit("/convert/json-to-csv");
        reveal_strlit("/convert/csv-to-json");
        reveal_strlit("/image/metadata");
        reveal_strlit("/image/grayscale");
        reveal_strlit("/image/resize");
        assert(""@.len() == 0);
        assert("/"@.len() == 1);
        assert("/health"@.len() == 7 && "/health"@[1] == 'h');
        assert("/version"@.len() == 8);
        assert("/routes"@.len() == 7 && "/routes"@[1] == 'r');
        assert("/validate/json"@.len() == 14);
        assert("/convert/json-to-csv"@.len() == 20 && "/convert/json-to-csv"@[9] == 'j');
        assert("/convert/csv-to-json"@.len() == 20 && "/convert/csv-to-json"@[9] == 'c');
        assert("/image/metadata"@.len() == 15);
        assert("/image/grayscale"@.len() == 16);
        assert("/image/resize"@.len() == 13);
    }
    let pc = trim_end_slashes_exec(chars_of(path).as_slice());
    let p = pc.as_slice();
    let is_get = method == Method::Get;
    let is_post = method == Method::Post;
    let root = chars_of("");
    let slash = chars_of("/");
    let health = chars_of("/health");
    let version = chars_of("/version");
    let routes = chars_of("/routes");
    let validate = chars_of("/validate/json");
    let to_csv = chars_of("/convert/json-to-csv");
    let to_json = chars_of("/convert/csv-to-json");
    let metadata = chars_of("/image/metadata");
    let grayscale = chars_of("/image/grayscale");
    let resize = chars_of("/image/resize");
    let at_root = chars_equal(p, root.as_slice()) || chars_equal(p, slash.as_slice());
    let at_health = chars_equal(p, health.as_slice());
    let at_version = chars_equal(p, version.as_slice());
    let at_routes = chars_equal(p, routes.as_slice());
    let at_validate = chars_equal(p, validate.as_slice());
    let at_to_csv = chars_equal(p, to_csv.as_slice());
    let at_to_json = chars_equal(p, to_json.as_slice());
    let at_metadata = chars_equal(p, metadata.as_slice());
    let at_grayscale = chars_equal(p, grayscale.as_slice());
    let at_resize = chars_equal(p, resize.as_slice());
    if is_get && (at_root || at_routes) {
        ToolRoute::Routes
    } else if is_get && at_health {
        ToolRoute::Health
    } else if is_get && at_version {
        ToolRoute::Version
    } else if is_post && at_validate {
        ToolRoute::ValidateJson
    } else if is_post && at_to_csv {
        ToolRoute::JsonToCsv
    } else if is_post && at_to_json {
        ToolRoute::CsvToJson
    } else if is_post && at_metadata {
        ToolRoute::ImageMetadata
    } else if is_post && at_grayscale {
        ToolRoute::ImageGrayscale
    } else if is_post && at_resize {
        ToolRoute::ImageResize
    } else if at_health || at_version || at_routes || at_validate || at_to_csv || at_to_json || at_metadata
        || at_grayscale || at_resize {
        ToolRoute::MethodNotAllowed
    } else {
        let mut msg = String::from_str("route '");
        let ps = string_from_chars(p);
        msg.append(ps.as_str());
        msg.append("' was not found");
        ToolRoute::NotFound(msg)
    }
}

} // verus!
