use movie_search::routes::{route_movie_request, route_tool_request, Method, MovieRoute, ToolRoute};

#[test]
fn movie_routes_by_method_and_path() {
    assert!(matches!(route_movie_request("GET", "/health", ""), MovieRoute::Health));
    assert!(matches!(route_movie_request("GET", "version/", ""), MovieRoute::Version));
    assert!(matches!(route_movie_request("GET", "//stats", ""), MovieRoute::Stats));
    assert!(matches!(route_movie_request("POST", "/search", ""), MovieRoute::Search));
    match route_movie_request("GET", "/movies", "offset=2&limit=5") {
        MovieRoute::Movies { offset, limit } => {
            assert_eq!(offset, 2);
            assert_eq!(limit, 5);
        }
        other => panic!("unexpected {:?}", other),
    }
    match route_movie_request("GET", "/movies", "limit=abc") {
        MovieRoute::Movies { offset, limit } => {
            assert_eq!(offset, 0);
            assert_eq!(limit, 20);
        }
        other => panic!("unexpected {:?}", other),
    }
}

#[test]
fn wrong_methods_and_unknown_paths() {
    match route_movie_request("POST", "/health", "") {
        MovieRoute::MethodNotAllowed(m) => assert_eq!(m, "POST is not allowed for /health"),
        other => panic!("unexpected {:?}", other),
    }
    match route_movie_request("GET", "/search", "") {
        MovieRoute::MethodNotAllowed(m) => assert_eq!(m, "GET is not allowed for /search"),
        other => panic!("unexpected {:?}", other),
    }
    match route_movie_request("GET", "/missing", "") {
        MovieRoute::NotFound(m) => assert_eq!(m, "route '/missing' was not found"),
        other => panic!("unexpected {:?}", other),
    }
    assert!(matches!(route_movie_request("GET", "/health/extra", ""), MovieRoute::NotFound(_)));
    assert!(matches!(route_movie_request("POST", "/", ""), MovieRoute::NotFound(_)));
    assert!(matches!(route_movie_request("GET", "/assets", ""), MovieRoute::NotFound(_)));
}

#[test]
fn front_end_pages_and_files_are_static_routes() {
    let segments = |path: &str| match route_movie_request("GET", path, "") {
        MovieRoute::Static(s) => s,
        other => panic!("unexpected {:?}", other),
    };
    assert!(segments("/").is_empty());
    assert_eq!(segments("/demo"), vec!["demo".to_string()]);
    assert_eq!(segments("/benchmarks/"), vec!["benchmarks".to_string()]);
    assert_eq!(segments("/assets/index-1.css"), vec!["assets".to_string(), "index-1.css".to_string()]);
    assert_eq!(segments("/benchmark-data/a/b.json").len(), 3);
}

#[test]
fn tool_routes_by_method_and_path() {
    assert!(matches!(route_tool_request(Method::Get, ""), ToolRoute::Routes));
    assert!(matches!(route_tool_request(Method::Get, "/"), ToolRoute::Routes));
    assert!(matches!(route_tool_request(Method::Get, "/routes/"), ToolRoute::Routes));
    assert!(matches!(route_tool_request(Method::Get, "/health"), ToolRoute::Health));
    assert!(matches!(route_tool_request(Method::Get, "/version"), ToolRoute::Version));
    assert!(matches!(route_tool_request(Method::Post, "/validate/json"), ToolRoute::ValidateJson));
    assert!(matches!(route_tool_request(Method::Post, "/convert/json-to-csv"), ToolRoute::JsonToCsv));
    assert!(matches!(route_tool_request(Method::Post, "/convert/csv-to-json"), ToolRoute::CsvToJson));
    assert!(matches!(route_tool_request(Method::Post, "/image/metadata"), ToolRoute::ImageMetadata));
    assert!(matches!(route_tool_request(Method::Post, "/image/grayscale"), ToolRoute::ImageGrayscale));
    assert!(matches!(route_tool_request(Method::Post, "/image/resize//"), ToolRoute::ImageResize));
    assert!(matches!(route_tool_request(Method::Post, "/health"), ToolRoute::MethodNotAllowed));
    assert!(matches!(route_tool_request(Method::Get, "/image/resize"), ToolRoute::MethodNotAllowed));
    match route_tool_request(Method::Post, "/") {
        ToolRoute::NotFound(m) => assert_eq!(m, "route '' was not found"),
        other => panic!("unexpected {:?}", other),
    }
    match route_tool_request(Method::Delete, "/nope/") {
        ToolRoute::NotFound(m) => assert_eq!(m, "route '/nope' was not found"),
        other => panic!("unexpected {:?}", other),
    }
}
