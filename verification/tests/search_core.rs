use movie_search::catalog::{Movie, MovieSearch, ENGINE_NAME};
use movie_search::filter::{SearchFilter, SearchRequest, SuggestRequest, YearFilter};
use movie_search::search::SearchResponse;

fn movie(id: u64, title: &str, genre: &str, overview: &str) -> Movie {
    movie_with_year(id, title, genre, overview, 2026)
}

fn movie_with_year(id: u64, title: &str, genre: &str, overview: &str, year: i32) -> Movie {
    Movie {
        id,
        title: title.to_string(),
        overview: overview.to_string(),
        genre: genre.to_string(),
        year: Some(year),
        poster_path: None,
    }
}

fn facet_count(response: &SearchResponse, facet: &str, value: &str) -> usize {
    let (_, counts) = response
        .facet_distribution
        .iter()
        .find(|(name, _)| name == facet)
        .expect("facet present");
    counts
        .iter()
        .find(|(v, _)| v == value)
        .map(|(_, n)| *n)
        .expect("value present")
}

fn hit_ids(response: &SearchResponse) -> Vec<u64> {
    response.hits.iter().map(|hit| hit.movie.id).collect()
}

#[test]
fn deduplicates_movies_by_id_with_last_write_winning() {
    let engine = MovieSearch::from_movies(vec![
        movie(7, "Old Title", "Drama", "first"),
        movie(3, "Other", "Comedy", "second"),
        movie(7, "New Title", "Drama", "third"),
    ]);

    let response = engine.movies(0, 10);

    assert_eq!(response.total, 2);
    assert_eq!(response.results[0].id, 3);
    assert_eq!(response.results[1].id, 7);
    assert_eq!(response.results[1].title, "New Title");
}

#[test]
fn ranks_by_token_count_field_weight_then_id() {
    let engine = MovieSearch::from_movies(vec![
        movie(30, "Space", "Quiet Drama", "orbital story"),
        movie(10, "Quiet", "Science Fiction", "space survival mission"),
        movie(20, "Quiet Space", "Drama", "family story"),
    ]);

    let response = engine.search(SearchRequest {
        q: Some("quiet space".to_string()),
        offset: None,
        limit: Some(3),
        ..SearchRequest::default()
    });

    assert_eq!(hit_ids(&response), vec![20, 30, 10]);
}

#[test]
fn empty_query_is_paginated_by_id() {
    let engine = MovieSearch::from_movies(vec![
        movie(30, "C", "Drama", ""),
        movie(10, "A", "Drama", ""),
        movie(20, "B", "Drama", ""),
    ]);

    let response = engine.search(SearchRequest {
        q: Some(String::new()),
        offset: Some(1),
        limit: Some(1),
        ..SearchRequest::default()
    });

    assert_eq!(response.estimated_total_hits, 3);
    assert_eq!(response.hits.len(), 1);
    assert_eq!(response.hits[0].movie.id, 20);
}

#[test]
fn filters_narrow_by_genre_and_year() {
    let engine = MovieSearch::from_movies(vec![
        movie_with_year(1, "A", "Drama, Science Fiction", "space", 1999),
        movie_with_year(2, "B", "Comedy", "space", 2001),
        movie_with_year(3, "C", "Drama", "space", 2011),
    ]);

    let response = engine.search(SearchRequest {
        q: Some("space".to_string()),
        filters: Some(SearchFilter {
            genre: vec!["drama".to_string()],
            year: Some(YearFilter {
                gte: Some(1990),
                lte: Some(2000),
            }),
        }),
        ..SearchRequest::default()
    });

    assert_eq!(response.hits.len(), 1);
    assert_eq!(response.hits[0].movie.id, 1);
}

#[test]
fn facets_include_genre_distribution_and_year_stats() {
    let engine = MovieSearch::from_movies(vec![
        movie_with_year(1, "A", "Drama", "space", 1999),
        movie_with_year(2, "B", "Comedy", "space", 2001),
        movie_with_year(3, "C", "Drama", "space", 2011),
    ]);

    let response = engine.search(SearchRequest {
        q: Some("space".to_string()),
        facets: vec!["genre".to_string(), "year".to_string()],
        ..SearchRequest::default()
    });

    assert_eq!(facet_count(&response, "genre", "Drama"), 2);
    assert_eq!(facet_count(&response, "genre", "Comedy"), 1);
    let (name, stats) = &response.facet_stats[0];
    assert_eq!(name, "year");
    assert_eq!(stats.min, 1999);
    assert_eq!(stats.max, 2011);
}

#[test]
fn sorting_can_override_relevance_order() {
    let engine = MovieSearch::from_movies(vec![
        movie_with_year(1, "Zulu", "Drama", "space", 1999),
        movie_with_year(2, "Alpha", "Drama", "space", 2010),
    ]);

    let by_year = engine.search(SearchRequest {
        q: Some("space".to_string()),
        sort: vec!["year:desc".to_string()],
        ..SearchRequest::default()
    });
    assert_eq!(by_year.hits[0].movie.id, 2);

    let by_title = engine.search(SearchRequest {
        q: Some("space".to_string()),
        sort: vec!["title:asc".to_string()],
        ..SearchRequest::default()
    });
    assert_eq!(by_title.hits[0].movie.id, 2);
}

#[test]
fn typo_tolerance_is_opt_in() {
    let engine = MovieSearch::from_movies(vec![movie(1, "Space Movie", "Drama", "")]);

    let strict = engine.search(SearchRequest {
        q: Some("spce".to_string()),
        ..SearchRequest::default()
    });
    assert_eq!(strict.estimated_total_hits, 0);

    let tolerant = engine.search(SearchRequest {
        q: Some("spce".to_string()),
        typo_tolerance: true,
        ..SearchRequest::default()
    });
    assert_eq!(tolerant.hits[0].movie.id, 1);
}

#[test]
fn highlighting_escapes_html_and_marks_matches() {
    let engine =
        MovieSearch::from_movies(vec![movie(1, "Space <Drama>", "Drama", "A space story")]);

    let response = engine.search(SearchRequest {
        q: Some("space".to_string()),
        highlight: vec!["title".to_string(), "overview".to_string()],
        ..SearchRequest::default()
    });

    let formatted = response.hits[0].formatted.as_ref().unwrap();
    let field = |name: &str| {
        formatted
            .iter()
            .find(|(k, _)| k == name)
            .map(|(_, v)| v.clone())
            .unwrap()
    };
    assert_eq!(field("title"), "<mark>Space</mark> &lt;Drama&gt;");
    assert_eq!(field("overview"), "A <mark>space</mark> story");
}

#[test]
fn suggestions_rank_prefix_before_substring() {
    let engine = MovieSearch::from_movies(vec![
        movie(20, "The Dark Knight", "Action", ""),
        movie(10, "Dark City", "Sci-Fi", ""),
        movie(30, "A Very Dark Tale", "Drama", ""),
    ]);

    let response = engine.suggest(SuggestRequest {
        q: Some("dark".to_string()),
        limit: Some(3),
        filters: None,
    });

    assert_eq!(
        response.suggestions,
        vec![
            "Dark City".to_string(),
            "The Dark Knight".to_string(),
            "A Very Dark Tale".to_string()
        ]
    );
}

#[test]
fn suggestions_deduplicate_equal_titles() {
    let engine = MovieSearch::from_movies(vec![
        movie(20, "Dark City", "Action", ""),
        movie(10, "Dark City", "Drama", ""),
        movie(30, "Dark City 2", "Drama", ""),
    ]);

    let response = engine.suggest(SuggestRequest {
        q: Some("dark".to_string()),
        limit: Some(5),
        filters: None,
    });

    assert_eq!(
        response.suggestions,
        vec!["Dark City".to_string(), "Dark City 2".to_string()]
    );
}

#[test]
fn list_movies_uses_same_pagination_contract() {
    let engine =
        MovieSearch::from_movies(vec![movie(1, "A", "Drama", ""), movie(2, "B", "Drama", "")]);

    let response = engine.movies(1, 10);

    assert_eq!(response.total, 2);
    assert_eq!(response.results.len(), 1);
    assert_eq!(response.results[0].id, 2);
}

#[test]
fn version_reports_engine_and_document_count() {
    let engine = MovieSearch::from_movies(vec![movie(1, "A", "Drama", ""), movie(2, "B", "Drama", "")]);
    let version = engine.version();
    assert_eq!(version.engine, ENGINE_NAME);
    assert_eq!(version.dataset_documents, 2);
    assert_eq!(engine.stats().document_count, 2);
    assert_eq!(engine.health().status, "available");
}
