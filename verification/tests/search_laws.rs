use movie_search::catalog::{Movie, MovieSearch};
use movie_search::filter::{SearchFilter, SearchRequest, SuggestRequest, YearFilter};
use movie_search::highlight::escape_html_chars;

fn movie(id: u64, title: &str, genre: &str, overview: &str, year: i32) -> Movie {
    Movie {
        id,
        title: title.to_string(),
        overview: overview.to_string(),
        genre: genre.to_string(),
        year: Some(year),
        poster_path: None,
    }
}

fn catalog() -> MovieSearch {
    MovieSearch::from_movies(vec![
        movie(5, "Space One", "Drama", "space trip", 1990),
        movie(2, "Space Two", "Comedy", "a space joke", 2005),
        movie(9, "Space Three", "Drama, Thriller", "space and more space", 2015),
        movie(4, "Ocean", "Drama", "no stars here", 1970),
        movie(7, "Space Four", "Horror", "space", 2020),
    ])
}

fn ids(engine: &MovieSearch, q: &str, offset: usize, limit: usize) -> Vec<u64> {
    engine
        .search(SearchRequest {
            q: Some(q.to_string()),
            offset: Some(offset),
            limit: Some(limit),
            ..SearchRequest::default()
        })
        .hits
        .iter()
        .map(|h| h.movie.id)
        .collect()
}

#[test]
fn consecutive_pages_concatenate_to_one_larger_page() {
    let engine = catalog();
    let mut joined = ids(&engine, "space", 0, 2);
    joined.extend(ids(&engine, "space", 2, 2));
    assert_eq!(joined, ids(&engine, "space", 0, 4));
}

#[test]
fn a_page_holds_at_most_limit_hits_and_past_the_end_none() {
    let engine = catalog();
    assert_eq!(ids(&engine, "space", 0, 3).len(), 3);
    assert_eq!(ids(&engine, "space", 3, 10).len(), 1);
    assert!(ids(&engine, "space", 10, 10).is_empty());
}

#[test]
fn no_movie_appears_twice_in_the_results() {
    let engine = catalog();
    let mut all = ids(&engine, "space", 0, 100);
    let n = all.len();
    all.sort();
    all.dedup();
    assert_eq!(all.len(), n);
    assert_eq!(n, 4);
}

#[test]
fn every_hit_passes_the_filter() {
    let engine = catalog();
    let response = engine.search(SearchRequest {
        q: Some("space".to_string()),
        filters: Some(SearchFilter {
            genre: vec!["DRAMA".to_string()],
            year: Some(YearFilter { gte: Some(1980), lte: None }),
        }),
        limit: Some(100),
        ..SearchRequest::default()
    });
    let found: Vec<u64> = response.hits.iter().map(|h| h.movie.id).collect();
    assert_eq!(found, vec![5, 9]);
    for hit in &response.hits {
        assert!(hit.movie.genre.to_lowercase().contains("drama"));
        assert!(hit.movie.year.unwrap() >= 1980);
    }
}

#[test]
fn an_empty_query_lists_the_whole_catalog_by_id() {
    let engine = catalog();
    assert_eq!(ids(&engine, "", 0, 100), vec![2, 4, 5, 7, 9]);
    assert_eq!(ids(&engine, "   ", 0, 100), vec![2, 4, 5, 7, 9]);
}

#[test]
fn year_stats_bound_every_hit_year() {
    let engine = catalog();
    let response = engine.search(SearchRequest {
        q: Some("space".to_string()),
        facets: vec!["year".to_string()],
        ..SearchRequest::default()
    });
    let (_, stats) = &response.facet_stats[0];
    assert_eq!((stats.min, stats.max), (1990, 2020));
    for hit in &response.hits {
        let y = hit.movie.year.unwrap();
        assert!(stats.min <= y && y <= stats.max);
    }
}

#[test]
fn try_search_answers_like_search() {
    let engine = catalog();
    let request = SearchRequest {
        q: Some("space".to_string()),
        limit: Some(2),
        ..SearchRequest::default()
    };
    let direct = engine.search(request.clone());
    let checked = engine.try_search(request).expect("small catalog fits");
    let a: Vec<u64> = direct.hits.iter().map(|h| h.movie.id).collect();
    let b: Vec<u64> = checked.hits.iter().map(|h| h.movie.id).collect();
    assert_eq!(a, b);
    assert_eq!(direct.estimated_total_hits, checked.estimated_total_hits);
}

#[test]
fn escaped_text_holds_no_markup_characters() {
    let input: Vec<char> = "<b>\"Tom\" & 'Jerry'</b>".chars().collect();
    let out: String = escape_html_chars(&input).into_iter().collect();
    assert_eq!(out, "&lt;b&gt;&quot;Tom&quot; &amp; &#39;Jerry&#39;&lt;/b&gt;");
    assert!(!out.contains('<') && !out.contains('>') && !out.contains('"') && !out.contains('\''));
}

#[test]
fn suggestions_are_distinct_and_within_the_limit() {
    let engine = MovieSearch::from_movies(vec![
        movie(1, "Dark", "Drama", "", 2000),
        movie(2, "Dark", "Drama", "", 2001),
        movie(3, "Darker", "Drama", "", 2002),
        movie(4, "Darkest", "Drama", "", 2003),
        movie(5, "So Dark", "Drama", "", 2004),
    ]);
    let response = engine.suggest(SuggestRequest {
        q: Some("dark".to_string()),
        limit: Some(3),
        filters: None,
    });
    assert_eq!(
        response.suggestions,
        vec!["Dark".to_string(), "Darker".to_string(), "Darkest".to_string()]
    );
}

#[test]
fn catalog_built_in_any_order_answers_alike() {
    let forward = catalog();
    let backward = MovieSearch::from_movies(vec![
        movie(7, "Space Four", "Horror", "space", 2020),
        movie(4, "Ocean", "Drama", "no stars here", 1970),
        movie(9, "Space Three", "Drama, Thriller", "space and more space", 2015),
        movie(2, "Space Two", "Comedy", "a space joke", 2005),
        movie(5, "Space One", "Drama", "space trip", 1990),
    ]);
    let a: Vec<u64> = forward.movies(0, 10).results.iter().map(|m| m.id).collect();
    let b: Vec<u64> = backward.movies(0, 10).results.iter().map(|m| m.id).collect();
    assert_eq!(a, b);
    assert_eq!(ids(&forward, "space", 0, 10), ids(&backward, "space", 0, 10));
}

#[test]
fn the_same_request_gets_the_same_answer() {
    let engine = catalog();
    let request = SearchRequest {
        q: Some("space drama".to_string()),
        facets: vec!["genre".to_string(), "year".to_string()],
        highlight: vec!["title".to_string()],
        debug_ranking: true,
        ..SearchRequest::default()
    };
    let a = engine.search(request.clone());
    let b = engine.search(request);
    let ids_a: Vec<u64> = a.hits.iter().map(|h| h.movie.id).collect();
    let ids_b: Vec<u64> = b.hits.iter().map(|h| h.movie.id).collect();
    assert_eq!(ids_a, ids_b);
    assert_eq!(a.facet_distribution, b.facet_distribution);
    assert_eq!(a.estimated_total_hits, b.estimated_total_hits);
    assert_eq!(a.hits[0].formatted, b.hits[0].formatted);
}

#[test]
fn suggestions_fill_the_limit_with_distinct_matching_titles() {
    let engine = MovieSearch::from_movies(vec![
        movie(1, "Dark", "Drama", "", 2000),
        movie(2, "DARK", "Drama", "", 2001),
        movie(3, "Darker", "Drama", "", 2002),
        movie(4, "Light", "Drama", "", 2003),
    ]);
    let all = engine.suggest(SuggestRequest { q: Some(" Dark ".to_string()), limit: Some(10), filters: None });
    assert_eq!(all.query, " Dark ");
    assert_eq!(all.suggestions, vec!["Dark".to_string(), "Darker".to_string()]);
    let one = engine.suggest(SuggestRequest { q: Some("dark".to_string()), limit: Some(1), filters: None });
    assert_eq!(one.suggestions.len(), 1);
    let none = engine.suggest(SuggestRequest { q: Some("  ".to_string()), limit: None, filters: None });
    assert!(none.suggestions.is_empty());
}

#[test]
fn without_typos_equal_scores_come_in_id_order() {
    let engine = MovieSearch::from_movies(vec![
        movie(2, "Star", "Drama", "", 2000),
        movie(1, "Starship", "Drama", "", 2001),
        movie(3, "Lone star", "Drama", "", 2002),
    ]);
    assert_eq!(ids(&engine, "star", 0, 10), vec![1, 2, 3]);
}

#[test]
fn each_suggestion_is_the_first_title_of_its_kind() {
    let engine = MovieSearch::from_movies(vec![
        movie(4, "DARK CITY", "Drama", "", 2000),
        movie(1, "A dark tale", "Drama", "", 2001),
        movie(2, "dark city", "Drama", "", 2002),
        movie(3, "Dark Water", "Drama", "", 2003),
    ]);
    let response = engine.suggest(SuggestRequest { q: Some("dark".to_string()), limit: None, filters: None });
    assert_eq!(
        response.suggestions,
        vec!["dark city".to_string(), "Dark Water".to_string(), "A dark tale".to_string()]
    );
}

#[test]
fn the_catalog_has_one_movie_per_distinct_id() {
    let engine = MovieSearch::from_movies(vec![
        movie(3, "A", "Drama", "", 2000),
        movie(1, "B", "Drama", "", 2001),
        movie(3, "C", "Drama", "", 2002),
        movie(1, "D", "Drama", "", 2003),
        movie(2, "E", "Drama", "", 2004),
    ]);
    assert_eq!(engine.document_count(), 3);
    let titles: Vec<String> = engine.movies(0, usize::MAX).results.into_iter().map(|m| m.title).collect();
    assert_eq!(titles, vec!["D".to_string(), "E".to_string(), "C".to_string()]);
}
