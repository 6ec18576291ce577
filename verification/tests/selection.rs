use movie_rank::graph::Graph;
use movie_rank::leaders::top_positions;
use movie_rank::movie::Movie;
use movie_rank::rank::compute_pagerank;
use movie_rank::sample::{sample_movies, select};
use movie_rank::score::SCALE;
use movie_rank::similarity::{calculate_similarity, similar_titles};

fn titled(title: &str, movie_type: &str, rating: &str) -> Movie {
    Movie {
        title: title.to_string(),
        movie_type: movie_type.to_string(),
        director: String::new(),
        country: String::new(),
        release_year: 0,
        rating: rating.to_string(),
        listed_in: String::new(),
    }
}

fn catalog(n: usize) -> Vec<Movie> {
    (0..n).map(|i| titled(&format!("Title {}", i), "Movie", "PG")).collect()
}

fn scored(scores: &[u64]) -> Vec<(String, u64)> {
    scores.iter().enumerate().map(|(i, s)| (format!("e{}", i), *s)).collect()
}

#[test]
fn leaders_come_highest_first() {
    let entries = scored(&[5, 9, 1, 7, 3]);
    assert_eq!(top_positions(&entries, 3), vec![1, 3, 0]);
    assert_eq!(top_positions(&entries, 5), vec![1, 3, 0, 4, 2]);
    assert_eq!(top_positions(&entries, 1), vec![1]);
}

#[test]
fn leaders_keep_the_order_of_equal_scores() {
    let entries = scored(&[4, 8, 4, 8, 4, 0]);
    assert_eq!(top_positions(&entries, 6), vec![1, 3, 0, 2, 4, 5]);
    assert_eq!(top_positions(&entries, 3), vec![1, 3, 0]);
}

#[test]
fn leaders_are_no_more_than_the_entries() {
    let entries = scored(&[2, 3]);
    assert_eq!(top_positions(&entries, 10), vec![1, 0]);
    assert_eq!(top_positions(&entries, 0), Vec::<usize>::new());
    assert_eq!(top_positions(&Vec::new(), 4), Vec::<usize>::new());
    assert_eq!(top_positions(&scored(&[u64::MAX, 0, u64::MAX]), 2), vec![0, 2]);
}

#[test]
fn leaders_of_a_rank_map() {
    let mut graph = Graph::new();
    graph.insert("A".to_string(), vec![("C".to_string(), SCALE)]);
    graph.insert("B".to_string(), vec![("C".to_string(), SCALE)]);
    graph.insert("C".to_string(), vec![("A".to_string(), SCALE)]);
    let ranks = compute_pagerank(&graph, 850_000_000, 30);
    let entries = ranks.entries();
    assert_eq!(entries.len(), 3);
    let best = top_positions(entries, 2);
    assert_eq!(entries[best[0]].0, "C");
    assert_eq!(entries[best[1]].0, "A");
    assert_eq!(ranks.get("C"), Some(entries[best[0]].1));
    assert_eq!(ranks.score_at(best[0]), entries[best[0]].1);
    assert_eq!(ranks.title_at(best[1]), "A");
}

#[test]
fn a_sample_holds_distinct_entries_of_the_catalog() {
    let movies = catalog(50);
    for seed in 0..20u64 {
        let sample = sample_movies(&movies, 12, seed);
        assert_eq!(sample.len(), 12);
        let mut titles: Vec<&String> = sample.iter().map(|m| &m.title).collect();
        for t in &titles {
            assert!(movies.iter().any(|m| &m.title == *t));
        }
        titles.sort();
        titles.dedup();
        assert_eq!(titles.len(), 12);
    }
}

#[test]
fn a_sample_is_never_larger_than_the_catalog() {
    let movies = catalog(7);
    let sample = sample_movies(&movies, 2000, 42);
    assert_eq!(sample.len(), 7);
    let mut titles: Vec<String> = sample.iter().map(|m| m.title.clone()).collect();
    titles.sort();
    let mut all: Vec<String> = movies.iter().map(|m| m.title.clone()).collect();
    all.sort();
    assert_eq!(titles, all);
    assert!(sample_movies(&movies, 0, 1).is_empty());
    assert!(sample_movies(&Vec::new(), 5, 1).is_empty());
}

#[test]
fn selected_entries_follow_their_positions() {
    let movies = catalog(5);
    let chosen = select(&movies, &vec![3, 0, 4]);
    let titles: Vec<&str> = chosen.iter().map(|m| m.title.as_str()).collect();
    assert_eq!(titles, vec!["Title 3", "Title 0", "Title 4"]);
    let chosen = select(&movies, &vec![1, 9, 2, 5]);
    let titles: Vec<&str> = chosen.iter().map(|m| m.title.as_str()).collect();
    assert_eq!(titles, vec!["Title 1", "Title 2"]);
    assert!(select(&movies, &Vec::new()).is_empty());
}

#[test]
fn a_copy_has_every_attribute() {
    let m = Movie {
        title: "T".to_string(),
        movie_type: "Movie".to_string(),
        director: "D".to_string(),
        country: "C".to_string(),
        release_year: 1987,
        rating: "R".to_string(),
        listed_in: "G".to_string(),
    };
    let c = m.duplicate();
    assert_eq!(c.title, "T");
    assert_eq!(c.movie_type, "Movie");
    assert_eq!(c.director, "D");
    assert_eq!(c.country, "C");
    assert_eq!(c.release_year, 1987);
    assert_eq!(c.rating, "R");
    assert_eq!(c.listed_in, "G");
}

#[test]
fn every_other_title_is_scored_against_the_chosen_one() {
    let movies = vec![
        titled("A", "Movie", "PG"),
        titled("B", "Movie", "R"),
        titled("Pick", "Movie", "PG"),
        titled("C", "TV Show", "PG"),
        titled("Pick", "TV Show", "R"),
        titled("D", "TV Show", "R"),
    ];
    let list = similar_titles(&movies, "Pick").unwrap();
    assert_eq!(
        list,
        vec![
            ("A".to_string(), 2 * SCALE / 6),
            ("B".to_string(), SCALE / 6),
            ("C".to_string(), SCALE / 6),
            ("D".to_string(), 0),
        ]
    );
    assert_eq!(list[0].1, calculate_similarity(&movies[2], &movies[0]));
    assert!(similar_titles(&movies, "Nobody").is_none());
    assert!(similar_titles(&Vec::new(), "Pick").is_none());
    let best = top_positions(&list, 2);
    assert_eq!(best, vec![0, 1]);
}
