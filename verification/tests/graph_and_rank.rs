use movie_rank::builder::build_graph;
use movie_rank::graph::Graph;
use movie_rank::movie::Movie;
use movie_rank::rank::compute_pagerank;
use movie_rank::score::SCALE;
use movie_rank::similarity::calculate_similarity;

fn unit(score: u64) -> f64 {
    score as f64 / SCALE as f64
}

fn fixed(value: f64) -> u64 {
    (value * SCALE as f64).round() as u64
}

fn movie(
    title: &str,
    movie_type: &str,
    director: &str,
    country: &str,
    release_year: u32,
    rating: &str,
    listed_in: &str,
) -> Movie {
    Movie {
        title: title.to_string(),
        movie_type: movie_type.to_string(),
        director: director.to_string(),
        country: country.to_string(),
        release_year,
        rating: rating.to_string(),
        listed_in: listed_in.to_string(),
    }
}

#[test]
fn test_pagerank() {
    let mut graph = Graph::new();
    graph.insert(
        "A".to_string(),
        vec![
            ("B".to_string(), fixed(1.0)),
            ("C".to_string(), fixed(1.0)),
            ("D".to_string(), fixed(1.0)),
        ],
    );
    graph.insert(
        "B".to_string(),
        vec![
            ("A".to_string(), fixed(1.0)),
            ("C".to_string(), fixed(1.0)),
            ("D".to_string(), fixed(1.0)),
        ],
    );
    graph.insert(
        "C".to_string(),
        vec![
            ("A".to_string(), fixed(1.0)),
            ("B".to_string(), fixed(1.0)),
            ("D".to_string(), fixed(1.0)),
        ],
    );
    graph.insert(
        "D".to_string(),
        vec![
            ("A".to_string(), fixed(1.0)),
            ("B".to_string(), fixed(1.0)),
            ("C".to_string(), fixed(1.0)),
        ],
    );

    let ranks = compute_pagerank(&graph, fixed(0.85), 50);

    let rank_a = unit(ranks.get("A").unwrap());
    let rank_b = unit(ranks.get("B").unwrap());
    let rank_c = unit(ranks.get("C").unwrap());
    let rank_d = unit(ranks.get("D").unwrap());

    assert!((rank_a - rank_b).abs() < 1e-6);
    assert!((rank_b - rank_c).abs() < 1e-6);
    assert!((rank_c - rank_d).abs() < 1e-6);
}

#[test]
fn test_calculate_similarity() {
    let movie1 = Movie {
        title: "Movie A".to_string(),
        movie_type: "Documentary".to_string(),
        director: "Director 1".to_string(),
        country: "USA".to_string(),
        release_year: 2020,
        rating: "PG-13".to_string(),
        listed_in: "Education, Science".to_string(),
    };

    let movie2 = Movie {
        title: "Movie B".to_string(),
        movie_type: "Documentary".to_string(),
        director: "Director 2".to_string(),
        country: "USA, Canada".to_string(),
        release_year: 2021,
        rating: "PG-13".to_string(),
        listed_in: "Education, History".to_string(),
    };

    let similarity = unit(calculate_similarity(&movie1, &movie2));

    assert!(similarity >= 0.0 && similarity <= 1.0);
    assert!(similarity > 0.5);
}

#[test]
fn test_build_graph() {
    let movies = vec![
        Movie {
            title: "Movie A".to_string(),
            movie_type: "Documentary".to_string(),
            director: "Director 1".to_string(),
            country: "USA".to_string(),
            release_year: 2020,
            rating: "PG-13".to_string(),
            listed_in: "Education, Science".to_string(),
        },
        Movie {
            title: "Movie B".to_string(),
            movie_type: "Documentary".to_string(),
            director: "Director 2".to_string(),
            country: "USA".to_string(),
            release_year: 2021,
            rating: "PG-13".to_string(),
            listed_in: "Education, History".to_string(),
        },
        Movie {
            title: "Movie C".to_string(),
            movie_type: "Comedy".to_string(),
            director: "Director 3".to_string(),
            country: "Canada".to_string(),
            release_year: 2019,
            rating: "R".to_string(),
            listed_in: "Drama".to_string(),
        },
    ];

    let threshold = 0.5;
    let graph = build_graph(&movies, fixed(threshold));

    assert!(graph.contains_key("Movie A"));
    assert!(graph.contains_key("Movie B"));
    assert!(graph.contains_key("Movie C"));

    for i in 0..graph.len() {
        let node = graph.title_at(i);
        for (_, weight) in graph.edges_at(i) {
            assert!(unit(*weight) >= threshold, "Edge weight below threshold for node {}", node);
        }
    }

    let edges_a = graph.get("Movie A").unwrap();
    assert!(!edges_a.is_empty(), "Movie A should have edges");

    let edges_c = graph.get("Movie C").unwrap();
    assert!(edges_c.is_empty(), "Movie C should have no edges (dissimilar to others)");
}

#[test]
fn similarity_is_the_mean_of_six_scores() {
    let a = movie("A", "Documentary", "Director 1", "USA", 2020, "PG-13", "Education, Science");
    let b = movie("B", "Documentary", "Director 2", "USA, Canada", 2021, "PG-13", "Education, History");
    // 1 + 0 + 0.5 + 1 + 1 + 1/3, divided by 6
    assert_eq!(calculate_similarity(&a, &b), (3_500_000_000 + 333_333_333) / 6);
    assert_eq!(calculate_similarity(&a, &b), calculate_similarity(&b, &a));
    assert_eq!(calculate_similarity(&a, &a), SCALE);
}

#[test]
fn similarity_of_blank_entries_is_zero() {
    let a = movie("A", "", "", "", 0, "", "");
    let b = movie("B", "Movie", "Someone", "India", 1999, "PG", "Drama");
    assert_eq!(calculate_similarity(&a, &a), 0);
    assert_eq!(calculate_similarity(&a, &b), 0);
    assert_eq!(calculate_similarity(&b, &a), 0);
}

#[test]
fn outgoing_weights_sum_to_one() {
    let movies = vec![
        movie("A", "Movie", "X", "USA", 2000, "PG", "Drama, Comedy"),
        movie("B", "Movie", "X", "USA", 2003, "PG", "Drama"),
        movie("C", "Movie", "Y", "USA, France", 2009, "PG", "Comedy, Action, Drama"),
        movie("D", "Movie", "X", "France", 2015, "R", "Action"),
        movie("E", "TV Show", "Z", "Japan", 1980, "TV-MA", "Anime"),
    ];
    let graph = build_graph(&movies, fixed(0.2));
    assert_eq!(graph.len(), 5);
    let mut nodes_with_edges = 0;
    for i in 0..graph.len() {
        let edges = graph.edges_at(i);
        if !edges.is_empty() {
            nodes_with_edges += 1;
            let sum: u64 = edges.iter().map(|(_, w)| *w).sum();
            assert_eq!(sum, SCALE);
        }
    }
    assert!(nodes_with_edges >= 4);
    assert!(graph.get("E").unwrap().is_empty());
}

#[test]
fn weights_are_proportional_to_similarity() {
    // A resembles B and C by one attribute (166_666_666 each) and D by two
    // (333_333_333); the weights are the steps of the running total over
    // 666_666_665, rounded down: 249_999_999, 499_999_999, 1_000_000_000.
    let movies = vec![
        movie("A", "Movie", "X", "", 0, "PG", ""),
        movie("B", "Movie", "", "", 0, "", ""),
        movie("C", "", "X", "", 0, "", ""),
        movie("D", "Movie", "X", "", 0, "", ""),
    ];
    let graph = build_graph(&movies, 1);
    let edges = graph.get("A").unwrap();
    assert_eq!(edges.len(), 3);
    assert_eq!(edges[0], ("B".to_string(), 249_999_999));
    assert_eq!(edges[1], ("C".to_string(), 250_000_000));
    assert_eq!(edges[2], ("D".to_string(), 500_000_001));
}

#[test]
fn thirds_still_sum_to_one() {
    let movies = vec![
        movie("A", "Movie", "", "", 0, "", ""),
        movie("B", "Movie", "", "", 0, "", ""),
        movie("C", "Movie", "", "", 0, "", ""),
        movie("D", "Movie", "", "", 0, "", ""),
    ];
    let graph = build_graph(&movies, 1);
    let edges = graph.get("A").unwrap();
    assert_eq!(
        edges,
        &vec![
            ("B".to_string(), 333_333_333),
            ("C".to_string(), 333_333_333),
            ("D".to_string(), 333_333_334),
        ]
    );
}

#[test]
fn threshold_is_inclusive() {
    // type and rating match, nothing else: similarity is exactly 2/6.
    let movies = vec![
        movie("A", "Movie", "X", "USA", 1990, "PG", "Drama"),
        movie("B", "Movie", "Y", "France", 2010, "PG", "Action"),
    ];
    let exact = calculate_similarity(&movies[0], &movies[1]);
    assert_eq!(exact, 2 * SCALE / 6);
    let kept = build_graph(&movies, exact);
    assert_eq!(kept.get("A").unwrap(), &vec![("B".to_string(), SCALE)]);
    let dropped = build_graph(&movies, exact + 1);
    assert!(dropped.get("A").unwrap().is_empty());
    assert!(dropped.get("B").unwrap().is_empty());
}

#[test]
fn zero_threshold_keeps_no_edge_of_zero_weight() {
    let movies = vec![
        movie("A", "Movie", "X", "USA", 1990, "PG", "Drama"),
        movie("B", "TV Show", "Y", "France", 2010, "R", "Action"),
    ];
    let graph = build_graph(&movies, 0);
    assert!(graph.get("A").unwrap().is_empty());
    assert!(graph.get("B").unwrap().is_empty());
}

#[test]
fn duplicate_titles_collide_as_one_node() {
    let movies = vec![
        movie("Same", "Movie", "X", "USA", 2000, "PG", "Drama"),
        movie("Other", "Movie", "X", "USA", 2000, "PG", "Drama"),
        movie("Same", "TV Show", "Y", "Japan", 1950, "R", "Anime"),
    ];
    let graph = build_graph(&movies, fixed(0.5));
    assert_eq!(graph.len(), 2);
    // the later entry with the title stays, and it resembles nothing
    assert!(graph.get("Same").unwrap().is_empty());
    assert_eq!(graph.get("Other").unwrap(), &vec![("Same".to_string(), SCALE)]);
    assert!(!graph.contains_key("Missing"));
    assert!(graph.get("Missing").is_none());
}

#[test]
fn empty_input_gives_empty_graph_and_ranks() {
    let graph = build_graph(&Vec::new(), fixed(0.5));
    assert_eq!(graph.len(), 0);
    let ranks = compute_pagerank(&graph, fixed(0.85), 10);
    assert_eq!(ranks.len(), 0);
    assert!(ranks.get("A").is_none());
}

#[test]
fn build_and_rank_are_repeatable() {
    let movies = vec![
        movie("A", "Movie", "X", "USA", 2000, "PG", "Drama, Comedy"),
        movie("B", "Movie", "X", "USA", 2003, "PG", "Drama"),
        movie("C", "Movie", "Y", "USA, France", 2009, "PG", "Comedy, Action, Drama"),
    ];
    let first = build_graph(&movies, fixed(0.3));
    let second = build_graph(&movies, fixed(0.3));
    assert_eq!(first.len(), second.len());
    for i in 0..first.len() {
        assert_eq!(first.title_at(i), second.title_at(i));
        assert_eq!(first.edges_at(i), second.edges_at(i));
    }
    let r1 = compute_pagerank(&first, fixed(0.85), 20);
    let r2 = compute_pagerank(&second, fixed(0.85), 20);
    assert_eq!(r1.len(), r2.len());
    for i in 0..r1.len() {
        assert_eq!(r1.title_at(i), r2.title_at(i));
        assert_eq!(r1.score_at(i), r2.score_at(i));
    }
}

#[test]
fn zero_iterations_give_the_uniform_start() {
    let mut graph = Graph::new();
    graph.insert("A".to_string(), vec![("B".to_string(), SCALE)]);
    graph.insert("B".to_string(), vec![]);
    graph.insert("C".to_string(), vec![("A".to_string(), SCALE)]);
    let ranks = compute_pagerank(&graph, fixed(0.85), 0);
    assert_eq!(ranks.len(), 3);
    // one whole unit in three even parts: the running total, rounded down,
    // stands at 333_333_333, 666_666_666 and 1_000_000_000
    assert_eq!(ranks.get("A"), Some(333_333_333));
    assert_eq!(ranks.get("B"), Some(333_333_333));
    assert_eq!(ranks.get("C"), Some(333_333_334));
}

#[test]
fn one_round_follows_the_edges_forward() {
    // A -> B (all of A's rank), B dangling, C -> A and C -> B (half each)
    let mut graph = Graph::new();
    graph.insert("A".to_string(), vec![("B".to_string(), SCALE)]);
    graph.insert("B".to_string(), vec![]);
    graph.insert(
        "C".to_string(),
        vec![("A".to_string(), SCALE / 2), ("B".to_string(), SCALE / 2)],
    );
    let ranks = compute_pagerank(&graph, 800_000_000, 1);
    // start: 333_333_333, 333_333_333, 333_333_334
    // injection, 0.2 in three even parts: 66_666_666, 66_666_667, 66_666_667
    // A gives out 0.8 of its rank: 266_666_666, all of it to B
    // B has no edge and gives out nothing
    // C gives out 266_666_667: 133_333_333 to A and 133_333_334 to B
    assert_eq!(ranks.get("A"), Some(66_666_666 + 133_333_333));
    assert_eq!(ranks.get("B"), Some(66_666_667 + 266_666_666 + 133_333_334));
    assert_eq!(ranks.get("C"), Some(66_666_667));
}

#[test]
fn dangling_node_sends_nothing_but_is_injected() {
    let mut graph = Graph::new();
    graph.insert("Hub".to_string(), vec![]);
    graph.insert("Leaf".to_string(), vec![("Hub".to_string(), SCALE)]);
    for rounds in 1..6 {
        let ranks = compute_pagerank(&graph, fixed(0.85), rounds);
        let injection = (SCALE - fixed(0.85)) / 2;
        // nobody points at Leaf, and Hub has no edge to send along
        assert_eq!(ranks.get("Leaf"), Some(injection));
        assert!(ranks.get("Hub").unwrap() >= injection);
    }
}

#[test]
fn edge_to_unknown_title_sends_nothing() {
    let mut graph = Graph::new();
    graph.insert("A".to_string(), vec![("Nowhere".to_string(), SCALE)]);
    graph.insert("B".to_string(), vec![("A".to_string(), SCALE)]);
    let ranks = compute_pagerank(&graph, fixed(0.5), 3);
    assert_eq!(ranks.len(), 2);
    assert_eq!(ranks.get("B"), Some(SCALE / 4));
    assert!(ranks.get("Nowhere").is_none());
}

#[test]
fn ranks_of_a_normalized_graph_keep_their_mass() {
    let movies = vec![
        movie("A", "Movie", "X", "USA", 2000, "PG", "Drama, Comedy"),
        movie("B", "Movie", "X", "USA", 2003, "PG", "Drama"),
        movie("C", "Movie", "Y", "USA, France", 2009, "PG", "Comedy, Action, Drama"),
        movie("D", "Movie", "X", "France", 2015, "R", "Action"),
    ];
    let graph = build_graph(&movies, fixed(0.2));
    let ranks = compute_pagerank(&graph, fixed(0.85), 100);
    assert_eq!(ranks.len(), graph.len());
    let mut sum: u64 = 0;
    for i in 0..ranks.len() {
        assert_eq!(ranks.title_at(i), graph.title_at(i));
        sum += ranks.score_at(i);
    }
    // every node has edges and every edge points to a node: nothing is lost
    assert_eq!(sum, SCALE);
}

#[test]
fn rank_is_conserved_on_a_cycle_whatever_the_damping() {
    let mut graph = Graph::new();
    graph.insert("A".to_string(), vec![("B".to_string(), SCALE)]);
    graph.insert("B".to_string(), vec![("A".to_string(), SCALE)]);
    for damping in [0, 1, 500_000_000, 850_000_000, 999_999_999, SCALE] {
        for rounds in [0, 1, 2, 1000, 1_000_000] {
            let ranks = compute_pagerank(&graph, damping, rounds);
            let a = ranks.get("A").unwrap();
            let b = ranks.get("B").unwrap();
            assert_eq!(a + b, SCALE, "damping {} rounds {}", damping, rounds);
            assert!(a.abs_diff(b) <= 2, "damping {} rounds {}", damping, rounds);
        }
    }
}

#[test]
fn rank_is_conserved_where_every_node_passes_all_on() {
    let mut graph = Graph::new();
    graph.insert(
        "A".to_string(),
        vec![("B".to_string(), 333_333_333), ("C".to_string(), 666_666_667)],
    );
    graph.insert("B".to_string(), vec![("C".to_string(), SCALE)]);
    graph.insert(
        "C".to_string(),
        vec![
            ("A".to_string(), 142_857_142),
            ("B".to_string(), 142_857_143),
            ("C".to_string(), 714_285_715),
        ],
    );
    graph.insert("D".to_string(), vec![("A".to_string(), 1), ("D".to_string(), SCALE - 1)]);
    for rounds in 0..300 {
        let ranks = compute_pagerank(&graph, 850_000_000, rounds);
        let sum: u64 = ranks.entries().iter().map(|(_, r)| *r).sum();
        assert_eq!(sum, SCALE, "rounds {}", rounds);
    }
}

#[test]
fn rank_leaks_only_at_dangling_nodes_and_stray_edges() {
    let mut graph = Graph::new();
    graph.insert("A".to_string(), vec![("B".to_string(), SCALE)]);
    graph.insert("B".to_string(), vec![]);
    let ranks = compute_pagerank(&graph, 850_000_000, 10);
    let sum: u64 = ranks.entries().iter().map(|(_, r)| *r).sum();
    assert!(sum < SCALE);
    let mut stray = Graph::new();
    stray.insert("A".to_string(), vec![("Nowhere".to_string(), SCALE)]);
    let ranks = compute_pagerank(&stray, 850_000_000, 10);
    assert_eq!(ranks.get("A"), Some(150_000_000));
}

#[test]
fn growing_ranks_stop_at_the_ceiling() {
    let mut graph = Graph::new();
    graph.insert("A".to_string(), vec![("B".to_string(), 3 * SCALE)]);
    graph.insert("B".to_string(), vec![("A".to_string(), 3 * SCALE)]);
    let ranks = compute_pagerank(&graph, fixed(0.85), 200);
    assert_eq!(ranks.get("A"), Some(u64::MAX));
    assert_eq!(ranks.get("B"), Some(u64::MAX));
}

#[test]
fn inserting_a_title_again_replaces_its_edges() {
    let mut graph = Graph::new();
    graph.insert("A".to_string(), vec![("B".to_string(), 1)]);
    graph.insert("B".to_string(), vec![]);
    graph.insert("A".to_string(), vec![("B".to_string(), 2), ("A".to_string(), 3)]);
    assert_eq!(graph.len(), 2);
    assert_eq!(graph.title_at(0), "A");
    assert_eq!(graph.title_at(1), "B");
    assert_eq!(graph.get("A").unwrap(), &vec![("B".to_string(), 2), ("A".to_string(), 3)]);
    assert_eq!(graph.position(&"B".to_string()), Some(1));
    assert_eq!(graph.position(&"C".to_string()), None);
}

#[test]
fn a_larger_catalog_is_built_and_ranked() {
    let genres = ["Dramas", "Comedies", "Thrillers", "Documentaries", "Anime"];
    let countries = ["USA", "India", "Japan", "France"];
    let mut movies = Vec::new();
    for i in 0..200usize {
        movies.push(movie(
            &format!("Title {}", i),
            if i % 3 == 0 { "TV Show" } else { "Movie" },
            &format!("Director {}", i % 17),
            &format!("{}, {}", countries[i % 4], countries[(i / 4) % 4]),
            1990 + (i % 30) as u32,
            if i % 2 == 0 { "PG" } else { "R" },
            &format!("{}, {}", genres[i % 5], genres[(i / 5) % 5]),
        ));
    }
    let graph = build_graph(&movies, fixed(0.5));
    assert_eq!(graph.len(), 200);
    let mut with_edges = 0;
    for i in 0..graph.len() {
        let edges = graph.edges_at(i);
        if !edges.is_empty() {
            with_edges += 1;
            assert_eq!(edges.iter().map(|(_, w)| *w).sum::<u64>(), SCALE);
        }
        for (target, _) in edges {
            assert!(graph.contains_key(target));
            assert_ne!(target, graph.title_at(i));
        }
    }
    assert!(with_edges > 100);
    let ranks = compute_pagerank(&graph, fixed(0.85), 100);
    assert_eq!(ranks.len(), 200);
    let sum: u64 = ranks.entries().iter().map(|(_, r)| *r).sum();
    assert!(sum <= SCALE);
    let injection = (SCALE - fixed(0.85)) / 200;
    for (_, rank) in ranks.entries() {
        assert!(*rank >= injection);
    }
}

#[test]
fn a_complete_graph_with_even_weights_ranks_its_nodes_alike() {
    let names = ["A", "B", "C", "D"];
    let mut graph = Graph::new();
    for from in names {
        let mut edges = Vec::new();
        for to in names {
            if to != from {
                let weight = if edges.len() == 2 { 333_333_334 } else { 333_333_333 };
                edges.push((to.to_string(), weight));
            }
        }
        graph.insert(from.to_string(), edges);
    }
    let ranks = compute_pagerank(&graph, fixed(0.85), 50);
    let mut sum = 0;
    for name in names {
        let rank = ranks.get(name).unwrap();
        assert!((unit(rank) - 0.25).abs() < 1e-6);
        sum += rank;
    }
    assert_eq!(sum, SCALE);
}
