use player_network::centrality::compute_centrality;
use player_network::degrees::{analyze_degrees, bin_counts, node_degree};
use player_network::graph::build_player_graph;
use player_network::ratio::Ratio;
use player_network::records::{distinct_count, PlayerSeason};
use player_network::sampling::{average_distance_of_pairs, compute_shortest_paths};
use player_network::similarity::{analyze_similarity, jaccard_score};
use player_network::traversal::shortest_distances;

fn rec(name: &str, team: &str, season: &str) -> PlayerSeason {
    PlayerSeason {
        player_name: name.to_string(),
        team: team.to_string(),
        season: season.to_string(),
    }
}

fn as_f64(r: &Ratio) -> f64 {
    r.num as f64 / r.den as f64
}

#[test]
fn concrete_two_team_scenario() {
    let records = vec![
        rec("Alice", "Lakers", "2020"),
        rec("Bob", "Lakers", "2020"),
        rec("Alice", "Heat", "2021"),
        rec("Carol", "Heat", "2021"),
    ];
    let g = build_player_graph(&records);
    let names: Vec<&str> = g.nodes.iter().map(|s| s.as_str()).collect();
    assert_eq!(names, vec!["Alice", "Bob", "Carol"]);
    assert_eq!(g.edges.len(), 2);
    // Alice-Bob and Alice-Carol, each weight 1
    assert!(g.edges.iter().any(|e| e.a == 0 && e.b == 1 && e.weight == 1));
    assert!(g.edges.iter().any(|e| e.a == 0 && e.b == 2 && e.weight == 1));

    let hist = analyze_degrees(&g);
    assert_eq!(hist, vec![0, 2, 1]);

    let scores = compute_centrality(&g);
    assert_eq!(scores.len(), 3);
    assert_eq!(as_f64(&scores[0]), 1.0);
    assert_eq!(as_f64(&scores[1]), 2.0 / 3.0);
    assert_eq!(as_f64(&scores[2]), 2.0 / 3.0);
}

#[test]
fn duplicate_name_makes_no_self_loop() {
    let records = vec![
        rec("Alice", "Lakers", "2020"),
        rec("Alice", "Lakers", "2020"),
        rec("Bob", "Lakers", "2020"),
    ];
    let g = build_player_graph(&records);
    let names: Vec<&str> = g.nodes.iter().map(|s| s.as_str()).collect();
    assert_eq!(names, vec!["Alice", "Bob"]);
    assert_eq!(g.edges.len(), 1);
    assert_eq!((g.edges[0].a, g.edges[0].b, g.edges[0].weight), (0, 1, 1));
    for e in g.edges.iter() {
        assert_ne!(e.a, e.b);
    }
}

#[test]
fn repeated_roster_doubles_weight_only() {
    let once = build_player_graph(&vec![
        rec("Alice", "Lakers", "2020"),
        rec("Bob", "Lakers", "2020"),
    ]);
    let twice = build_player_graph(&vec![
        rec("Alice", "Lakers", "2020"),
        rec("Bob", "Lakers", "2020"),
        rec("Alice", "Lakers", "2021"),
        rec("Bob", "Lakers", "2021"),
    ]);
    assert_eq!(once.nodes.len(), 2);
    assert_eq!(twice.nodes.len(), 2);
    assert_eq!(once.edges.len(), 1);
    assert_eq!(twice.edges.len(), 1);
    assert_eq!(once.edges[0].weight, 1);
    assert_eq!(twice.edges[0].weight, 2);
}

#[test]
fn isolated_nodes_degrade_everywhere() {
    // three players who never share a (team, season)
    let records = vec![
        rec("Alice", "Lakers", "2020"),
        rec("Bob", "Heat", "2020"),
        rec("Carol", "Suns", "2020"),
    ];
    let g = build_player_graph(&records);
    assert_eq!(g.nodes.len(), 3);
    assert_eq!(g.edges.len(), 0);

    let hist = analyze_degrees(&g);
    assert_eq!(hist, vec![3]);

    let scores = compute_centrality(&g);
    assert_eq!(scores.len(), 3);
    for r in scores.iter() {
        assert_eq!(as_f64(r), 0.0);
    }

    let sim = analyze_similarity(&g).expect("two or more nodes give a pair");
    assert_eq!(as_f64(&sim.score), 0.0);
    assert_eq!(sim.first, "Alice");
    assert_eq!(sim.second, "Bob");

    assert!(compute_shortest_paths(&g, 10).is_none());
}

#[test]
fn empty_input_gives_empty_outputs() {
    let g = build_player_graph(&Vec::new());
    assert_eq!(g.nodes.len(), 0);
    assert_eq!(g.edges.len(), 0);
    assert!(analyze_degrees(&g).is_empty());
    assert!(compute_centrality(&g).is_empty());
    assert!(analyze_similarity(&g).is_none());
    assert!(compute_shortest_paths(&g, 10).is_none());
}

#[test]
fn single_node_gives_no_pair_and_no_data() {
    let g = build_player_graph(&vec![rec("Alice", "Lakers", "2020")]);
    assert_eq!(g.nodes.len(), 1);
    assert!(analyze_similarity(&g).is_none());
    assert!(compute_shortest_paths(&g, 10).is_none());
    let scores = compute_centrality(&g);
    assert_eq!(as_f64(&scores[0]), 0.0);
}

#[test]
fn complete_graph_centrality_is_one() {
    let records = vec![
        rec("Alice", "Lakers", "2020"),
        rec("Bob", "Lakers", "2020"),
        rec("Carol", "Lakers", "2020"),
        rec("Dave", "Lakers", "2020"),
    ];
    let g = build_player_graph(&records);
    assert_eq!(g.edges.len(), 6);
    let scores = compute_centrality(&g);
    for r in scores.iter() {
        assert_eq!(as_f64(r), 1.0);
    }
}

#[test]
fn complete_graph_sampled_mean_is_one() {
    let records = vec![
        rec("Alice", "Lakers", "2020"),
        rec("Bob", "Lakers", "2020"),
        rec("Carol", "Lakers", "2020"),
        rec("Dave", "Lakers", "2020"),
    ];
    let g = build_player_graph(&records);
    // every distinct pair sits at distance one, so any sample averages to
    // exactly 1.0, whatever the random draws were
    for sample_size in [1usize, 5, 50] {
        let r = compute_shortest_paths(&g, sample_size).expect("connected pairs exist");
        assert_eq!(as_f64(&r), 1.0);
        assert!(r.den >= 1 && r.den <= sample_size);
    }
}

#[test]
fn identical_neighbor_sets_score_one() {
    // Alice and Bob never meet, but both played with Carol
    let records = vec![
        rec("Alice", "Lakers", "2020"),
        rec("Carol", "Lakers", "2020"),
        rec("Bob", "Heat", "2021"),
        rec("Carol", "Heat", "2021"),
    ];
    let g = build_player_graph(&records);
    let names: Vec<&str> = g.nodes.iter().map(|s| s.as_str()).collect();
    assert_eq!(names, vec!["Alice", "Carol", "Bob"]);
    let r = jaccard_score(&g, 0, 2);
    assert_eq!(as_f64(&r), 1.0);
    let sim = analyze_similarity(&g).expect("three nodes give a pair");
    assert_eq!(sim.first, "Alice");
    assert_eq!(sim.second, "Bob");
    assert_eq!(as_f64(&sim.score), 1.0);
}

#[test]
fn shortest_distances_on_a_path() {
    // Alice-Bob share a roster, Bob-Carol share another; Dave is alone
    let records = vec![
        rec("Alice", "Lakers", "2020"),
        rec("Bob", "Lakers", "2020"),
        rec("Bob", "Heat", "2021"),
        rec("Carol", "Heat", "2021"),
        rec("Dave", "Suns", "2022"),
    ];
    let g = build_player_graph(&records);
    let dist = shortest_distances(&g, 0);
    assert_eq!(dist, vec![Some(0), Some(1), Some(2), None]);
    assert_eq!(node_degree(&g, 1), 2);
    assert_eq!(node_degree(&g, 3), 0);
}

#[test]
fn average_distance_skips_disconnected_pairs() {
    let records = vec![
        rec("Alice", "Lakers", "2020"),
        rec("Bob", "Lakers", "2020"),
        rec("Carol", "Suns", "2021"),
    ];
    let g = build_player_graph(&records);
    // (Alice, Bob) sits at distance one; (Alice, Carol) is disconnected
    let pairs = vec![(0usize, 1usize), (0usize, 2usize)];
    let r = average_distance_of_pairs(&g, &pairs).expect("one pair connects");
    assert_eq!((r.num, r.den), (1, 1));
    // no connected pair at all
    let lonely = vec![(0usize, 2usize)];
    assert!(average_distance_of_pairs(&g, &lonely).is_none());
}

#[test]
fn path_graph_mean_distance() {
    let records = vec![
        rec("Alice", "Lakers", "2020"),
        rec("Bob", "Lakers", "2020"),
        rec("Bob", "Heat", "2021"),
        rec("Carol", "Heat", "2021"),
    ];
    let g = build_player_graph(&records);
    let pairs = vec![(0usize, 1usize), (0usize, 2usize), (1usize, 2usize)];
    let r = average_distance_of_pairs(&g, &pairs).expect("all pairs connect");
    // distances 1, 2, 1 -> mean 4/3
    assert_eq!((r.num, r.den), (4, 3));
}

#[test]
fn binning_groups_ten_degrees_per_bar() {
    let hist = vec![1usize, 2, 3, 4, 5, 6, 7, 8, 9, 10, 11, 12];
    let bins = bin_counts(&hist, 10);
    assert_eq!(bins, vec![55, 23]);
    let empty: Vec<usize> = Vec::new();
    assert!(bin_counts(&empty, 10).is_empty());
    let small = vec![4usize, 2];
    assert_eq!(bin_counts(&small, 10), vec![6]);
}

#[test]
fn distinct_count_ignores_repeats() {
    let items = vec![
        "Alice".to_string(),
        "Bob".to_string(),
        "Alice".to_string(),
        "Carol".to_string(),
        "Bob".to_string(),
    ];
    assert_eq!(distinct_count(&items), 3);
    assert_eq!(distinct_count(&Vec::new()), 0);
}

#[test]
fn weights_accumulate_per_shared_group() {
    // Alice and Bob share three seasons, Bob and Carol one
    let records = vec![
        rec("Alice", "Lakers", "2019"),
        rec("Bob", "Lakers", "2019"),
        rec("Alice", "Lakers", "2020"),
        rec("Bob", "Lakers", "2020"),
        rec("Alice", "Heat", "2021"),
        rec("Bob", "Heat", "2021"),
        rec("Bob", "Suns", "2022"),
        rec("Carol", "Suns", "2022"),
    ];
    let g = build_player_graph(&records);
    assert_eq!(g.edges.len(), 2);
    assert!(g.edges.iter().any(|e| e.a == 0 && e.b == 1 && e.weight == 3));
    assert!(g.edges.iter().any(|e| e.a == 1 && e.b == 2 && e.weight == 1));
}

#[test]
fn connected_graph_sampler_always_reports() {
    // a path graph is connected, so "no data" is impossible whatever the draws
    let records = vec![
        rec("Alice", "Lakers", "2020"),
        rec("Bob", "Lakers", "2020"),
        rec("Bob", "Heat", "2021"),
        rec("Carol", "Heat", "2021"),
    ];
    let g = build_player_graph(&records);
    for sample_size in [1usize, 3, 25] {
        let r = compute_shortest_paths(&g, sample_size).expect("connected graph must yield a mean");
        let mean = as_f64(&r);
        assert!((1.0..=2.0).contains(&mean));
    }
}
