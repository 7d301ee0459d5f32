use rmat_graph::graph::Graph;
use rmat_graph::parse::{parse_decimal, parse_values};
use rmat_graph::probabilities::{pick_quarter, select_quarter, ProbabilityError, Propabilities, SCALE};

fn uniform() -> Propabilities {
    Propabilities::new([SCALE / 4, SCALE / 4, SCALE / 4, SCALE / 4]).unwrap()
}

fn cells(g: &Graph) -> Vec<(usize, usize)> {
    let side = g.connections.len();
    let mut out = Vec::new();
    for r in 0..side {
        for c in 0..side {
            if g.get(r, c) {
                out.push((r, c));
            }
        }
    }
    out
}

#[test]
fn new_accepts_weights_summing_to_one() {
    let p = Propabilities::new([250_000_000, 250_000_000, 250_000_000, 250_000_000]).unwrap();
    assert_eq!(p.weights, [250_000_000; 4]);
}

#[test]
fn new_refuses_weights_not_summing_to_one() {
    let r = Propabilities::new([100_000_000, 200_000_000, 300_000_000, 300_000_000]);
    assert_eq!(r.unwrap_err(), ProbabilityError::BadSum);
    let r = Propabilities::new([u64::MAX, 1, 0, 0]);
    assert_eq!(r.unwrap_err(), ProbabilityError::BadSum);
}

#[test]
fn from_str_reads_uniform_list() {
    let p = Propabilities::from_str("[0.25, 0.25, 0.25, 0.25]").unwrap();
    assert_eq!(p.weights, [250_000_000; 4]);
}

#[test]
fn from_str_reads_exact_decimals() {
    let p = Propabilities::from_str("[0.1,0.2, 0.3 ,  0.4]").unwrap();
    assert_eq!(p.weights, [100_000_000, 200_000_000, 300_000_000, 400_000_000]);
    let p = Propabilities::from_str("[0.15, 0.2, 0.20, 0.45]").unwrap();
    assert_eq!(p.weights, [150_000_000, 200_000_000, 200_000_000, 450_000_000]);
}

#[test]
fn from_str_refuses_bad_sum() {
    let r = Propabilities::from_str("[0.1,0.2,0.3,0.3]");
    assert_eq!(r.unwrap_err(), ProbabilityError::BadSum);
}

#[test]
fn from_str_refuses_wrong_count() {
    let r = Propabilities::from_str("[0.5, 0.5]");
    assert_eq!(r.unwrap_err(), ProbabilityError::WrongCount);
    let r = Propabilities::from_str("[0.2, 0.2, 0.2, 0.2, 0.2]");
    assert_eq!(r.unwrap_err(), ProbabilityError::WrongCount);
}

#[test]
fn from_str_refuses_malformed() {
    let r = Propabilities::from_str("[0.1, x, 0.3, 0.4]");
    assert_eq!(r.unwrap_err(), ProbabilityError::Malformed);
    let r = Propabilities::from_str("[]");
    assert_eq!(r.unwrap_err(), ProbabilityError::Malformed);
    let r = Propabilities::from_str("[0.1, , 0.5, 0.4]");
    assert_eq!(r.unwrap_err(), ProbabilityError::Malformed);
}

#[test]
fn decimal_values() {
    let cases: Vec<(&str, Option<u64>)> = vec![
        ("0.15", Some(150_000_000)),
        ("1", Some(SCALE)),
        ("1.", Some(SCALE)),
        (".5", Some(500_000_000)),
        ("0.000000001", Some(1)),
        ("5", Some(2 * SCALE)),
        ("1.5", Some(1_500_000_000)),
        ("0.0000000001", None),
        (".", None),
        ("", None),
        ("1.2.3", None),
        ("0.2500000000", Some(250_000_000)),
        ("1.0000000000000", Some(SCALE)),
        ("0.1234567891", None),
        ("-0.5", None),
    ];
    for (text, expected) in cases {
        let b = text.as_bytes();
        assert_eq!(parse_decimal(b, 0, b.len()), expected, "{}", text);
    }
}

#[test]
fn values_of_list() {
    assert_eq!(parse_values(&b" [1, 2]\n"[..]), Some(vec![SCALE, 2 * SCALE]));
    assert_eq!(parse_values(&b"[0.5]"[..]), Some(vec![500_000_000]));
    assert_eq!(parse_values(&b"0.5"[..]), None);
    assert_eq!(parse_values(&b"[[1, 2]]"[..]), None);
    assert_eq!(parse_values(&b"[1,]"[..]), None);
    assert_eq!(parse_values(&b"[]"[..]), None);
}

#[test]
fn select_quarter_inverts_cumulative_weights() {
    let w = [100, 200, 300, 400];
    let none = [false; 4];
    assert_eq!(select_quarter(w, none, 0), 0);
    assert_eq!(select_quarter(w, none, 99), 0);
    assert_eq!(select_quarter(w, none, 100), 1);
    assert_eq!(select_quarter(w, none, 299), 1);
    assert_eq!(select_quarter(w, none, 300), 2);
    assert_eq!(select_quarter(w, none, 599), 2);
    assert_eq!(select_quarter(w, none, 600), 3);
    assert_eq!(select_quarter(w, none, 999), 3);
    let tried = [true, false, true, false];
    assert_eq!(select_quarter(w, tried, 0), 1);
    assert_eq!(select_quarter(w, tried, 199), 1);
    assert_eq!(select_quarter(w, tried, 200), 3);
}

#[test]
fn random_quarter_follows_weights() {
    let p = Propabilities::new([0, 0, 0, SCALE]).unwrap();
    for _ in 0..50 {
        assert_eq!(p.get_random_quarter(), 3);
    }
    let p = Propabilities::new([0, SCALE, 0, 0]).unwrap();
    for _ in 0..50 {
        assert_eq!(p.get_random_quarter(), 1);
    }
    let p = uniform();
    for _ in 0..50 {
        assert!(p.get_random_quarter() < 4);
    }
}

#[test]
fn next_quarter_skips_tried_and_folds() {
    let p = uniform();
    for _ in 0..50 {
        assert_eq!(p.next_quarter([true, true, false, true], false), 2);
        let q = p.next_quarter([false, true, false, false], true);
        assert!(q == 0 || q == 2 || q == 3);
    }
    let p = Propabilities::new([SCALE, 0, 0, 0]).unwrap();
    assert_eq!(p.next_quarter([true, false, false, false], false), 1);
}

#[test]
fn new_graph_is_empty() {
    let g = Graph::new(true, false, 3, uniform(), SCALE);
    assert_eq!(g.connections.len(), 8);
    assert!(cells(&g).is_empty());
    let s = g.get_stats();
    assert_eq!(s.edges, 0);
    assert_eq!(s.vertices, 8);
    assert_eq!(s.degrees, vec![0; 8]);
}

#[test]
fn poke_sets_one_cell_each_time() {
    let mut g = Graph::new(true, true, 2, uniform(), SCALE);
    for k in 1..=16 {
        assert!(g.poke());
        assert_eq!(cells(&g).len(), k);
    }
    assert!(!g.poke());
    assert_eq!(cells(&g).len(), 16);
}

#[test]
fn filled_region_refuses_placement() {
    let mut g = Graph::new(true, true, 2, uniform(), SCALE);
    g.set(0, 0);
    g.set(0, 1);
    g.set(1, 0);
    g.set(1, 1);
    let before = cells(&g);
    assert!(!g.poke_range(0, 0, 2, false));
    assert_eq!(cells(&g), before);
    assert!(g.poke_range(2, 2, 2, false));
    assert_eq!(cells(&g).len(), 5);
}

#[test]
fn diagonal_stays_empty_without_self_connections() {
    for n in 0..5 {
        for directed in [true, false] {
            let mut g = Graph::new(directed, false, n, uniform(), SCALE);
            g.fill();
            for i in 0..g.connections.len() {
                assert!(!g.get(i, i));
            }
        }
    }
}

#[test]
fn undirected_edge_counts_for_both_ends() {
    let mut g = Graph::new(false, false, 3, uniform(), SCALE);
    assert!(!g.is_fillable(2, 5));
    assert!(g.is_fillable(5, 2));
    g.set(5, 2);
    let s = g.get_stats();
    assert_eq!(s.edges, 1);
    assert_eq!(s.degrees, vec![0, 0, 1, 0, 0, 1, 0, 0]);
}

#[test]
fn directed_density_of_three_cells() {
    let mut g = Graph::new(true, true, 2, uniform(), SCALE);
    g.set(0, 1);
    g.set(2, 2);
    g.set(3, 0);
    let s = g.get_stats();
    assert_eq!(s.edges, 3);
    assert_eq!(s.vertices, 4);
    assert_eq!((s.density_num, s.density_den), (3, 16));
    assert_eq!(s.degrees, vec![1, 0, 1, 1]);
}

#[test]
fn density_formulas_by_class() {
    let mut g = Graph::new(true, false, 2, uniform(), SCALE);
    g.set(0, 1);
    let s = g.get_stats();
    assert_eq!((s.density_num, s.density_den), (1, 12));
    let mut g = Graph::new(false, true, 2, uniform(), SCALE);
    g.set(1, 0);
    let s = g.get_stats();
    assert_eq!((s.density_num, s.density_den), (2, 20));
    let mut g = Graph::new(false, false, 2, uniform(), SCALE);
    g.set(1, 0);
    let s = g.get_stats();
    assert_eq!((s.density_num, s.density_den), (2, 12));
    let g = Graph::new(false, false, 0, uniform(), SCALE);
    let s = g.get_stats();
    assert_eq!((s.density_num, s.density_den), (0, 0));
}

#[test]
fn full_density_fills_every_off_diagonal_cell() {
    let mut g = Graph::new(true, false, 2, uniform(), SCALE);
    assert_eq!(g.fill(), 12);
    for r in 0..4 {
        for c in 0..4 {
            assert_eq!(g.get(r, c), r != c);
        }
    }
    assert!(!g.poke());
}

#[test]
fn small_undirected_graph_end_to_end() {
    let p = Propabilities::from_str("[0.25,0.25,0.25,0.25]").unwrap();
    let mut g = Graph::new(false, true, 1, p, SCALE);
    assert_eq!(g.fill(), 3);
    assert_eq!(cells(&g), vec![(0, 0), (1, 0), (1, 1)]);
    let s = g.get_stats();
    assert_eq!(s.edges, 3);
    assert_eq!((s.density_num, s.density_den), (6, 6));
    assert_eq!(s.degrees, vec![2, 2]);
}

#[test]
fn fill_stops_at_target() {
    let mut g = Graph::new(true, true, 3, uniform(), SCALE / 2);
    assert_eq!(g.fill(), 32);
    assert_eq!(g.get_stats().edges, 32);
    let mut g = Graph::new(false, false, 3, uniform(), 400_000_000);
    assert_eq!(g.fill(), 11);
    assert_eq!(g.get_stats().edges, 11);
    let mut g = Graph::new(true, true, 2, uniform(), 0);
    assert_eq!(g.fill(), 0);
    assert!(cells(&g).is_empty());
}

#[test]
fn fill_keeps_earlier_edges_and_stops_when_full() {
    let mut g = Graph::new(false, true, 2, uniform(), SCALE);
    g.set(3, 0);
    g.set(2, 2);
    assert_eq!(g.fill(), 8);
    assert!(g.get(3, 0) && g.get(2, 2));
    assert_eq!(g.get_stats().edges, 10);
    for r in 0..4 {
        for c in 0..4 {
            assert_eq!(g.get(r, c), c <= r);
        }
    }
}

#[test]
fn skewed_weights_prefer_top_left() {
    let p = Propabilities::new([SCALE, 0, 0, 0]).unwrap();
    let mut g = Graph::new(true, true, 3, p, SCALE);
    assert!(g.poke());
    assert_eq!(cells(&g), vec![(0, 0)]);
    assert!(g.poke());
    assert_eq!(cells(&g).len(), 2);
}

#[test]
fn to_string_writes_rows() {
    let mut g = Graph::new(true, true, 1, uniform(), SCALE);
    g.set(0, 1);
    assert_eq!(g.to_string(), "0 1 \n0 0 \n");
    let g = Graph::new(true, true, 0, uniform(), SCALE);
    assert_eq!(g.to_string(), "0 \n");
}

#[test]
fn exponent_four_gives_sixteen_vertices() {
    let g = Graph::new(true, true, 4, uniform(), SCALE);
    assert_eq!(g.get_stats().vertices, 16);
}

#[test]
fn from_str_needs_one_pair_of_brackets() {
    for text in ["1,0,0,0", "[1,0,0,0", "1,0,0,0]", "[[1,0,0,0]]", "[1,0,0,0]]", "x[1,0,0,0]"] {
        assert_eq!(Propabilities::from_str(text).unwrap_err(), ProbabilityError::Malformed, "{}", text);
    }
    let p = Propabilities::from_str("  [1,0,0,0]\n").unwrap();
    assert_eq!(p.weights, [SCALE, 0, 0, 0]);
}

#[test]
fn from_str_trims_all_ascii_whitespace() {
    let p = Propabilities::from_str("\x0b[\x0b0.25,\t0.25 ,0.25\r, 0.2500000000\x0c]").unwrap();
    assert_eq!(p.weights, [250_000_000; 4]);
}

#[test]
fn pick_quarter_folds_top_right_onto_bottom_left() {
    let w = [100, 200, 300, 400];
    let tried = [false, true, false, false];
    assert_eq!(pick_quarter(w, tried, true, 0), 0);
    assert_eq!(pick_quarter(w, tried, true, 99), 0);
    assert_eq!(pick_quarter(w, tried, true, 100), 2);
    assert_eq!(pick_quarter(w, tried, true, 599), 2);
    assert_eq!(pick_quarter(w, tried, true, 600), 3);
    assert_eq!(pick_quarter(w, tried, true, 999), 3);
    assert_eq!(pick_quarter(w, [false; 4], false, 100), 1);
    assert_eq!(pick_quarter(w, [false; 4], false, 300), 2);
}

#[test]
fn pick_quarter_takes_first_untried_when_weightless() {
    let w = [SCALE, 0, 0, 0];
    assert_eq!(pick_quarter(w, [true, false, false, false], false, 0), 1);
    assert_eq!(pick_quarter(w, [true, true, false, false], true, 0), 2);
    assert_eq!(pick_quarter(w, [true, true, true, false], false, 0), 3);
}

#[test]
fn poke_range_off_the_diagonal() {
    let mut g = Graph::new(true, true, 2, uniform(), SCALE);
    for _ in 0..3 {
        assert!(g.poke_range(2, 0, 2, true));
    }
    assert!(!g.poke_range(2, 0, 2, true));
    assert_eq!(cells(&g), vec![(0, 2), (1, 2), (1, 3)]);
    let mut g = Graph::new(false, true, 2, uniform(), SCALE);
    assert!(!g.poke_range(2, 0, 2, false));
    assert!(cells(&g).is_empty());
}
