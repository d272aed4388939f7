use rtfsn::holonomy::samr::{PrimeChannel, SAMRState};
use rtfsn::holonomy::solver::defects_total_fits;
use rtfsn::net::topology::peer_graph;

fn check_graph_shape(p: &Vec<Vec<usize>>) {
    for (i, list) in p.iter().enumerate() {
        for (a, &x) in list.iter().enumerate() {
            assert!(x < p.len());
            assert_ne!(x, i, "no node lists itself");
            assert!(!list[a + 1..].contains(&x), "no peer listed twice");
            assert!(p[x].contains(&i), "links go both ways");
        }
    }
}

#[test]
fn peer_graph_nearest_then_drawn_then_back_links() {
    let lat: Vec<Vec<u64>> = vec![
        vec![0, 5, 1, 9],
        vec![5, 0, 2, 7],
        vec![1, 2, 0, 3],
        vec![9, 7, 3, 0],
    ];
    // Two peers each: the nearest one, then one drawn among the two others left.
    let picks: Vec<Vec<usize>> = vec![vec![1], vec![0], vec![0], vec![1]];
    let p = peer_graph(&lat, 2, &picks);
    assert_eq!(p, vec![vec![2, 3, 1], vec![2, 0], vec![0, 1, 3], vec![2, 0]]);
    check_graph_shape(&p);
}

#[test]
fn peer_graph_ties_by_index_and_repeated_draw_kept_once() {
    let n = 9;
    let lat: Vec<Vec<u64>> = vec![vec![10; n]; n];
    let mut picks: Vec<Vec<usize>> = vec![vec![0, 0]; n];
    picks[0] = vec![1, 1];
    let p = peer_graph(&lat, 8, &picks);
    assert_eq!(p[0][..7], [1, 2, 3, 4, 5, 6, 8]);
    assert_eq!(p[1][..7], [0, 2, 3, 4, 5, 6, 7]);
    check_graph_shape(&p);
}

#[test]
fn peer_graph_small_networks() {
    let p = peer_graph(&vec![vec![0]], 4, &vec![vec![]]);
    assert_eq!(p, vec![Vec::<usize>::new()]);
    let lat: Vec<Vec<u64>> = vec![vec![0, 3, 3], vec![3, 0, 1], vec![3, 1, 0]];
    let p = peer_graph(&lat, 4, &vec![vec![], vec![], vec![]]);
    assert_eq!(p, vec![vec![1, 2], vec![2, 0], vec![1, 0]]);
    check_graph_shape(&p);
}

#[test]
fn defect_sum_overflow_is_detected() {
    assert!(defects_total_fits(&[1, 2, 3]));
    assert!(defects_total_fits(&[]));
    assert!(defects_total_fits(&[u64::MAX]));
    assert!(!defects_total_fits(&[u64::MAX, 1]));
}

#[test]
fn crt_range_check() {
    assert!(SAMRState::clock_default().crt_fits_exec());
    let big = SAMRState {
        channels: vec![
            PrimeChannel::new(4_294_967_291),
            PrimeChannel::new(4_294_967_279),
            PrimeChannel::new(4_294_967_231),
        ],
    };
    assert!(!big.crt_fits_exec());
}
