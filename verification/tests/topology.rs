use astrum_memory::topology_24cell::Topology24Cell;

#[test]
fn test_24cell_structure() {
    let topo = Topology24Cell::new();
    assert_eq!(topo.cells().len(), 24);

    let core = topo.get_cell(1).unwrap();
    assert_eq!(core.name, "self_core");
    assert!(core.neighbors.len() >= 8);

    assert!(topo.is_4d_neighbor(1, 2)); // self_core <-> primary_bond
    assert_eq!(topo.topological_boost(1, 1), 100);
    assert_eq!(topo.topological_boost(1, 2), 90);
}

#[test]
fn test_adjacency_is_symmetric() {
    // Undirected graph invariant: A neighbor of B  <=>  B neighbor of A.
    let topo = Topology24Cell::new();
    for a in 1u8..=24 {
        let cell = topo.get_cell(a).unwrap();
        for &b in &cell.neighbors {
            assert!(
                topo.is_4d_neighbor(b, a),
                "asymmetry: {a} lists {b} but {b} does not list {a}"
            );
        }
    }
}

#[test]
fn boost_is_symmetric_and_graded() {
    let topo = Topology24Cell::default();
    for a in 0u8..=26 {
        for b in 0u8..=26 {
            assert_eq!(topo.topological_boost(a, b), topo.topological_boost(b, a));
        }
    }
    // same cell, neighbor, distant
    assert_eq!(topo.topological_boost(7, 7), 100);
    let far = (1u8..=24).find(|&b| b != 1 && !topo.is_4d_neighbor(1, b)).unwrap();
    assert_eq!(topo.topological_boost(1, far), 80);
}

#[test]
fn unknown_cells_have_no_neighbors() {
    let topo = Topology24Cell::new();
    assert!(topo.get_cell(0).is_none());
    assert!(topo.get_cell(25).is_none());
    assert!(!topo.is_4d_neighbor(0, 1));
    assert!(!topo.is_4d_neighbor(25, 1));
    assert_eq!(topo.len(), 24);
}

#[test]
fn topology_from_cells_requires_increasing_ids() {
    let topo = Topology24Cell::new();
    let cells = topo.cells().clone();
    assert!(Topology24Cell::from_cells(cells.clone()).is_some());
    let mut swapped = cells.clone();
    swapped.swap(0, 1);
    assert!(Topology24Cell::from_cells(swapped).is_none());
}
