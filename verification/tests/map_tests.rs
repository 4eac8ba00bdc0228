use cube_homs::graph_maps::{GraphMapError, VertGraphMap};
use cube_homs::graphs::cube::CubeGraph;
use cube_homs::graphs::extras::greene_sphere;
use cube_homs::graphs::graph_map;
use cube_homs::graphs::UGraph;

#[test]
fn mod_test_graph_map() {
    let cube = CubeGraph::new(2);
    let gsphere_graph = greene_sphere();

    let id_2cube = VertGraphMap::try_new(cube, cube, &(0..cube.n()).collect::<Vec<u32>>());
    assert!(id_2cube.is_ok(), "{:?}", id_2cube);

    let id_2gsphere = VertGraphMap::try_new(
        gsphere_graph.clone(),
        gsphere_graph.clone(),
        &(0..gsphere_graph.n()).collect::<Vec<_>>(),
    );
    assert!(id_2gsphere.is_ok());

    let neg_gsphere = VertGraphMap::try_new(
        gsphere_graph.clone(),
        gsphere_graph.clone(),
        &(0..gsphere_graph.n()).rev().collect::<Vec<u32>>(),
    );
    assert!(neg_gsphere.is_ok());
}

#[test]
fn mod_test_graph_map_bad_edge() {
    let cube = CubeGraph::new(2);

    // 2-cube vertices and their neighbors:
    // 0: [0,1,2] (connected to 1 and 2, differs by one bit)
    // 1: [0,1,3]
    // 2: [0,2,3]
    // 3: [1,2,3]
    //
    // Map [0,3,1,2]: This should fail because:
    // - Vertex 0 has edge to vertex 1 in domain
    // - But f(0)=0 and f(1)=3, and (0,3) is NOT an edge in 2-cube
    //   (0=00b and 3=11b differ by 2 bits, not 1)
    let mapping = vec![0, 3, 1, 2];
    let invalid_map = VertGraphMap::try_new(cube, cube, &mapping);

    match invalid_map {
        Err(GraphMapError::BadEdge(_v1, _v2, _m1, _m2)) => {
            // Expected error
        }
        Err(GraphMapError::InvalidMap(msg)) => {
            panic!("Expected BadEdge, got InvalidMap: {msg}");
        }
        _ => {
            panic!(
                "Expected BadEdge error, but GraphMap was created successfully.\n\
                 Mapping: {mapping:?}"
            );
        }
    }
}

#[test]
fn mod_test_graph_map_invalid_length() {
    let cube = CubeGraph::new(2);

    // 2-cube has 4 vertices, but we provide only 3 mappings
    let mapping = vec![0, 1, 2];
    let invalid_map = VertGraphMap::try_new(cube, cube, &mapping);

    match invalid_map {
        Err(GraphMapError::InvalidMap(_msg)) => {
            // Expected error
        }
        Err(GraphMapError::BadEdge(v1, v2, _m1, _m2)) => {
            panic!(
                "Expected InvalidMap (wrong length), got BadEdge({v1}, {v2}).\n\
                 Mapping length: {}, Domain vertices: {}",
                mapping.len(),
                cube.n()
            );
        }
        _ => {
            panic!(
                "Expected InvalidMap error, but GraphMap was created successfully.\n\
                 Mapping: {mapping:?}, Domain vertices: {}",
                cube.n()
            );
        }
    }
}

#[test]
fn mod_test_graph_map_out_of_range() {
    let cube2 = CubeGraph::new(2);
    let cube3 = CubeGraph::new(3);

    // Try to map 2-cube (4 vertices) to 3-cube (8 vertices) with a vertex out of range
    // Using vertex 10 which doesn't exist in the 3-cube (only has vertices 0-7)
    let mapping = vec![0, 1, 2, 10];
    let invalid_map = VertGraphMap::try_new(cube2, cube3, &mapping);

    match invalid_map {
        Err(GraphMapError::InvalidMap(_msg)) => {
            // Expected error
        }
        Err(GraphMapError::BadEdge(_v1, _v2, _m1, _m2)) => {
            panic!(
                "Expected InvalidMap (out of range), got {invalid_map:?}.\n\
                 Mapping: {mapping:?}, Codomain vertices: 0-{}",
                cube3.n() - 1
            );
        }
        _ => {
            panic!(
                "Expected InvalidMap error, but GraphMap was created successfully.\n\
                 Mapping: {mapping:?}, Codomain vertices: 0-{}",
                cube3.n() - 1
            );
        }
    }
}

#[test]
fn graph_map_test_graph_map() {
    let cube = CubeGraph::new(2);
    let gsphere_graph = greene_sphere();

    let id_2cube = graph_map::GraphMap::try_new(&cube, &cube, vec![0, 1, 2, 3]);
    assert!(id_2cube.is_ok());

    let id_2gsphere = graph_map::GraphMap::try_new(
        &gsphere_graph,
        &gsphere_graph,
        (0..gsphere_graph.n()).collect(),
    );
    assert!(id_2gsphere.is_ok());

    let neg_gsphere = graph_map::GraphMap::try_new(
        &gsphere_graph,
        &gsphere_graph,
        (0..gsphere_graph.n()).rev().collect(),
    );
    assert!(neg_gsphere.is_ok());
}

#[test]
fn graph_map_test_graph_map_bad_edge() {
    let cube = CubeGraph::new(2);

    // Map [0,3,1,2]: This should fail because:
    // - Vertex 0 has edge to vertex 1 in domain
    // - But f(0)=0 and f(1)=3, and (0,3) is NOT an edge in 2-cube
    //   (0=00b and 3=11b differ by 2 bits, not 1)
    let mapping = vec![0, 3, 1, 2];
    let invalid_map = graph_map::GraphMap::try_new(&cube, &cube, mapping.clone());

    match invalid_map {
        Err(graph_map::GraphMapError::BadEdge(v1, v2)) => {
            println!("Got expected BadEdge({v1}, {v2})");
            println!("  Domain edge: ({v1}, {v2})");
            println!(
                "  Would map to: ({}, {}) in codomain",
                mapping[v1 as usize], mapping[v2 as usize]
            );
            // The violation identifies exactly the offending domain edge:
            // the scan reaches vertex 1 first and its earlier neighbor 0.
            assert_eq!((v1, v2), (1, 0));
        }
        Err(graph_map::GraphMapError::InvalidMap(msg)) => {
            panic!("Expected BadEdge, got InvalidMap: {msg}");
        }
        Ok(_) => {
            panic!("Expected BadEdge error, but GraphMap was created successfully with mapping {mapping:?}");
        }
    }
}

#[test]
fn graph_map_test_graph_map_invalid_length() {
    let cube = CubeGraph::new(2);

    // 2-cube has 4 vertices, but we provide only 3 mappings
    let mapping = vec![0, 1, 2];
    let invalid_map = graph_map::GraphMap::try_new(&cube, &cube, mapping.clone());

    match invalid_map {
        Err(graph_map::GraphMapError::InvalidMap(msg)) => {
            println!("Got expected InvalidMap: {msg}");
            println!(
                "  Mapping length: {}, Domain vertices: {}",
                mapping.len(),
                cube.n()
            );
        }
        Err(graph_map::GraphMapError::BadEdge(v1, v2)) => {
            panic!("Expected InvalidMap (wrong length), got BadEdge({v1}, {v2})");
        }
        Ok(_) => {
            panic!("Expected InvalidMap error, but GraphMap was created successfully with mapping {mapping:?}");
        }
    }
}

#[test]
fn graph_map_test_graph_map_out_of_range() {
    let cube2 = CubeGraph::new(2);
    let cube3 = CubeGraph::new(3);

    // Try to map 2-cube (4 vertices) to 3-cube (8 vertices) with a vertex out of range
    // Using vertex 10 which doesn't exist in the 3-cube (only has vertices 0-7)
    let mapping = vec![0, 1, 2, 10];
    let invalid_map = graph_map::GraphMap::try_new(&cube2, &cube3, mapping.clone());

    match invalid_map {
        Err(graph_map::GraphMapError::InvalidMap(msg)) => {
            println!("Got expected InvalidMap: {msg}");
            println!("  Mapping: {mapping:?}");
            println!(
                "  Codomain has {} vertices (0-{})",
                cube3.n(),
                cube3.n() - 1
            );
        }
        Err(graph_map::GraphMapError::BadEdge(v1, v2)) => {
            panic!("Expected InvalidMap (out of range), got BadEdge({v1}, {v2})");
        }
        Ok(_) => {
            panic!("Expected InvalidMap error, but GraphMap was created successfully with mapping {mapping:?}");
        }
    }
}

#[test]
fn bad_edge_identifies_hamming_distance_violation() {
    // An assignment mapping an existing domain edge to two codomain vertices
    // at Hamming distance greater than one is rejected, identifying exactly
    // that domain edge.
    let cube = CubeGraph::new(2);
    // Domain edge (2, 0): f(0) = 0 and f(2) = 3 are at Hamming distance 2.
    let mapping = vec![0, 1, 3, 2];
    match VertGraphMap::try_new(cube, cube, &mapping) {
        Err(GraphMapError::BadEdge(i, j, mi, mj)) => {
            assert_eq!((i, j), (2, 0));
            assert_eq!(mi, 3);
            assert_eq!(mj, 0);
        }
        other => panic!("Expected BadEdge, got {other:?}"),
    }
}
