use cube_homs::graphs::cube::{cube_share_edge, CubeGraph};
use cube_homs::graphs::extras::{greene_sphere, C_N_graph};
use cube_homs::graphs::{AdjMatrix, CSRGraph, UGraph};

#[test]
fn test_tryfrom_non_square_matrix() {
    // Create a non-square matrix (3 rows but row 1 has only 2 columns)
    let mat: AdjMatrix = vec![
        vec![true, false, true],
        vec![false, true], // Wrong length!
        vec![true, false, true],
    ];

    let result = CSRGraph::try_from(mat.clone());

    match result {
        Err(err) => {
            assert!(
                err.contains("square"),
                "Error should mention 'square', got: {err}"
            );
        }
        Ok(_) => {
            panic!(
                "Expected error for non-square matrix, but CSRGraph was created successfully.\n\
                 Matrix dimensions: {} rows\n\
                 Row 0 length: {}\n\
                 Row 1 length: {} (should be {})",
                mat.len(),
                mat[0].len(),
                mat[1].len(),
                mat.len()
            );
        }
    }
}

#[test]
fn test_tryfrom_missing_self_loop() {
    // Create a matrix missing a self-loop at position [1][1]
    let mat: AdjMatrix = vec![
        vec![true, false, false],
        vec![false, false, false], // Missing self-loop at [1][1]!
        vec![false, false, true],
    ];

    let result = CSRGraph::try_from(mat.clone());

    match result {
        Err(err) => {
            assert!(
                err.contains("identity") || err.contains("mat[1][1]"),
                "Error should mention identity relation or mat[1][1], got: {err}"
            );
        }
        Ok(_) => {
            let diagonal_info: Vec<String> = mat
                .iter()
                .enumerate()
                .map(|(i, row)| format!("mat[{i}][{i}] = {}", row[i]))
                .collect();
            panic!(
                "Expected error for missing self-loop, but CSRGraph was created successfully.\n\
                 Diagonal values:\n  {}",
                diagonal_info.join("\n  ")
            );
        }
    }
}

#[test]
fn test_tryfrom_non_symmetric_matrix() {
    // Create a non-symmetric matrix where mat[0][1] != mat[1][0]
    let mat: AdjMatrix = vec![
        vec![true, true, false],  // mat[0][1] = true
        vec![false, true, false], // mat[1][0] = false (asymmetric!)
        vec![false, false, true],
    ];

    let result = CSRGraph::try_from(mat.clone());

    match result {
        Err(err) => {
            assert!(
                err.contains("symmetric"),
                "Error should mention 'symmetric', got: {err}"
            );
        }
        Ok(_) => {
            panic!(
                "Expected error for non-symmetric matrix, but CSRGraph was created successfully.\n\
                 Asymmetry at: mat[0][1] = {}, mat[1][0] = {}",
                mat[0][1], mat[1][0]
            );
        }
    }
}

#[test]
fn test_tryfrom_valid_matrix() {
    // Test that a valid matrix successfully converts
    let mat: AdjMatrix = vec![
        vec![true, true, false],
        vec![true, true, true],
        vec![false, true, true],
    ];

    let result = CSRGraph::try_from(mat.clone());

    match result {
        Ok(graph) => {
            assert_eq!(graph.n(), 3, "Graph should have 3 vertices");

            // Verify the graph structure matches the matrix
            for i in 0..3u32 {
                let neighbors = graph.neighbors(i);

                for j in 0..3u32 {
                    let should_be_neighbor = mat[i as usize][j as usize];
                    let is_neighbor = neighbors.contains(&j);
                    assert_eq!(
                        is_neighbor, should_be_neighbor,
                        "Vertex {i} neighbor {j}: expected {should_be_neighbor}, got {is_neighbor}. Neighbors: {neighbors:?}"
                    );
                }
            }
        }
        Err(err) => {
            panic!("Expected successful conversion for valid matrix, got error: {err}");
        }
    }
}

#[test]
fn test_tryfrom_empty_matrix() {
    // Test edge case: empty matrix
    let mat: AdjMatrix = vec![];

    let result = CSRGraph::try_from(mat);

    match result {
        Ok(graph) => {
            assert_eq!(graph.n(), 0, "Empty graph should have 0 vertices");
        }
        Err(err) => {
            panic!("Expected successful conversion for empty matrix, got error: {err}");
        }
    }
}

#[test]
fn test_differ_by_one_bit() {
    assert!(cube_share_edge(0, 1));
    assert!(cube_share_edge(1, 0));
    assert!(cube_share_edge(3, 1));
    assert!(!cube_share_edge(1, 2));
}

#[test]
fn test_n_cube() {
    let cube = CubeGraph::new(2);

    assert_eq!(cube.n(), 4);

    // Define expected neighbors for each vertex
    let expected = [
        (0u32, vec![0, 1, 2]),
        (1u32, vec![0, 1, 3]),
        (2u32, vec![0, 2, 3]),
        (3u32, vec![1, 2, 3]),
    ];
    let expected_neighbors = expected
        .iter()
        .map(|(_v, neighbors)| neighbors.clone())
        .collect::<Vec<_>>();

    let cube_neighbors = (0..4).map(|v| cube.neighbors(v)).collect::<Vec<_>>();

    assert_eq!(cube_neighbors, expected_neighbors);
    // Check that all edges match expectations using is_edge
    assert!(
        expected.iter().all(|(v, neighbors)| {
            (0..4).all(|n| cube.is_edge(*v, n) == neighbors.contains(&n))
        }),
        "Edge structure doesn't match expected 2-cube connectivity"
    );
}

#[test]
fn test_into_adj_matrix() {
    let cube = CubeGraph::new(3);
    let n = cube.n() as usize;

    // Convert the cube to an AdjMatrix
    let adj_matrix: AdjMatrix = cube.to_matrix();

    // Check matrix dimensions
    assert_eq!(adj_matrix.len(), n, "Matrix should have {n} rows");
    for (i, row) in adj_matrix.iter().enumerate() {
        assert_eq!(row.len(), n, "Row {i} should have {n} columns");
    }

    // Check all self-loops are present (diagonal is true)
    for (i, row) in adj_matrix.iter().enumerate() {
        assert!(row[i], "Self-loop must exist at ({i}, {i})");
    }

    // Check symmetry
    for i in 0..n {
        for j in 0..n {
            assert_eq!(
                adj_matrix[i][j], adj_matrix[j][i],
                "Matrix must be symmetric: ({i}, {j}) != ({j}, {i})"
            );
        }
    }

    // Check edges are correct (vertices differ by one bit should be connected)
    for (i, row) in adj_matrix.iter().enumerate() {
        for (j, is_connected) in row.iter().enumerate() {
            let should_be_connected = i == j || cube_share_edge(i, j);
            assert_eq!(
                *is_connected, should_be_connected,
                "Edge ({i}, {j}): expected {should_be_connected}, got {}",
                *is_connected
            );
        }
    }
}

#[test]
fn test_roundtrip_conversion() {
    // Test that AdjMatrix -> CSRGraph -> AdjMatrix preserves the structure
    let original_cube = CubeGraph::new(2);
    let adj1: AdjMatrix = original_cube.to_matrix();

    let csr = CSRGraph::try_from(adj1.clone()).expect("Should convert to CSRGraph");
    let adj2: AdjMatrix = csr.to_matrix();

    // Check that both matrices are identical
    assert_eq!(
        adj1, adj2,
        "Roundtrip conversion should preserve matrix structure"
    );
}

#[test]
fn test_greene_sphere() {
    let greene_sphere = greene_sphere();
    let n = greene_sphere.n();
    assert_eq!(greene_sphere.neighbors(0u32), vec![0, 2, 4, 6, 8]);
    assert_eq!(greene_sphere.neighbors(n - 1), vec![1, 3, 5, 7, 9]);

    for i in 1..n - 1 {
        let prev = (i + n - 3) % ((n - 2) as i32) as u32 + 1;
        let next = ((i) % (n - 2)) as u32 + 1;
        let s = if i % 2 == 0 { 0 } else { n - 1 };
        assert_eq!(greene_sphere.degree(i), 4);
        assert!(
            greene_sphere.is_edge(i, prev),
            "{i}, {prev} were not neighbors"
        );
        assert!(greene_sphere.is_edge(i, next));
        assert!(greene_sphere.is_edge(i, s));
    }
}

#[test]
fn test_c_n_graph() {
    // Test C_3 (triangle cycle)
    let c3 = C_N_graph(3);
    assert_eq!(c3.n(), 3, "C_3 should have 3 vertices");

    // Each vertex in C_3 should have degree 3 (self-loop + 2 neighbors)
    for i in 0..3 {
        assert_eq!(c3.degree(i), 3, "Vertex {i} in C_3 should have degree 3");

        // Check self-loop
        assert!(c3.is_edge(i, i), "Vertex {i} should have a self-loop");

        // Check neighbors
        let next = (i + 1) % 3;
        let prev = (i + 2) % 3; // (i - 1 + 3) % 3
        assert!(
            c3.is_edge(i, next),
            "Vertex {i} should be connected to {next}"
        );
        assert!(
            c3.is_edge(i, prev),
            "Vertex {i} should be connected to {prev}"
        );
    }

    // Test C_4 (square cycle)
    let c4 = C_N_graph(4);
    assert_eq!(c4.n(), 4, "C_4 should have 4 vertices");

    for i in 0..4 {
        assert_eq!(c4.degree(i), 3, "Vertex {i} in C_4 should have degree 3");

        // Check that vertex is only connected to self, next, and previous
        let next = (i + 1) % 4;
        let prev = (i + 3) % 4; // (i - 1 + 4) % 4

        for j in 0..4 {
            let should_be_connected = j == i || j == next || j == prev;
            assert_eq!(
                c4.is_edge(i, j),
                should_be_connected,
                "C_4: Edge ({i}, {j}) should be {should_be_connected}"
            );
        }
    }

    // Test C_5 (pentagon cycle)
    let c5 = C_N_graph(5);
    assert_eq!(c5.n(), 5, "C_5 should have 5 vertices");

    // Verify cycle structure
    let expected_neighbors: Vec<Vec<u32>> = vec![
        vec![0, 1, 4], // Vertex 0: self, next (1), prev (4)
        vec![0, 1, 2], // Vertex 1: prev (0), self, next (2)
        vec![1, 2, 3], // Vertex 2: prev (1), self, next (3)
        vec![2, 3, 4], // Vertex 3: prev (2), self, next (4)
        vec![0, 3, 4], // Vertex 4: prev (3), self, next (0)
    ];

    for (i, expected) in expected_neighbors.iter().enumerate() {
        let actual: Vec<u32> = c5.neighbors(i as u32);
        assert_eq!(
            actual, *expected,
            "C_5: Vertex {i} neighbors mismatch. Expected: {expected:?}, Got: {actual:?}"
        );
    }

    // Verify symmetry
    for i in 0u32..5 {
        for j in 0u32..5 {
            assert_eq!(
                c5.is_edge(i, j),
                c5.is_edge(j, i),
                "C_5 should be symmetric: edge ({i}, {j}) != edge ({j}, {i})"
            );
        }
    }
}

#[test]
fn test_matrix_round_trip_greene_sphere() {
    // matrix -> graph -> matrix reproduces the original matrix exactly
    let g = greene_sphere();
    let mat = g.to_matrix();
    let g2 = CSRGraph::try_from(mat.clone()).expect("valid matrix");
    assert_eq!(g2.to_matrix(), mat);
}
