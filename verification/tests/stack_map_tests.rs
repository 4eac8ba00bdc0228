use cube_homs::graph_maps::cube_maps::get_valid_graph_map;
use cube_homs::graph_maps::permutation_generator::PermutationIterator;
use cube_homs::graph_maps::stack_map::{check_fits, slice_convert, StackGraphMap};
use cube_homs::graph_maps::GraphMapError;
use cube_homs::graphs::cube::CubeGraph;
use cube_homs::graphs::extras::greene_sphere;
use cube_homs::graphs::UGraph;

#[test]
fn test_vert_to_stack_to_vert_u32() {
    arbtest::arbtest(|u| {
        let dim = 2;
        let source = CubeGraph::new(dim);
        let target = greene_sphere();

        // Check that the conversion fits in 32 bits
        if !check_fits(32, source.n(), target.n()) {
            return Ok(()); // Skip if doesn't fit
        }

        let original_map = get_valid_graph_map(&source, &target, u.arbitrary()?).unwrap();
        let original_verts = original_map.verts_vec().clone();

        // Convert expanded -> packed -> expanded
        let stack_map = StackGraphMap::from_vert_map(original_map, 32).unwrap();
        let roundtrip_map = stack_map.to_vert_map();

        assert_eq!(
            &original_verts,
            roundtrip_map.verts_vec(),
            "Roundtrip conversion failed: original {:?} != roundtrip {:?}",
            original_verts,
            roundtrip_map.verts_vec()
        );

        Ok(())
    });
}

#[test]
fn test_vert_to_stack_to_vert_u64() {
    arbtest::arbtest(|u| {
        let dim = 2;
        let source = CubeGraph::new(dim);
        let target = greene_sphere();

        // 64 bits always fit for these small graphs
        assert!(check_fits(64, source.n(), target.n()));

        let original_map = get_valid_graph_map(&source, &target, u.arbitrary()?).unwrap();
        let original_verts = original_map.verts_vec().clone();

        // Convert expanded -> packed -> expanded
        let stack_map = StackGraphMap::from_vert_map(original_map, 64).unwrap();
        let roundtrip_map = stack_map.to_vert_map();

        assert_eq!(
            &original_verts,
            roundtrip_map.verts_vec(),
            "Roundtrip conversion failed: original {:?} != roundtrip {:?}",
            original_verts,
            roundtrip_map.verts_vec()
        );

        Ok(())
    });
}

#[test]
fn test_check_fits() {
    // Test check_fits with various widths

    // 32 bits:
    // codomain_n=2, domain_n=32 needs 32 bits (1 bit per vertex) - should fit
    assert!(check_fits(32, 32, 2));

    // codomain_n=2, domain_n=33 needs 33 bits - should NOT fit
    assert!(!check_fits(32, 33, 2));

    // codomain_n=4 needs 2 bits per vertex, domain_n=16 needs 32 bits - should fit
    assert!(check_fits(32, 16, 4));

    // codomain_n=4, domain_n=17 needs 34 bits - should NOT fit
    assert!(!check_fits(32, 17, 4));

    // Need this for the ten-vertex test graph with 5-cube vertices
    assert!(check_fits(128, 10, 32));

    // 64 bits:
    // codomain_n=2, domain_n=64 needs 64 bits - should fit
    assert!(check_fits(64, 64, 2));

    // codomain_n=2, domain_n=65 needs 65 bits - should NOT fit
    assert!(!check_fits(64, 65, 2));

    // Edge cases
    assert!(check_fits(32, 0, 0));
    assert!(check_fits(32, 0, 100));
    assert!(check_fits(32, 100, 0));

    // 8 bits:
    assert!(check_fits(8, 8, 2)); // 8 bits for binary
    assert!(!check_fits(8, 9, 2)); // 9 bits doesn't fit
    assert!(check_fits(8, 4, 4)); // 4 vertices, 4 possible values = 2 bits each = 8 bits
    assert!(!check_fits(8, 5, 4)); // 5 vertices would need 10 bits

    // 16 bits:
    assert!(check_fits(16, 16, 2));
    assert!(!check_fits(16, 17, 2));
}

#[test]
fn test_slice_convert_exact_value() {
    // 3 + 1*4 + 2*16 = 39 in base 4, least-significant digit first
    assert_eq!(slice_convert(&[3, 1, 2], 4), 39);
    // Unpacking 39 in base 4 gives the digits back
    let mut it = PermutationIterator::new(39, 4, 3);
    assert_eq!(it.next(), Some(3));
    assert_eq!(it.next(), Some(1));
    assert_eq!(it.next(), Some(2));
    assert_eq!(it.next(), None);
}

#[test]
fn test_stack_try_from_with_workspace() {
    // Packed construction validates incrementally, filling the caller's
    // scratch buffer with the images as they are checked.
    let cube = CubeGraph::new(2);
    let mut workspace = vec![0u32; 4];
    let sm = StackGraphMap::try_from(cube, cube, &[0, 1, 2, 3], &mut workspace, 32).unwrap();
    assert_eq!(workspace, vec![0, 1, 2, 3]);
    let back = sm.to_vert_map();
    assert_eq!(back.verts_vec(), &vec![0u32, 1, 2, 3]);

    // A bad edge is rejected with the offending pair: vertex 1's earlier
    // neighbor 0 maps to the non-edge (3, 0).
    let mut workspace = vec![0u32; 4];
    match StackGraphMap::try_from(cube, cube, &[0, 3, 1, 2], &mut workspace, 32) {
        Err(GraphMapError::BadEdge(i, j, mi, mj)) => {
            assert_eq!((i, j, mi, mj), (1, 0, 3, 0));
        }
        other => panic!("Expected BadEdge, got {other:?}"),
    }
}

#[test]
fn test_encoding_overflow_detected() {
    // A 3-cube into the ten-vertex test graph needs 8 * 4 = 32 bits; a
    // 16-bit width must be rejected before construction.
    let source = CubeGraph::new(3);
    let target = greene_sphere();
    assert!(!check_fits(16, source.n(), target.n()));
    let map = get_valid_graph_map(&source, &target, 7).unwrap();
    match StackGraphMap::from_vert_map(map, 16) {
        Err(GraphMapError::EncodingOverflow) => {}
        other => panic!("Expected EncodingOverflow, got {other:?}"),
    }
}
