use cube_homs::graph_maps::cube_maps::{
    combined_cube_maps, d, get_valid_graph_map, put_bit, CubeMap,
};
use cube_homs::graph_maps::generate_maps_naive;
use cube_homs::graphs::cube::CubeGraph;
use cube_homs::graphs::extras::greene_sphere;

#[test]
fn test_put_bit() {
    // put_bit inserts a bit at position `pos`, shifting higher bits left

    // Insert 0 at position 0 of 0b101 (5) -> 0b1010 (10)
    assert_eq!(
        put_bit(0b101, 0, 0),
        0b1010,
        "Inserting 0 at position 0 should shift all bits left"
    );

    // Insert 1 at position 0 of 0b101 (5) -> 0b1011 (11)
    assert_eq!(
        put_bit(0b101, 0, 1),
        0b1011,
        "Inserting 1 at position 0 should add bit at position 0"
    );

    // Insert 0 at position 1 of 0b101 (5) -> 0b1001 (9)
    // Original: _ 1 0 1
    // Result:   1 0 0 1
    assert_eq!(
        put_bit(0b101, 1, 0),
        0b1001,
        "Inserting 0 at position 1 should preserve lower bit, insert 0, shift upper bits"
    );

    // Insert 1 at position 1 of 0b101 (5) -> 0b1011 (11)
    // Original: _ 1 0 1
    // Result:   1 0 1 1
    assert_eq!(
        put_bit(0b101, 1, 1),
        0b1011,
        "Inserting 1 at position 1 should preserve lower bit, insert 1, shift upper bits"
    );

    // Insert 1 at position 2 of 0b11 (3) -> 0b111 (7)
    // Original: _ _ 1 1
    // Result:   _ 1 1 1
    assert_eq!(
        put_bit(0b11, 2, 1),
        0b111,
        "Inserting 1 at position 2 should preserve lower 2 bits and add bit at position 2"
    );

    // Insert 0 at position 0 of 0 -> 0
    assert_eq!(put_bit(0, 0, 0), 0, "Inserting 0 into 0 should give 0");

    // Insert 1 at position 0 of 0 -> 1
    assert_eq!(put_bit(0, 0, 1), 1, "Inserting 1 into 0 should give 1");

    // Insert at higher positions
    // Insert 1 at position 3 of 0b111 (7) -> 0b1111 (15)
    assert_eq!(
        put_bit(0b111, 3, 1),
        0b1111,
        "Inserting 1 at position 3 of 0b111 should give 0b1111"
    );
}

#[test]
fn test_d_i_cube() {
    arbtest::arbtest(|u| {
        let dim = 3;
        let source = CubeGraph::new(dim);
        let target = greene_sphere();

        let map = get_valid_graph_map(&source, &target, u.arbitrary()?)
            .expect("a valid map exists for every reflexive target");
        let dn_map_pos = CubeMap::from_map(d(&map, dim - 1, true));
        let dn_map_neg = CubeMap::from_map(d(&map, dim - 1, false));
        let same = dn_map_neg.verts_vec() == dn_map_pos.verts_vec();
        let recombined_map = dn_map_neg.try_combine(&dn_map_pos, same);

        if recombined_map.is_err() {
            panic!(
                "Failed to recombine maps: {:?} {:?} {:?}",
                recombined_map.err().unwrap(),
                dn_map_neg.verts_vec(),
                dn_map_pos.verts_vec(),
            );
        }
        let recombined_map = recombined_map.unwrap().0;

        assert!(
            recombined_map.verts_vec() == map.verts_vec(),
            "Recombined map does not match original map {:?} vs {:?}",
            recombined_map.verts_vec(),
            map.verts_vec()
        );
        Ok(())
    });
}

#[test]
fn test_2cube_gsphere_combined() {
    let n = 2;

    let source = CubeGraph::new(n);
    let cube_prev = CubeGraph::new(n - 1);
    let target = greene_sphere();
    let (cube_prev_maps, _) = generate_maps_naive(&cube_prev, &target);
    let cube_prev_maps = cube_prev_maps
        .into_iter()
        .map(CubeMap::from_map)
        .collect::<Vec<_>>();
    let cube_n_combined_maps = combined_cube_maps(&cube_prev_maps);

    let cube_n_naive_maps = generate_maps_naive(&source, &target).0;

    assert!(
        cube_n_combined_maps.len() == cube_n_naive_maps.len(),
        "num maps combined was {}, but naive was {}",
        cube_n_combined_maps.len(),
        cube_n_naive_maps.len()
    );
}

#[test]
fn test_degeneracy_propagation() {
    // Combining two identical maps yields a result degenerate in the newly
    // introduced coordinate; combining two distinct maps yields that
    // coordinate non-degenerate.
    let cube1 = CubeGraph::new(1);
    let target = CubeGraph::new(2);

    let m1 = cube_homs::graph_maps::VertGraphMap::try_new(cube1, target, &[0u32, 1]).unwrap();
    let m2 = cube_homs::graph_maps::VertGraphMap::try_new(cube1, target, &[2u32, 3]).unwrap();
    let c1 = CubeMap::from_map(m1);
    let c2 = CubeMap::from_map(m2);

    // Self-combination: the new coordinate is degenerate.
    let (self_comb, _) = c1.try_combine(&c1, true).unwrap();
    assert_eq!(self_comb.degeneracies().last(), Some(&true));

    // Distinct maps: (0,2) and (1,3) are codomain edges, so they combine,
    // and the new coordinate is non-degenerate.
    let (mixed, mirror) = c1.try_combine(&c2, false).unwrap();
    assert_eq!(mixed.degeneracies().last(), Some(&false));
    assert_eq!(mirror.degeneracies().last(), Some(&false));
    assert_eq!(mixed.verts_vec(), &vec![0u32, 1, 2, 3]);
    assert_eq!(mirror.verts_vec(), &vec![2u32, 3, 0, 1]);
}

#[test]
fn test_face_degeneracy_detection() {
    // A map constant in one coordinate is degenerate exactly there.
    let cube2 = CubeGraph::new(2);
    let target = CubeGraph::new(2);
    // f(00)=0, f(01)=1, f(10)=0, f(11)=1: ignores bit 1, uses bit 0.
    let m = cube_homs::graph_maps::VertGraphMap::try_new(cube2, target, &[0u32, 1, 0, 1]).unwrap();
    let cm = CubeMap::from_map(m);
    assert_eq!(cm.degeneracies(), &vec![false, true]);
    assert_eq!(cm.dim(), 2);
}
