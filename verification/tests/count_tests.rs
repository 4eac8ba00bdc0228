use cube_homs::graph_maps::cube_maps::{combined_cube_maps, CubeMap};
use cube_homs::graph_maps::generate_maps_naive;
use cube_homs::graphs::cube::CubeGraph;
use cube_homs::graphs::extras::greene_sphere;

#[test]
fn test_counts_2cube_to_2cube() {
    // 2-cube -> 2-cube: 4^4 = 256 candidates examined, 84 valid.
    let cube = CubeGraph::new(2);
    let (maps, total) = generate_maps_naive(&cube, &cube);
    assert_eq!(total, 256);
    assert_eq!(maps.len(), 84);
}

#[test]
fn test_counts_2cube_to_greene_sphere() {
    // 2-cube -> ten-vertex test graph: 10^4 candidates, 442 valid.
    let cube = CubeGraph::new(2);
    let target = greene_sphere();
    let (maps, total) = generate_maps_naive(&cube, &target);
    assert_eq!(total, 10_000);
    assert_eq!(maps.len(), 442);
}

#[test]
fn test_combination_parity_2cube_cube_target() {
    // The combination engine, fed all 1-cube maps, produces exactly as many
    // 2-cube maps as brute force finds.
    let cube1 = CubeGraph::new(1);
    let cube2 = CubeGraph::new(2);
    let brute = generate_maps_naive(&cube2, &cube2).0.len();
    let lower = generate_maps_naive(&cube1, &cube2)
        .0
        .into_iter()
        .map(CubeMap::from_map)
        .collect::<Vec<_>>();
    let combined = combined_cube_maps(&lower);
    assert_eq!(combined.len(), brute);
}

#[test]
fn test_combination_parity_2cube_sphere_target() {
    // The same parity against a second, distinct target graph.
    let cube1 = CubeGraph::new(1);
    let cube2 = CubeGraph::new(2);
    let target = greene_sphere();
    let brute = generate_maps_naive(&cube2, &target).0.len();
    let lower = generate_maps_naive(&cube1, &target)
        .0
        .into_iter()
        .map(CubeMap::from_map)
        .collect::<Vec<_>>();
    let combined = combined_cube_maps(&lower);
    assert_eq!(combined.len(), brute);
}

#[test]
fn test_counts_3cube_to_3cube_combined() {
    // 3-cube -> 3-cube has 15,488 homomorphisms; the combination engine
    // reaches that count from the 2-cube maps without examining the
    // (2^3)^(2^3) brute-force candidates.
    let cube2 = CubeGraph::new(2);
    let cube3 = CubeGraph::new(3);
    let lower = generate_maps_naive(&cube2, &cube3)
        .0
        .into_iter()
        .map(CubeMap::from_map)
        .collect::<Vec<_>>();
    let combined = combined_cube_maps(&lower);
    assert_eq!(combined.len(), 15_488);
}

#[test]
fn test_counts_3cube_to_greene_sphere_combined() {
    // 3-cube -> ten-vertex test graph has 22,762 homomorphisms, assembled
    // from the 442 valid 2-cube maps.
    let cube2 = CubeGraph::new(2);
    let target = greene_sphere();
    let lower = generate_maps_naive(&cube2, &target)
        .0
        .into_iter()
        .map(CubeMap::from_map)
        .collect::<Vec<_>>();
    assert_eq!(lower.len(), 442);
    let combined = combined_cube_maps(&lower);
    assert_eq!(combined.len(), 22_762);
}
