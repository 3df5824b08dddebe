use code_2015::optimizer::EngineError;
use code_2015::routes::{route_permutation, Location, Route, RouteMap};

fn routes_of(lines: &[&str]) -> Vec<Route> {
    lines.iter().map(|s| Route::from_str(s).unwrap()).collect()
}

#[test]
fn test_single_route_distance() {
    let routes = routes_of(&["Tristram to Arbre = 132"]);
    let map = RouteMap::new(routes);
    assert_eq!(map.shortest_route().unwrap(), 132);
    assert_eq!(map.longest_route().unwrap(), 132);
}

#[test]
fn test_three_routes_distance() {
    let routes = routes_of(&[
        "Tristram to Arbre = 132",
        "Tristram to Faerun = 21",
        "Arbre to Faerun = 15",
    ]);
    let map = RouteMap::new(routes);
    assert_eq!(map.shortest_route().unwrap(), 36);
    assert_eq!(map.longest_route().unwrap(), 153);
}

#[test]
fn route_lines_are_read_exactly() {
    assert_eq!(
        Route::from_str("Snowdin to Tambi = 7").unwrap(),
        Route { from: Location::Snowdin, to: Location::Tambi, distance: 7 }
    );
    let e = Route::from_str("Snowdin to Nowhere = 7").unwrap_err();
    assert_eq!(e.message, "parse Route from: \"Snowdin to Nowhere = 7\" failed");
    assert!(Route::from_str("Snowdin to Tambi = 4294967296").is_err());
    assert_eq!(Route::from_str("Snowdin to Tambi = 4294967295").unwrap().distance, u32::MAX);
    assert!(Route::from_str("Snowdin to Tambi = x").is_err());
    let e = Location::from_str("tristram").unwrap_err();
    assert_eq!(e.message, "parse Location from: \"tristram\" failed");
}

#[test]
fn no_route_without_two_places() {
    let map = RouteMap::new(Vec::new());
    assert_eq!(map.shortest_route(), Err(EngineError::EmptyUniverse));
    assert_eq!(map.longest_route(), Err(EngineError::EmptyUniverse));
}

#[test]
fn missing_distance_is_reported() {
    let routes = routes_of(&["Tristram to Arbre = 1", "Faerun to Norrath = 2"]);
    let map = RouteMap::new(routes);
    assert_eq!(
        map.shortest_route(),
        Err(EngineError::MissingWeight { from: 0, to: 4 })
    );
}

#[test]
fn orderings_of_few_places() {
    assert_eq!(route_permutation(Vec::new()), Vec::<Vec<usize>>::new());
    assert_eq!(route_permutation(vec![4]), vec![vec![4]]);
    assert_eq!(route_permutation(vec![4, 7]), vec![vec![4, 7], vec![7, 4]]);
    assert_eq!(route_permutation(vec![1, 2, 3]).len(), 6);
}
