use nearest_points::key::distance_key;
use nearest_points::select::closest_positions;
use nearest_points::select::Strategy;
use rand::Rng;

fn random_point() -> (f64, f64, f64) {
    let mut rng = rand::thread_rng();
    (rng.gen_range(0.0..1.0), rng.gen_range(0.0..1.0), rng.gen_range(0.0..1.0))
}

fn distance(a: (f64, f64, f64), b: (f64, f64, f64)) -> f64 {
    ((a.0 - b.0).powi(2) + (a.1 - b.1).powi(2) + (a.2 - b.2).powi(2)).sqrt()
}

#[test]
fn many_random_points() {
    let count: usize = 1_000_000;
    let points: Vec<(f64, f64, f64)> = (0..count).map(|_| random_point()).collect();
    let query = random_point();
    let keys: Vec<u64> =
        points.iter().map(|p| distance_key(distance(query, *p).to_bits())).collect();
    let mut expected = keys.clone();
    expected.sort();
    expected.truncate(10);
    for strategy in [Strategy::Partition, Strategy::Streaming] {
        let positions = closest_positions(strategy, &keys, 10);
        assert_eq!(positions.len(), 10);
        let mut found: Vec<u64> = positions.iter().map(|p| keys[*p]).collect();
        found.sort();
        assert_eq!(found, expected);
        let worst = positions.iter().map(|p| distance(query, points[*p])).fold(0.0, f64::max);
        for (place, point) in points.iter().enumerate() {
            if !positions.contains(&place) {
                assert!(distance(query, *point) >= worst);
            }
        }
    }
}
