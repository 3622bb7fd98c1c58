//! Unit tests for the geodesic primitives and the request utilities.

use greedy_cluster::api::ReturnTypeArg;
use greedy_cluster::api::get_return_type;
use greedy_cluster::geo::Point;
use greedy_cluster::geo::bbox;
use greedy_cluster::geo::cos_scaled;
use greedy_cluster::geo::dist_sq;
use greedy_cluster::geo::interpolate;
use greedy_cluster::geo::pack;
use greedy_cluster::geo::within;
use greedy_cluster::plugin::Folder;
use greedy_cluster::plugin::flatten_runs;
use greedy_cluster::plugin::trim_closed_route;
use greedy_cluster::plugin::PathStatus;
use greedy_cluster::plugin::Plugin;
use greedy_cluster::plugin::PluginError;
use greedy_cluster::plugin::whitespace_tokens;
use greedy_cluster::utils::Category;
use greedy_cluster::utils::TrimPrecision;
use greedy_cluster::utils::Type;
use greedy_cluster::utils::clean;
use greedy_cluster::utils::convert_polish_to_ascii;
use greedy_cluster::utils::get_category_enum;
use greedy_cluster::utils::get_enum;
use greedy_cluster::utils::get_enum_by_geometry_string;
use greedy_cluster::utils::get_mode_acronym;
use greedy_cluster::utils::separate_by_comma;

fn pt(lat_udeg: i64, lon_udeg: i64) -> Point {
    Point { lat: lat_udeg, lon: lon_udeg }
}

#[test]
fn cosine_matches_known_values() {
    // cos(0) = 1, cos(60 degrees) = 0.5, cos(90 degrees) = 0.
    assert_eq!(cos_scaled(0), 1_000_000);
    let c60 = cos_scaled(60_000_000);
    assert!((c60 - 500_000).abs() < 1_000);
    let c90 = cos_scaled(90_000_000);
    assert!(c90 < 1_000);
    assert_eq!(cos_scaled(-60_000_000), c60);
}

#[test]
fn distance_matches_known_scale() {
    // One thousandth of a degree of latitude is about 111.2 meters.
    let a = pt(40_000_000, -75_000_000);
    let b = pt(40_001_000, -75_000_000);
    assert!(within(a, b, 112_000_000));
    assert!(!within(a, b, 110_000_000));
    // Longitude shrinks with the cosine of the latitude.
    let c = pt(40_000_000, -74_999_000);
    assert!(within(a, c, 86_000_000));
    assert!(!within(a, c, 84_000_000));
    // The metric is symmetric.
    assert_eq!(dist_sq(a, c), dist_sq(c, a));
    assert_eq!(dist_sq(a, a), 0);
}

#[test]
fn interpolation_walks_the_segment() {
    let a = pt(0, 0);
    let b = pt(8_000, -8_000);
    let mid = interpolate(a, b, 4, 0, 0);
    assert_eq!(mid, pt(4_000, -4_000));
    let start = interpolate(a, b, 0, 0, 0);
    assert_eq!(start, a);
    let wiggled = interpolate(a, b, 0, 125, -250);
    assert_eq!(wiggled, pt(125, -250));
    // Clamped at the poles.
    let near_pole = interpolate(pt(90_000_000, 0), pt(90_000_000, 0), 0, 250, 0);
    assert_eq!(near_pole.lat, 90_000_000);
}

#[test]
fn bbox_spans_all_points() {
    assert_eq!(bbox(&Vec::new()), None);
    let pts = vec![pt(1, 10), pt(-5, 3), pt(2, -7)];
    let (min_lon, min_lat, max_lon, max_lat) = bbox(&pts).unwrap();
    assert_eq!((min_lon, min_lat, max_lon, max_lat), (-7, -5, 10, 2));
}

#[test]
fn packing_is_injective_on_the_grid() {
    let a = pack(pt(0, 0));
    let b = pack(pt(0, 1));
    let c = pack(pt(1, 0));
    assert_ne!(a, b);
    assert_ne!(a, c);
    assert_ne!(b, c);
}

#[test]
fn instance_names_map_to_types() {
    assert_eq!(get_enum(Some("AutoQuest".to_string())), Type::AutoQuest);
    assert_eq!(get_enum(Some("circle_smart_raid".to_string())), Type::CircleSmartRaid);
    assert_eq!(get_enum(Some("unknown".to_string())), Type::Unset);
    assert_eq!(get_enum(None), Type::Unset);
}

#[test]
fn acronyms_follow_the_type() {
    assert_eq!(get_mode_acronym(Some(&"AutoQuest".to_string())), "AQ");
    assert_eq!(get_mode_acronym(Some(&"pokemon_iv".to_string())), "IV");
    assert_eq!(get_mode_acronym(None), "U");
}

#[test]
fn categories_are_case_insensitive() {
    assert_eq!(get_category_enum("DataBase".to_string()), Category::Database);
    assert_eq!(get_category_enum("ARRAY".to_string()), Category::Array);
    assert_eq!(get_category_enum("anything".to_string()), Category::Text);
}

#[test]
fn geometry_names_suggest_types() {
    assert_eq!(get_enum_by_geometry_string(Some("Point".to_string())), Some(Type::Leveling));
    assert_eq!(
        get_enum_by_geometry_string(Some("MULTIPOLYGON".to_string())),
        Some(Type::AutoQuest)
    );
    assert_eq!(get_enum_by_geometry_string(Some("circle".to_string())), None);
    assert_eq!(get_enum_by_geometry_string(None), None);
}

#[test]
fn return_type_keywords_normalize() {
    assert_eq!(get_return_type("Alt-Text".to_string(), &ReturnTypeArg::Text), ReturnTypeArg::AltText);
    assert_eq!(
        get_return_type("array".to_string(), &ReturnTypeArg::MultiArray),
        ReturnTypeArg::MultiArray
    );
    assert_eq!(
        get_return_type("array".to_string(), &ReturnTypeArg::Text),
        ReturnTypeArg::SingleArray
    );
    assert_eq!(
        get_return_type("nonsense".to_string(), &ReturnTypeArg::Poracle),
        ReturnTypeArg::Poracle
    );
}

#[test]
fn comma_separation_splits_parameters() {
    let parts = separate_by_comma(&Some("alpha,beta,gamma".to_string()));
    assert_eq!(parts, vec!["alpha".to_string(), "beta".to_string(), "gamma".to_string()]);
    let one = separate_by_comma(&Some("alpha".to_string()));
    assert_eq!(one, vec!["alpha".to_string()]);
    let none = separate_by_comma(&None);
    assert!(none.is_empty());
}

#[test]
fn cleaning_strips_surrounding_quotes() {
    assert_eq!(clean(&"\"quoted\"".to_string()), "quoted");
    assert_eq!(clean(&"plain".to_string()), "plain");
    assert_eq!(clean(&"\"unbalanced".to_string()), "\"unbalanced");
}

#[test]
fn polish_characters_become_ascii() {
    assert_eq!(convert_polish_to_ascii("Łódź".to_string()), "Lodz");
    assert_eq!(convert_polish_to_ascii("plain".to_string()), "plain");
}

#[test]
fn whitespace_tokens_split_on_runs() {
    let toks = whitespace_tokens(" a  bb\tc ");
    assert_eq!(toks, vec!["a".to_string(), "bb".to_string(), "c".to_string()]);
    assert!(whitespace_tokens("   ").is_empty());
}

#[test]
fn plugin_interpreter_follows_the_extension() {
    let p = Plugin::new("tsp.py", Folder::Routing, 1, "", PathStatus::File).unwrap();
    assert_eq!(p.interpreter, "python3");
    assert_eq!(p.plugin, "tsp.py");
    assert_eq!(p.plugin_path, "algorithms/src/routing/plugins/tsp.py");
    assert!(p.args.is_empty());
    assert_eq!(p.split_level, 1);
}

#[test]
fn plugin_without_extension_runs_itself() {
    let p = Plugin::new("tsp", Folder::Clustering, 2, "", PathStatus::File).unwrap();
    assert_eq!(p.interpreter, "algorithms/src/clustering/plugins/tsp");
    assert_eq!(p.plugin_path, "algorithms/src/clustering/plugins/tsp");
}

#[test]
fn plugin_arguments_override_the_interpreter() {
    let p = Plugin::new(
        "tsp.py",
        Folder::Routing,
        1,
        "node other.js --rounds 3",
        PathStatus::File,
    )
    .unwrap();
    assert_eq!(p.interpreter, "node");
    assert_eq!(p.plugin_path, "algorithms/src/routing/plugins/other.js");
    assert_eq!(p.args, vec!["--rounds".to_string(), "3".to_string()]);
    assert_eq!(
        Plugin::target_path("tsp.py", Folder::Routing, "node other.js --rounds 3"),
        "algorithms/src/routing/plugins/other.js"
    );
}

#[test]
fn plugin_errors_name_their_cause() {
    assert_eq!(
        Plugin::new("weird.exe", Folder::Routing, 1, "", PathStatus::File).unwrap_err(),
        PluginError::UnrecognizedPlugin
    );
    assert_eq!(
        Plugin::new("tsp.py", Folder::Routing, 1, "", PathStatus::Directory).unwrap_err(),
        PluginError::PluginIsDirectory
    );
    assert_eq!(
        Plugin::new("tsp.py", Folder::Routing, 1, "", PathStatus::Missing).unwrap_err(),
        PluginError::PluginMissing
    );
}

#[test]
fn shard_results_flatten_in_order() {
    let a = Point { lat: 1, lon: 1 };
    let b = Point { lat: 2, lon: 2 };
    let c = Point { lat: 3, lon: 3 };
    let joined = flatten_runs(&vec![vec![a, b], vec![], vec![c]]);
    assert_eq!(joined, vec![a, b, c]);
}

#[test]
fn closed_routes_lose_their_duplicate_endpoint() {
    let a = Point { lat: 1, lon: 1 };
    let b = Point { lat: 2, lon: 2 };
    assert_eq!(trim_closed_route(&vec![a, b, a]), vec![a, b]);
    assert_eq!(trim_closed_route(&vec![a, b]), vec![a, b]);
    assert_eq!(trim_closed_route(&vec![a]), Vec::<Point>::new());
    assert_eq!(trim_closed_route(&Vec::new()), Vec::<Point>::new());
}

#[test]
fn trimming_rounds_microdegrees() {
    assert_eq!(40_123_456i64.trim_precision(3), 40_123_000);
    assert_eq!(40_123_556i64.trim_precision(3), 40_124_000);
    assert_eq!((-40_123_556i64).trim_precision(3), -40_124_000);
    assert_eq!(40_123_456i64.trim_precision(6), 40_123_456);
    assert_eq!(40_123_456i64.trim_precision(0), 40_000_000);
}
