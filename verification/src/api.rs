//! Request and response argument types, and return-type selection.
//!
//! Coordinates in these types are integer microdegrees, like everywhere else
//! in the crate.

use vstd::prelude::*;
use crate::text::dash_underscore;
use crate::text::lower_of;
use crate::text::normalize_keyword;
use crate::text::str_eq;

verus! {

/// A login request.
#[derive(Clone, Debug)]
pub struct Auth {
    pub password: String,
}

/// A rectangular query region, in microdegrees.
#[derive(Clone, Copy, PartialEq, Eq, Structural, Debug)]
pub struct BoundsArg {
    pub min_lat: i64,
    pub min_lon: i64,
    pub max_lat: i64,
    pub max_lon: i64,
    pub last_seen: Option<u32>,
}

/// The shape a caller wants results in.
#[derive(Clone, Copy, PartialEq, Eq, Structural, Debug)]
pub enum ReturnTypeArg {
    AltText,
    Text,
    SingleArray,
    MultiArray,
    SingleStruct,
    MultiStruct,
    Geometry,
    GeometryVec,
    Feature,
    FeatureVec,
    FeatureCollection,
    PoracleSingle,
    Poracle,
}

/// How route results are ordered.
#[derive(Clone, Copy, PartialEq, Eq, Structural, Debug)]
pub enum SortBy {
    GeoHash,
    ClusterCount,
    Random,
}

/// Which spawnpoints a query selects by despawn-timer knowledge.
#[derive(Clone, Copy, PartialEq, Eq, Structural, Debug)]
pub enum SpawnpointTth {
    All,
    Known,
    Unknown,
}

/// Flags that shape the fields of an API query result.
#[derive(Clone, Copy, PartialEq, Eq, Structural, Debug)]
pub struct ApiQueryArgs {
    pub internal: Option<bool>,
    pub id: Option<bool>,
    pub name: Option<bool>,
    pub mode: Option<bool>,
    pub geofence_id: Option<bool>,
}

/// An identifier that may arrive as text or as a number.
#[derive(Clone, Debug)]
pub enum UnknownId {
    Text(String),
    Number(u32),
}

/// The client-facing configuration snapshot.
#[derive(Clone, Debug)]
pub struct ConfigResponse {
    pub start_lat: i64,
    pub start_lon: i64,
    pub tile_server: String,
    pub scanner_type: String,
    pub logged_in: bool,
    pub dangerous: bool,
}

/// The return type named by a normalized keyword, falling back to the
/// default; the bare `array` and `struct` keywords keep the default's
/// single/multi shape.
pub open spec fn return_type_of(norm: Seq<char>, default: ReturnTypeArg) -> ReturnTypeArg {
    if norm == "alttext"@ || norm == "alt_text"@ {
        ReturnTypeArg::AltText
    } else if norm == "text"@ {
        ReturnTypeArg::Text
    } else if norm == "array"@ {
        if default == ReturnTypeArg::MultiArray {
            ReturnTypeArg::MultiArray
        } else {
            ReturnTypeArg::SingleArray
        }
    } else if norm == "singlearray"@ || norm == "single_array"@ {
        ReturnTypeArg::SingleArray
    } else if norm == "multiarray"@ || norm == "multi_array"@ {
        ReturnTypeArg::MultiArray
    } else if norm == "struct"@ {
        if default == ReturnTypeArg::MultiStruct {
            ReturnTypeArg::MultiStruct
        } else {
            ReturnTypeArg::SingleStruct
        }
    } else if norm == "geometry"@ {
        ReturnTypeArg::Geometry
    } else if norm == "geometryvec"@ || norm == "geometry_vec"@ || norm == "geometries"@ {
        ReturnTypeArg::GeometryVec
    } else if norm == "singlestruct"@ || norm == "single_struct"@ {
        ReturnTypeArg::SingleStruct
    } else if norm == "multistruct"@ || norm == "multi_struct"@ {
        ReturnTypeArg::MultiStruct
    } else if norm == "feature"@ {
        ReturnTypeArg::Feature
    } else if norm == "featurevec"@ || norm == "feature_vec"@ {
        ReturnTypeArg::FeatureVec
    } else if norm == "poracle"@ {
        ReturnTypeArg::Poracle
    } else if norm == "featurecollection"@ || norm == "feature_collection"@ {
        ReturnTypeArg::FeatureCollection
    } else {
        default
    }
}

/// Picks the return type named by a request string: the name is lowercased
/// with dashes turned to underscores, and unknown names keep the default.
pub fn get_return_type(return_type: String, default_return_type: &ReturnTypeArg) -> (r:
    ReturnTypeArg)
    ensures
        r == return_type_of(
            lower_of(return_type@).map_values(|c: char| dash_underscore(c)),
            *default_return_type,
        ),
{
    let norm = normalize_keyword(return_type.as_str());
    let ss = norm.as_str();
    if str_eq(ss, "alttext") || str_eq(ss, "alt_text") {
        ReturnTypeArg::AltText
    } else if str_eq(ss, "text") {
        ReturnTypeArg::Text
    } else if str_eq(ss, "array") {
        match *default_return_type {
            ReturnTypeArg::MultiArray => ReturnTypeArg::MultiArray,
            _ => ReturnTypeArg::SingleArray,
        }
    } else if str_eq(ss, "singlearray") || str_eq(ss, "single_array") {
        ReturnTypeArg::SingleArray
    } else if str_eq(ss, "multiarray") || str_eq(ss, "multi_array") {
        ReturnTypeArg::MultiArray
    } else if str_eq(ss, "struct") {
        match *default_return_type {
            ReturnTypeArg::MultiStruct => ReturnTypeArg::MultiStruct,
            _ => ReturnTypeArg::SingleStruct,
        }
    } else if str_eq(ss, "geometry") {
        ReturnTypeArg::Geometry
    } else if str_eq(ss, "geometryvec") || str_eq(ss, "geometry_vec") || str_eq(ss, "geometries") {
        ReturnTypeArg::GeometryVec
    } else if str_eq(ss, "singlestruct") || str_eq(ss, "single_struct") {
        ReturnTypeArg::SingleStruct
    } else if str_eq(ss, "multistruct") || str_eq(ss, "multi_struct") {
        ReturnTypeArg::MultiStruct
    } else if str_eq(ss, "feature") {
        ReturnTypeArg::Feature
    } else if str_eq(ss, "featurevec") || str_eq(ss, "feature_vec") {
        ReturnTypeArg::FeatureVec
    } else if str_eq(ss, "poracle") {
        ReturnTypeArg::Poracle
    } else if str_eq(ss, "featurecollection") || str_eq(ss, "feature_collection") {
        ReturnTypeArg::FeatureCollection
    } else {
        *default_return_type
    }
}

} // verus!
