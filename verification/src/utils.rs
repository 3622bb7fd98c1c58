//! Request utilities: instance-type names, category names, mode acronyms,
//! comma-separated parameters, and coordinate rounding.

use vstd::prelude::*;
use crate::text::chars_of;
use crate::text::lower_of;
use crate::text::lowercase;
use crate::text::str_eq;
use crate::text::string_from_chars;

verus! {

/// An instance type, as named by the scanner backends.
#[derive(Clone, Copy, PartialEq, Eq, Structural, Debug)]
pub enum Type {
    AutoQuest,
    CirclePokemon,
    CircleSmartPokemon,
    CircleRaid,
    CircleSmartRaid,
    PokemonIv,
    Leveling,
    CircleQuest,
    AutoTth,
    AutoPokemon,
    Unset,
}

/// A configuration property category.
#[derive(Clone, Copy, PartialEq, Eq, Structural, Debug)]
pub enum Category {
    Database,
    Boolean,
    Number,
    Object,
    Array,
    Color,
    Text,
}

/// The instance type named by a string, in either spelling.
pub open spec fn type_of_name(s: Seq<char>) -> Type {
    if s == "AutoQuest"@ || s == "auto_quest"@ {
        Type::AutoQuest
    } else if s == "CirclePokemon"@ || s == "circle_pokemon"@ {
        Type::CirclePokemon
    } else if s == "CircleSmartPokemon"@ || s == "circle_smart_pokemon"@ {
        Type::CircleSmartPokemon
    } else if s == "CircleRaid"@ || s == "circle_raid"@ {
        Type::CircleRaid
    } else if s == "CircleSmartRaid"@ || s == "circle_smart_raid"@ {
        Type::CircleSmartRaid
    } else if s == "PokemonIv"@ || s == "pokemon_iv"@ {
        Type::PokemonIv
    } else if s == "Leveling"@ || s == "leveling"@ {
        Type::Leveling
    } else if s == "CircleQuest"@ || s == "circle_quest"@ {
        Type::CircleQuest
    } else if s == "AutoTth"@ || s == "auto_tth"@ {
        Type::AutoTth
    } else if s == "AutoPokemon"@ || s == "auto_pokemon"@ {
        Type::AutoPokemon
    } else {
        Type::Unset
    }
}

/// Maps an optional instance-type name to the instance type.
pub fn get_enum(instance_type: Option<String>) -> (t: Type)
    ensures
        t == match instance_type {
            Option::Some(s) => type_of_name(s@),
            Option::None => Type::Unset,
        },
{
    match instance_type {
        Option::Some(s) => {
            let ss = s.as_str();
            if str_eq(ss, "AutoQuest") || str_eq(ss, "auto_quest") {
                Type::AutoQuest
            } else if str_eq(ss, "CirclePokemon") || str_eq(ss, "circle_pokemon") {
                Type::CirclePokemon
            } else if str_eq(ss, "CircleSmartPokemon") || str_eq(ss, "circle_smart_pokemon") {
                Type::CircleSmartPokemon
            } else if str_eq(ss, "CircleRaid") || str_eq(ss, "circle_raid") {
                Type::CircleRaid
            } else if str_eq(ss, "CircleSmartRaid") || str_eq(ss, "circle_smart_raid") {
                Type::CircleSmartRaid
            } else if str_eq(ss, "PokemonIv") || str_eq(ss, "pokemon_iv") {
                Type::PokemonIv
            } else if str_eq(ss, "Leveling") || str_eq(ss, "leveling") {
                Type::Leveling
            } else if str_eq(ss, "CircleQuest") || str_eq(ss, "circle_quest") {
                Type::CircleQuest
            } else if str_eq(ss, "AutoTth") || str_eq(ss, "auto_tth") {
                Type::AutoTth
            } else if str_eq(ss, "AutoPokemon") || str_eq(ss, "auto_pokemon") {
                Type::AutoPokemon
            } else {
                Type::Unset
            }
        },
        Option::None => Type::Unset,
    }
}

/// The acronym shown for an instance-type name.
pub open spec fn acronym_of(s: Seq<char>) -> Seq<char> {
    match type_of_name(s) {
        Type::AutoQuest => "AQ"@,
        Type::CirclePokemon => "CP"@,
        Type::CircleSmartPokemon => "CSP"@,
        Type::CircleRaid => "CR"@,
        Type::CircleSmartRaid => "CSR"@,
        Type::PokemonIv => "IV"@,
        Type::Leveling => "L"@,
        Type::CircleQuest => "CQ"@,
        Type::AutoTth => "ATTH"@,
        Type::AutoPokemon => "AP"@,
        Type::Unset => "U"@,
    }
}

/// Maps an optional instance-type name to its acronym.
pub fn get_mode_acronym(instance_type: Option<&String>) -> (r: String)
    ensures
        r@ == match instance_type {
            Option::Some(s) => acronym_of(s@),
            Option::None => "U"@,
        },
{
    match instance_type {
        Option::Some(s) => {
            let t = get_enum(Option::Some(s.clone()));
            match t {
                Type::AutoQuest => "AQ".to_owned(),
                Type::CirclePokemon => "CP".to_owned(),
                Type::CircleSmartPokemon => "CSP".to_owned(),
                Type::CircleRaid => "CR".to_owned(),
                Type::CircleSmartRaid => "CSR".to_owned(),
                Type::PokemonIv => "IV".to_owned(),
                Type::Leveling => "L".to_owned(),
                Type::CircleQuest => "CQ".to_owned(),
                Type::AutoTth => "ATTH".to_owned(),
                Type::AutoPokemon => "AP".to_owned(),
                Type::Unset => "U".to_owned(),
            }
        },
        Option::None => "U".to_owned(),
    }
}

/// The property category named by a lowercased string.
pub open spec fn category_of(lower: Seq<char>) -> Category {
    if lower == "database"@ {
        Category::Database
    } else if lower == "boolean"@ {
        Category::Boolean
    } else if lower == "number"@ {
        Category::Number
    } else if lower == "object"@ {
        Category::Object
    } else if lower == "array"@ {
        Category::Array
    } else if lower == "color"@ {
        Category::Color
    } else {
        Category::Text
    }
}

/// Maps a category name, case-insensitively, to the category.
pub fn get_category_enum(category: String) -> (c: Category)
    ensures
        c == category_of(lower_of(category@)),
{
    let low = lowercase(category.as_str());
    let ss = low.as_str();
    if str_eq(ss, "database") {
        Category::Database
    } else if str_eq(ss, "boolean") {
        Category::Boolean
    } else if str_eq(ss, "number") {
        Category::Number
    } else if str_eq(ss, "object") {
        Category::Object
    } else if str_eq(ss, "array") {
        Category::Array
    } else if str_eq(ss, "color") {
        Category::Color
    } else {
        Category::Text
    }
}

/// The instance type suggested by a lowercased geometry-type name.
pub open spec fn geometry_type_of(lower: Seq<char>) -> Option<Type> {
    if lower == "point"@ {
        Option::Some(Type::Leveling)
    } else if lower == "multipoint"@ {
        Option::Some(Type::CirclePokemon)
    } else if lower == "multipolygon"@ {
        Option::Some(Type::AutoQuest)
    } else {
        Option::None
    }
}

/// Maps a geometry-type name, case-insensitively, to an instance type.
pub fn get_enum_by_geometry_string(input: Option<String>) -> (t: Option<Type>)
    ensures
        t == match input {
            Option::Some(s) => geometry_type_of(lower_of(s@)),
            Option::None => Option::<Type>::None,
        },
{
    match input {
        Option::Some(s) => {
            let low = lowercase(s.as_str());
            let ss = low.as_str();
            if str_eq(ss, "point") {
                Option::Some(Type::Leveling)
            } else if str_eq(ss, "multipoint") {
                Option::Some(Type::CirclePokemon)
            } else if str_eq(ss, "multipolygon") {
                Option::Some(Type::AutoQuest)
            } else {
                Option::None
            }
        },
        Option::None => Option::None,
    }
}

/// The comma-joined text of a list of parts.
pub open spec fn join_commas(parts: Seq<Seq<char>>) -> Seq<char>
    decreases parts.len(),
{
    if parts.len() == 0 {
        Seq::empty()
    } else if parts.len() == 1 {
        parts[0]
    } else {
        join_commas(parts.drop_last()) + seq![','] + parts.last()
    }
}

/// Splits an optional parameter at commas; `None` gives no parts, and the
/// parts of `Some` hold no comma and join back to the given text.
pub fn separate_by_comma(param: &Option<String>) -> (r: Vec<String>)
    ensures
        match param {
            Option::None => r@.len() == 0,
            Option::Some(s) => {
                &&& r@.len() >= 1
                &&& join_commas(r@.map_values(|t: String| t@)) == s@
                &&& forall|x: int| 0 <= x < r@.len() ==> !(#[trigger] r@[x])@.contains(',')
            },
        },
{
    match param {
        Option::None => Vec::new(),
        Option::Some(s) => {
            let v = chars_of(s.as_str());
            let m: usize = v.len();
            let mut out: Vec<String> = Vec::new();
            let mut cur: Vec<char> = Vec::new();
            for i in 0..m
                invariant
                    m == v@.len(),
                    v@ == s@,
                    !cur@.contains(','),
                    forall|x: int| 0 <= x < out@.len() ==> !(#[trigger] out@[x])@.contains(','),
                    out@.len() == 0 ==> v@.take(i as int) == cur@,
                    out@.len() > 0 ==> v@.take(i as int) == join_commas(
                        out@.map_values(|t: String| t@),
                    ) + seq![','] + cur@,
            {
                let c = v[i];
                proof {
                    assert(v@.take(i as int + 1) =~= v@.take(i as int).push(v@[i as int]));
                }
                if c == ',' {
                    let ghost old_out = out@;
                    let ghost old_cur = cur@;
                    let part = string_from_chars(&cur);
                    out.push(part);
                    cur = Vec::new();
                    proof {
                        let parts = out@.map_values(|t: String| t@);
                        assert(parts =~= old_out.map_values(|t: String| t@).push(old_cur));
                        if old_out.len() == 0 {
                            assert(parts.len() == 1);
                            assert(join_commas(parts) == old_cur);
                        } else {
                            assert(parts.drop_last() =~= old_out.map_values(|t: String| t@));
                            assert(join_commas(parts) == join_commas(
                                old_out.map_values(|t: String| t@),
                            ) + seq![','] + old_cur);
                        }
                        assert(v@.take(i as int + 1) =~= join_commas(parts) + seq![','] + cur@);
                    }
                } else {
                    cur.push(c);
                    proof {
                        assert(!cur@.contains(',')) by {
                            if cur@.contains(',') {
                                let x = choose|x: int| 0 <= x < cur@.len() && cur@[x] == ',';
                            }
                        }
                        if out@.len() == 0 {
                            assert(v@.take(i as int + 1) =~= cur@);
                        } else {
                            assert(v@.take(i as int + 1) =~= join_commas(
                                out@.map_values(|t: String| t@),
                            ) + seq![','] + cur@);
                        }
                    }
                }
            }
            let ghost old_out = out@;
            let ghost old_cur = cur@;
            let part = string_from_chars(&cur);
            out.push(part);
            proof {
                assert(v@.take(m as int) =~= v@);
                let parts = out@.map_values(|t: String| t@);
                assert(parts =~= old_out.map_values(|t: String| t@).push(old_cur));
                if old_out.len() == 0 {
                    assert(join_commas(parts) == old_cur);
                } else {
                    assert(parts.drop_last() =~= old_out.map_values(|t: String| t@));
                    assert(join_commas(parts) == join_commas(
                        old_out.map_values(|t: String| t@),
                    ) + seq![','] + old_cur);
                }
                assert(join_commas(parts) == s@);
            }
            out
        },
    }
}

/// The cleaned form of a parameter: surrounding double quotes are removed.
pub open spec fn clean_spec(s: Seq<char>) -> Seq<char> {
    if s.len() >= 2 && s[0] == '"' && s[s.len() - 1] == '"' {
        s.subrange(1, s.len() - 1)
    } else {
        s
    }
}

/// Strips one pair of surrounding double quotes, if present.
///
/// A text of just one double quote is excluded: it starts and ends with a
/// quote but has no inside to keep.
pub fn clean(param: &String) -> (r: String)
    requires
        !(param@.len() == 1 && param@[0] == '"'),
    ensures
        r@ == clean_spec(param@),
{
    let v = chars_of(param.as_str());
    let m: usize = v.len();
    if m >= 2 && v[0] == '"' && v[m - 1] == '"' {
        let mut inner: Vec<char> = Vec::new();
        let e: usize = m - 1;
        for i in 1..e
            invariant
                m == v@.len(),
                e == m - 1,
                m >= 2,
                inner@ =~= v@.subrange(1, i as int),
        {
            inner.push(v[i]);
            proof {
                assert(v@.subrange(1, i as int + 1) =~= v@.subrange(1, i as int).push(
                    v@[i as int],
                ));
            }
        }
        string_from_chars(&inner)
    } else {
        param.clone()
    }
}

/// The ASCII replacement for one Polish character, or the character itself.
pub open spec fn polish_ascii(c: char) -> char {
    if c == 'ą' {
        'a'
    } else if c == 'ć' {
        'c'
    } else if c == 'ę' {
        'e'
    } else if c == 'ł' {
        'l'
    } else if c == 'ń' {
        'n'
    } else if c == 'ó' {
        'o'
    } else if c == 'ś' {
        's'
    } else if c == 'ź' {
        'z'
    } else if c == 'ż' {
        'z'
    } else if c == 'Ą' {
        'A'
    } else if c == 'Ć' {
        'C'
    } else if c == 'Ę' {
        'E'
    } else if c == 'Ł' {
        'L'
    } else if c == 'Ń' {
        'N'
    } else if c == 'Ó' {
        'O'
    } else if c == 'Ś' {
        'S'
    } else if c == 'Ź' {
        'Z'
    } else if c == 'Ż' {
        'Z'
    } else {
        c
    }
}

/// Replaces Polish characters with their ASCII counterparts.
pub fn convert_polish_to_ascii(param: String) -> (r: String)
    ensures
        r@ == param@.map_values(|c: char| polish_ascii(c)),
{
    let v = chars_of(param.as_str());
    let m: usize = v.len();
    let mut outv: Vec<char> = Vec::new();
    for i in 0..m
        invariant
            m == v@.len(),
            v@ == param@,
            outv@ =~= v@.take(i as int).map_values(|c: char| polish_ascii(c)),
    {
        let c = v[i];
        let rep: char = if c == 'ą' {
            'a'
        } else if c == 'ć' {
            'c'
        } else if c == 'ę' {
            'e'
        } else if c == 'ł' {
            'l'
        } else if c == 'ń' {
            'n'
        } else if c == 'ó' {
            'o'
        } else if c == 'ś' {
            's'
        } else if c == 'ź' {
            'z'
        } else if c == 'ż' {
            'z'
        } else if c == 'Ą' {
            'A'
        } else if c == 'Ć' {
            'C'
        } else if c == 'Ę' {
            'E'
        } else if c == 'Ł' {
            'L'
        } else if c == 'Ń' {
            'N'
        } else if c == 'Ó' {
            'O'
        } else if c == 'Ś' {
            'S'
        } else if c == 'Ź' {
            'Z'
        } else if c == 'Ż' {
            'Z'
        } else {
            c
        };
        outv.push(rep);
        proof {
            assert(v@.take(i as int + 1) =~= v@.take(i as int).push(v@[i as int]));
            assert(outv@ =~= v@.take(i as int + 1).map_values(|c: char| polish_ascii(c)));
        }
    }
    proof {
        assert(v@.take(m as int) =~= v@);
    }
    string_from_chars(&outv)
}

/// Rounding of a microdegree coordinate to a number of decimal places of a
/// degree.
pub trait TrimPrecision: Sized {
    /// The rounded value.
    spec fn trim_spec(self, precision: u32) -> Self;

    /// Rounds the value to `precision` decimal places.
    fn trim_precision(self, precision: u32) -> (r: Self)
        ensures
            r == self.trim_spec(precision),
    ;
}

/// The power of ten dropped when keeping `precision` of six decimals.
pub open spec fn trim_factor(precision: u32) -> int {
    if precision == 0 {
        1_000_000
    } else if precision == 1 {
        100_000
    } else if precision == 2 {
        10_000
    } else if precision == 3 {
        1_000
    } else if precision == 4 {
        100
    } else if precision == 5 {
        10
    } else {
        1
    }
}

impl TrimPrecision for i64 {
    /// Microdegrees rounded half away from zero to `precision` decimal
    /// places of a degree; six or more decimals keep the value.  Values
    /// beyond the coordinate ranges saturate at the nearest representable
    /// multiple.
    open spec fn trim_spec(self, precision: u32) -> i64 {
        let f = trim_factor(precision);
        if self >= 0 {
            (if self > 1_000_000_000_000 {
                (1_000_000_000_000 + f / 2) / f * f
            } else {
                (self + f / 2) / f * f
            }) as i64
        } else {
            (if self < -1_000_000_000_000 {
                -((1_000_000_000_000 + f / 2) / f * f)
            } else {
                -((-self + f / 2) / f * f)
            }) as i64
        }
    }

    fn trim_precision(self, precision: u32) -> (r: i64) {
        let f64_: i64 = if precision == 0 {
            1_000_000
        } else if precision == 1 {
            100_000
        } else if precision == 2 {
            10_000
        } else if precision == 3 {
            1_000
        } else if precision == 4 {
            100
        } else if precision == 5 {
            10
        } else {
            1
        };
        let f: u64 = f64_ as u64;
        let mag: u64 = if self >= 0 {
            if self > 1_000_000_000_000 {
                1_000_000_000_000
            } else {
                self as u64
            }
        } else {
            if self < -1_000_000_000_000 {
                1_000_000_000_000
            } else {
                (-self) as u64
            }
        };
        let q: u64 = (mag + f / 2) / f;
        assert(q * f <= 1_000_001_000_000) by (nonlinear_arith)
            requires
                mag <= 1_000_000_000_000,
                1 <= f <= 1_000_000,
                q == ((mag as int) + (f as int) / 2) / (f as int),
        ;
        let rounded: u64 = q * f;
        if self >= 0 {
            rounded as i64
        } else {
            -(rounded as i64)
        }
    }
}

} // verus!
