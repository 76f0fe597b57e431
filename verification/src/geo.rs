use vstd::prelude::*;
use crate::text::{utf8, all_ascii, ascii_to_string};

verus! {

/// The width of the latitudes, in ten-millionths of a degree.
pub const LAT_SPAN: i64 = 1800000000;

/// The width of the longitudes, in ten-millionths of a degree.
pub const LON_SPAN: i64 = 3600000000;

/// The precision of the geohash cells that cover a circle of the given
/// radius, in millimetres: nine characters up to 4.77 m, eight up to
/// 38.2 m, seven up to 153 m, six up to 1.22 km, five up to 4.89 km, four
/// up to 39.1 km, three up to 156 km, two up to 1250 km, one beyond; nine
/// for a radius that is not positive.
pub open spec fn precision_for(radius_mm: int) -> int {
    if radius_mm <= 4770 {
        9
    } else if radius_mm <= 38200 {
        8
    } else if radius_mm <= 153000 {
        7
    } else if radius_mm <= 1220000 {
        6
    } else if radius_mm <= 4890000 {
        5
    } else if radius_mm <= 39100000 {
        4
    } else if radius_mm <= 156000000 {
        3
    } else if radius_mm <= 1250000000 {
        2
    } else {
        1
    }
}

/// The precision of the geohash cells for a search radius in millimetres.
pub fn geohash_precision_for_radius(radius_mm: i64) -> (precision: usize)
    ensures
        precision == precision_for(radius_mm as int),
        1 <= precision <= 9,
{
    if radius_mm <= 4770 {
        9
    } else if radius_mm <= 38200 {
        8
    } else if radius_mm <= 153000 {
        7
    } else if radius_mm <= 1220000 {
        6
    } else if radius_mm <= 4890000 {
        5
    } else if radius_mm <= 39100000 {
        4
    } else if radius_mm <= 156000000 {
        3
    } else if radius_mm <= 1250000000 {
        2
    } else {
        1
    }
}

/// Precision monotonicity: a smaller radius never gets a coarser cell.
pub proof fn lemma_precision_monotone(smaller: int, larger: int)
    requires
        smaller <= larger,
    ensures
        precision_for(smaller) >= precision_for(larger),
{
}

/// The character of the geohash alphabet that stands for a number below 32.
pub open spec fn base32(value: int) -> u8 {
    if value < 10 {
        (0x30 + value) as u8
    } else if value < 17 {
        (0x62 + (value - 10)) as u8
    } else if value < 19 {
        (0x6a + (value - 17)) as u8
    } else if value < 21 {
        (0x6d + (value - 19)) as u8
    } else {
        (0x70 + (value - 21)) as u8
    }
}

/// The character of the geohash alphabet `0-9b-hjkmnp-z` for a number below
/// 32.
pub fn base32_char(value: u8) -> (c: u8)
    requires
        value < 32,
    ensures
        c == base32(value as int),
        c < 0x80,
{
    if value < 10 {
        0x30 + value
    } else if value < 17 {
        0x62 + (value - 10)
    } else if value < 19 {
        0x6a + (value - 17)
    } else if value < 21 {
        0x6d + (value - 19)
    } else {
        0x70 + (value - 21)
    }
}

/// The place of a coordinate in its span: its distance from the low end,
/// which is 0 at the low end and `span` at the high end. A coordinate
/// outside the span has the place of the nearer end.
pub open spec fn place(coordinate: int, span: int) -> int {
    let distance = coordinate + span / 2;
    if distance < 0 {
        0
    } else if distance > span {
        span
    } else {
        distance
    }
}

/// What is left of a place after `halvings` halvings of the span: the
/// distance of the point from the low end of the half that it is in, in
/// units in which that half is as wide as the span.
pub open spec fn left_after(place: int, span: int, halvings: nat) -> int
    decreases halvings,
{
    if halvings == 0 {
        place
    } else {
        let before = left_after(place, span, (halvings - 1) as nat);
        if 2 * before >= span {
            2 * before - span
        } else {
            2 * before
        }
    }
}

/// Whether the halving number `halving` of the span puts the point into
/// the upper half.
pub open spec fn upper_half(place: int, span: int, halving: nat) -> bool {
    2 * left_after(place, span, halving) >= span
}

/// The bit that the step number `step` gives. Steps with an even number
/// halve the longitudes, the others the latitudes, each in its turn.
pub open spec fn bit_at(lat: int, lon: int, step: nat) -> int {
    let upper = if step % 2 == 0 {
        upper_half(place(lon, LON_SPAN as int), LON_SPAN as int, step / 2)
    } else {
        upper_half(place(lat, LAT_SPAN as int), LAT_SPAN as int, step / 2)
    };
    if upper {
        1
    } else {
        0
    }
}

/// The number that the first `count` bits of the character number `index`
/// stand for, the first bit the highest.
pub open spec fn bits_value(lat: int, lon: int, index: nat, count: nat) -> int
    decreases count,
{
    if count == 0 {
        0
    } else {
        2 * bits_value(lat, lon, index, (count - 1) as nat) + bit_at(
            lat,
            lon,
            (5 * index + count - 1) as nat,
        )
    }
}

/// The character number `index` of the geohash of a point: five bits.
pub open spec fn geohash_char(lat: int, lon: int, index: nat) -> u8 {
    base32(bits_value(lat, lon, index, 5))
}

/// The number of characters of a geohash of a precision: the precision,
/// and one where the precision is less.
pub open spec fn geohash_length(precision: int) -> int {
    if precision < 1 {
        1
    } else {
        precision
    }
}

/// The geohash of a point, given in ten-millionths of a degree.
pub open spec fn geohash(lat: int, lon: int, precision: int) -> Seq<u8> {
    Seq::new(geohash_length(precision) as nat, |i: int| geohash_char(lat, lon, i as nat))
}

/// A geohash of a lower precision is the start of the geohash of a higher
/// one, for the same point.
pub proof fn lemma_geohash_prefix(lat: int, lon: int, lower: int, higher: int)
    requires
        lower <= higher,
    ensures
        geohash(lat, lon, lower) == geohash(lat, lon, higher).take(geohash_length(lower)),
{
    assert(geohash(lat, lon, lower) =~= geohash(lat, lon, higher).take(geohash_length(lower)));
}

/// A character of the geohash alphabet: a digit, or a lower-case letter
/// other than `a`, `i`, `l` and `o`.
pub open spec fn is_base32(c: u8) -> bool {
    (0x30 <= c <= 0x39) || (0x62 <= c <= 0x7a && c != 0x69 && c != 0x6c && c != 0x6f)
}

/// The bits of a character stand for a number below two to the number of
/// the bits.
pub proof fn lemma_bits_value_bound(lat: int, lon: int, index: nat, count: nat)
    requires
        count <= 5,
    ensures
        0 <= bits_value(lat, lon, index, count),
        count == 0 ==> bits_value(lat, lon, index, count) < 1,
        count == 1 ==> bits_value(lat, lon, index, count) < 2,
        count == 2 ==> bits_value(lat, lon, index, count) < 4,
        count == 3 ==> bits_value(lat, lon, index, count) < 8,
        count == 4 ==> bits_value(lat, lon, index, count) < 16,
        count == 5 ==> bits_value(lat, lon, index, count) < 32,
    decreases count,
{
    if count > 0 {
        lemma_bits_value_bound(lat, lon, index, (count - 1) as nat);
    }
}

/// Every character of a geohash is one of the geohash alphabet.
pub proof fn lemma_geohash_alphabet(lat: int, lon: int, precision: int, i: int)
    requires
        0 <= i < geohash_length(precision),
    ensures
        is_base32(geohash(lat, lon, precision)[i]),
{
    lemma_bits_value_bound(lat, lon, i as nat, 5);
}

/// A geohash has as many characters as its precision asks for, and one
/// where the precision asks for none.
pub proof fn lemma_geohash_length(lat: int, lon: int, precision: int)
    ensures
        geohash(lat, lon, precision).len() == if precision < 1 {
            1
        } else {
            precision
        },
{
}

/// The place of a coordinate in its span.
pub fn place_of(coordinate: i64, span: i64) -> (r: i64)
    requires
        0 <= span <= 3600000000,
    ensures
        r == place(coordinate as int, span as int),
        0 <= r <= span,
{
    let half = span / 2;
    if coordinate < -half {
        0
    } else if coordinate > span - half {
        span
    } else {
        coordinate + half
    }
}

/// The geohash of a point: the interleaved bits of its longitude and its
/// latitude, longitude first, five bits to a character. The point is given
/// in ten-millionths of a degree; the geohash has `precision` characters,
/// and one where the precision is less.
pub fn encode_geohash(lat_e7: i64, lon_e7: i64, precision: usize) -> (hash: String)
    ensures
        utf8(hash@) == geohash(lat_e7 as int, lon_e7 as int, precision as int),
{
    let length: usize = if precision < 1 {
        1
    } else {
        precision
    };
    let mut lon: i64 = place_of(lon_e7, LON_SPAN);
    let mut lat: i64 = place_of(lat_e7, LAT_SPAN);
    let mut out: Vec<u8> = Vec::new();
    let ghost point_lat = lat_e7 as int;
    let ghost point_lon = lon_e7 as int;
    let ghost lon_place = place(point_lon, LON_SPAN as int);
    let ghost lat_place = place(point_lat, LAT_SPAN as int);
    while out.len() < length
        invariant
            out.len() <= length,
            point_lat == lat_e7 as int,
            point_lon == lon_e7 as int,
            lon_place == place(point_lon, LON_SPAN as int),
            lat_place == place(point_lat, LAT_SPAN as int),
            0 <= lon <= LON_SPAN,
            0 <= lat <= LAT_SPAN,
            lon == left_after(lon_place, LON_SPAN as int, ((5 * out.len() + 1) / 2) as nat),
            lat == left_after(lat_place, LAT_SPAN as int, ((5 * out.len()) / 2) as nat),
            all_ascii(out@),
            forall|i: int|
                0 <= i < out.len() ==> out@[i] == geohash_char(point_lat, point_lon, i as nat),
        decreases length - out.len(),
    {
        let ghost index = out.len() as nat;
        let mut value: u8 = 0;
        let mut bit: usize = 0;
        while bit < 5
            invariant
                0 <= bit <= 5,
                index == out.len(),
                lon_place == place(point_lon, LON_SPAN as int),
                lat_place == place(point_lat, LAT_SPAN as int),
                0 <= lon <= LON_SPAN,
                0 <= lat <= LAT_SPAN,
                lon == left_after(lon_place, LON_SPAN as int, ((5 * index + bit + 1) / 2) as nat),
                lat == left_after(lat_place, LAT_SPAN as int, ((5 * index + bit) / 2) as nat),
                value as int == bits_value(point_lat, point_lon, index, bit as nat),
                value as int <= (if bit == 0 {
                    0int
                } else if bit == 1 {
                    1
                } else if bit == 2 {
                    3
                } else if bit == 3 {
                    7
                } else if bit == 4 {
                    15
                } else {
                    31
                }),
                value < 32,
            decreases 5 - bit,
        {
            let ghost step = (5 * index + bit) as nat;
            let even = bit % 2 == (out.len() % 2);
            proof {
                assert(even == (step % 2 == 0)) by {
                    assert((5 * index + bit) % 2 == (index + bit) % 2) by (nonlinear_arith);
                }
                if even {
                    assert((step + 1) / 2 == step / 2);
                    assert((step + 2) / 2 == step / 2 + 1);
                } else {
                    assert((step + 1) / 2 == step / 2 + 1);
                    assert((step + 2) / 2 == step / 2 + 1);
                }
            }
            let upper = if even {
                if 2 * lon >= LON_SPAN {
                    lon = 2 * lon - LON_SPAN;
                    true
                } else {
                    lon = 2 * lon;
                    false
                }
            } else {
                if 2 * lat >= LAT_SPAN {
                    lat = 2 * lat - LAT_SPAN;
                    true
                } else {
                    lat = 2 * lat;
                    false
                }
            };
            proof {
                assert((if upper {
                    1int
                } else {
                    0int
                }) == bit_at(point_lat, point_lon, step));
            }
            value = value * 2 + if upper {
                1
            } else {
                0
            };
            bit += 1;
        }
        let c = base32_char(value);
        out.push(c);
        proof {
            assert(5 * index + 5 == 5 * (index + 1));
        }
    }
    proof {
        assert(out@ =~= geohash(point_lat, point_lon, precision as int));
    }
    ascii_to_string(out)
}

} // verus!
