//! Geometry export: renders a street collection as a GeoJSON
//! FeatureCollection string. Each street with at least one segment of two
//! or more points becomes one Feature carrying a MultiLineString geometry,
//! its name, and a decorative random stroke color; a street whose every
//! segment is shorter is dropped from the output. Coordinates are printed
//! as degrees with all seven decimicro digits; name strings are JSON
//! escaped.

use vstd::prelude::*;
use vstd::string::StringExecFns;
use rand::RngCore;
use crate::store::Segment;
use crate::streets::Street;

verus! {

/// Relies on str::chars: the characters handed out are exactly the
/// string's view, in order.
#[verifier::external_body]
fn chars_of(s: &str) -> (v: Vec<char>)
    ensures
        v@ == s@,
{
    s.chars().collect()
}

/// Relies on String::push: the character is appended at the end.
#[verifier::external_body]
fn push_char(out: &mut String, c: char)
    ensures
        final(out)@ == old(out)@.push(c),
{
    out.push(c);
}

/// Relies on rand's OsRng through RngCore::try_fill_bytes, which reports
/// failure of the operating system's randomness source as an error value
/// instead of panicking. Any three bytes, or none at all, may come back.
#[verifier::external_body]
fn random_color() -> (r: Option<(u8, u8, u8)>) {
    let mut buf: [u8; 3] = [0u8; 3];
    match rand::rngs::OsRng.try_fill_bytes(&mut buf) {
        Ok(()) => Some((buf[0], buf[1], buf[2])),
        Err(_) => None,
    }
}

pub open spec fn digit_char(n: int) -> char {
    if n == 0 { '0' } else if n == 1 { '1' } else if n == 2 { '2' } else if n == 3 { '3' }
    else if n == 4 { '4' } else if n == 5 { '5' } else if n == 6 { '6' } else if n == 7 { '7' }
    else if n == 8 { '8' } else { '9' }
}

pub open spec fn hex_char(n: int) -> char {
    if n < 10 { digit_char(n) } else if n == 10 { 'A' } else if n == 11 { 'B' }
    else if n == 12 { 'C' } else if n == 13 { 'D' } else if n == 14 { 'E' } else { 'F' }
}

/// The decimal digits of `n`, most significant first.
pub open spec fn dec_of(n: int) -> Seq<char>
    decreases n,
{
    if n < 10 {
        seq![digit_char(n)]
    } else {
        dec_of(n / 10).push(digit_char(n % 10))
    }
}

/// All seven decimicro fraction digits of `f`, zero padded.
pub open spec fn frac7_of(f: int) -> Seq<char> {
    seq![
        digit_char((f / 1000000) % 10),
        digit_char((f / 100000) % 10),
        digit_char((f / 10000) % 10),
        digit_char((f / 1000) % 10),
        digit_char((f / 100) % 10),
        digit_char((f / 10) % 10),
        digit_char(f % 10),
    ]
}

/// A decimicro-degree value printed as a signed decimal degree number.
pub open spec fn coord_text(v: int) -> Seq<char> {
    let a = if v < 0 { -v } else { v };
    (if v < 0 { seq!['-'] } else { Seq::<char>::empty() }) + dec_of(a / 10000000) + seq!['.']
        + frac7_of(a % 10000000)
}

fn digit_str(d: u32) -> (r: &'static str)
    requires
        d < 10,
    ensures
        r@ == seq![digit_char(d as int)],
{
    match d {
        0 => {
            proof {
                reveal_strlit("0");
                assert("0"@ =~= seq![digit_char(0)]);
            }
            "0"
        },
        1 => {
            proof {
                reveal_strlit("1");
                assert("1"@ =~= seq![digit_char(1)]);
            }
            "1"
        },
        2 => {
            proof {
                reveal_strlit("2");
                assert("2"@ =~= seq![digit_char(2)]);
            }
            "2"
        },
        3 => {
            proof {
                reveal_strlit("3");
                assert("3"@ =~= seq![digit_char(3)]);
            }
            "3"
        },
        4 => {
            proof {
                reveal_strlit("4");
                assert("4"@ =~= seq![digit_char(4)]);
            }
            "4"
        },
        5 => {
            proof {
                reveal_strlit("5");
                assert("5"@ =~= seq![digit_char(5)]);
            }
            "5"
        },
        6 => {
            proof {
                reveal_strlit("6");
                assert("6"@ =~= seq![digit_char(6)]);
            }
            "6"
        },
        7 => {
            proof {
                reveal_strlit("7");
                assert("7"@ =~= seq![digit_char(7)]);
            }
            "7"
        },
        8 => {
            proof {
                reveal_strlit("8");
                assert("8"@ =~= seq![digit_char(8)]);
            }
            "8"
        },
        9 => {
            proof {
                reveal_strlit("9");
                assert("9"@ =~= seq![digit_char(9)]);
            }
            "9"
        },
        _ => {
            proof {
                reveal_strlit("9");
                assert("9"@ =~= seq![digit_char(9)]);
            }
            "9"
        },
    }
}

fn hex_str(d: u8) -> (r: &'static str)
    requires
        d < 16,
    ensures
        r@ == seq![hex_char(d as int)],
{
    match d {
        0 => {
            proof {
                reveal_strlit("0");
                assert("0"@ =~= seq![hex_char(0)]);
            }
            "0"
        },
        1 => {
            proof {
                reveal_strlit("1");
                assert("1"@ =~= seq![hex_char(1)]);
            }
            "1"
        },
        2 => {
            proof {
                reveal_strlit("2");
                assert("2"@ =~= seq![hex_char(2)]);
            }
            "2"
        },
        3 => {
            proof {
                reveal_strlit("3");
                assert("3"@ =~= seq![hex_char(3)]);
            }
            "3"
        },
        4 => {
            proof {
                reveal_strlit("4");
                assert("4"@ =~= seq![hex_char(4)]);
            }
            "4"
        },
        5 => {
            proof {
                reveal_strlit("5");
                assert("5"@ =~= seq![hex_char(5)]);
            }
            "5"
        },
        6 => {
            proof {
                reveal_strlit("6");
                assert("6"@ =~= seq![hex_char(6)]);
            }
            "6"
        },
        7 => {
            proof {
                reveal_strlit("7");
                assert("7"@ =~= seq![hex_char(7)]);
            }
            "7"
        },
        8 => {
            proof {
                reveal_strlit("8");
                assert("8"@ =~= seq![hex_char(8)]);
            }
            "8"
        },
        9 => {
            proof {
                reveal_strlit("9");
                assert("9"@ =~= seq![hex_char(9)]);
            }
            "9"
        },
        10 => {
            proof {
                reveal_strlit("A");
                assert("A"@ =~= seq![hex_char(10)]);
            }
            "A"
        },
        11 => {
            proof {
                reveal_strlit("B");
                assert("B"@ =~= seq![hex_char(11)]);
            }
            "B"
        },
        12 => {
            proof {
                reveal_strlit("C");
                assert("C"@ =~= seq![hex_char(12)]);
            }
            "C"
        },
        13 => {
            proof {
                reveal_strlit("D");
                assert("D"@ =~= seq![hex_char(13)]);
            }
            "D"
        },
        14 => {
            proof {
                reveal_strlit("E");
                assert("E"@ =~= seq![hex_char(14)]);
            }
            "E"
        },
        15 => {
            proof {
                reveal_strlit("F");
                assert("F"@ =~= seq![hex_char(15)]);
            }
            "F"
        },
        _ => {
            proof {
                reveal_strlit("F");
                assert("F"@ =~= seq![hex_char(15)]);
            }
            "F"
        },
    }
}

/// Appends the decimal digits of `n`.
fn push_dec(out: &mut String, n: u32)
    ensures
        final(out)@ == old(out)@ + dec_of(n as int),
    decreases n,
{
    if n < 10 {
        out.append(digit_str(n));
    } else {
        push_dec(out, n / 10);
        out.append(digit_str(n % 10));
        proof {
            assert(old(out)@ + dec_of(n as int) =~= (old(out)@ + dec_of(n as int / 10)).push(
                digit_char(n as int % 10),
            ));
        }
    }
}

/// Appends one coordinate value as a decimal degree number.
#[verifier::rlimit(50)]
fn push_coord(out: &mut String, v: i32)
    ensures
        final(out)@ == old(out)@ + coord_text(v as int),
{
    let a: i64 = if v < 0 {
        out.append("-");
        proof {
            reveal_strlit("-");
            assert("-"@ =~= seq!['-']);
        }
        -(v as i64)
    } else {
        v as i64
    };
    push_dec(out, (a / 10000000) as u32);
    out.append(".");
    proof {
        reveal_strlit(".");
        assert("."@ =~= seq!['.']);
    }
    let f: u32 = (a % 10000000) as u32;
    out.append(digit_str((f / 1000000) % 10));
    out.append(digit_str((f / 100000) % 10));
    out.append(digit_str((f / 10000) % 10));
    out.append(digit_str((f / 1000) % 10));
    out.append(digit_str((f / 100) % 10));
    out.append(digit_str((f / 10) % 10));
    out.append(digit_str(f % 10));
    proof {
        assert(final(out)@ =~= old(out)@ + coord_text(v as int));
    }
}

/// One coordinate pair as a two-element JSON array.
pub open spec fn pair_text(c: crate::geom::Coord) -> Seq<char> {
    seq!['['] + coord_text(c.x as int) + seq![','] + coord_text(c.y as int) + seq![']']
}

/// The coordinate pairs of `pts` from position `i` on, comma separated.
pub open spec fn pairs_text(pts: Seq<crate::geom::Coord>, i: int) -> Seq<char>
    decreases pts.len() - i,
{
    if i < 0 || i >= pts.len() {
        Seq::<char>::empty()
    } else if i == pts.len() - 1 {
        pair_text(pts[i])
    } else {
        pair_text(pts[i]) + seq![','] + pairs_text(pts, i + 1)
    }
}

/// One polyline as a JSON array of coordinate pairs.
pub open spec fn line_text(pts: Seq<crate::geom::Coord>) -> Seq<char> {
    seq!['['] + pairs_text(pts, 0) + seq![']']
}

fn push_pair(out: &mut String, c: crate::geom::Coord)
    ensures
        final(out)@ == old(out)@ + pair_text(c),
{
    proof {
        reveal_strlit("[");
        reveal_strlit(",");
        reveal_strlit("]");
        assert("["@ =~= seq!['[']);
        assert(","@ =~= seq![',']);
        assert("]"@ =~= seq![']']);
    }
    out.append("[");
    push_coord(out, c.x);
    out.append(",");
    push_coord(out, c.y);
    out.append("]");
    proof {
        assert(final(out)@ =~= old(out)@ + pair_text(c));
    }
}

fn push_pairs(out: &mut String, pts: &Vec<crate::geom::Coord>, i: usize)
    requires
        i < pts@.len(),
    ensures
        final(out)@ == old(out)@ + pairs_text(pts@, i as int),
    decreases pts@.len() - i,
{
    push_pair(out, pts[i]);
    if i < pts.len() - 1 {
        out.append(",");
        proof {
            reveal_strlit(",");
            assert(","@ =~= seq![',']);
        }
        push_pairs(out, pts, i + 1);
        proof {
            assert(final(out)@ =~= old(out)@ + pairs_text(pts@, i as int));
        }
    }
}

/// The renderable polylines of a street's segments from position `i` on:
/// segments with fewer than two points are left out.
pub open spec fn lines_text(segs: Seq<Segment>, i: int, first: bool) -> Seq<char>
    decreases segs.len() - i,
{
    if i < 0 || i >= segs.len() {
        Seq::<char>::empty()
    } else if segs[i].points@.len() >= 2 {
        (if first { Seq::<char>::empty() } else { seq![','] }) + line_text(segs[i].points@)
            + lines_text(segs, i + 1, false)
    } else {
        lines_text(segs, i + 1, first)
    }
}

fn push_lines(out: &mut String, segs: &Vec<Segment>, i: usize, first: bool)
    requires
        i <= segs@.len(),
    ensures
        final(out)@ == old(out)@ + lines_text(segs@, i as int, first),
    decreases segs@.len() - i,
{
    if i == segs.len() {
        proof {
            assert(old(out)@ + lines_text(segs@, i as int, first) =~= old(out)@);
        }
        return ;
    }
    if segs[i].points.len() >= 2 {
        if !first {
            out.append(",");
            proof {
                reveal_strlit(",");
                assert(","@ =~= seq![',']);
            }
        }
        out.append("[");
        proof {
            reveal_strlit("[");
            assert("["@ =~= seq!['[']);
        }
        push_pairs(out, &segs[i].points, 0);
        out.append("]");
        proof {
            reveal_strlit("]");
            assert("]"@ =~= seq![']']);
        }
        push_lines(out, segs, i + 1, false);
        proof {
            assert(final(out)@ =~= old(out)@ + lines_text(segs@, i as int, first));
        }
    } else {
        push_lines(out, segs, i + 1, first);
    }
}

/// The JSON string-escaped form of one character: quotes and backslashes
/// gain a backslash, control characters become \u escapes, everything
/// else stands as itself.
pub open spec fn esc_char(c: char) -> Seq<char> {
    if c == '"' {
        seq!['\\', '"']
    } else if c == '\\' {
        seq!['\\', '\\']
    } else if (c as u32) < 32 {
        seq!['\\', 'u', '0', '0', hex_char((c as u32 / 16) as int), hex_char((c as u32 % 16) as int)]
    } else {
        seq![c]
    }
}

/// The JSON string-escaped form of a string.
pub open spec fn escape(s: Seq<char>) -> Seq<char>
    decreases s.len(),
{
    if s.len() == 0 {
        Seq::empty()
    } else {
        escape(s.drop_last()) + esc_char(s.last())
    }
}

/// Appends the JSON string-escaped form of `s`.
fn push_escaped(out: &mut String, s: &String)
    ensures
        final(out)@ == old(out)@ + escape(s@),
{
    let cs = chars_of(s.as_str());
    let mut i: usize = 0;
    proof {
        assert(s@.take(0) =~= Seq::<char>::empty());
        assert(old(out)@ + escape(s@.take(0)) =~= old(out)@);
    }
    while i < cs.len()
        invariant
            cs@ == s@,
            i <= cs@.len(),
            out@ == old(out)@ + escape(s@.take(i as int)),
        decreases cs@.len() - i,
    {
        let c = cs[i];
        proof {
            assert(s@.take(i + 1).drop_last() =~= s@.take(i as int));
            assert(s@.take(i + 1).last() == s@[i as int]);
        }
        if c == '"' {
            out.append("\\\"");
            proof {
                reveal_strlit("\\\"");
                assert("\\\""@ =~= esc_char(c));
            }
        } else if c == '\\' {
            out.append("\\\\");
            proof {
                reveal_strlit("\\\\");
                assert("\\\\"@ =~= esc_char(c));
            }
        } else if (c as u32) < 32 {
            out.append("\\u00");
            out.append(hex_str(((c as u32) / 16) as u8));
            out.append(hex_str(((c as u32) % 16) as u8));
            proof {
                reveal_strlit("\\u00");
                assert("\\u00"@ + seq![hex_char((c as u32 / 16) as int), hex_char((c as u32 % 16) as int)]
                    =~= esc_char(c));
            }
        } else {
            push_char(out, c);
            proof {
                assert(seq![c] =~= esc_char(c));
            }
        }
        proof {
            assert(out@ =~= old(out)@ + escape(s@.take(i + 1)));
        }
        i = i + 1;
    }
    proof {
        assert(s@.take(s@.len() as int) =~= s@);
    }
}

/// A street has renderable geometry when some segment has two points.
pub open spec fn renderable(st: Street) -> bool {
    exists|k: int| 0 <= k && k < st.segments@.len() && (#[trigger] st.segments@[k]).points@.len() >= 2
}

fn is_renderable(st: &Street) -> (r: bool)
    ensures
        r == renderable(*st),
{
    let mut k: usize = 0;
    while k < st.segments.len()
        invariant
            k <= st.segments@.len(),
            forall|j: int|
                0 <= j && j < k ==> (#[trigger] st.segments@[j]).points@.len() < 2,
        decreases st.segments@.len() - k,
    {
        if st.segments[k].points.len() >= 2 {
            return true;
        }
        k = k + 1;
    }
    false
}

/// A stroke color as "#RRGGBB".
pub open spec fn color_text(c: (u8, u8, u8)) -> Seq<char> {
    seq!['#'] + seq![hex_char(c.0 as int / 16), hex_char(c.0 as int % 16)]
        + seq![hex_char(c.1 as int / 16), hex_char(c.1 as int % 16)]
        + seq![hex_char(c.2 as int / 16), hex_char(c.2 as int % 16)]
}

fn push_color(out: &mut String, c: (u8, u8, u8))
    ensures
        final(out)@ == old(out)@ + color_text(c),
{
    out.append("#");
    proof {
        reveal_strlit("#");
        assert("#"@ =~= seq!['#']);
    }
    out.append(hex_str(c.0 / 16));
    out.append(hex_str(c.0 % 16));
    out.append(hex_str(c.1 / 16));
    out.append(hex_str(c.1 % 16));
    out.append(hex_str(c.2 / 16));
    out.append(hex_str(c.2 % 16));
    proof {
        assert(final(out)@ =~= old(out)@ + color_text(c));
    }
}

/// One street as a GeoJSON Feature with its escaped name, a stroke color
/// and a MultiLineString of its renderable segments.
pub open spec fn feature_text(st: Street, c: (u8, u8, u8)) -> Seq<char> {
    "{\"type\":\"Feature\",\"properties\":{\"name\":\""@ + escape(st.name@) + "\",\"stroke\":\""@
        + color_text(c)
        + "\"},\"geometry\":{\"type\":\"MultiLineString\",\"coordinates\":["@ + lines_text(
        st.segments@,
        0,
        true,
    ) + "]}}"@
}

fn push_feature(out: &mut String, st: &Street, c: (u8, u8, u8))
    ensures
        final(out)@ == old(out)@ + feature_text(*st, c),
{
    out.append("{\"type\":\"Feature\",\"properties\":{\"name\":\"");
    push_escaped(out, &st.name);
    out.append("\",\"stroke\":\"");
    push_color(out, c);
    out.append("\"},\"geometry\":{\"type\":\"MultiLineString\",\"coordinates\":[");
    push_lines(out, &st.segments, 0, true);
    out.append("]}}");
    proof {
        assert(final(out)@ =~= old(out)@ + feature_text(*st, c));
    }
}

/// The features of the renderable streets from position `i` on, comma
/// separated, colored by the matching entries of `colors`.
pub open spec fn features_text(
    streets: Seq<Street>,
    colors: Seq<(u8, u8, u8)>,
    i: int,
    first: bool,
) -> Seq<char>
    decreases streets.len() - i,
{
    if i < 0 || i >= streets.len() || streets.len() != colors.len() {
        Seq::<char>::empty()
    } else if renderable(streets[i]) {
        (if first { Seq::<char>::empty() } else { seq![','] }) + feature_text(
            streets[i],
            colors[i],
        ) + features_text(streets, colors, i + 1, false)
    } else {
        features_text(streets, colors, i + 1, first)
    }
}

/// The whole collection as one GeoJSON document.
pub open spec fn geojson_text(streets: Seq<Street>, colors: Seq<(u8, u8, u8)>) -> Seq<char> {
    "{\"type\":\"FeatureCollection\",\"features\":["@ + features_text(streets, colors, 0, true)
        + "]}"@
}

fn push_features(
    out: &mut String,
    streets: &Vec<Street>,
    colors: &Vec<(u8, u8, u8)>,
    i: usize,
    first: bool,
)
    requires
        i <= streets@.len(),
        streets@.len() == colors@.len(),
    ensures
        final(out)@ == old(out)@ + features_text(streets@, colors@, i as int, first),
    decreases streets@.len() - i,
{
    if i == streets.len() {
        proof {
            assert(old(out)@ + features_text(streets@, colors@, i as int, first) =~= old(out)@);
        }
        return ;
    }
    if is_renderable(&streets[i]) {
        if !first {
            out.append(",");
            proof {
                reveal_strlit(",");
                assert(","@ =~= seq![',']);
            }
        }
        push_feature(out, &streets[i], colors[i]);
        push_features(out, streets, colors, i + 1, false);
        proof {
            assert(final(out)@ =~= old(out)@ + features_text(streets@, colors@, i as int, first));
        }
    } else {
        push_features(out, streets, colors, i + 1, first);
    }
}

/// Renders the collection with the given stroke colors, one per street.
pub fn render_geojson(streets: &Vec<Street>, colors: &Vec<(u8, u8, u8)>) -> (r: String)
    requires
        streets@.len() == colors@.len(),
    ensures
        r@ == geojson_text(streets@, colors@),
{
    let mut out = String::new();
    out.append("{\"type\":\"FeatureCollection\",\"features\":[");
    push_features(&mut out, streets, colors, 0, true);
    out.append("]}");
    proof {
        assert(out@ =~= geojson_text(streets@, colors@));
    }
    out
}

/// Output rendering for street collections.
pub trait OutputExt {
    /// Renders the collection as a GeoJSON FeatureCollection string, with
    /// an arbitrary stroke color per feature.
    fn to_geojson(&self) -> (r: String);
}

impl OutputExt for Vec<Street> {
    fn to_geojson(&self) -> (r: String)
        ensures
            exists|colors: Seq<(u8, u8, u8)>| r@ == geojson_text(self@, colors),
    {
        let mut colors: Vec<(u8, u8, u8)> = Vec::new();
        let mut i: usize = 0;
        while i < self.len()
            invariant
                i <= self@.len(),
                colors@.len() == i,
            decreases self@.len() - i,
        {
            let color = match random_color() {
                Some(c) => c,
                None => (0u8, 0u8, 0u8),
            };
            colors.push(color);
            i = i + 1;
        }
        let r = render_geojson(self, &colors);
        proof {
            assert(r@ == geojson_text(self@, colors@));
        }
        r
    }
}

} // verus!
