//! The decisions of the SVG rendering that do not depend on geometry: the
//! shape a node is drawn as, the stroke of a connection, the badges of a
//! SQL field, the number of bits a packet field spans, and the points an XY
//! chart's data writes.

use vstd::prelude::*;
use crate::ast::{Node, ShapeKind, SqlField};
use crate::preprocess::{find_char_in, index_of_char, lemma_index_of_char};
use crate::text::{chars_of, is_space, is_space_char, owned, str_eq, string_from_range, trim_bounds, trim_text};

verus! {

/// The shape a `shape` attribute names, or `default` when it names none.
pub open spec fn shape_named(name: Option<Seq<char>>, default: ShapeKind) -> ShapeKind {
    match name {
        Some(n) => if n == "circle"@ || n == "ellipse"@ {
            ShapeKind::Ellipse
        } else if n == "diamond"@ {
            ShapeKind::Diamond
        } else if n == "hexagon"@ {
            ShapeKind::Hexagon
        } else if n == "cloud"@ {
            ShapeKind::Cloud
        } else if n == "cylinder"@ || n == "database"@ {
            ShapeKind::Cylinder
        } else if n == "parallelogram"@ {
            ShapeKind::Parallelogram
        } else if n == "triangle"@ {
            ShapeKind::Triangle
        } else if n == "rounded"@ {
            ShapeKind::RoundedRectangle
        } else {
            default
        },
        None => default,
    }
}

/// The `shape` attribute of a node, if it has one.
pub open spec fn shape_attribute(node: Node) -> Option<Seq<char>> {
    if node.attributes@.contains_key("shape"@) {
        Some(node.attributes@["shape"@]@)
    } else {
        None
    }
}

/// The shape a node is drawn as: the one its `shape` attribute names, else
/// its own kind.
pub fn resolve_shape(node: &Node) -> (k: ShapeKind)
    ensures
        k == shape_named(shape_attribute(*node), node.kind),
{
    match node.attributes.get("shape") {
        Some(s) => {
            let n = s.as_str();
            if str_eq(n, "circle") || str_eq(n, "ellipse") {
                ShapeKind::Ellipse
            } else if str_eq(n, "diamond") {
                ShapeKind::Diamond
            } else if str_eq(n, "hexagon") {
                ShapeKind::Hexagon
            } else if str_eq(n, "cloud") {
                ShapeKind::Cloud
            } else if str_eq(n, "cylinder") || str_eq(n, "database") {
                ShapeKind::Cylinder
            } else if str_eq(n, "parallelogram") {
                ShapeKind::Parallelogram
            } else if str_eq(n, "triangle") {
                ShapeKind::Triangle
            } else if str_eq(n, "rounded") {
                ShapeKind::RoundedRectangle
            } else {
                node.kind
            }
        },
        None => node.kind,
    }
}

/// The stroke attributes of a connection drawn with `arrow`: thick and dark
/// for `==`, dashed for `>>`, thin and light otherwise.
pub open spec fn stroke_for(arrow: Seq<char>) -> Seq<char> {
    if arrow == "=="@ {
        "stroke-width=\"4\" stroke=\"#333\""@
    } else if arrow == ">>"@ {
        "stroke-dasharray=\"5,5\" stroke=\"#666\""@
    } else {
        "stroke=\"#999\""@
    }
}

/// The stroke attributes of a connection drawn with `arrow`.
pub fn connection_stroke(arrow: &str) -> (s: String)
    ensures
        s@ == stroke_for(arrow@),
{
    if str_eq(arrow, "==") {
        owned("stroke-width=\"4\" stroke=\"#333\"")
    } else if str_eq(arrow, ">>") {
        owned("stroke-dasharray=\"5,5\" stroke=\"#666\"")
    } else {
        owned("stroke=\"#999\"")
    }
}

/// The texts of a list of identifiers.
pub open spec fn id_texts(ids: Seq<String>) -> Seq<Seq<char>> {
    ids.map_values(|x: String| x@)
}

/// Whether no entry after `i` holds the same identifier as entry `i`.
pub open spec fn is_last_of_id(ids: Seq<Seq<char>>, i: int) -> bool {
    forall|j: int| i < j < ids.len() ==> ids[j] != ids[i]
}

/// The index of the last entry that holds `id`, if any: of nodes sharing an
/// identifier, the one met last is the one drawn.
pub fn last_index_of(ids: &Vec<String>, id: &str) -> (r: Option<usize>)
    ensures
        match r {
            Some(i) => i < ids@.len() && ids@[i as int]@ == id@ && forall|j: int| i < j < ids@.len() ==> ids@[j]@ != id@,
            None => forall|j: int| 0 <= j < ids@.len() ==> ids@[j]@ != id@,
        },
{
    let mut k: usize = ids.len();
    while k > 0
        invariant
            k <= ids@.len(),
            forall|j: int| k <= j < ids@.len() ==> ids@[j]@ != id@,
        decreases k,
    {
        if str_eq(ids[k - 1].as_str(), id) {
            return Some(k - 1);
        }
        k = k - 1;
    }
    None
}

/// The entries that are drawn, one per identifier: the index of the last
/// entry of each identifier, in increasing order.
pub fn last_of_each_id(ids: &Vec<String>) -> (r: Vec<usize>)
    ensures
        forall|a: int, b: int| 0 <= a < b < r@.len() ==> r@[a] < r@[b],
        forall|a: int| 0 <= a < r@.len() ==> #[trigger] r@[a] < ids@.len() && is_last_of_id(
            id_texts(ids@),
            r@[a] as int,
        ),
        forall|i: int| 0 <= i < ids@.len() && #[trigger] is_last_of_id(id_texts(ids@), i) ==> r@.contains(i as usize),
{
    let ghost v = id_texts(ids@);
    let mut r: Vec<usize> = Vec::new();
    let mut i: usize = 0;
    while i < ids.len()
        invariant
            i <= ids@.len(),
            v == id_texts(ids@),
            forall|a: int, b: int| 0 <= a < b < r@.len() ==> r@[a] < r@[b],
            forall|a: int| 0 <= a < r@.len() ==> #[trigger] r@[a] < i && is_last_of_id(v, r@[a] as int),
            forall|j: int| 0 <= j < i && #[trigger] is_last_of_id(v, j) ==> r@.contains(j as usize),
        decreases ids@.len() - i,
    {
        let mut later = false;
        let mut j: usize = i + 1;
        while j < ids.len()
            invariant
                i < j <= ids@.len(),
                v == id_texts(ids@),
                later == exists|t: int| i < t < j && v[t] == v[i as int],
            decreases ids@.len() - j,
        {
            if str_eq(ids[j].as_str(), ids[i].as_str()) {
                proof {
                    assert(v[j as int] == v[i as int]);
                }
                later = true;
            } else {
                proof {
                    assert(v[j as int] != v[i as int]);
                }
            }
            j = j + 1;
        }
        let ghost before = r@;
        if !later {
            r.push(i);
            proof {
                assert(is_last_of_id(v, i as int));
                assert(r@[before.len() as int] == i);
            }
        }
        proof {
            assert forall|jj: int| 0 <= jj < i + 1 && is_last_of_id(v, jj) implies r@.contains(jj as usize) by {
                if jj < i {
                    let w = choose|w: int| 0 <= w < before.len() && before[w] == jj as usize;
                    assert(r@[w] == before[w]);
                } else {
                    assert(!later);
                    assert(r@[before.len() as int] == i);
                }
            }
        }
        i = i + 1;
    }
    r
}

/// The reference badge a SQL field shows: for a foreign key, the table it
/// refers to, or `FK` when it names none; nothing for any other field.
pub open spec fn fk_badge_text(field: SqlField) -> Option<Seq<char>> {
    if field.is_fk {
        match field.fk_ref {
            Some(r) => Some(r@),
            None => Some("FK"@),
        }
    } else {
        None
    }
}

/// The reference badge of a SQL field.
pub fn fk_badge(field: &SqlField) -> (r: Option<String>)
    ensures
        match fk_badge_text(*field) {
            Some(t) => r matches Some(s) && s@ == t,
            None => r is None,
        },
{
    if field.is_fk {
        match &field.fk_ref {
            Some(r) => Some(r.clone()),
            None => Some(owned("FK")),
        }
    } else {
        None
    }
}

/// How far right of a table's left edge a field's name starts: past a
/// `PK` badge (20) and a reference badge (30) after a margin of 6 when it
/// has either, and at 10 otherwise.
pub open spec fn name_indent_of(is_pk: bool, is_fk: bool) -> nat {
    if is_pk || is_fk {
        6 + (if is_pk { 20nat } else { 0nat }) + (if is_fk { 30nat } else { 0nat })
    } else {
        10
    }
}

/// How far right of a table's left edge a field's name starts.
pub fn name_indent(field: &SqlField) -> (n: u32)
    ensures
        n == name_indent_of(field.is_pk, field.is_fk),
{
    if field.is_pk || field.is_fk {
        let mut n: u32 = 6;
        if field.is_pk {
            n = n + 20;
        }
        if field.is_fk {
            n = n + 30;
        }
        n
    } else {
        10
    }
}

/// Whether `c` is an ASCII digit.
pub open spec fn is_digit(c: char) -> bool {
    '0' <= c && c <= '9'
}

/// The number that decimal digits write.
pub open spec fn digits_value(s: Seq<char>) -> nat
    decreases s.len(),
{
    if s.len() == 0 {
        0
    } else {
        digits_value(s.drop_last()) * 10 + (s.last() as nat - '0' as nat) as nat
    }
}

/// The `u32` that a text writes as `str::parse` reads it: an optional `+`,
/// then one or more decimal digits, for a value that fits.
pub open spec fn u32_value(s: Seq<char>) -> Option<nat> {
    let d = unsigned_part(s);
    if d.len() > 0 && all_digits(d) && digits_value(d) <= u32::MAX {
        Some(digits_value(d))
    } else {
        None
    }
}

/// The text without a leading `+`.
pub open spec fn unsigned_part(s: Seq<char>) -> Seq<char> {
    if s.len() > 0 && s[0] == '+' {
        s.drop_first()
    } else {
        s
    }
}

/// Whether every character is a decimal digit.
pub open spec fn all_digits(d: Seq<char>) -> bool {
    forall|i: int| 0 <= i < d.len() ==> is_digit(#[trigger] d[i])
}

/// Reads `cs[a..b)` as a `u32`.
fn parse_u32_range(cs: &Vec<char>, a: usize, b: usize) -> (r: Option<u32>)
    requires
        a <= b <= cs@.len(),
    ensures
        match u32_value(cs@.subrange(a as int, b as int)) {
            Some(v) => r == Some(v as u32),
            None => r is None,
        },
{
    let ghost s = cs@.subrange(a as int, b as int);
    let d0 = if a < b && cs[a] == '+' { a + 1 } else { a };
    let ghost d = cs@.subrange(d0 as int, b as int);
    proof {
        if a < b && cs@[a as int] == '+' {
            assert(d =~= s.drop_first());
        } else {
            assert(d =~= s);
        }
    }
    if d0 == b {
        return None;
    }
    let cap: u64 = 4294967296;
    let mut v: u64 = 0;
    let mut i = d0;
    while i < b
        invariant
            d0 <= i <= b <= cs@.len(),
            d == cs@.subrange(d0 as int, b as int),
            s == cs@.subrange(a as int, b as int),
            d == unsigned_part(s),
            cap == 4294967296,
            forall|j: int| d0 <= j < i ==> is_digit(cs@[j]),
            v == if digits_value(cs@.subrange(d0 as int, i as int)) < cap { digits_value(cs@.subrange(d0 as int, i as int)) } else { cap as nat },
        decreases b - i,
    {
        let c = cs[i];
        if !('0' <= c && c <= '9') {
            proof {
                assert(d[i - d0] == c);
                assert(!is_digit(d[i - d0]));
                assert(!all_digits(d));
            }
            return None;
        }
        let dv = (c as u32 - '0' as u32) as u64;
        let ghost pre = cs@.subrange(d0 as int, i as int);
        proof {
            assert(cs@.subrange(d0 as int, i + 1).drop_last() =~= pre);
            assert(cs@.subrange(d0 as int, i + 1).last() == c);
        }
        let next = v * 10 + dv;
        v = if next < cap { next } else { cap };
        i = i + 1;
    }
    proof {
        assert(cs@.subrange(d0 as int, b as int) == d);
        assert forall|j: int| 0 <= j < d.len() implies is_digit(#[trigger] d[j]) by {
            assert(d[j] == cs@[d0 + j]);
        }
    }
    if v < cap && v <= 4294967295 {
        Some(v as u32)
    } else {
        None
    }
}

/// Whether `..` stands at `j`.
pub open spec fn dots_at(s: Seq<char>, j: int) -> bool {
    s[j] == '.' && s[j + 1] == '.'
}

/// Index of the first `..` in `s`, or -1.
pub open spec fn index_of_dots(s: Seq<char>) -> int
    decreases s.len(),
{
    if s.len() < 2 {
        -1
    } else if s[0] == '.' && s[1] == '.' {
        0
    } else {
        let i = index_of_dots(s.drop_first());
        if i < 0 {
            -1
        } else {
            i + 1
        }
    }
}

proof fn lemma_index_of_dots(s: Seq<char>)
    ensures
        -1 <= index_of_dots(s) <= s.len() - 2 || index_of_dots(s) == -1,
        index_of_dots(s) >= 0 ==> s[index_of_dots(s)] == '.' && s[index_of_dots(s) + 1] == '.',
        forall|j: int| 0 <= j < s.len() - 1 && (index_of_dots(s) < 0 || j < index_of_dots(s)) ==> !(#[trigger] dots_at(s, j)),
    decreases s.len(),
{
    if s.len() >= 2 && !(s[0] == '.' && s[1] == '.') {
        let t = s.drop_first();
        lemma_index_of_dots(t);
        assert forall|j: int| 0 <= j < s.len() - 1 && (index_of_dots(s) < 0 || j < index_of_dots(s)) implies !dots_at(s, j) by {
            if j > 0 {
                assert(s[j] == t[j - 1] && s[j + 1] == t[j]);
                assert(!dots_at(t, j - 1));
            }
        }
    }
}

proof fn lemma_index_of_dots_unique(s: Seq<char>, k: int)
    requires
        -1 <= k <= s.len() - 2 || k == -1,
        k >= 0 ==> s[k] == '.' && s[k + 1] == '.',
        forall|j: int| 0 <= j < s.len() - 1 && (k < 0 || j < k) ==> !(#[trigger] dots_at(s, j)),
    ensures
        index_of_dots(s) == k,
    decreases s.len(),
{
    if s.len() >= 2 && !(s[0] == '.' && s[1] == '.') {
        let t = s.drop_first();
        assert forall|j: int| 0 <= j < t.len() - 1 && (k - 1 < 0 || j < k - 1) implies !dots_at(t, j) by {
            assert(t[j] == s[j + 1] && t[j + 1] == s[j + 2]);
            assert(!dots_at(s, j + 1));
        }
        if k > 0 {
            assert(t[k - 1] == s[k] && t[k] == s[k + 1]);
            lemma_index_of_dots_unique(t, k - 1);
        } else {
            assert(k != 0);
            lemma_index_of_dots_unique(t, -1);
        }
    } else if s.len() >= 2 {
        assert(dots_at(s, 0));
        assert(k == 0);
    } else {
        assert(k == -1);
    }
}

/// The width of a range `a..b`, `a-b`: the distance, or 0 when the end is
/// before the start, plus one.
pub open spec fn span_width(a: nat, b: nat) -> nat {
    ((if b >= a { b - a } else { 0 }) + 1) as nat
}

/// The number of bits a packet field's range spans: `start..end` or
/// `start-end` (both ends as `u32`) span from start to end inclusive; a
/// single `u32` spans one bit; anything else counts as sixteen.
pub open spec fn bit_width_of(range: Seq<char>) -> nat {
    let t = trim_text(range);
    let i = index_of_dots(t);
    if i >= 0 {
        match (u32_value(trim_text(t.take(i))), u32_value(trim_text(t.skip(i + 2)))) {
            (Some(a), Some(b)) => span_width(a, b),
            _ => 16,
        }
    } else {
        let j = index_of_char(t, '-');
        if j >= 0 {
            match (u32_value(trim_text(t.take(j))), u32_value(trim_text(t.skip(j + 1)))) {
                (Some(a), Some(b)) => span_width(a, b),
                _ => 16,
            }
        } else if u32_value(t) is Some {
            1
        } else {
            16
        }
    }
}

/// Reads the trimmed `cs[a..b)` as a `u32`.
fn parse_trimmed(cs: &Vec<char>, a: usize, b: usize) -> (r: Option<u32>)
    requires
        a <= b <= cs@.len(),
    ensures
        match u32_value(trim_text(cs@.subrange(a as int, b as int))) {
            Some(v) => r == Some(v as u32),
            None => r is None,
        },
{
    let (x, y) = trim_bounds(cs.as_slice(), a, b);
    parse_u32_range(cs, x, y)
}

/// The width of a range between two readings, when both succeed.
fn width_of(a: Option<u32>, b: Option<u32>) -> (w: u64)
    ensures
        match (a, b) {
            (Some(x), Some(y)) => w == span_width(x as nat, y as nat),
            _ => w == 16,
        },
{
    match (a, b) {
        (Some(x), Some(y)) => (y.saturating_sub(x) as u64) + 1,
        _ => 16,
    }
}

/// The number of bits a packet field's range spans.
pub fn bit_width(range: &str) -> (w: u64)
    ensures
        w == bit_width_of(range@),
{
    let cs = chars_of(range);
    let (a, e) = trim_bounds(cs.as_slice(), 0, cs.len());
    let ghost t = trim_text(range@);
    proof {
        assert(cs@.subrange(0, cs@.len() as int) == cs@);
        lemma_index_of_dots(t);
    }
    let mut i = a;
    while e - i > 1 && !(cs[i] == '.' && cs[i + 1] == '.')
        invariant
            a <= i <= e <= cs@.len(),
            t == cs@.subrange(a as int, e as int),
            forall|j: int| a <= j < i ==> !(#[trigger] dots_at(cs@, j)),
        decreases e - i,
    {
        i = i + 1;
    }
    if e - i > 1 {
        proof {
            assert forall|j: int| 0 <= j < t.len() - 1 && j < i - a implies !dots_at(t, j) by {
                assert(t[j] == cs@[a + j] && t[j + 1] == cs@[a + j + 1]);
                assert(!dots_at(cs@, a + j));
            }
            assert(t[i - a] == cs@[i as int] && t[i - a + 1] == cs@[i + 1]);
            lemma_index_of_dots_unique(t, i - a);
            assert(t.take(i - a) =~= cs@.subrange(a as int, i as int));
            assert(t.skip(i - a + 2) =~= cs@.subrange(i + 2, e as int));
        }
        return width_of(parse_trimmed(&cs, a, i), parse_trimmed(&cs, i + 2, e));
    }
    proof {
        assert forall|j: int| 0 <= j < t.len() - 1 implies !dots_at(t, j) by {
            assert(t[j] == cs@[a + j] && t[j + 1] == cs@[a + j + 1]);
            assert(!dots_at(cs@, a + j));
        }
        lemma_index_of_dots_unique(t, -1);
    }
    match find_char_in(cs.as_slice(), a, e, '-') {
        Some(j) => {
            proof {
                lemma_index_of_char(t, '-');
                assert(t.take(j as int) =~= cs@.subrange(a as int, a + j));
                assert(t.skip(j + 1) =~= cs@.subrange(a + j + 1, e as int));
            }
            width_of(parse_trimmed(&cs, a, a + j), parse_trimmed(&cs, a + j + 1, e))
        },
        None => {
            match parse_u32_range(&cs, a, e) {
                Some(_) => 1,
                None => 16,
            }
        },
    }
}


/// The white-space separated words of `s`, read from the left: a character
/// that is not white space continues the word before it when it follows it
/// directly, and starts a new word otherwise.
pub open spec fn words_of(s: Seq<char>) -> Seq<Seq<char>>
    decreases s.len(),
{
    if s.len() == 0 {
        seq![]
    } else {
        let w = words_of(s.drop_last());
        let c = s.last();
        if is_space(c) {
            w
        } else if s.len() >= 2 && !is_space(s[s.len() - 2]) {
            w.update(w.len() - 1, w.last().push(c))
        } else {
            w.push(seq![c])
        }
    }
}

/// A word `x,y` split at its first `,`; nothing for a word without one.
pub open spec fn pair_of(w: Seq<char>) -> Option<(Seq<char>, Seq<char>)> {
    let i = index_of_char(w, ',');
    if i >= 0 {
        Some((w.take(i), w.skip(i + 1)))
    } else {
        None
    }
}

/// The pairs that the words `ws` hold, in order; words without `,` are
/// passed over.
pub open spec fn pairs_in(ws: Seq<Seq<char>>) -> Seq<(Seq<char>, Seq<char>)>
    decreases ws.len(),
{
    if ws.len() == 0 {
        seq![]
    } else {
        let rest = pairs_in(ws.drop_last());
        match pair_of(ws.last()) {
            Some(p) => rest.push(p),
            None => rest,
        }
    }
}

/// Where the words of `cs` start and end.
fn word_spans(cs: &Vec<char>) -> (spans: Vec<(usize, usize)>)
    ensures
        spans@.len() == words_of(cs@).len(),
        forall|k: int|
            0 <= k < spans@.len() ==> (#[trigger] spans@[k]).0 <= spans@[k].1 <= cs@.len() && cs@.subrange(
                spans@[k].0 as int,
                spans@[k].1 as int,
            ) == words_of(cs@)[k],
{
    let mut spans: Vec<(usize, usize)> = Vec::new();
    let mut i: usize = 0;
    proof {
        assert(cs@.take(0).len() == 0);
    }
    while i < cs.len()
        invariant
            i <= cs@.len(),
            spans@.len() == words_of(cs@.take(i as int)).len(),
            forall|k: int|
                0 <= k < spans@.len() ==> (#[trigger] spans@[k]).0 <= spans@[k].1 <= i && cs@.subrange(
                    spans@[k].0 as int,
                    spans@[k].1 as int,
                ) == words_of(cs@.take(i as int))[k],
            i > 0 && !is_space(cs@[i - 1]) ==> spans@.len() > 0 && spans@.last().1 == i,
        decreases cs@.len() - i,
    {
        let c = cs[i];
        let ghost pre = cs@.take(i as int);
        let ghost w = words_of(pre);
        proof {
            assert(cs@.take(i + 1).drop_last() =~= pre);
            assert(cs@.take(i + 1).last() == c);
            assert(i >= 1 ==> cs@.take(i + 1)[i - 1] == cs@[i - 1]);
        }
        if is_space_char(c) {
        } else if i > 0 && !is_space_char(cs[i - 1]) {
            let last = spans.len() - 1;
            let a = spans[last].0;
            let ghost before = spans@;
            spans.set(last, (a, i + 1));
            proof {
                assert(cs@.subrange(a as int, i + 1) =~= cs@.subrange(a as int, i as int).push(c));
                assert forall|k: int| 0 <= k < spans@.len() implies (#[trigger] spans@[k]).0 <= spans@[k].1 <= i + 1
                    && cs@.subrange(spans@[k].0 as int, spans@[k].1 as int) == words_of(cs@.take(i + 1))[k] by {
                    if k < last {
                        assert(spans@[k] == before[k]);
                    }
                }
            }
        } else {
            let ghost before = spans@;
            spans.push((i, i + 1));
            proof {
                assert(cs@.subrange(i as int, i + 1) =~= seq![c]);
                assert forall|k: int| 0 <= k < spans@.len() implies (#[trigger] spans@[k]).0 <= spans@[k].1 <= i + 1
                    && cs@.subrange(spans@[k].0 as int, spans@[k].1 as int) == words_of(cs@.take(i + 1))[k] by {
                    if k < before.len() {
                        assert(spans@[k] == before[k]);
                    }
                }
            }
        }
        i = i + 1;
    }
    proof {
        assert(cs@.take(cs@.len() as int) =~= cs@);
    }
    spans
}

/// The points an XY chart's data writes: its white-space separated words
/// `x,y`, each split at its first `,` into the texts of its two
/// coordinates; words without `,` are passed over.
pub fn xy_data_pairs(data: &str) -> (r: Vec<(String, String)>)
    ensures
        r@.map_values(|p: (String, String)| (p.0@, p.1@)) == pairs_in(words_of(data@)),
{
    let cs = chars_of(data);
    let spans = word_spans(&cs);
    let ghost ws = words_of(cs@);
    let mut out: Vec<(String, String)> = Vec::new();
    let mut k: usize = 0;
    proof {
        assert(ws.take(0) =~= Seq::<Seq<char>>::empty());
        assert(out@.map_values(|p: (String, String)| (p.0@, p.1@)) =~= pairs_in(ws.take(0)));
    }
    while k < spans.len()
        invariant
            k <= spans@.len() == ws.len(),
            ws == words_of(cs@),
            forall|j: int|
                0 <= j < spans@.len() ==> (#[trigger] spans@[j]).0 <= spans@[j].1 <= cs@.len() && cs@.subrange(
                    spans@[j].0 as int,
                    spans@[j].1 as int,
                ) == ws[j],
            out@.map_values(|p: (String, String)| (p.0@, p.1@)) == pairs_in(ws.take(k as int)),
        decreases spans@.len() - k,
    {
        let (a, b) = spans[k];
        let ghost w = ws[k as int];
        proof {
            assert(ws.take(k + 1).drop_last() =~= ws.take(k as int));
            assert(ws.take(k + 1).last() == w);
            assert(spans@[k as int] == (a, b));
        }
        match find_char_in(cs.as_slice(), a, b, ',') {
            Some(j) => {
                proof {
                    lemma_index_of_char(w, ',');
                    assert(cs@.subrange(a as int, a + j) =~= w.take(j as int));
                    assert(cs@.subrange(a + j + 1, b as int) =~= w.skip(j + 1));
                }
                let x = string_from_range(cs.as_slice(), a, a + j);
                let y = string_from_range(cs.as_slice(), a + j + 1, b);
                let ghost before = out@;
                out.push((x, y));
                proof {
                    assert(out@.map_values(|p: (String, String)| (p.0@, p.1@)) =~= before.map_values(
                        |p: (String, String)| (p.0@, p.1@),
                    ).push((x@, y@)));
                }
            },
            None => {},
        }
        k = k + 1;
    }
    proof {
        assert(ws.take(ws.len() as int) =~= ws);
        assert(cs@ == data@);
    }
    out
}

} // verus!
