use vstd::prelude::*;
use vstd::string::StringSliceAdditionalSpecFns;

use crate::components::{
    Bounds, Box, BoxColour, BoxSpot, Entity, EntityKind, Immovable, Movable, Player, Position, Wall, World,
};
use crate::movement::{kinds_movable, movables_inside, one_movable_per_tile, one_spot_per_tile, valid_world};
use crate::components::{is_box, is_box_spot, is_player, same_tile};
use crate::entities::{box_at, box_spot_at, floor_at, player_at, wall_at};

verus! {

/// The number of columns of the starting level.
pub const MAP_WIDTH: u16 = 8;

/// The number of rows of the starting level.
pub const MAP_HEIGHT: u16 = 9;

/// Why a map text cannot be loaded.
#[derive(Clone, Copy, Debug, PartialEq, Eq, Structural)]
pub enum MapError {
    /// A token that names no tile.
    UnrecognizedToken,
    /// More than 256 rows, or a row of more than 256 tokens: a coordinate would not fit a `u8`.
    TooLarge,
}

/// A one-byte white-space character: tab, line feed, vertical tab, form feed, carriage
/// return or space.
pub open spec fn is_blank1(b0: u8) -> bool {
    b0 == 32 || (9 <= b0 && b0 <= 13)
}

/// The UTF-8 encoding of U+0085 or U+00A0.
pub open spec fn is_blank2(b0: u8, b1: u8) -> bool {
    b0 == 0xC2 && (b1 == 0x85 || b1 == 0xA0)
}

/// The UTF-8 encoding of U+1680, U+2000 to U+200A, U+2028, U+2029, U+202F, U+205F or U+3000.
pub open spec fn is_blank3(b0: u8, b1: u8, b2: u8) -> bool {
    ||| (b0 == 0xE1 && b1 == 0x9A && b2 == 0x80)
    ||| (b0 == 0xE2 && b1 == 0x80 && ((0x80 <= b2 && b2 <= 0x8A) || b2 == 0xA8 || b2 == 0xA9
        || b2 == 0xAF))
    ||| (b0 == 0xE2 && b1 == 0x81 && b2 == 0x9F)
    ||| (b0 == 0xE3 && b1 == 0x80 && b2 == 0x80)
}

/// The length in bytes of the white-space character that `s` starts with, or 0. Together the
/// three tests cover every character with the Unicode `White_Space` property.
pub open spec fn leading_blank(s: Seq<u8>) -> nat {
    if s.len() >= 1 && is_blank1(s[0]) {
        1
    } else if s.len() >= 2 && is_blank2(s[0], s[1]) {
        2
    } else if s.len() >= 3 && is_blank3(s[0], s[1], s[2]) {
        3
    } else {
        0
    }
}

/// The length in bytes of the white-space character that `s` ends with, or 0.
pub open spec fn trailing_blank(s: Seq<u8>) -> nat {
    let n = s.len() as int;
    if n >= 1 && is_blank1(s[n - 1]) {
        1
    } else if n >= 2 && is_blank2(s[n - 2], s[n - 1]) {
        2
    } else if n >= 3 && is_blank3(s[n - 3], s[n - 2], s[n - 1]) {
        3
    } else {
        0
    }
}

pub open spec fn trim_start(s: Seq<u8>) -> Seq<u8>
    decreases s.len(),
{
    if leading_blank(s) > 0 {
        trim_start(s.subrange(leading_blank(s) as int, s.len() as int))
    } else {
        s
    }
}

pub open spec fn trim_end(s: Seq<u8>) -> Seq<u8>
    decreases s.len(),
{
    if trailing_blank(s) > 0 {
        trim_end(s.subrange(0, s.len() - trailing_blank(s)))
    } else {
        s
    }
}

/// `s` without its leading and trailing white space.
pub open spec fn trim(s: Seq<u8>) -> Seq<u8> {
    trim_end(trim_start(s))
}

/// The pieces of `s` between the occurrences of `sep`: one more piece than there are
/// separators, empty pieces included.
pub open spec fn split(s: Seq<u8>, sep: u8) -> Seq<Seq<u8>>
    decreases s.len(),
{
    if s.len() == 0 {
        seq![Seq::empty()]
    } else {
        let pre = split(s.drop_last(), sep);
        if s.last() == sep {
            pre.push(Seq::empty())
        } else {
            pre.update(pre.len() - 1, pre.last().push(s.last()))
        }
    }
}

/// The length of the white-space character that `s[a..hi]` starts with, or 0.
fn leading_blank_at(s: &[u8], a: usize, hi: usize) -> (k: usize)
    requires
        a <= hi <= s@.len(),
    ensures
        k == leading_blank(s@.subrange(a as int, hi as int)),
{
    let n = hi - a;
    if n >= 1 && (s[a] == 32 || (9 <= s[a] && s[a] <= 13)) {
        1
    } else if n >= 2 && s[a] == 0xC2 && (s[a + 1] == 0x85 || s[a + 1] == 0xA0) {
        2
    } else if n >= 3 && ((s[a] == 0xE1 && s[a + 1] == 0x9A && s[a + 2] == 0x80) || (s[a] == 0xE2
        && s[a + 1] == 0x80 && ((0x80 <= s[a + 2] && s[a + 2] <= 0x8A) || s[a + 2] == 0xA8
        || s[a + 2] == 0xA9 || s[a + 2] == 0xAF)) || (s[a] == 0xE2 && s[a + 1] == 0x81 && s[a
        + 2] == 0x9F) || (s[a] == 0xE3 && s[a + 1] == 0x80 && s[a + 2] == 0x80)) {
        3
    } else {
        0
    }
}

/// The length of the white-space character that `s[a..b]` ends with, or 0.
fn trailing_blank_at(s: &[u8], a: usize, b: usize) -> (k: usize)
    requires
        a <= b <= s@.len(),
    ensures
        k == trailing_blank(s@.subrange(a as int, b as int)),
{
    let n = b - a;
    if n >= 1 && (s[b - 1] == 32 || (9 <= s[b - 1] && s[b - 1] <= 13)) {
        1
    } else if n >= 2 && s[b - 2] == 0xC2 && (s[b - 1] == 0x85 || s[b - 1] == 0xA0) {
        2
    } else if n >= 3 && ((s[b - 3] == 0xE1 && s[b - 2] == 0x9A && s[b - 1] == 0x80) || (s[b - 3]
        == 0xE2 && s[b - 2] == 0x80 && ((0x80 <= s[b - 1] && s[b - 1] <= 0x8A) || s[b - 1] == 0xA8
        || s[b - 1] == 0xA9 || s[b - 1] == 0xAF)) || (s[b - 3] == 0xE2 && s[b - 2] == 0x81 && s[b
        - 1] == 0x9F) || (s[b - 3] == 0xE3 && s[b - 2] == 0x80 && s[b - 1] == 0x80)) {
        3
    } else {
        0
    }
}

/// The bounds, inside `[lo, hi)`, of the bytes of `s[lo..hi]` without leading and trailing
/// white space.
fn trim_range(s: &[u8], lo: usize, hi: usize) -> (r: (usize, usize))
    requires
        lo <= hi <= s@.len(),
    ensures
        lo <= r.0 <= r.1 <= hi,
        s@.subrange(r.0 as int, r.1 as int) == trim(s@.subrange(lo as int, hi as int)),
{
    let mut a: usize = lo;
    let mut k = leading_blank_at(s, a, hi);
    while k > 0
        invariant
            lo <= a <= hi <= s@.len(),
            k == leading_blank(s@.subrange(a as int, hi as int)),
            trim_start(s@.subrange(lo as int, hi as int)) == trim_start(s@.subrange(a as int, hi as int)),
        decreases hi - a,
    {
        assert(s@.subrange(a as int, hi as int).subrange(k as int, hi - a) =~= s@.subrange(a + k, hi as int));
        a = a + k;
        k = leading_blank_at(s, a, hi);
    }
    let mut b: usize = hi;
    let mut k = trailing_blank_at(s, a, b);
    while k > 0
        invariant
            lo <= a <= b <= hi <= s@.len(),
            k == trailing_blank(s@.subrange(a as int, b as int)),
            trim(s@.subrange(lo as int, hi as int)) == trim_end(s@.subrange(a as int, b as int)),
        decreases b - a,
    {
        assert(s@.subrange(a as int, b as int).subrange(0, b - a - k) =~= s@.subrange(a as int, b - k));
        b = b - k;
        k = trailing_blank_at(s, a, b);
    }
    (a, b)
}

/// The bytes of `s` in each of the ranges `r`.
pub open spec fn pieces(s: Seq<u8>, r: Seq<(usize, usize)>) -> Seq<Seq<u8>> {
    r.map_values(|p: (usize, usize)| s.subrange(p.0 as int, p.1 as int))
}

/// The bounds of the pieces of `s[lo..hi]` between the occurrences of `sep`.
fn split_range(s: &[u8], lo: usize, hi: usize, sep: u8) -> (r: Vec<(usize, usize)>)
    requires
        lo <= hi <= s@.len(),
    ensures
        pieces(s@, r@) == split(s@.subrange(lo as int, hi as int), sep),
        forall|i: int| 0 <= i < r@.len() ==> lo <= (#[trigger] r@[i]).0 <= r@[i].1 <= hi,
{
    let mut r: Vec<(usize, usize)> = Vec::new();
    let mut start: usize = lo;
    let mut i: usize = lo;
    assert(s@.subrange(lo as int, lo as int) =~= Seq::<u8>::empty());
    assert(pieces(s@, r@).push(s@.subrange(start as int, i as int)) =~= seq![Seq::<u8>::empty()]);
    while i < hi
        invariant
            lo <= start <= i <= hi <= s@.len(),
            forall|k: int| 0 <= k < r@.len() ==> lo <= (#[trigger] r@[k]).0 <= r@[k].1 <= hi,
            pieces(s@, r@).push(s@.subrange(start as int, i as int)) == split(
                s@.subrange(lo as int, i as int),
                sep,
            ),
        decreases hi - i,
    {
        let ghost before = pieces(s@, r@);
        let ghost cur = s@.subrange(start as int, i as int);
        assert(s@.subrange(lo as int, i + 1).drop_last() =~= s@.subrange(lo as int, i as int));
        assert(s@.subrange(lo as int, i + 1).last() == s@[i as int]);
        if s[i] == sep {
            r.push((start, i));
            assert(pieces(s@, r@) =~= before.push(cur));
            start = i + 1;
            assert(s@.subrange(start as int, i + 1) =~= Seq::<u8>::empty());
        } else {
            assert(s@.subrange(start as int, i + 1) =~= cur.push(s@[i as int]));
            assert(before.push(cur).update(before.len() as int, cur.push(s@[i as int])) =~= before.push(
                cur.push(s@[i as int]),
            ));
        }
        i = i + 1;
    }
    r.push((start, hi));
    assert(pieces(s@, r@) =~= split(s@.subrange(lo as int, hi as int), sep));
    r
}

/// `t` is the token of one or two bytes `a`, `b`; a `b` of 0 stands for a one-byte token.
pub open spec fn is_token(t: Seq<u8>, a: u8, b: u8) -> bool {
    if b == 0 {
        t.len() == 1 && t[0] == a
    } else {
        t.len() == 2 && t[0] == a && t[1] == b
    }
}

/// The entities that a map token places on tile `p`, or `None` for a token that names no
/// tile. `.` is floor; `W` a wall on floor; `P` the player on floor; `RB` and `BB` a red and a
/// blue box on floor; `RS` and `BS` a red and a blue box spot on floor; `N` nothing.
pub open spec fn tile_entities(t: Seq<u8>, p: Position) -> Option<Seq<Entity>> {
    if is_token(t, 46, 0) {
        Some(seq![floor_at(p)])
    } else if is_token(t, 87, 0) {
        Some(seq![floor_at(p), wall_at(p)])
    } else if is_token(t, 80, 0) {
        Some(seq![floor_at(p), player_at(p)])
    } else if is_token(t, 66, 66) {
        Some(seq![floor_at(p), box_at(p, BoxColour::Blue)])
    } else if is_token(t, 82, 66) {
        Some(seq![floor_at(p), box_at(p, BoxColour::Red)])
    } else if is_token(t, 66, 83) {
        Some(seq![floor_at(p), box_spot_at(p, BoxColour::Blue)])
    } else if is_token(t, 82, 83) {
        Some(seq![floor_at(p), box_spot_at(p, BoxColour::Red)])
    } else if is_token(t, 78, 0) {
        Some(Seq::empty())
    } else {
        None
    }
}

/// The entities of the first `n` tokens of a row at height `y`; token `x` stands at `(x, y)`.
pub open spec fn row_entities(tokens: Seq<Seq<u8>>, y: u8, n: int) -> Option<Seq<Entity>>
    decreases n,
{
    if n <= 0 {
        Some(Seq::empty())
    } else {
        match row_entities(tokens, y, n - 1) {
            Some(a) => match tile_entities(tokens[n - 1], Position { x: (n - 1) as u8, y, z: 0 }) {
                Some(b) => Some(a + b),
                None => None,
            },
            None => None,
        }
    }
}

/// The rows of a map text, top row first: the lines of the text without its surrounding
/// blanks, each without its own.
pub open spec fn map_rows(s: Seq<u8>) -> Seq<Seq<u8>> {
    split(trim(s), 10).map_values(|r: Seq<u8>| trim(r))
}

/// The tokens of the row at height `y`; height 0 is the last row of the text.
pub open spec fn row_tokens(rows: Seq<Seq<u8>>, y: int) -> Seq<Seq<u8>> {
    split(rows[rows.len() - 1 - y], 32)
}

/// The entities of the rows at heights below `n`, bottom row first, or the first error met.
pub open spec fn rows_entities(rows: Seq<Seq<u8>>, n: int) -> Result<Seq<Entity>, MapError>
    decreases n,
{
    if n <= 0 {
        Ok(Seq::empty())
    } else {
        match rows_entities(rows, n - 1) {
            Ok(a) => {
                let tokens = row_tokens(rows, n - 1);
                if tokens.len() > 256 {
                    Err(MapError::TooLarge)
                } else {
                    match row_entities(tokens, (n - 1) as u8, tokens.len() as int) {
                        Some(b) => Ok(a + b),
                        None => Err(MapError::UnrecognizedToken),
                    }
                }
            },
            Err(e) => Err(e),
        }
    }
}

/// The largest number of tokens in a row at a height below `n`.
pub open spec fn widest_row(rows: Seq<Seq<u8>>, n: int) -> nat
    decreases n,
{
    if n <= 0 {
        0
    } else {
        let w = row_tokens(rows, n - 1).len();
        let m = widest_row(rows, n - 1);
        if w > m {
            w
        } else {
            m
        }
    }
}

/// The size of the map that a text describes: its widest row and its number of rows.
pub open spec fn map_bounds(s: Seq<u8>) -> Bounds {
    let rows = map_rows(s);
    Bounds {
        width: widest_row(rows, rows.len() as int) as u16,
        height: rows.len() as u16,
    }
}

/// The entities that a map text places, in load order, or why it cannot be loaded.
pub open spec fn parse_map(s: Seq<u8>) -> Result<Seq<Entity>, MapError> {
    let rows = map_rows(s);
    if rows.len() > 256 {
        Err(MapError::TooLarge)
    } else {
        rows_entities(rows, rows.len() as int)
    }
}

fn add_tile(s: &[u8], a: usize, b: usize, p: Position, out: &mut Vec<Entity>) -> (ok: bool)
    requires
        a <= b <= s@.len(),
    ensures
        match tile_entities(s@.subrange(a as int, b as int), p) {
            Some(es) => ok && final(out)@ == old(out)@ + es,
            None => !ok && final(out)@ == old(out)@,
        },
{
    let ghost t = s@.subrange(a as int, b as int);
    let floor = Entity { position: p, kind: EntityKind::Floor, movable: None, immovable: None };
    let len = b - a;
    let (c0, c1): (u8, u8) = if len == 1 {
        (s[a], 0)
    } else if len == 2 {
        (s[a], s[a + 1])
    } else {
        (0, 0)
    };
    if len == 1 && c0 == 46 {
        out.push(floor);
        assert(old(out)@.push(floor) =~= old(out)@ + seq![floor_at(p)]);
        true
    } else if len == 1 && c0 == 87 {
        out.push(floor);
        out.push(Entity { position: p, kind: EntityKind::Wall(Wall {}), movable: None, immovable: Some(Immovable) });
        assert(old(out)@.push(floor).push(wall_at(p)) =~= old(out)@ + seq![floor_at(p), wall_at(p)]);
        true
    } else if len == 1 && c0 == 80 {
        out.push(floor);
        out.push(Entity { position: p, kind: EntityKind::Player(Player {}), movable: Some(Movable), immovable: None });
        assert(old(out)@.push(floor).push(player_at(p)) =~= old(out)@ + seq![floor_at(p), player_at(p)]);
        true
    } else if len == 2 && (c0 == 66 || c0 == 82) && c1 == 66 {
        let colour = if c0 == 66 { BoxColour::Blue } else { BoxColour::Red };
        out.push(floor);
        out.push(Entity { position: p, kind: EntityKind::Box(Box { colour }), movable: Some(Movable), immovable: None });
        assert(old(out)@.push(floor).push(box_at(p, colour)) =~= old(out)@ + seq![floor_at(p), box_at(p, colour)]);
        true
    } else if len == 2 && (c0 == 66 || c0 == 82) && c1 == 83 {
        let colour = if c0 == 66 { BoxColour::Blue } else { BoxColour::Red };
        out.push(floor);
        out.push(Entity { position: p, kind: EntityKind::BoxSpot(BoxSpot { colour }), movable: None, immovable: None });
        assert(old(out)@.push(floor).push(box_spot_at(p, colour)) =~= old(out)@ + seq![floor_at(p), box_spot_at(p, colour)]);
        true
    } else if len == 1 && c0 == 78 {
        assert(old(out)@ + Seq::<Entity>::empty() =~= old(out)@);
        true
    } else {
        false
    }
}

fn add_row(s: &[u8], toks: &Vec<(usize, usize)>, y: u8, out: &mut Vec<Entity>) -> (ok: bool)
    requires
        toks@.len() <= 256,
        forall|i: int| 0 <= i < toks@.len() ==> (#[trigger] toks@[i]).0 <= toks@[i].1 <= s@.len(),
    ensures
        match row_entities(pieces(s@, toks@), y, toks@.len() as int) {
            Some(es) => ok && final(out)@ == old(out)@ + es,
            None => !ok,
        },
{
    let ghost tokens = pieces(s@, toks@);
    let n = toks.len();
    let mut x: usize = 0;
    assert(old(out)@ + Seq::<Entity>::empty() =~= old(out)@);
    while x < n
        invariant
            n == toks@.len(),
            n <= 256,
            x <= n,
            tokens == pieces(s@, toks@),
            forall|i: int| 0 <= i < toks@.len() ==> (#[trigger] toks@[i]).0 <= toks@[i].1 <= s@.len(),
            row_entities(tokens, y, x as int) is Some,
            out@ == old(out)@ + row_entities(tokens, y, x as int)->0,
        decreases n - x,
    {
        let (a, b) = toks[x];
        let ok = add_tile(s, a, b, Position { x: x as u8, y, z: 0 }, out);
        if !ok {
            proof {
                lemma_row_entities_none(tokens, y, x + 1, n as int);
            }
            return false;
        }
        assert(out@ =~= old(out)@ + row_entities(tokens, y, x + 1)->0);
        x = x + 1;
    }
    true
}

proof fn lemma_row_entities_none(tokens: Seq<Seq<u8>>, y: u8, m: int, n: int)
    requires
        0 < m <= n,
        row_entities(tokens, y, m) is None,
    ensures
        row_entities(tokens, y, n) is None,
    decreases n - m,
{
    if m < n {
        lemma_row_entities_none(tokens, y, m + 1, n);
    }
}

proof fn lemma_rows_entities_err(rows: Seq<Seq<u8>>, m: int, n: int)
    requires
        0 < m <= n,
        rows_entities(rows, m) is Err,
    ensures
        rows_entities(rows, n) == rows_entities(rows, m),
    decreases n - m,
{
    if m < n {
        lemma_rows_entities_err(rows, m + 1, n);
    }
}

/// Loads a map text into the world: each row is a line, the last line at height 0, and each
/// token of a row, separated by single spaces, is one tile as `tile_entities` says. Either the
/// whole map is added, in that order, and the world takes the map's size, or on an error
/// nothing changes.
pub fn load_map(world: &mut World, map_string: &str) -> (r: Result<(), MapError>)
    ensures
        match parse_map(map_string.spec_bytes()) {
            Ok(es) => r is Ok && final(world)@ == old(world)@ + es && final(world).bounds
                == map_bounds(map_string.spec_bytes()),
            Err(e) => r == Err::<(), MapError>(e) && final(world)@ == old(world)@ && final(world).bounds
                == old(world).bounds,
        },
{
    let bytes = map_string.as_bytes();
    let ghost sb = bytes@;
    let (lo, hi) = trim_range(bytes, 0, bytes.len());
    assert(sb.subrange(0, sb.len() as int) =~= sb);
    let lines = split_range(bytes, lo, hi, 10);
    let mut rows: Vec<(usize, usize)> = Vec::new();
    let nlines = lines.len();
    let mut i: usize = 0;
    while i < nlines
        invariant
            nlines == lines@.len(),
            i <= nlines,
            rows@.len() == i,
            pieces(sb, lines@) == split(trim(sb), 10),
            forall|k: int| 0 <= k < lines@.len() ==> lo <= (#[trigger] lines@[k]).0 <= lines@[k].1 <= hi,
            hi <= sb.len(),
            sb == bytes@,
            sb == map_string.spec_bytes(),
            forall|k: int| 0 <= k < rows@.len() ==> (#[trigger] rows@[k]).0 <= rows@[k].1 <= sb.len(),
            forall|k: int|
                0 <= k < i ==> pieces(sb, rows@)[k] == trim(#[trigger] pieces(sb, lines@)[k]),
        decreases nlines - i,
    {
        let (a, b) = lines[i];
        let t = trim_range(bytes, a, b);
        rows.push(t);
        assert(pieces(sb, rows@)[i as int] == sb.subrange(t.0 as int, t.1 as int));
        i = i + 1;
    }
    let ghost all_rows = map_rows(sb);
    assert(pieces(sb, rows@) =~= all_rows);
    let nrows = rows.len();
    if nrows > 256 {
        return Err(MapError::TooLarge);
    }
    let mut out: Vec<Entity> = Vec::new();
    let mut widest: usize = 0;
    let mut y: usize = 0;
    while y < nrows
        invariant
            nrows == rows@.len(),
            nrows <= 256,
            y <= nrows,
            all_rows == pieces(sb, rows@),
            all_rows.len() == nrows,
            all_rows == map_rows(sb),
            sb == bytes@,
            sb == map_string.spec_bytes(),
            forall|k: int| 0 <= k < rows@.len() ==> (#[trigger] rows@[k]).0 <= rows@[k].1 <= sb.len(),
            rows_entities(all_rows, y as int) == Ok::<Seq<Entity>, MapError>(out@),
            widest == widest_row(all_rows, y as int),
            widest <= 256,
        decreases nrows - y,
    {
        let (a, b) = rows[nrows - 1 - y];
        let toks = split_range(bytes, a, b, 32);
        assert(pieces(sb, toks@) == row_tokens(all_rows, y as int));
        if toks.len() > 256 {
            proof {
                lemma_rows_entities_err(all_rows, y + 1, nrows as int);
            }
            return Err(MapError::TooLarge);
        }
        let ok = add_row(bytes, &toks, y as u8, &mut out);
        if !ok {
            proof {
                lemma_rows_entities_err(all_rows, y + 1, nrows as int);
            }
            return Err(MapError::UnrecognizedToken);
        }
        if toks.len() > widest {
            widest = toks.len();
        }
        y = y + 1;
    }
    let n = out.len();
    let mut j: usize = 0;
    while j < n
        invariant
            n == out@.len(),
            j <= n,
            world@ == old(world)@ + out@.subrange(0, j as int),
            world.bounds == old(world).bounds,
        decreases n - j,
    {
        world.entities.push(out[j]);
        assert(out@.subrange(0, j + 1) =~= out@.subrange(0, j as int).push(out@[j as int]));
        j = j + 1;
    }
    assert(out@.subrange(0, n as int) =~= out@);
    world.bounds = Bounds { width: widest as u16, height: nrows as u16 };
    Ok(())
}

/// Every entity stands in row `y`, left of column `n`.
pub open spec fn in_row(ents: Seq<Entity>, y: u8, n: int) -> bool {
    forall|i: int| 0 <= i < ents.len() ==> (#[trigger] ents[i]).position.y == y && (ents[i].position.x as int) < n
}

/// Every entity stands below row `n` and left of column `w`.
pub open spec fn in_rows(ents: Seq<Entity>, n: int, w: int) -> bool {
    forall|i: int| 0 <= i < ents.len() ==> (#[trigger] ents[i]).position.y < n && (ents[i].position.x as int) < w
}

proof fn lemma_tile_valid(t: Seq<u8>, p: Position)
    requires
        tile_entities(t, p) is Some,
    ensures
        one_movable_per_tile(tile_entities(t, p)->0),
        one_spot_per_tile(tile_entities(t, p)->0),
        kinds_movable(tile_entities(t, p)->0),
        forall|i: int|
            0 <= i < tile_entities(t, p)->0.len() ==> (#[trigger] tile_entities(t, p)->0[i]).position == p,
{
    let es = tile_entities(t, p)->0;
    assert(es.len() <= 2);
    assert(es.len() == 2 ==> es[0].movable is None && !is_box_spot(es[0]));
}

proof fn lemma_concat_valid(a: Seq<Entity>, b: Seq<Entity>)
    requires
        one_movable_per_tile(a),
        one_movable_per_tile(b),
        one_spot_per_tile(a),
        one_spot_per_tile(b),
        kinds_movable(a),
        kinds_movable(b),
        forall|i: int, j: int|
            0 <= i < a.len() && 0 <= j < b.len() ==> !same_tile(
                #[trigger] a[i].position,
                #[trigger] b[j].position,
            ),
    ensures
        one_movable_per_tile(a + b),
        one_spot_per_tile(a + b),
        kinds_movable(a + b),
{
    let c = a + b;
    assert forall|i: int, k: int|
        0 <= i < c.len() && 0 <= k < c.len() && i != k && c[i].movable is Some && c[k].movable
            is Some implies !same_tile(#[trigger] c[i].position, #[trigger] c[k].position) by {
        if i < a.len() && k < a.len() {
            assert(c[i] == a[i] && c[k] == a[k]);
        } else if i >= a.len() && k >= a.len() {
            assert(c[i] == b[i - a.len()] && c[k] == b[k - a.len()]);
        } else if i < a.len() {
            assert(c[i] == a[i] && c[k] == b[k - a.len()]);
        } else {
            assert(c[k] == a[k] && c[i] == b[i - a.len()]);
        }
    }
    assert forall|i: int, k: int|
        0 <= i < c.len() && 0 <= k < c.len() && i != k && is_box_spot(c[i]) && is_box_spot(c[k])
            implies !same_tile(#[trigger] c[i].position, #[trigger] c[k].position) by {
        if i < a.len() && k < a.len() {
            assert(c[i] == a[i] && c[k] == a[k]);
        } else if i >= a.len() && k >= a.len() {
            assert(c[i] == b[i - a.len()] && c[k] == b[k - a.len()]);
        } else if i < a.len() {
            assert(c[i] == a[i] && c[k] == b[k - a.len()]);
        } else {
            assert(c[k] == a[k] && c[i] == b[i - a.len()]);
        }
    }
    assert forall|i: int| 0 <= i < c.len() implies ((is_player(#[trigger] c[i]) || is_box(c[i]))
        ==> c[i].movable is Some) && (is_box_spot(c[i]) ==> c[i].movable is None) by {
        if i < a.len() {
            assert(c[i] == a[i]);
        } else {
            assert(c[i] == b[i - a.len()]);
        }
    }
}

proof fn lemma_row_valid(tokens: Seq<Seq<u8>>, y: u8, n: int)
    requires
        n <= 256,
        row_entities(tokens, y, n) is Some,
    ensures
        one_movable_per_tile(row_entities(tokens, y, n)->0),
        one_spot_per_tile(row_entities(tokens, y, n)->0),
        kinds_movable(row_entities(tokens, y, n)->0),
        in_row(row_entities(tokens, y, n)->0, y, n),
    decreases n,
{
    if n > 0 {
        lemma_row_valid(tokens, y, n - 1);
        let a = row_entities(tokens, y, n - 1)->0;
        let p = Position { x: (n - 1) as u8, y, z: 0 };
        lemma_tile_valid(tokens[n - 1], p);
        let b = tile_entities(tokens[n - 1], p)->0;
        assert forall|i: int, j: int|
            0 <= i < a.len() && 0 <= j < b.len() implies !same_tile(
            #[trigger] a[i].position,
            #[trigger] b[j].position,
        ) by {
            assert(b[j].position == p);
        }
        lemma_concat_valid(a, b);
        let c = a + b;
        assert forall|i: int| 0 <= i < c.len() implies (#[trigger] c[i]).position.y == y && (
        c[i].position.x as int) < n by {
            if i < a.len() {
                assert(c[i] == a[i]);
            } else {
                assert(c[i] == b[i - a.len()]);
            }
        }
    } else {
        assert(row_entities(tokens, y, n)->0.len() == 0);
    }
}

proof fn lemma_rows_valid(rows: Seq<Seq<u8>>, n: int)
    requires
        0 <= n <= 256,
        n <= rows.len(),
        rows_entities(rows, n) is Ok,
    ensures
        one_movable_per_tile(rows_entities(rows, n)->Ok_0),
        one_spot_per_tile(rows_entities(rows, n)->Ok_0),
        kinds_movable(rows_entities(rows, n)->Ok_0),
        in_rows(rows_entities(rows, n)->Ok_0, n, widest_row(rows, n) as int),
    decreases n,
{
    if n > 0 {
        lemma_rows_valid(rows, n - 1);
        let a = rows_entities(rows, n - 1)->Ok_0;
        let tokens = row_tokens(rows, n - 1);
        let y = (n - 1) as u8;
        lemma_row_valid(tokens, y, tokens.len() as int);
        let b = row_entities(tokens, y, tokens.len() as int)->0;
        assert forall|i: int, j: int|
            0 <= i < a.len() && 0 <= j < b.len() implies !same_tile(
            #[trigger] a[i].position,
            #[trigger] b[j].position,
        ) by {
            assert(a[i].position.y < n - 1);
            assert(b[j].position.y == y);
        }
        lemma_concat_valid(a, b);
        let c = a + b;
        let w = widest_row(rows, n) as int;
        assert forall|i: int| 0 <= i < c.len() implies (#[trigger] c[i]).position.y < n && (
        c[i].position.x as int) < w by {
            if i < a.len() {
                assert(c[i] == a[i]);
            } else {
                assert(c[i] == b[i - a.len()]);
            }
        }
    } else {
        assert(rows_entities(rows, n)->Ok_0.len() == 0);
    }
}

/// A loaded map meets the data model: no two movable entities share a tile, every player
/// and box can be pushed, and every movable entity lies on the map. Loaded into an empty
/// world, it makes a valid world.
pub proof fn law_loaded_map_is_valid(s: Seq<u8>)
    requires
        parse_map(s) is Ok,
    ensures
        valid_world(parse_map(s)->Ok_0, map_bounds(s)),
{
    let rows = map_rows(s);
    lemma_rows_valid(rows, rows.len() as int);
    lemma_widest_row_bound(rows, rows.len() as int);
}

proof fn lemma_widest_row_bound(rows: Seq<Seq<u8>>, n: int)
    requires
        rows_entities(rows, n) is Ok,
    ensures
        widest_row(rows, n) <= 256,
    decreases n,
{
    if n > 0 {
        lemma_widest_row_bound(rows, n - 1);
    }
}

} // verus!
