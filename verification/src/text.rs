//! The names under which tiles and descriptors are stored, and the text of
//! a descriptor.

use vstd::prelude::*;
use vstd::string::*;
use vstd::utf8::encode_utf8;

verus! {

/// The character that writes the digit `d`.
pub open spec fn digit_char(d: nat) -> char {
    if d == 0 {
        '0'
    } else if d == 1 {
        '1'
    } else if d == 2 {
        '2'
    } else if d == 3 {
        '3'
    } else if d == 4 {
        '4'
    } else if d == 5 {
        '5'
    } else if d == 6 {
        '6'
    } else if d == 7 {
        '7'
    } else if d == 8 {
        '8'
    } else {
        '9'
    }
}

/// `c` is one of the ten decimal digits.
pub open spec fn is_digit(c: char) -> bool {
    c == '0' || c == '1' || c == '2' || c == '3' || c == '4' || c == '5' || c == '6' || c == '7'
        || c == '8' || c == '9'
}

/// The number that the digit `c` writes.
pub open spec fn digit_value(c: char) -> nat {
    if c == '1' {
        1
    } else if c == '2' {
        2
    } else if c == '3' {
        3
    } else if c == '4' {
        4
    } else if c == '5' {
        5
    } else if c == '6' {
        6
    } else if c == '7' {
        7
    } else if c == '8' {
        8
    } else if c == '9' {
        9
    } else {
        0
    }
}

/// The decimal numeral of `n`, without sign or leading zeros.
pub open spec fn decimal_digits(n: nat) -> Seq<char>
    decreases n,
{
    if n < 10 {
        seq![digit_char(n)]
    } else {
        decimal_digits(n / 10).push(digit_char(n % 10))
    }
}

/// The number that a numeral writes.
pub open spec fn decimal_value(digits: Seq<char>) -> nat
    decreases digits.len(),
{
    if digits.len() == 0 {
        0
    } else {
        10 * decimal_value(digits.drop_last()) + digit_value(digits.last())
    }
}

/// Every character of `s` is a decimal digit.
pub open spec fn all_digits(s: Seq<char>) -> bool {
    forall|i: int| 0 <= i < s.len() ==> is_digit(#[trigger] s[i])
}

/// Where the tile at `(col, row)` of level `level` is stored.
pub open spec fn tile_path(name: Seq<char>, level: nat, col: nat, row: nat) -> Seq<char> {
    name + "_files/"@ + decimal_digits(level) + "/"@ + decimal_digits(col) + "_"@
        + decimal_digits(row) + ".jpg"@
}

/// Where the descriptor of the image `name` is stored.
pub open spec fn descriptor_path(name: Seq<char>) -> Seq<char> {
    name + ".dzi"@
}

/// The descriptor of an image of `width` by `height` pixels cut into tiles of
/// `tile_size` pixels with `overlap` pixels of overlap.
pub open spec fn descriptor_text(tile_size: nat, overlap: nat, width: nat, height: nat) -> Seq<
    char,
> {
    "<?xml version=\"1.0\" encoding=\"UTF-8\"?>\n"@
        + "<Image xmlns=\"http://schemas.microsoft.com/deepzoom/2008\"\n"@
        + "    TileSize=\""@ + decimal_digits(tile_size) + "\"\n"@
        + "    Overlap=\""@ + decimal_digits(overlap) + "\"\n"@
        + "    Format=\"jpg\">\n"@
        + "    <Size Width=\""@ + decimal_digits(width)
        + "\" Height=\""@ + decimal_digits(height) + "\"/>\n"@
        + "</Image>"@
}

/// A numeral is not empty, consists of digits, and writes its number.
pub proof fn lemma_decimal_digits(n: nat)
    ensures
        decimal_digits(n).len() >= 1,
        all_digits(decimal_digits(n)),
        decimal_value(decimal_digits(n)) == n,
    decreases n,
{
    let s = decimal_digits(n);
    if n < 10 {
        assert(s.drop_last() =~= Seq::<char>::empty());
        assert(decimal_value(s.drop_last()) == 0);
        assert(s.last() == digit_char(n));
    } else {
        lemma_decimal_digits(n / 10);
        assert(s.drop_last() =~= decimal_digits(n / 10));
        assert(s.last() == digit_char(n % 10));
        assert forall|i: int| 0 <= i < s.len() implies is_digit(#[trigger] s[i]) by {
            if i < s.len() - 1 {
                assert(s[i] == decimal_digits(n / 10)[i]);
            }
        }
    }
}

/// A number below ten to the tenth is written with at most ten digits.
pub proof fn lemma_decimal_digits_len(n: nat)
    requires
        n < 10_000_000_000,
    ensures
        decimal_digits(n).len() <= 10,
{
    reveal_with_fuel(decimal_digits, 11);
}

/// A text takes at most four bytes for each of its characters.
pub proof fn lemma_encoded_length(text: Seq<char>)
    ensures
        encode_utf8(text).len() <= 4 * text.len(),
    decreases text.len(),
{
    if text.len() > 0 {
        lemma_encoded_length(text.drop_first());
    }
}

/// The length of the path of a tile with positions in the range of the
/// machine's coordinates.
pub proof fn lemma_tile_path_len(name: Seq<char>, level: nat, col: nat, row: nat)
    requires
        level <= u32::MAX,
        col <= u32::MAX,
        row <= u32::MAX,
    ensures
        tile_path(name, level, col, row).len() <= name.len() + 43,
        descriptor_path(name).len() == name.len() + 4,
{
    reveal_strlit("_files/");
    reveal_strlit("/");
    reveal_strlit("_");
    reveal_strlit(".jpg");
    reveal_strlit(".dzi");
    lemma_decimal_digits_len(level);
    lemma_decimal_digits_len(col);
    lemma_decimal_digits_len(row);
}

/// Different numbers have different numerals.
pub proof fn lemma_decimal_digits_injective(a: nat, b: nat)
    requires
        decimal_digits(a) == decimal_digits(b),
    ensures
        a == b,
{
    lemma_decimal_digits(a);
    lemma_decimal_digits(b);
}

/// Two texts that each begin with a numeral followed by the same character,
/// which is no digit, agree only if the numerals and the rests agree.
proof fn lemma_numeral_then_mark(
    a: Seq<char>,
    ra: Seq<char>,
    b: Seq<char>,
    rb: Seq<char>,
    mark: char,
)
    requires
        all_digits(a),
        all_digits(b),
        !is_digit(mark),
        a + seq![mark] + ra == b + seq![mark] + rb,
    ensures
        a == b,
        ra == rb,
{
    let left = a + seq![mark] + ra;
    let right = b + seq![mark] + rb;
    assert(left.len() == a.len() + 1 + ra.len());
    assert(right.len() == b.len() + 1 + rb.len());
    if a.len() < b.len() {
        let at = a.len() as int;
        assert(left[at] == mark);
        assert(right[at] == b[at]);
        assert(is_digit(b[at]));
        assert(false);
    }
    if b.len() < a.len() {
        let at = b.len() as int;
        assert(right[at] == mark);
        assert(left[at] == a[at]);
        assert(is_digit(a[at]));
        assert(false);
    }
    assert(a.len() == b.len());
    assert(ra.len() == rb.len());
    assert forall|i: int| 0 <= i < a.len() implies a[i] == b[i] by {
        assert(left[i] == a[i]);
        assert(right[i] == b[i]);
    }
    assert(a =~= b);
    let skip = a.len() + 1;
    assert forall|i: int| 0 <= i < ra.len() implies ra[i] == rb[i] by {
        assert(left[skip + i] == ra[i]);
        assert(right[skip + i] == rb[i]);
    }
    assert(ra =~= rb);
}

/// Texts with a common beginning agree only if their rests agree.
proof fn lemma_same_prefix(p: Seq<char>, x: Seq<char>, y: Seq<char>)
    requires
        p + x == p + y,
    ensures
        x == y,
{
    let px = p + x;
    let py = p + y;
    assert(px.len() == p.len() + x.len());
    assert(py.len() == p.len() + y.len());
    assert(x.len() == y.len());
    assert forall|i: int| 0 <= i < x.len() implies x[i] == y[i] by {
        assert(px[p.len() + i] == x[i]);
        assert(py[p.len() + i] == y[i]);
    }
    assert(x =~= y);
}

/// The part of a tile path behind the image name.
spec fn tile_path_tail(level: nat, col: nat, row: nat) -> Seq<char> {
    decimal_digits(level) + seq!['/'] + (decimal_digits(col) + seq!['_'] + (decimal_digits(row)
        + seq!['.'] + "jpg"@))
}

proof fn lemma_tile_path_split(name: Seq<char>, level: nat, col: nat, row: nat)
    ensures
        tile_path(name, level, col, row) == (name + "_files/"@) + tile_path_tail(level, col, row),
{
    reveal_strlit("/");
    reveal_strlit("_");
    reveal_strlit(".jpg");
    reveal_strlit("jpg");
    assert("/"@ =~= seq!['/']);
    assert("_"@ =~= seq!['_']);
    assert(".jpg"@ =~= seq!['.'] + "jpg"@);
    assert(tile_path(name, level, col, row) =~= (name + "_files/"@) + tile_path_tail(
        level,
        col,
        row,
    ));
}

/// Tiles at different positions of one image are stored under different
/// paths.
pub proof fn lemma_tile_paths_distinct(
    name: Seq<char>,
    level1: nat,
    col1: nat,
    row1: nat,
    level2: nat,
    col2: nat,
    row2: nat,
)
    requires
        tile_path(name, level1, col1, row1) == tile_path(name, level2, col2, row2),
    ensures
        level1 == level2,
        col1 == col2,
        row1 == row2,
{
    lemma_tile_path_split(name, level1, col1, row1);
    lemma_tile_path_split(name, level2, col2, row2);
    lemma_same_prefix(
        name + "_files/"@,
        tile_path_tail(level1, col1, row1),
        tile_path_tail(level2, col2, row2),
    );
    lemma_decimal_digits(level1);
    lemma_decimal_digits(level2);
    lemma_decimal_digits(col1);
    lemma_decimal_digits(col2);
    lemma_decimal_digits(row1);
    lemma_decimal_digits(row2);
    let rest1 = decimal_digits(col1) + seq!['_'] + (decimal_digits(row1) + seq!['.'] + "jpg"@);
    let rest2 = decimal_digits(col2) + seq!['_'] + (decimal_digits(row2) + seq!['.'] + "jpg"@);
    lemma_numeral_then_mark(decimal_digits(level1), rest1, decimal_digits(level2), rest2, '/');
    lemma_numeral_then_mark(
        decimal_digits(col1),
        decimal_digits(row1) + seq!['.'] + "jpg"@,
        decimal_digits(col2),
        decimal_digits(row2) + seq!['.'] + "jpg"@,
        '_',
    );
    lemma_numeral_then_mark(decimal_digits(row1), "jpg"@, decimal_digits(row2), "jpg"@, '.');
    lemma_decimal_digits_injective(level1, level2);
    lemma_decimal_digits_injective(col1, col2);
    lemma_decimal_digits_injective(row1, row2);
}

/// No tile is stored under the path of a descriptor: the two end
/// differently.
pub proof fn lemma_tile_path_is_no_descriptor(
    name: Seq<char>,
    level: nat,
    col: nat,
    row: nat,
    other: Seq<char>,
)
    ensures
        tile_path(name, level, col, row) != descriptor_path(other),
{
    reveal_strlit(".jpg");
    reveal_strlit(".dzi");
    let t = tile_path(name, level, col, row);
    let d = descriptor_path(other);
    assert(t[t.len() - 1] == 'g');
    assert(d[d.len() - 1] == 'i');
}

/// The one-character text of a digit.
fn digit_str(d: u32) -> (s: &'static str)
    requires
        d < 10,
    ensures
        s@ == seq![digit_char(d as nat)],
{
    proof {
        reveal_strlit("0");
        reveal_strlit("1");
        reveal_strlit("2");
        reveal_strlit("3");
        reveal_strlit("4");
        reveal_strlit("5");
        reveal_strlit("6");
        reveal_strlit("7");
        reveal_strlit("8");
        reveal_strlit("9");
    }
    let s = if d == 0 {
        "0"
    } else if d == 1 {
        "1"
    } else if d == 2 {
        "2"
    } else if d == 3 {
        "3"
    } else if d == 4 {
        "4"
    } else if d == 5 {
        "5"
    } else if d == 6 {
        "6"
    } else if d == 7 {
        "7"
    } else if d == 8 {
        "8"
    } else {
        "9"
    };
    assert(s@ =~= seq![digit_char(d as nat)]);
    s
}

/// The decimal numeral of `n`.
pub fn decimal_string(n: u32) -> (s: String)
    ensures
        s@ == decimal_digits(n as nat),
    decreases n,
{
    if n < 10 {
        String::from_str(digit_str(n))
    } else {
        let mut s = decimal_string(n / 10);
        s.append(digit_str(n % 10));
        assert(s@ =~= decimal_digits(n as nat));
        s
    }
}

/// The path of the tile at `(col, row)` of level `level` of the image `name`.
pub fn tile_path_string(name: &str, level: u32, col: u32, row: u32) -> (path: String)
    ensures
        path@ == tile_path(name@, level as nat, col as nat, row as nat),
{
    let mut path = String::from_str(name);
    path.append("_files/");
    path.append(decimal_string(level).as_str());
    path.append("/");
    path.append(decimal_string(col).as_str());
    path.append("_");
    path.append(decimal_string(row).as_str());
    path.append(".jpg");
    path
}

/// The path of the descriptor of the image `name`.
pub fn descriptor_path_string(name: &str) -> (path: String)
    ensures
        path@ == descriptor_path(name@),
{
    let mut path = String::from_str(name);
    path.append(".dzi");
    path
}

/// The descriptor of an image of `width` by `height` pixels cut into tiles of
/// `tile_size` pixels with `overlap` pixels of overlap.
pub fn descriptor_document(tile_size: u32, overlap: u32, width: u32, height: u32) -> (text: String)
    ensures
        text@ == descriptor_text(tile_size as nat, overlap as nat, width as nat, height as nat),
{
    let mut text = String::from_str("<?xml version=\"1.0\" encoding=\"UTF-8\"?>\n");
    text.append("<Image xmlns=\"http://schemas.microsoft.com/deepzoom/2008\"\n");
    text.append("    TileSize=\"");
    text.append(decimal_string(tile_size).as_str());
    text.append("\"\n");
    text.append("    Overlap=\"");
    text.append(decimal_string(overlap).as_str());
    text.append("\"\n");
    text.append("    Format=\"jpg\">\n");
    text.append("    <Size Width=\"");
    text.append(decimal_string(width).as_str());
    text.append("\" Height=\"");
    text.append(decimal_string(height).as_str());
    text.append("\"/>\n");
    text.append("</Image>");
    text
}

} // verus!
