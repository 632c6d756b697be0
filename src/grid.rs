//! A rectangular grid of byte-valued cells, stored row by row.

use crate::net::{prefix_of, suffix_of};
use crate::random::random_u64;
use vstd::prelude::*;
use vstd::string::StringSliceAdditionalSpecFns;

verus! {

/// A `width` by `height` grid; cell `(x, y)` is `cells[y * width + x]`.
#[derive(Debug, Clone)]
pub struct Grid {
    pub width: usize,
    pub height: usize,
    pub cells: Vec<u8>,
}

/// The cells next to `(x, y)` inside a `width` by `height` grid, in the order
/// left, right, up, down.
pub open spec fn neighbor_cells(width: int, height: int, x: int, y: int) -> Seq<(usize, usize)> {
    let left = if x > 0 { seq![((x - 1) as usize, y as usize)] } else { Seq::empty() };
    let right = if x + 1 < width { seq![((x + 1) as usize, y as usize)] } else { Seq::empty() };
    let up = if y > 0 { seq![(x as usize, (y - 1) as usize)] } else { Seq::empty() };
    let down = if y + 1 < height { seq![(x as usize, (y + 1) as usize)] } else { Seq::empty() };
    left + right + up + down
}

impl Grid {
    /// The cell vector holds exactly one value per cell.
    pub open spec fn wf(&self) -> bool {
        self.cells@.len() == self.width * self.height
    }

    /// The value of cell `(x, y)`.
    pub open spec fn cell(&self, x: int, y: int) -> u8 {
        self.cells@[y * self.width + x]
    }

    /// The position of cell `(x, y)` in `cells`.
    pub fn index(&self, x: usize, y: usize) -> (r: usize)
        requires
            y * self.width + x <= usize::MAX,
        ensures
            r == y * self.width + x,
    {
        y * self.width + x
    }

    /// The value of cell `(x, y)`.
    pub fn get(&self, x: usize, y: usize) -> (r: u8)
        requires
            self.wf(),
            x < self.width,
            y < self.height,
        ensures
            r == self.cell(x as int, y as int),
    {
        proof {
            lemma_cell_in_range(self.width as int, self.height as int, x as int, y as int);
            assert(self.cells@.len() == self.cells.len());
        }
        self.cells[self.index(x, y)]
    }

    /// The cells next to `(x, y)`: left, right, up, down, those inside the grid.
    pub fn neighbors(&self, x: usize, y: usize) -> (r: Vec<(usize, usize)>)
        requires
            x < usize::MAX,
            y < usize::MAX,
        ensures
            r@ == neighbor_cells(self.width as int, self.height as int, x as int, y as int),
    {
        let mut n: Vec<(usize, usize)> = Vec::with_capacity(4);
        if x > 0 {
            n.push((x - 1, y));
        }
        let ghost a = n@;
        if x + 1 < self.width {
            n.push((x + 1, y));
        }
        let ghost b = n@;
        if y > 0 {
            n.push((x, y - 1));
        }
        let ghost c = n@;
        if y + 1 < self.height {
            n.push((x, y + 1));
        }
        let ghost w = self.width as int;
        let ghost h = self.height as int;
        assert(a =~= if x > 0 { seq![((x - 1) as usize, y)] } else { Seq::empty() });
        assert(b =~= a + if x + 1 < w { seq![((x + 1) as usize, y)] } else { Seq::<(usize, usize)>::empty() });
        assert(c =~= b + if y > 0 { seq![(x, (y - 1) as usize)] } else { Seq::<(usize, usize)>::empty() });
        assert(n@ =~= c + if y + 1 < h { seq![(x, (y + 1) as usize)] } else { Seq::<(usize, usize)>::empty() });
        n
    }
}

/// A cell inside the grid has its position inside the cell vector.
pub proof fn lemma_cell_in_range(width: int, height: int, x: int, y: int)
    requires
        0 <= x < width,
        0 <= y < height,
    ensures
        0 <= y * width + x < width * height,
{
    assert(y * width + x < width * height) by (nonlinear_arith)
        requires 0 <= x < width, 0 <= y < height;
    assert(0 <= y * width) by (nonlinear_arith)
        requires 0 <= y, 0 <= width;
}

/// A `width` by `height` grid of random values whose end cell
/// `(width - 1, height - 1)` is `FF` and whose start cell `(0, 0)` is `00`
/// (unless the grid is a single cell, which is then the end cell).
pub fn generate_grid(width: usize, height: usize) -> (r: Grid)
    requires
        width > 0,
        height > 0,
        width * height <= usize::MAX,
    ensures
        r.width == width,
        r.height == height,
        r.wf(),
        width * height > 1 ==> r.cell(0, 0) == 0x00,
        r.cell(width - 1, height - 1) == 0xFF,
{
    let n = width * height;
    let mut cells: Vec<u8> = Vec::with_capacity(n);
    let mut i: usize = 0;
    while i < n
        invariant
            i <= n,
            cells@.len() == i,
        decreases n - i,
    {
        cells.push((random_u64() % 256) as u8);
        i += 1;
    }
    assert(n >= 1) by (nonlinear_arith)
        requires n == width * height, width > 0, height > 0;
    cells.set(0, 0x00);
    let last_idx = n - 1;
    cells.set(last_idx, 0xFF);
    proof {
        assert((height - 1) * width + (width - 1) == n - 1) by (nonlinear_arith)
            requires n == width * height;
        assert(0 * width + 0 == 0);
    }
    Grid { width, height, cells }
}

/// ASCII `x`, the separator of `WxH`.
pub const DIMS_SEPARATOR: u8 = 120;

/// ASCII `+`, the sign that a decimal may start with.
pub const PLUS: u8 = 43;

/// An ASCII decimal digit.
pub open spec fn is_digit(b: u8) -> bool {
    48 <= b <= 57
}

/// The number that the ASCII digits `s` spell.
pub open spec fn decimal_value(s: Seq<u8>) -> nat
    decreases s.len(),
{
    if s.len() == 0 {
        0
    } else {
        decimal_value(s.drop_last()) * 10 + (s.last() - 48) as nat
    }
}

/// The digits of a decimal: `s` without a leading `+`.
pub open spec fn unsigned_digits(s: Seq<u8>) -> Seq<u8> {
    if s.len() > 0 && s[0] == PLUS {
        s.skip(1)
    } else {
        s
    }
}

/// `s` is the decimal text of a `usize`: an optional `+`, then one or more
/// digits whose value fits.
pub open spec fn is_usize_text(s: Seq<u8>) -> bool {
    let d = unsigned_digits(s);
    &&& d.len() > 0
    &&& forall|i: int| 0 <= i < d.len() ==> is_digit(#[trigger] d[i])
    &&& decimal_value(d) <= usize::MAX
}

/// How many times `b` occurs in `s`.
pub open spec fn count_byte(s: Seq<u8>, b: u8) -> nat
    decreases s.len(),
{
    if s.len() == 0 {
        0
    } else {
        count_byte(s.drop_last(), b) + if s.last() == b { 1nat } else { 0nat }
    }
}

proof fn lemma_decimal_grows(s: Seq<u8>, i: int)
    requires
        0 <= i <= s.len(),
    ensures
        decimal_value(s.take(i)) <= decimal_value(s),
    decreases s.len() - i,
{
    if i < s.len() {
        lemma_decimal_grows(s, i + 1);
        assert(s.take(i + 1).drop_last() =~= s.take(i));
    } else {
        assert(s.take(i) =~= s);
    }
}

/// The `usize` that `s` spells as decimal text, if it is one.
fn parse_usize(s: &[u8]) -> (r: Option<usize>)
    ensures
        r is Some <==> is_usize_text(s@),
        r is Some ==> r->Some_0 as nat == decimal_value(unsigned_digits(s@)),
{
    let start: usize = if s.len() > 0 && s[0] == PLUS { 1 } else { 0 };
    let ghost d = unsigned_digits(s@);
    assert(d =~= s@.skip(start as int));
    if start == s.len() {
        return None;
    }
    let mut v: usize = 0;
    let mut i: usize = start;
    while i < s.len()
        invariant
            start <= i <= s@.len(),
            d == s@.skip(start as int),
            d == unsigned_digits(s@),
            forall|j: int| 0 <= j < i - start ==> is_digit(#[trigger] d[j]),
            v as nat == decimal_value(d.take(i - start)),
        decreases s@.len() - i,
    {
        let b = s[i];
        assert(b == d[i - start]);
        if b < 48 || b > 57 {
            assert(!is_digit(d[i - start]));
            return None;
        }
        let digit = (b - 48) as usize;
        assert(d.take(i - start + 1).drop_last() =~= d.take(i - start));
        if v > (usize::MAX - digit) / 10 {
            assert(v * 10 + digit > usize::MAX) by (nonlinear_arith)
                requires v > (usize::MAX - digit) / 10, digit <= 9;
            proof {
                lemma_decimal_grows(d, i - start + 1);
                assert(d.take(i - start + 1).last() == b);
                assert(decimal_value(d.take(i - start + 1)) == v * 10 + digit);
            }
            return None;
        }
        assert(v * 10 + digit <= usize::MAX) by (nonlinear_arith)
            requires v <= (usize::MAX - digit) / 10, digit <= 9;
        v = v * 10 + digit;
        i += 1;
    }
    assert(d.take(i - start) =~= d);
    Some(v)
}

/// How many times `b` occurs in `s`, and the position of its first occurrence.
fn count_and_find(s: &[u8], b: u8) -> (r: (usize, usize))
    ensures
        r.0 == count_byte(s@, b),
        r.0 >= 1 ==> r.1 < s@.len() && s@[r.1 as int] == b && count_byte(s@.take(r.1 as int), b) == 0,
{
    let mut n: usize = 0;
    let mut first: usize = 0;
    let mut i: usize = 0;
    while i < s.len()
        invariant
            i <= s@.len(),
            n == count_byte(s@.take(i as int), b),
            n <= i,
            n >= 1 ==> first < i && s@[first as int] == b && count_byte(s@.take(first as int), b) == 0,
        decreases s@.len() - i,
    {
        assert(s@.take(i + 1).drop_last() =~= s@.take(i as int));
        if s[i] == b {
            if n == 0 {
                first = i;
            }
            n += 1;
        }
        i += 1;
    }
    assert(s@.take(i as int) =~= s@);
    (n, first)
}

proof fn lemma_count_split(s: Seq<u8>, k: int, b: u8)
    requires
        0 <= k < s.len(),
        s[k] == b,
    ensures
        count_byte(s, b) == count_byte(s.take(k), b) + 1 + count_byte(s.skip(k + 1), b),
    decreases s.len(),
{
    if s.len() == k + 1 {
        assert(s.drop_last() =~= s.take(k));
        assert(s.skip(k + 1) =~= Seq::<u8>::empty());
    } else {
        lemma_count_split(s.drop_last(), k, b);
        assert(s.drop_last().take(k) =~= s.take(k));
        assert(s.skip(k + 1).drop_last() =~= s.drop_last().skip(k + 1));
        assert(s.skip(k + 1).last() == s.last());
    }
}

/// What `parse_dims` returns for the bytes `s`.
pub open spec fn dims_result(s: Seq<u8>) -> Result<(usize, usize), Seq<char>> {
    if count_byte(s, DIMS_SEPARATOR) != 1 {
        Err("expected format WxH"@)
    } else {
        let k = choose|k: int| 0 <= k < s.len() && s[k] == DIMS_SEPARATOR;
        let w = s.take(k);
        let h = s.skip(k + 1);
        if !is_usize_text(w) {
            Err("invalid width"@)
        } else if !is_usize_text(h) {
            Err("invalid height"@)
        } else if decimal_value(unsigned_digits(w)) == 0 || decimal_value(unsigned_digits(h)) == 0 {
            Err("width and height must be > 0"@)
        } else {
            Ok((decimal_value(unsigned_digits(w)) as usize, decimal_value(unsigned_digits(h)) as usize))
        }
    }
}

proof fn lemma_single_separator(s: Seq<u8>, k: int)
    requires
        0 <= k < s.len(),
        s[k] == DIMS_SEPARATOR,
        count_byte(s.take(k), DIMS_SEPARATOR) == 0,
        count_byte(s, DIMS_SEPARATOR) == 1,
    ensures
        forall|j: int| 0 <= j < s.len() && s[j] == DIMS_SEPARATOR ==> j == k,
{
    lemma_count_split(s, k, DIMS_SEPARATOR);
    assert forall|j: int| 0 <= j < s.len() && s[j] == DIMS_SEPARATOR implies j == k by {
        if j < k {
            lemma_count_split(s.take(k), j, DIMS_SEPARATOR);
            assert(s.take(k)[j] == s[j]);
        } else if j > k {
            lemma_count_split(s.skip(k + 1), j - k - 1, DIMS_SEPARATOR);
            assert(s.skip(k + 1)[j - k - 1] == s[j]);
        }
    }
}

/// Reads grid dimensions written `WxH`, both positive decimals.
pub fn parse_dims(dims: &str) -> (r: Result<(usize, usize), String>)
    ensures
        r matches Ok(v) ==> dims_result(dims.spec_bytes()) == Ok::<(usize, usize), Seq<char>>(v),
        r matches Err(e) ==> dims_result(dims.spec_bytes()) == Err::<(usize, usize), Seq<char>>(e@),
{
    let s = dims.as_bytes();
    let (n, k) = count_and_find(s, DIMS_SEPARATOR);
    if n != 1 {
        proof { reveal_strlit("expected format WxH"); }
        return Err("expected format WxH".to_string());
    }
    proof {
        lemma_single_separator(s@, k as int);
        let kk = choose|kk: int| 0 <= kk < s@.len() && s@[kk] == DIMS_SEPARATOR;
        assert(kk == k);
    }
    assert(s@.len() == s.len());
    let w_text = prefix_of(s, k);
    let h_text = suffix_of(s, k + 1);
    let w = match parse_usize(w_text.as_slice()) {
        Some(w) => w,
        None => {
            proof { reveal_strlit("invalid width"); }
            return Err("invalid width".to_string());
        }
    };
    let h = match parse_usize(h_text.as_slice()) {
        Some(h) => h,
        None => {
            proof { reveal_strlit("invalid height"); }
            return Err("invalid height".to_string());
        }
    };
    if w == 0 || h == 0 {
        proof { reveal_strlit("width and height must be > 0"); }
        return Err("width and height must be > 0".to_string());
    }
    Ok((w, h))
}

} // verus!
