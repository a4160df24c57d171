//! Text for arrays: shape strings, character escapes and grid padding.
use vstd::prelude::*;

use crate::array::{row_count_of, Array, ArrayValue, MapKeys, WILDCARD_CHAR};
use crate::value::Value;

verus! {

/// The largest character.
pub const LAST_CHAR: char = '\u{10FFFF}';

/// Options for laying out an array as a grid of characters.
#[derive(Debug, Clone, Copy, Default)]
pub struct GridFmtParams {
    /// The array sits inside a box.
    pub boxed: bool,
    /// Show the label.
    pub label: bool,
}

/// Rows of characters.
pub type Grid = Vec<Vec<char>>;

/// Values that lay themselves out as a grid of characters.
pub trait GridFmt {
    /// The rows of the grid for this value.
    spec fn grid_spec(&self, params: GridFmtParams) -> Seq<Seq<char>>;

    /// The grid for this value.
    fn fmt_grid(&self, params: GridFmtParams) -> (r: Grid)
        ensures
            grid_view(r@) == self.grid_spec(params),
    ;

    /// The grid as text, rows separated by line breaks.
    fn grid_string(&self, label: bool) -> (r: String)
        ensures
            r@ == joined(self.grid_spec(GridFmtParams { boxed: false, label })),
    {
        let g = self.fmt_grid(GridFmtParams { boxed: false, label });
        join_rows(&g)
    }
}

/// Rows separated by line breaks.
pub open spec fn joined(g: Seq<Seq<char>>) -> Seq<char>
    decreases g.len(),
{
    if g.len() == 0 {
        Seq::empty()
    } else if g.len() == 1 {
        g[0]
    } else {
        joined(g.drop_last()) + seq!['\n'] + g.last()
    }
}

/// Joins the rows of a grid with line breaks.
fn join_rows(g: &Grid) -> (r: String)
    ensures
        r@ == joined(grid_view(g@)),
{
    let mut s = String::new();
    let mut i: usize = 0;
    while i < g.len()
        invariant
            i <= g@.len(),
            s@ == joined(grid_view(g@).take(i as int)),
        decreases g@.len() - i,
    {
        proof {
            let t = grid_view(g@).take(i + 1);
            assert(t.drop_last() =~= grid_view(g@).take(i as int));
            assert(t.last() == g@[i as int]@);
        }
        if i > 0 {
            push_char(&mut s, '\n');
        }
        let row = crate::array::copy_range(g[i].as_slice(), 0, g[i].len());
        assert(row@ =~= g@[i as int]@);
        push_all(&mut s, &row);
        i = i + 1;
        proof {
            if i == 1 {
                assert(grid_view(g@).take(1) =~= seq![g@[0]@]);
            }
        }
    }
    assert(grid_view(g@).take(g@.len() as int) =~= grid_view(g@));
    s
}

/// The box glyph that marks a boxed scalar.
pub open spec fn boxed_prefix(boxed: bool) -> Seq<char> {
    if boxed {
        seq!['□']
    } else {
        Seq::empty()
    }
}

/// The box glyph before a boxed scalar, nothing otherwise.
pub fn boxed_scalar(boxed: bool) -> (r: Vec<char>)
    ensures
        r@ == boxed_prefix(boxed),
{
    let mut v: Vec<char> = Vec::new();
    if boxed {
        v.push('□');
    }
    assert(v@ =~= boxed_prefix(boxed));
    v
}

impl GridFmt for u8 {
    open spec fn grid_spec(&self, params: GridFmtParams) -> Seq<Seq<char>> {
        seq![boxed_prefix(params.boxed) + decimal(*self as nat)]
    }

    fn fmt_grid(&self, params: GridFmtParams) -> (r: Grid) {
        let mut row = boxed_scalar(params.boxed);
        push_digits(&mut row, *self as u64, 10);
        let mut g: Grid = Vec::new();
        g.push(row);
        assert(grid_view(g@) =~= self.grid_spec(params));
        g
    }
}

impl GridFmt for char {
    open spec fn grid_spec(&self, params: GridFmtParams) -> Seq<Seq<char>> {
        seq![
            seq![
                if params.boxed {
                    '⌞'
                } else {
                    '@'
                },
            ] + char_inner(*self, char_debug(*self)),
        ]
    }

    fn fmt_grid(&self, params: GridFmtParams) -> (r: Grid) {
        let mut row: Vec<char> = Vec::new();
        row.push(
            if params.boxed {
                '⌞'
            } else {
                '@'
            },
        );
        let mut inner = format_char_chars(*self);
        row.append(&mut inner);
        let mut g: Grid = Vec::new();
        g.push(row);
        assert(grid_view(g@) =~= self.grid_spec(params));
        g
    }
}

/// Relies on `String::push`: appends one character.
#[verifier::external_body]
fn push_char(s: &mut String, c: char)
    ensures
        final(s)@ == old(s)@.push(c),
{
    s.push(c)
}

/// What `{:?}` prints for a character, quotes and escapes included.
pub uninterp spec fn char_debug(c: char) -> Seq<char>;

/// Relies on `char`'s `Debug` formatting.
#[verifier::external_body]
fn debug_char(c: char) -> (r: Vec<char>)
    ensures
        r@ == char_debug(c),
{
    format!("{c:?}").chars().collect()
}

/// Decimal digits of `n`, most significant first.
pub open spec fn decimal(n: nat) -> Seq<char>
    decreases n,
{
    if n < 10 {
        seq![digit_char(n)]
    } else {
        decimal(n / 10).push(digit_char(n % 10))
    }
}

/// The character of a digit below 16, lower case past 9.
pub open spec fn digit_char(d: nat) -> char {
    if d < 10 {
        ('0' as nat + d) as char
    } else {
        ('a' as nat + (d - 10)) as char
    }
}

/// Hexadecimal digits of `n`, most significant first.
pub open spec fn hex(n: nat) -> Seq<char>
    decreases n,
{
    if n < 16 {
        seq![digit_char(n)]
    } else {
        hex(n / 16).push(digit_char(n % 16))
    }
}

/// `s` with zeros in front up to length `w`.
pub open spec fn zero_pad(s: Seq<char>, w: nat) -> Seq<char> {
    if s.len() >= w {
        s
    } else {
        Seq::new((w - s.len()) as nat, |i: int| '0') + s
    }
}

fn digit(d: u32) -> (r: char)
    requires
        d < 16,
    ensures
        r == digit_char(d as nat),
{
    if d < 10 {
        ((48 + d) as u8) as char
    } else {
        ((97 + d - 10) as u8) as char
    }
}

/// Appends the digits of `n` in base `b` (10 or 16).
fn push_digits(out: &mut Vec<char>, n: u64, b: u64)
    requires
        b == 10 || b == 16,
    ensures
        b == 10 ==> final(out)@ == old(out)@ + decimal(n as nat),
        b == 16 ==> final(out)@ == old(out)@ + hex(n as nat),
    decreases n,
{
    if n >= b {
        push_digits(out, n / b, b);
    }
    out.push(digit((n % b) as u32));
    proof {
        if b == 10 {
            assert(old(out)@ + decimal(n as nat) =~= (if n >= b {
                old(out)@ + decimal((n / b) as nat)
            } else {
                old(out)@
            }).push(digit_char((n % b) as nat)));
        } else {
            assert(old(out)@ + hex(n as nat) =~= (if n >= b {
                old(out)@ + hex((n / b) as nat)
            } else {
                old(out)@
            }).push(digit_char((n % b) as nat)));
        }
    }
}

/// Appends `s` to `out`.
fn push_all(out: &mut String, s: &Vec<char>)
    ensures
        final(out)@ == old(out)@ + s@,
{
    let mut i: usize = 0;
    let ghost start = out@;
    while i < s.len()
        invariant
            i <= s@.len(),
            out@ == start + s@.subrange(0, i as int),
        decreases s@.len() - i,
    {
        push_char(out, s[i]);
        i = i + 1;
        assert(out@ =~= start + s@.subrange(0, i as int));
    }
    assert(s@.subrange(0, s@.len() as int) =~= s@);
}

/// The dimensions joined by `×`, then a space and the kind's glyph; a scalar
/// shows the glyph alone.
pub open spec fn shape_row(shape: Seq<usize>, symbol: char) -> Seq<char> {
    dims_joined(shape, shape.len()) + (if shape.len() > 0 {
        seq![' ']
    } else {
        Seq::empty()
    }) + seq![symbol]
}

/// The first `k` dimensions joined by `×`.
pub open spec fn dims_joined(shape: Seq<usize>, k: nat) -> Seq<char>
    decreases k,
{
    if k == 0 {
        Seq::empty()
    } else if k == 1 {
        decimal(shape[0] as nat)
    } else {
        dims_joined(shape, (k - 1) as nat) + seq!['×'] + decimal(shape[k - 1] as nat)
    }
}

/// Builds [`shape_row`].
fn shape_row_exec(shape: &Vec<usize>, symbol: char) -> (r: Vec<char>)
    ensures
        r@ == shape_row(shape@, symbol),
{
    let mut out: Vec<char> = Vec::new();
    let mut i: usize = 0;
    while i < shape.len()
        invariant
            i <= shape@.len(),
            out@ == dims_joined(shape@, i as nat),
        decreases shape@.len() - i,
    {
        if i > 0 {
            out.push('×');
        }
        push_digits(&mut out, shape[i] as u64, 10);
        i = i + 1;
    }
    if shape.len() > 0 {
        out.push(' ');
    }
    out.push(symbol);
    assert(out@ =~= shape_row(shape@, symbol));
    out
}

/// The text of a shape: for a map, the keys' shape (with this array's row
/// count) and an arrow before it.
pub open spec fn shape_text(shape: Seq<usize>, symbol: char, keys: Option<(Seq<usize>, char)>) -> Seq<char> {
    match keys {
        None => shape_row(shape, symbol),
        Some((ks, kc)) => shape_row(
            if ks.len() > 0 {
                ks.update(0, row_count_of(shape) as usize)
            } else {
                ks
            },
            kc,
        ) + seq![' ', '→', ' '] + shape_row(shape, symbol),
    }
}

/// The shape and glyph of a value.
pub open spec fn value_shape(v: Value) -> (Seq<usize>, char) {
    match v {
        Value::Byte(a) => (a.shape@, 'ℝ'),
        Value::Char(a) => (a.shape@, '@'),
    }
}

/// The shape and glyph of map keys, if there are any.
pub open spec fn keys_shape(k: Option<MapKeys>) -> Option<(Seq<usize>, char)> {
    match k {
        Some(m) => Some(value_shape(*m.keys)),
        None => None,
    }
}

impl<T: ArrayValue> Array<T> {
    /// The shape as text, such as `2×3 ℝ`.
    pub fn shape_string(&self) -> (r: String)
        requires
            self.wf(),
        ensures
            r@ == shape_text(self.shape@, T::symbol_spec(), keys_shape(self.meta.map_keys)),
    {
        let base = shape_row_exec(&self.shape, T::symbol());
        let mut s = String::new();
        match &self.meta.map_keys {
            None => {
                push_all(&mut s, &base);
            },
            Some(keys) => {
                let (kshape, ksym) = keys.keys.shape_and_symbol();
                let mut ks = kshape;
                if ks.len() > 0 {
                    ks.set(0, self.row_count());
                }
                let krow = shape_row_exec(&ks, ksym);
                push_all(&mut s, &krow);
                push_char(&mut s, ' ');
                push_char(&mut s, '→');
                push_char(&mut s, ' ');
                push_all(&mut s, &base);
            },
        }
        assert(s@ =~= shape_text(self.shape@, T::symbol_spec(), keys_shape(self.meta.map_keys)));
        s
    }
}

impl Value {
    /// The shape and the glyph of the element kind.
    pub fn shape_and_symbol(&self) -> (r: (Vec<usize>, char))
        ensures
            r.0@ == value_shape(*self).0,
            r.1 == value_shape(*self).1,
    {
        match self {
            Value::Byte(a) => {
                let s = crate::array::copy_range(&a.shape, 0, a.shape.len());
                assert(s@ =~= a.shape@);
                (s, 'ℝ')
            },
            Value::Char(a) => {
                let s = crate::array::copy_range(&a.shape, 0, a.shape.len());
                assert(s@ =~= a.shape@);
                (s, '@')
            },
        }
    }

    /// The shape as text, such as `2×3 ℝ`.
    pub fn shape_string(&self) -> (r: String)
        requires
            self.wf(),
        ensures
            r@ == match *self {
                Value::Byte(a) => shape_text(a.shape@, 'ℝ', keys_shape(a.meta.map_keys)),
                Value::Char(a) => shape_text(a.shape@, '@', keys_shape(a.meta.map_keys)),
            },
    {
        match self {
            Value::Byte(a) => a.shape_string(),
            Value::Char(a) => a.shape_string(),
        }
    }
}

/// How a character shows inside a string: `_` for the largest character,
/// `�` for the wildcard, otherwise its escaped form without quotes, with
/// unprintable characters as `\xNN`, `\uNNNN` or `\u{N...}`.
pub open spec fn char_inner(c: char, dbg: Seq<char>) -> Seq<char> {
    if c == LAST_CHAR {
        seq!['_']
    } else if c == WILDCARD_CHAR {
        seq!['�']
    } else if c == '\'' {
        seq!['\'']
    } else if dbg.len() >= 4 && dbg.take(4) == seq!['\'', '\\', 'u', '{'] {
        let n = c as nat;
        if n < 128 {
            seq!['\\', 'x'] + zero_pad(hex(n), 2)
        } else if n < 65536 {
            seq!['\\', 'u'] + zero_pad(hex(n), 4)
        } else {
            seq!['\\', 'u', '{'] + hex(n) + seq!['}']
        }
    } else if dbg.len() >= 2 {
        dbg.subrange(1, dbg.len() - 1)
    } else {
        Seq::empty()
    }
}

/// Appends `s` with zeros in front up to width `w`.
fn push_padded(out: &mut Vec<char>, s: &Vec<char>, w: usize)
    ensures
        final(out)@ == old(out)@ + zero_pad(s@, w as nat),
{
    let ghost start = out@;
    if s.len() < w {
        let mut k: usize = 0;
        while k < w - s.len()
            invariant
                s@.len() < w,
                k <= w - s@.len(),
                out@ == start + Seq::new(k as nat, |i: int| '0'),
            decreases w - s@.len() - k,
        {
            out.push('0');
            k = k + 1;
            assert(out@ =~= start + Seq::new(k as nat, |i: int| '0'));
        }
    }
    let mut i: usize = 0;
    let ghost mid = out@;
    while i < s.len()
        invariant
            i <= s@.len(),
            out@ == mid + s@.subrange(0, i as int),
        decreases s@.len() - i,
    {
        out.push(s[i]);
        i = i + 1;
        assert(out@ =~= mid + s@.subrange(0, i as int));
    }
    assert(out@ =~= old(out)@ + zero_pad(s@, w as nat));
}

/// How a character shows inside a string.
pub fn format_char_inner(c: char) -> (r: String)
    ensures
        r@ == char_inner(c, char_debug(c)),
{
    let out = format_char_chars(c);
    let mut s = String::new();
    push_all(&mut s, &out);
    assert(s@ =~= char_inner(c, char_debug(c)));
    s
}

/// The characters of [`format_char_inner`].
fn format_char_chars(c: char) -> (r: Vec<char>)
    ensures
        r@ == char_inner(c, char_debug(c)),
{
    let mut out: Vec<char> = Vec::new();
    if c == LAST_CHAR {
        out.push('_');
    } else if c == WILDCARD_CHAR {
        out.push('�');
    } else if c == '\'' {
        out.push('\'');
    } else {
        let dbg = debug_char(c);
        if dbg.len() >= 4 && dbg[0] == '\'' && dbg[1] == '\\' && dbg[2] == 'u' && dbg[3] == '{' {
            assert(dbg@.take(4) =~= seq!['\'', '\\', 'u', '{']);
            let n = c as u32;
            let mut h: Vec<char> = Vec::new();
            push_digits(&mut h, n as u64, 16);
            assert(h@ =~= hex(n as nat));
            out.push('\\');
            if n < 128 {
                out.push('x');
                push_padded(&mut out, &h, 2);
            } else if n < 65536 {
                out.push('u');
                push_padded(&mut out, &h, 4);
            } else {
                out.push('u');
                out.push('{');
                let mut k: usize = 0;
                let ghost start = out@;
                while k < h.len()
                    invariant
                        k <= h@.len(),
                        out@ == start + h@.subrange(0, k as int),
                    decreases h@.len() - k,
                {
                    out.push(h[k]);
                    k = k + 1;
                    assert(out@ =~= start + h@.subrange(0, k as int));
                }
                out.push('}');
            }
        } else {
            proof {
                if dbg@.len() >= 4 {
                    assert(dbg@.take(4) != seq!['\'', '\\', 'u', '{']) by {
                        if dbg@.take(4) == seq!['\'', '\\', 'u', '{'] {
                            assert(dbg@.take(4)[0] == dbg@[0]);
                            assert(dbg@.take(4)[1] == dbg@[1]);
                            assert(dbg@.take(4)[2] == dbg@[2]);
                            assert(dbg@.take(4)[3] == dbg@[3]);
                        }
                    }
                }
            }
            if dbg.len() >= 2 {
                let mut k: usize = 1;
                let ghost start = out@;
                while k < dbg.len() - 1
                    invariant
                        dbg@.len() >= 2,
                        1 <= k <= dbg@.len() - 1,
                        out@ == start + dbg@.subrange(1, k as int),
                    decreases dbg@.len() - 1 - k,
                {
                    out.push(dbg[k]);
                    k = k + 1;
                    assert(out@ =~= start + dbg@.subrange(1, k as int));
                }
            }
        }
    }
    assert(out@ =~= char_inner(c, char_debug(c)));
    out
}

/// A row of `w` spaces.
pub open spec fn spaces(w: nat) -> Seq<char> {
    Seq::new(w, |i: int| ' ')
}

/// A row cut to `w`, or padded on the left with spaces up to `w`.
pub open spec fn pad_row_left(row: Seq<char>, w: nat) -> Seq<char> {
    if row.len() >= w {
        row.take(w as int)
    } else {
        spaces((w - row.len()) as nat) + row
    }
}

/// Rows of a grid after `pad_grid_min`: cut to `height` rows, blank rows added
/// on top, every row cut or left-padded to `width`.
pub open spec fn padded_min(grid: Seq<Seq<char>>, width: nat, height: nat) -> Seq<Seq<char>> {
    let rows = if grid.len() >= height {
        grid.take(height as int)
    } else {
        Seq::new((height - grid.len()) as nat, |i: int| spaces(width)) + grid
    };
    Seq::new(rows.len(), |i: int| pad_row_left(rows[i], width))
}

/// The characters of each row of a grid.
pub open spec fn grid_view(g: Seq<Vec<char>>) -> Seq<Seq<char>> {
    Seq::new(g.len(), |i: int| g[i]@)
}

/// Brings a grid to exactly `height` rows of `width` characters, padding at
/// the top and on the left.
pub fn pad_grid_min(width: usize, height: usize, grid: &mut Grid)
    ensures
        grid_view(final(grid)@) == padded_min(grid_view(old(grid)@), width as nat, height as nat),
{
    let ghost g0 = grid_view(grid@);
    let mut rows: Vec<Vec<char>> = Vec::new();
    if grid.len() < height {
        let mut k: usize = 0;
        while k < height - grid.len()
            invariant
                grid@.len() < height,
                k <= height - grid@.len(),
                rows@.len() == k,
                forall|i: int| 0 <= i < k ==> rows@[i]@ == spaces(width as nat),
            decreases height - grid@.len() - k,
        {
            let mut r: Vec<char> = Vec::new();
            let mut j: usize = 0;
            while j < width
                invariant
                    j <= width,
                    r@ == spaces(j as nat),
                decreases width - j,
            {
                r.push(' ');
                j = j + 1;
                assert(r@ =~= spaces(j as nat));
            }
            rows.push(r);
            k = k + 1;
        }
    }
    let ghost top = rows@.len();
    let n = if grid.len() < height {
        grid.len()
    } else {
        height
    };
    let mut i: usize = 0;
    while i < n
        invariant
            n <= grid@.len(),
            i <= n,
            rows@.len() == top + i,
            g0 == grid_view(grid@),
            forall|a: int| 0 <= a < top ==> rows@[a]@ == spaces(width as nat),
            forall|a: int| 0 <= a < i ==> rows@[top + a]@ == g0[a],
        decreases n - i,
    {
        let r = crate::array::copy_range(grid[i].as_slice(), 0, grid[i].len());
        assert(r@ =~= g0[i as int]);
        rows.push(r);
        i = i + 1;
    }
    let ghost mid = grid_view(rows@);
    assert(mid =~= (if g0.len() >= height {
        g0.take(height as int)
    } else {
        Seq::new((height - g0.len()) as nat, |i: int| spaces(width as nat)) + g0
    }));
    let mut out: Vec<Vec<char>> = Vec::new();
    let mut k: usize = 0;
    while k < rows.len()
        invariant
            k <= rows@.len(),
            mid == grid_view(rows@),
            out@.len() == k,
            forall|a: int| 0 <= a < k ==> out@[a]@ == pad_row_left(mid[a], width as nat),
        decreases rows@.len() - k,
    {
        let row = &rows[k];
        let mut r: Vec<char> = Vec::new();
        if row.len() >= width {
            r = crate::array::copy_range(row.as_slice(), 0, width);
            assert(r@ =~= pad_row_left(mid[k as int], width as nat));
        } else {
            let mut j: usize = 0;
            while j < width - row.len()
                invariant
                    row@.len() < width,
                    j <= width - row@.len(),
                    r@ == spaces(j as nat),
                decreases width - row@.len() - j,
            {
                r.push(' ');
                j = j + 1;
                assert(r@ =~= spaces(j as nat));
            }
            let mut rest = crate::array::copy_range(row.as_slice(), 0, row.len());
            r.append(&mut rest);
            assert(r@ =~= pad_row_left(mid[k as int], width as nat));
        }
        out.push(r);
        k = k + 1;
    }
    *grid = out;
    assert(grid_view(grid@) =~= padded_min(g0, width as nat, height as nat));
}

/// A character that aligns its row to the right: a digit or `η`, `π`, `τ`.
pub open spec fn right_aligned(c: char) -> bool {
    ('0' <= c && c <= '9') || c == 'η' || c == 'π' || c == 'τ'
}

/// A row cut to `w`, or padded with spaces up to `w`: with `align`, rows
/// ending in a digit go right and boxed rows go left; otherwise the row is
/// centred, an odd space going after it.
pub open spec fn center_row(row: Seq<char>, w: nat, align: bool) -> Seq<char> {
    if row.len() >= w {
        row.take(w as int)
    } else {
        let diff = (w - row.len()) as nat;
        let no_left = if row.len() > 0 && row[0] == ' ' {
            row.drop_first()
        } else {
            row
        };
        if align && row.len() > 0 && right_aligned(row.last()) {
            spaces(diff) + row
        } else if align && no_left.len() > 0 && (no_left[0] == '⟦' || no_left[0] == '⌜') {
            row + spaces(diff)
        } else {
            let post = (diff + 1) / 2;
            spaces((diff - post) as nat) + row + spaces(post)
        }
    }
}

/// Rows of a grid after `pad_grid_center`: cut to `height` rows or padded
/// with blank rows, more of them on top; every row brought to `width`.
pub open spec fn centered(grid: Seq<Seq<char>>, width: nat, height: nat, align: bool) -> Seq<
    Seq<char>,
> {
    let rows = if grid.len() >= height {
        grid.take(height as int)
    } else {
        let diff = (height - grid.len()) as nat;
        let post = diff / 2;
        Seq::new((diff - post) as nat, |i: int| spaces(width)) + grid + Seq::new(
            post,
            |i: int| spaces(width),
        )
    };
    Seq::new(rows.len(), |i: int| center_row(rows[i], width, align))
}

/// A row of `n` spaces.
fn space_row(n: usize) -> (r: Vec<char>)
    ensures
        r@ == spaces(n as nat),
{
    let mut r: Vec<char> = Vec::new();
    let mut j: usize = 0;
    while j < n
        invariant
            j <= n,
            r@ == spaces(j as nat),
        decreases n - j,
    {
        r.push(' ');
        j = j + 1;
        assert(r@ =~= spaces(j as nat));
    }
    r
}

/// Brings one row to `width`, aligned as [`center_row`] says.
fn center_one(row: &Vec<char>, width: usize, align: bool) -> (r: Vec<char>)
    ensures
        r@ == center_row(row@, width as nat, align),
{
    let n = row.len();
    if n >= width {
        let r = crate::array::copy_range(row.as_slice(), 0, width);
        assert(r@ =~= center_row(row@, width as nat, align));
        return r;
    }
    let diff = width - n;
    let last_right = n > 0 && {
        let c = row[n - 1];
        ('0' <= c && c <= '9') || c == 'η' || c == 'π' || c == 'τ'
    };
    let start: usize = if n > 0 && row[0] == ' ' {
        1
    } else {
        0
    };
    let boxed_left = start < n && (row[start] == '⟦' || row[start] == '⌜');
    let (pre, post): (usize, usize) = if align && last_right {
        (diff, 0)
    } else if align && boxed_left {
        (0, diff)
    } else {
        let p = diff / 2 + diff % 2;
        (diff - p, p)
    };
    proof {
        assert((diff + 1) / 2 == diff / 2 + diff % 2);
        if n > 0 {
            assert(row@.last() == row@[n - 1]);
        }
        let no_left = if row@.len() > 0 && row@[0] == ' ' {
            row@.drop_first()
        } else {
            row@
        };
        if start < n {
            assert(no_left[0] == row@[start as int]);
        }
    }
    let mut r = space_row(pre);
    let mut body = crate::array::copy_range(row.as_slice(), 0, n);
    r.append(&mut body);
    let mut tail = space_row(post);
    r.append(&mut tail);
    assert(r@ =~= center_row(row@, width as nat, align));
    r
}

/// Brings a grid to exactly `height` rows of `width` characters, padding
/// evenly on every side, with rows aligned as [`center_row`] says.
pub fn pad_grid_center(width: usize, height: usize, align: bool, grid: &mut Grid)
    ensures
        grid_view(final(grid)@) == centered(
            grid_view(old(grid)@),
            width as nat,
            height as nat,
            align,
        ),
{
    let ghost g0 = grid_view(grid@);
    let mut rows: Vec<Vec<char>> = Vec::new();
    let glen = grid.len();
    let (pre, post): (usize, usize) = if glen < height {
        let diff = height - glen;
        (diff - diff / 2, diff / 2)
    } else {
        (0, 0)
    };
    let mut k: usize = 0;
    while k < pre
        invariant
            k <= pre,
            rows@.len() == k,
            forall|i: int| 0 <= i < k ==> rows@[i]@ == spaces(width as nat),
        decreases pre - k,
    {
        rows.push(space_row(width));
        k = k + 1;
    }
    let n = if glen < height {
        glen
    } else {
        height
    };
    let mut i: usize = 0;
    while i < n
        invariant
            n <= grid@.len(),
            i <= n,
            rows@.len() == pre + i,
            g0 == grid_view(grid@),
            forall|a: int| 0 <= a < pre ==> rows@[a]@ == spaces(width as nat),
            forall|a: int| 0 <= a < i ==> rows@[pre + a]@ == g0[a],
        decreases n - i,
    {
        let r = crate::array::copy_range(grid[i].as_slice(), 0, grid[i].len());
        assert(r@ =~= g0[i as int]);
        rows.push(r);
        i = i + 1;
    }
    let mut q: usize = 0;
    while q < post
        invariant
            q <= post,
            rows@.len() == pre + n + q,
            forall|a: int| 0 <= a < pre ==> rows@[a]@ == spaces(width as nat),
            forall|a: int| 0 <= a < n ==> rows@[pre + a]@ == g0[a],
            forall|a: int| pre + n <= a < pre + n + q ==> rows@[a]@ == spaces(width as nat),
        decreases post - q,
    {
        rows.push(space_row(width));
        q = q + 1;
    }
    let ghost mid = grid_view(rows@);
    assert(mid =~= (if g0.len() >= height {
        g0.take(height as int)
    } else {
        let diff = (height - g0.len()) as nat;
        let p = diff / 2;
        Seq::new((diff - p) as nat, |i: int| spaces(width as nat)) + g0 + Seq::new(
            p,
            |i: int| spaces(width as nat),
        )
    }));
    let mut out: Vec<Vec<char>> = Vec::new();
    let mut j: usize = 0;
    while j < rows.len()
        invariant
            j <= rows@.len(),
            mid == grid_view(rows@),
            out@.len() == j,
            forall|a: int| 0 <= a < j ==> out@[a]@ == center_row(mid[a], width as nat, align),
        decreases rows@.len() - j,
    {
        out.push(center_one(&rows[j], width, align));
        j = j + 1;
    }
    *grid = out;
    assert(grid_view(grid@) =~= centered(g0, width as nat, height as nat, align));
}

/// A shape written for messages, such as `[2 × 3]`.
pub struct FormatShape(pub Vec<usize>);

/// The dimensions joined by ` × ` inside brackets.
pub open spec fn bracketed(shape: Seq<usize>) -> Seq<char> {
    seq!['['] + spaced_dims(shape, shape.len()) + seq![']']
}

/// The first `k` dimensions joined by ` × `.
pub open spec fn spaced_dims(shape: Seq<usize>, k: nat) -> Seq<char>
    decreases k,
{
    if k == 0 {
        Seq::empty()
    } else if k == 1 {
        decimal(shape[0] as nat)
    } else {
        spaced_dims(shape, (k - 1) as nat) + seq![' ', '×', ' '] + decimal(shape[k - 1] as nat)
    }
}

impl FormatShape {
    /// The text of the shape.
    pub fn text(&self) -> (r: String)
        ensures
            r@ == bracketed(self.0@),
    {
        let mut out: Vec<char> = Vec::new();
        out.push('[');
        let mut i: usize = 0;
        while i < self.0.len()
            invariant
                i <= self.0@.len(),
                out@ == seq!['['] + spaced_dims(self.0@, i as nat),
            decreases self.0@.len() - i,
        {
            if i > 0 {
                out.push(' ');
                out.push('×');
                out.push(' ');
            }
            let ghost before = out@;
            push_digits(&mut out, self.0[i] as u64, 10);
            i = i + 1;
            proof {
                if i == 1 {
                    assert(out@ =~= seq!['['] + spaced_dims(self.0@, 1));
                } else {
                    assert(out@ =~= seq!['['] + spaced_dims(self.0@, i as nat));
                }
            }
        }
        out.push(']');
        let mut s = String::new();
        push_all(&mut s, &out);
        assert(s@ =~= bracketed(self.0@));
        s
    }
}

} // verus!
