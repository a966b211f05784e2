//! `⎕PLOT`: drawing a vector of numbers, and reading the settings of a
//! plot from an APL value.

use vstd::prelude::*;
use crate::cell::Cell;
use crate::plugins::security::spells;
use crate::quad::{digits_value, trim_chars, trimmed};
use crate::types::{AplResult, ErrorCode};
use crate::value::ValueP;

verus! {

/// The settings of a plot; each is unset until a configuration names it.
pub struct PlotConfig {
    pub line_color_rgb: Option<(u8, u8, u8)>,
    pub line_width: Option<u32>,
    pub title: Option<String>,
    pub x_label: Option<String>,
    pub y_label: Option<String>,
    pub background_rgb: Option<(u8, u8, u8)>,
    pub show_grid: Option<bool>,
    pub auto_open: Option<bool>,
}

/// The settings of a plot, the texts as characters.
pub struct PlotSettings {
    pub line_color_rgb: Option<(u8, u8, u8)>,
    pub line_width: Option<u32>,
    pub title: Option<Seq<char>>,
    pub x_label: Option<Seq<char>>,
    pub y_label: Option<Seq<char>>,
    pub background_rgb: Option<(u8, u8, u8)>,
    pub show_grid: Option<bool>,
    pub auto_open: Option<bool>,
}

/// The text of an optional string.
pub open spec fn opt_text(s: Option<String>) -> Option<Seq<char>> {
    match s {
        Some(t) => Some(t@),
        None => None,
    }
}

impl View for PlotConfig {
    type V = PlotSettings;

    open spec fn view(&self) -> PlotSettings {
        PlotSettings {
            line_color_rgb: self.line_color_rgb,
            line_width: self.line_width,
            title: opt_text(self.title),
            x_label: opt_text(self.x_label),
            y_label: opt_text(self.y_label),
            background_rgb: self.background_rgb,
            show_grid: self.show_grid,
            auto_open: self.auto_open,
        }
    }
}

/// No setting made.
pub open spec fn no_settings() -> PlotSettings {
    PlotSettings {
        line_color_rgb: None,
        line_width: None,
        title: None,
        x_label: None,
        y_label: None,
        background_rgb: None,
        show_grid: None,
        auto_open: None,
    }
}

/// `str::to_lowercase`: the lower case of a text.
pub uninterp spec fn lower_text_of(s: Seq<char>) -> Seq<char>;

/// `str::to_lowercase`: a name for its result.
#[verifier::external_body]
fn lower_text(s: &str) -> (r: String)
    ensures
        r@ == lower_text_of(s@),
{
    s.to_lowercase()
}

/// The number that `str::parse::<u32>` reads from a text: an optional `+`
/// and one or more decimal digits, within `u32`.
pub open spec fn u32_text(s: Seq<char>) -> Option<u32> {
    let body = if s.len() > 0 && s[0] == '+' { s.drop_first() } else { s };
    if body.len() == 0 || !(forall|i: int| 0 <= i < body.len() ==> '0' <= #[trigger] body[i] <= '9') {
        None
    } else if digits_value(body) <= u32::MAX {
        Some(digits_value(body) as u32)
    } else {
        None
    }
}

/// `str::parse::<u32>`: the number a text names (see `u32_text`).
#[verifier::external_body]
fn parse_u32(s: &str) -> (r: Option<u32>)
    ensures
        r == u32_text(s@),
{
    s.parse::<u32>().ok()
}

/// The color a lower-case name stands for.
pub open spec fn color_named(n: Seq<char>) -> Option<(u8, u8, u8)> {
    if n == "red"@ { Some((255u8, 0u8, 0u8)) }
    else if n == "green"@ { Some((0u8, 255u8, 0u8)) }
    else if n == "blue"@ { Some((0u8, 0u8, 255u8)) }
    else if n == "yellow"@ { Some((255u8, 255u8, 0u8)) }
    else if n == "cyan"@ { Some((0u8, 255u8, 255u8)) }
    else if n == "magenta"@ { Some((255u8, 0u8, 255u8)) }
    else if n == "black"@ { Some((0u8, 0u8, 0u8)) }
    else if n == "white"@ { Some((255u8, 255u8, 255u8)) }
    else if n == "orange"@ { Some((255u8, 165u8, 0u8)) }
    else { None }
}

/// The color named by a text, in any case.
fn color_of(v: &Vec<char>) -> (r: Option<(u8, u8, u8)>)
    ensures
        r == color_named(lower_text_of(v@)),
{
    let text = crate::text::chars_to_string(v.as_slice());
    let low = lower_text(text.as_str());
    let n = crate::text::str_chars(low.as_str());
    if spells(&n, "red") { Some((255, 0, 0)) }
    else if spells(&n, "green") { Some((0, 255, 0)) }
    else if spells(&n, "blue") { Some((0, 0, 255)) }
    else if spells(&n, "yellow") { Some((255, 255, 0)) }
    else if spells(&n, "cyan") { Some((0, 255, 255)) }
    else if spells(&n, "magenta") { Some((255, 0, 255)) }
    else if spells(&n, "black") { Some((0, 0, 0)) }
    else if spells(&n, "white") { Some((255, 255, 255)) }
    else if spells(&n, "orange") { Some((255, 165, 0)) }
    else { None }
}

/// The code of a character in lower case where it is an ASCII letter.
pub open spec fn lower_code(u: u32) -> u32 {
    if 65 <= u <= 90 { (u + 32) as u32 } else { u }
}

/// Whether a setting's text means yes: `1`, or `true` in any ASCII case.
pub open spec fn yes_text(v: Seq<char>) -> bool {
    v == "1"@ || (v.len() == 4 && lower_code(v[0] as u32) == 116 && lower_code(v[1] as u32) == 114
        && lower_code(v[2] as u32) == 117 && lower_code(v[3] as u32) == 101)
}

fn lower_code_of(c: char) -> (r: u32)
    ensures
        r == lower_code(c as u32),
{
    let u = c as u32;
    if u >= 65 && u <= 90 { u + 32 } else { u }
}

fn is_yes(v: &Vec<char>) -> (r: bool)
    ensures
        r == yes_text(v@),
{
    if spells(v, "1") {
        return true;
    }
    if v.len() != 4 {
        return false;
    }
    lower_code_of(v[0]) == 116 && lower_code_of(v[1]) == 114 && lower_code_of(v[2]) == 117 && lower_code_of(v[3]) == 101
}

/// The settings after the setting `key` (in lower case) is given the text
/// `val`; a key not known here changes nothing.
pub open spec fn apply_setting(c: PlotSettings, key: Seq<char>, val: Seq<char>) -> PlotSettings {
    if key == "color"@ || key == "line_color"@ {
        PlotSettings { line_color_rgb: color_named(lower_text_of(val)), ..c }
    } else if key == "width"@ || key == "line_width"@ {
        PlotSettings { line_width: u32_text(val), ..c }
    } else if key == "title"@ {
        PlotSettings { title: Some(val), ..c }
    } else if key == "x_label"@ || key == "xlabel"@ {
        PlotSettings { x_label: Some(val), ..c }
    } else if key == "y_label"@ || key == "ylabel"@ {
        PlotSettings { y_label: Some(val), ..c }
    } else if key == "background"@ {
        PlotSettings { background_rgb: color_named(lower_text_of(val)), ..c }
    } else if key == "grid"@ {
        PlotSettings { show_grid: Some(yes_text(val)), ..c }
    } else if key == "auto_open"@ {
        PlotSettings { auto_open: Some(yes_text(val)), ..c }
    } else {
        c
    }
}

/// The first `=` in `t`, from position `i` on.
pub open spec fn first_eq(t: Seq<char>, i: int) -> Option<int>
    decreases t.len() - i,
{
    if i >= t.len() {
        None
    } else if t[i] == '=' {
        Some(i)
    } else {
        first_eq(t, i + 1)
    }
}

/// The settings after one line `NAME=VALUE`: the name is trimmed and put in
/// lower case, the value trimmed; a blank line, or one without `=`, changes
/// nothing.
pub open spec fn apply_line(c: PlotSettings, line: Seq<char>) -> PlotSettings {
    let t = trimmed(line);
    match first_eq(t, 0) {
        None => c,
        Some(p) => apply_setting(c, lower_text_of(trimmed(t.take(p))), trimmed(t.skip(p + 1))),
    }
}

/// The settings after the lines of a text (lines end at a newline), with
/// `cur` the start of the line under way.
pub open spec fn apply_text(c: PlotSettings, cur: Seq<char>, rest: Seq<char>) -> PlotSettings
    decreases rest.len(),
{
    if rest.len() == 0 {
        apply_line(c, cur)
    } else if rest[0] == '\n' {
        apply_text(apply_line(c, cur), Seq::empty(), rest.drop_first())
    } else {
        apply_text(c, cur.push(rest[0]), rest.drop_first())
    }
}

/// The characters of a row of cells: up to the first cell that is not a
/// character, leaving out codes that are not characters.
pub open spec fn row_text(s: Seq<Cell>) -> Seq<char>
    decreases s.len(),
{
    if s.len() == 0 {
        Seq::empty()
    } else if s[0] is Char {
        let u = s[0]->Char_0;
        (if crate::text::is_scalar_value(u) { seq![crate::quad::char_of(u)] } else { Seq::<char>::empty() })
            + row_text(s.drop_first())
    } else {
        Seq::empty()
    }
}

/// The text of the first `k` rows of `cols` cells each, a newline ending
/// each row.
pub open spec fn rows_text(s: Seq<Cell>, cols: int, k: nat) -> Seq<char>
    decreases k,
{
    if k == 0 {
        Seq::empty()
    } else {
        rows_text(s, cols, (k - 1) as nat) + row_text(s.subrange((k - 1) * cols, k * cols)) + seq!['\n']
    }
}

/// The text of the settings in B: a vector is one text, in which a newline
/// ends a line; a matrix has one line per row.
pub open spec fn settings_text(b: ValueP) -> Seq<char> {
    if b.dims().len() == 1 {
        row_text(b.ravel())
    } else {
        rows_text(b.ravel(), b.dims()[1] as int, b.dims()[0] as nat)
    }
}

/// The text of a row of cells (see `row_text`).
fn row_chars(s: &[Cell], lo: usize, hi: usize, out: &mut Vec<char>)
    requires
        lo <= hi <= s@.len(),
    ensures
        final(out)@ == old(out)@ + row_text(s@.subrange(lo as int, hi as int)),
    decreases hi - lo,
{
    if lo == hi {
        assert(s@.subrange(lo as int, hi as int) =~= Seq::<Cell>::empty());
        assert(final(out)@ =~= old(out)@ + Seq::<char>::empty());
        return;
    }
    let ghost sub = s@.subrange(lo as int, hi as int);
    assert(sub.drop_first() =~= s@.subrange(lo + 1, hi as int));
    match &s[lo] {
        Cell::Char(u) => {
            match crate::text::char_from_u32(*u) {
                Some(c) => {
                    proof { crate::quad::lemma_char_of(c); }
                    out.push(c);
                },
                None => {},
            }
            let ghost mid = out@;
            row_chars(s, lo + 1, hi, out);
            proof {
                if crate::text::is_scalar_value(*u) {
                    assert(out@ =~= old(out)@ + row_text(sub));
                } else {
                    assert(out@ =~= old(out)@ + row_text(sub));
                }
            }
        },
        _ => {
            assert(out@ =~= old(out)@ + row_text(sub));
        },
    }
}

/// The settings after one line (see `apply_line`).
fn settle_line(c: &mut PlotConfig, line: &Vec<char>)
    ensures
        final(c)@ == apply_line(old(c)@, line@),
{
    let t = trim_chars(line.as_slice());
    let mut p: usize = 0;
    while p < t.len() && t[p] != '='
        invariant
            p <= t@.len(),
            t@ == trimmed(line@),
            first_eq(t@, 0) == first_eq(t@, p as int),
        decreases t@.len() - p,
    {
        p += 1;
    }
    if p >= t.len() {
        return;
    }
    proof { assert(first_eq(t@, p as int) == Some(p as int)); }
    let mut kc: Vec<char> = Vec::new();
    let mut i: usize = 0;
    while i < p
        invariant
            i <= p < t@.len(),
            kc@ == t@.take(i as int),
        decreases p - i,
    {
        kc.push(t[i]);
        proof { assert(kc@ =~= t@.take(i as int + 1)); }
        i += 1;
    }
    let mut vc: Vec<char> = Vec::new();
    let mut j: usize = p + 1;
    while j < t.len()
        invariant
            p < j <= t@.len(),
            vc@ == t@.subrange(p + 1, j as int),
        decreases t@.len() - j,
    {
        vc.push(t[j]);
        proof { assert(vc@ =~= t@.subrange(p + 1, j as int + 1)); }
        j += 1;
    }
    proof { assert(vc@ =~= t@.skip(p + 1)); }
    let kt = trim_chars(kc.as_slice());
    let val = trim_chars(vc.as_slice());
    let ks = crate::text::chars_to_string(kt.as_slice());
    let low = lower_text(ks.as_str());
    let key = crate::text::str_chars(low.as_str());
    if spells(&key, "color") || spells(&key, "line_color") {
        c.line_color_rgb = color_of(&val);
    } else if spells(&key, "width") || spells(&key, "line_width") {
        let vs = crate::text::chars_to_string(val.as_slice());
        c.line_width = parse_u32(vs.as_str());
    } else if spells(&key, "title") {
        c.title = Some(crate::text::chars_to_string(val.as_slice()));
    } else if spells(&key, "x_label") || spells(&key, "xlabel") {
        c.x_label = Some(crate::text::chars_to_string(val.as_slice()));
    } else if spells(&key, "y_label") || spells(&key, "ylabel") {
        c.y_label = Some(crate::text::chars_to_string(val.as_slice()));
    } else if spells(&key, "background") {
        c.background_rgb = color_of(&val);
    } else if spells(&key, "grid") {
        c.show_grid = Some(is_yes(&val));
    } else if spells(&key, "auto_open") {
        c.auto_open = Some(is_yes(&val));
    }
}

/// Read the settings of a plot from B: a character vector of lines
/// `NAME=VALUE` (a newline ends a line), or a character matrix with one
/// such line per row. Names are `color` (or `line_color`), `width` (or
/// `line_width`), `title`, `x_label` (or `xlabel`), `y_label` (or
/// `ylabel`), `background`, `grid` and `auto_open`, in any case; others are
/// passed over. A color is named (`red`, `green`, `blue`, `yellow`, `cyan`,
/// `magenta`, `black`, `white`, `orange`), a width is a decimal number, and
/// `grid` and `auto_open` are on for `1` or `true`. A single integer from 1
/// to 3 (a kind of plot), or B of another rank, sets nothing; an empty B is
/// a DOMAIN ERROR.
pub fn parse_config(b: &ValueP) -> (r: AplResult<PlotConfig>)
    ensures
        b.ravel().len() == 0 ==> r == Err::<PlotConfig, ErrorCode>(ErrorCode::DomainError),
        b.ravel().len() > 0 ==> (r matches Ok(c) && c@ == (
            if b.ravel().len() == 1 && (b.ravel()[0] matches Cell::Int(k) && 1 <= k <= 3) {
                no_settings()
            } else if b.dims().len() == 1 || b.dims().len() == 2 {
                apply_text(no_settings(), Seq::empty(), settings_text(*b))
            } else {
                no_settings()
            })),
{
    b.lemma_wf();
    let cells = b.cells();
    if cells.len() == 0 {
        return Err(ErrorCode::DomainError);
    }
    let mut c = PlotConfig {
        line_color_rgb: None,
        line_width: None,
        title: None,
        x_label: None,
        y_label: None,
        background_rgb: None,
        show_grid: None,
        auto_open: None,
    };
    if cells.len() == 1 {
        if let Cell::Int(k) = &cells[0] {
            if *k >= 1 && *k <= 3 {
                return Ok(c);
            }
        }
    }
    let rank = b.rank();
    if rank != 1 && rank != 2 {
        return Ok(c);
    }
    let mut text: Vec<char> = Vec::new();
    if rank == 1 {
        row_chars(cells, 0, cells.len(), &mut text);
        proof { assert(cells@.subrange(0, cells@.len() as int) =~= cells@); }
    } else {
        let rows_i = b.get_shape_item(0);
        let cols_i = b.get_shape_item(1);
        proof {
            let d = b.dims();
            crate::shape::lemma_prod_append(seq![d[0]], seq![d[1]]);
            reveal_with_fuel(crate::shape::prod, 2);
            assert(seq![d[0]].drop_last() =~= Seq::<i64>::empty());
            assert(seq![d[1]].drop_last() =~= Seq::<i64>::empty());
            assert(d =~= seq![d[0]] + seq![d[1]]);
            assert(cells@.len() == rows_i * cols_i);
            assert(rows_i >= 0 && cols_i >= 0);
            assert(rows_i <= cells@.len() && cols_i <= cells@.len()) by (nonlinear_arith)
                requires rows_i >= 0, cols_i >= 0, rows_i * cols_i == cells@.len(), cells@.len() > 0;
        }
        let rows = rows_i as usize;
        let cols = cols_i as usize;
        let total = cells.len();
        let mut k: usize = 0;
        while k < rows
            invariant
                k <= rows,
                total == cells@.len(),
                rows * cols == cells@.len(),
                cells@ == b.ravel(),
                rows as int == b.dims()[0],
                cols as int == b.dims()[1],
                text@ == rows_text(cells@, cols as int, k as nat),
            decreases rows - k,
        {
            proof {
                assert((k + 1) * cols <= rows * cols) by (nonlinear_arith) requires k + 1 <= rows;
                assert(k * cols + cols == (k + 1) * cols) by (nonlinear_arith);
                assert(k * cols + cols <= total);
                assert(0 <= k * cols) by (nonlinear_arith);
            }
            row_chars(cells, k * cols, k * cols + cols, &mut text);
            text.push('\n');
            proof {
                assert(text@ =~= rows_text(cells@, cols as int, (k + 1) as nat));
            }
            k += 1;
        }
    }
    let ghost full = text@;
    let mut cur: Vec<char> = Vec::new();
    let mut i: usize = 0;
    proof { assert(full.skip(0) =~= full); }
    while i < text.len()
        invariant
            i <= text@.len(),
            full == text@,
            apply_text(no_settings(), Seq::empty(), full) == apply_text(c@, cur@, full.skip(i as int)),
        decreases text@.len() - i,
    {
        proof { assert(full.skip(i as int).drop_first() =~= full.skip(i as int + 1)); }
        if text[i] == '\n' {
            settle_line(&mut c, &cur);
            cur = Vec::new();
        } else {
            cur.push(text[i]);
        }
        i += 1;
    }
    proof { assert(full.skip(i as int) =~= Seq::<char>::empty()); }
    settle_line(&mut c, &cur);
    Ok(c)
}

/// `⎕PLOT B`. A plot is an image file, which this library does not write:
/// `⎕PLOT` is a DOMAIN ERROR, as in an interpreter built without the
/// plotting plugin.
pub fn quad_plot(b: &ValueP) -> (r: AplResult<ValueP>)
    ensures
        r == Err::<ValueP, ErrorCode>(ErrorCode::DomainError),
{
    Err(ErrorCode::DomainError)
}

/// `A ⎕PLOT B`, the plot of B with the settings A: a DOMAIN ERROR like
/// `⎕PLOT B`.
pub fn quad_plot_dyad(config: &ValueP, data: &ValueP) -> (r: AplResult<ValueP>)
    ensures
        r == Err::<ValueP, ErrorCode>(ErrorCode::DomainError),
{
    Err(ErrorCode::DomainError)
}

} // verus!
