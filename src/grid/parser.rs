//! Reading a board from text.
//!
//! The text is read line by line. In each line a `#` starts a comment that
//! runs to the end of the line; what stands before it splits at white space
//! into tokens, and lines without tokens are skipped. The first remaining
//! line holds the side `S` alone; the next `S` lines hold `S` integers each,
//! the rows of the board, which together must be `0..S²` in some order.

use crate::complex::Complex;
use crate::grid::{
    lemma_cell_in_range, lemma_distinct_covers, lemma_index_coords, Board, Grid, MAX_SIDE,
};
use vstd::prelude::*;
use vstd::std_specs::iter::IteratorSpec;

verus! {

broadcast use vstd::string::axiom_spec_iter, vstd::string::next_postcondition;

/// The characters of `raw`, in order.
fn chars_of(raw: &str) -> (r: Vec<char>)
    ensures
        r@ == raw@,
{
    let mut it = raw.chars();
    let mut out: Vec<char> = Vec::new();
    loop
        invariant
            out@ + it.remaining() == raw@,
            it.decrease() is Some,
        ensures
            out@ == raw@,
        decreases it.decrease()->0,
    {
        match it.next() {
            Some(c) => {
                out.push(c);
            },
            None => {
                assert(out@ =~= out@ + it.remaining());
                break;
            },
        }
    }
    out
}

/// The text is not a board.
#[derive(Clone, Copy, Debug, PartialEq, Eq, Structural)]
pub struct ParsingError;

/// Unicode white space, as `char::is_whitespace` has it.
pub open spec fn is_space(c: char) -> bool {
    let u = c as u32;
    (0x9 <= u <= 0xd) || u == 0x20 || u == 0x85 || u == 0xa0 || u == 0x1680 || (0x2000 <= u
        <= 0x200a) || u == 0x2028 || u == 0x2029 || u == 0x202f || u == 0x205f || u == 0x3000
}

fn space(c: char) -> (r: bool)
    ensures
        r == is_space(c),
{
    let u = c as u32;
    (0x9 <= u && u <= 0xd) || u == 0x20 || u == 0x85 || u == 0xa0 || u == 0x1680 || (0x2000 <= u
        && u <= 0x200a) || u == 0x2028 || u == 0x2029 || u == 0x202f || u == 0x205f || u == 0x3000
}

/// Tokenizer state after a prefix of the text: finished rows, the tokens of
/// the current line, the current token, and whether a comment is open.
pub struct Scan {
    pub rows: Seq<Seq<Seq<char>>>,
    pub row: Seq<Seq<char>>,
    pub tok: Seq<char>,
    pub comment: bool,
}

pub open spec fn end_token(st: Scan) -> Scan {
    if st.tok.len() > 0 {
        Scan { rows: st.rows, row: st.row.push(st.tok), tok: seq![], comment: st.comment }
    } else {
        st
    }
}

pub open spec fn end_line(st: Scan) -> Scan {
    let t = end_token(st);
    if t.row.len() > 0 {
        Scan { rows: t.rows.push(t.row), row: seq![], tok: seq![], comment: false }
    } else {
        Scan { rows: t.rows, row: seq![], tok: seq![], comment: false }
    }
}

pub open spec fn scan_step(st: Scan, c: char) -> Scan {
    if c == '\n' {
        end_line(st)
    } else if st.comment {
        st
    } else if c == '#' {
        let t = end_token(st);
        Scan { rows: t.rows, row: t.row, tok: t.tok, comment: true }
    } else if is_space(c) {
        end_token(st)
    } else {
        Scan { rows: st.rows, row: st.row, tok: st.tok.push(c), comment: st.comment }
    }
}

/// Tokenizer state after reading `t` from state `st`.
pub open spec fn scan_from(st: Scan, t: Seq<char>) -> Scan
    decreases t.len(),
{
    if t.len() == 0 {
        st
    } else {
        scan_step(scan_from(st, t.drop_last()), t.last())
    }
}

pub open spec fn scan_start() -> Scan {
    Scan { rows: seq![], row: seq![], tok: seq![], comment: false }
}

/// Tokenizer state after reading `s` from the start.
pub open spec fn scan(s: Seq<char>) -> Scan {
    scan_from(scan_start(), s)
}

/// The non-empty lines of the text, each as its list of tokens.
pub open spec fn text_rows(s: Seq<char>) -> Seq<Seq<Seq<char>>> {
    end_line(scan(s)).rows
}

pub open spec fn is_digit(c: char) -> bool {
    '0' <= c <= '9'
}

/// Value of a string of decimal digits.
pub open spec fn digits_value(s: Seq<char>) -> int
    decreases s.len(),
{
    if s.len() == 0 {
        0
    } else {
        digits_value(s.drop_last()) * 10 + (s.last() as int - '0' as int)
    }
}

/// The `i32` that a token spells (an optional sign, then decimal digits),
/// as `str::parse::<i32>` reads it.
pub open spec fn token_value(tok: Seq<char>) -> Option<i32> {
    let signed = tok.len() > 0 && (tok[0] == '+' || tok[0] == '-');
    let body = if signed {
        tok.drop_first()
    } else {
        tok
    };
    let v = if signed && tok[0] == '-' {
        -digits_value(body)
    } else {
        digits_value(body)
    };
    if body.len() == 0 || !all_digits(body) {
        None
    } else if i32::MIN <= v <= i32::MAX {
        Some(v as i32)
    } else {
        None
    }
}

/// The side that the first line of the text states.
pub open spec fn text_size(s: Seq<char>) -> int {
    token_value(text_rows(s)[0][0])->0 as int
}

/// The tiles that the rows after the first spell, row by row.
pub open spec fn text_tiles(s: Seq<char>) -> Seq<i32> {
    let rows = text_rows(s);
    let n = text_size(s);
    Seq::new((n * n) as nat, |k: int| token_value(rows[1 + k / n][k % n])->0)
}

/// The text describes a board: a line with the side `S` alone (at least 1
/// and at most `MAX_SIDE`), then exactly `S` lines of `S` integers, which
/// are `0..S²` without repetition.
pub open spec fn text_ok(s: Seq<char>) -> bool {
    let rows = text_rows(s);
    let n = text_size(s);
    let tiles = text_tiles(s);
    &&& rows.len() >= 2
    &&& rows[0].len() == 1
    &&& token_value(rows[0][0]) is Some
    &&& 1 <= n <= MAX_SIDE
    &&& rows.len() == n + 1
    &&& forall|r: int| 1 <= r < rows.len() ==> (#[trigger] rows[r]).len() == n
    &&& forall|r: int, c: int|
        1 <= r < rows.len() && 0 <= c < n ==> (#[trigger] token_value(rows[r][c])) is Some
    &&& forall|k: int| 0 <= k < n * n ==> 0 <= #[trigger] tiles[k] < n * n
    &&& forall|k: int, l: int| 0 <= k < n * n && 0 <= l < n * n && k != l ==> tiles[k] != tiles[l]
}

/// The board that a text describes.
pub open spec fn text_board(s: Seq<char>) -> Board {
    let n = text_size(s);
    let tiles = text_tiles(s);
    let z = choose|k: int| 0 <= k < n * n && tiles[k] == 0;
    Board { tiles, size: n, zx: z % n, zy: z / n }
}

/// The token lists built so far stand for tokenizer state `st`.
spec fn holds_scan(
    rows: Seq<Vec<Vec<char>>>,
    row: Seq<Vec<char>>,
    tok: Seq<char>,
    comment: bool,
    st: Scan,
) -> bool {
    &&& rows.len() == st.rows.len()
    &&& forall|a: int| 0 <= a < rows.len() ==> (#[trigger] rows[a]).len() == st.rows[a].len()
    &&& forall|a: int, b: int|
        0 <= a < rows.len() && 0 <= b < rows[a].len() ==> (#[trigger] rows[a]@[b])@ == st.rows[a][b]
    &&& row.len() == st.row.len()
    &&& forall|b: int| 0 <= b < row.len() ==> (#[trigger] row[b])@ == st.row[b]
    &&& tok == st.tok
    &&& comment == st.comment
}

/// Feeds one character to the tokenizer.
fn feed(
    rows: &mut Vec<Vec<Vec<char>>>,
    row: &mut Vec<Vec<char>>,
    tok: &mut Vec<char>,
    comment: &mut bool,
    c: char,
    Ghost(st): Ghost<Scan>,
)
    requires
        holds_scan(old(rows)@, old(row)@, old(tok)@, *old(comment), st),
    ensures
        holds_scan(final(rows)@, final(row)@, final(tok)@, *final(comment), scan_step(st, c)),
{
    let ghost rows0 = rows@;
    let ends_token = c == '\n' || (!*comment && (c == '#' || space(c)));
    if ends_token && tok.len() > 0 {
        let mut t: Vec<char> = Vec::new();
        std::mem::swap(&mut t, tok);
        row.push(t);
    }
    if c == '\n' {
        if row.len() > 0 {
            let mut r: Vec<Vec<char>> = Vec::new();
            std::mem::swap(&mut r, row);
            rows.push(r);
        }
        *comment = false;
    } else if !*comment {
        if c == '#' {
            *comment = true;
        } else if !space(c) {
            tok.push(c);
        }
    }
    proof {
        let nst = scan_step(st, c);
        assert(rows.len() == nst.rows.len());
        assert(forall|b: int| 0 <= b < row.len() ==> (#[trigger] row@[b])@ == nst.row[b]);
        assert forall|a: int, b: int|
            0 <= a < rows.len() && 0 <= b < rows@[a].len() implies (#[trigger] rows@[a]@[b])@
            == nst.rows[a][b] by {
            if a < rows0.len() {
                assert(rows@[a] == rows0[a]);
            }
        }
        assert forall|a: int| 0 <= a < rows.len() implies (#[trigger] rows@[a]).len() == nst.rows[a].len() by {
            if a < rows0.len() {
                assert(rows@[a] == rows0[a]);
            }
        }
        assert(row.len() == nst.row.len());
        assert(tok@ == nst.tok);
        assert(*comment == nst.comment);
    }
}

/// Splits the characters into lines of tokens.
fn tokenize(cs: &Vec<char>) -> (r: Vec<Vec<Vec<char>>>)
    ensures
        r.len() == text_rows(cs@).len(),
        forall|i: int|
            0 <= i < r.len() ==> (#[trigger] r@[i]).len() == text_rows(cs@)[i].len(),
        forall|i: int, j: int|
            0 <= i < r.len() && 0 <= j < r@[i].len() ==> (#[trigger] r@[i]@[j])@
                == text_rows(cs@)[i][j],
{
    let mut rows: Vec<Vec<Vec<char>>> = Vec::new();
    let mut row: Vec<Vec<char>> = Vec::new();
    let mut tok: Vec<char> = Vec::new();
    let mut comment = false;
    let mut i: usize = 0;
    proof {
        assert(cs@.subrange(0, 0) =~= Seq::<char>::empty());
    }
    while i < cs.len()
        invariant
            i <= cs.len(),
            holds_scan(rows@, row@, tok@, comment, scan(cs@.subrange(0, i as int))),
        decreases cs.len() - i,
    {
        let ghost st = scan(cs@.subrange(0, i as int));
        feed(&mut rows, &mut row, &mut tok, &mut comment, cs[i], Ghost(st));
        proof {
            assert(cs@.subrange(0, i as int + 1).drop_last() =~= cs@.subrange(0, i as int));
        }
        i = i + 1;
    }
    proof {
        assert(cs@.subrange(0, cs.len() as int) =~= cs@);
    }
    feed(&mut rows, &mut row, &mut tok, &mut comment, '\n', Ghost(scan(cs@)));
    rows
}

proof fn lemma_digits_value_nonneg(s: Seq<char>)
    requires
        all_digits(s),
    ensures
        digits_value(s) >= 0,
    decreases s.len(),
{
    if s.len() > 0 {
        let p = s.drop_last();
        assert forall|i: int| 0 <= i < p.len() implies is_digit(#[trigger] p[i]) by {
            assert(p[i] == s[i]);
        }
        lemma_digits_value_nonneg(p);
        assert(is_digit(s[s.len() - 1]));
    }
}

/// One above the magnitude of `i32::MIN`: digit values are tracked up to it.
const DIGITS_CAP: i64 = 2147483649;

pub open spec fn all_digits(s: Seq<char>) -> bool {
    forall|i: int| 0 <= i < s.len() ==> is_digit(#[trigger] s[i])
}

spec fn capped(v: int) -> int {
    if v < DIGITS_CAP {
        v
    } else {
        DIGITS_CAP as int
    }
}

/// The value of `t[start..]` if it is all digits, capped at `DIGITS_CAP`.
fn digits_from(t: &Vec<char>, start: usize) -> (r: Option<i64>)
    requires
        start <= t.len(),
    ensures
        r is Some <==> all_digits(t@.subrange(start as int, t.len() as int)),
        r matches Some(v) ==> v == capped(digits_value(t@.subrange(start as int, t.len() as int)))
            && 0 <= v <= DIGITS_CAP,
{
    let n = t.len();
    let mut acc: i64 = 0;
    let mut i: usize = start;
    assert(t@.subrange(start as int, start as int) =~= Seq::<char>::empty());
    while i < n
        invariant
            start <= i <= n,
            n == t.len(),
            all_digits(t@.subrange(start as int, i as int)),
            0 <= acc <= DIGITS_CAP,
            acc == capped(digits_value(t@.subrange(start as int, i as int))),
        decreases n - i,
    {
        let c = t[i];
        let ghost pre = t@.subrange(start as int, i as int);
        let ghost next = t@.subrange(start as int, i as int + 1);
        if !('0' <= c && c <= '9') {
            proof {
                let all = t@.subrange(start as int, n as int);
                assert(all[i - start] == c);
            }
            return None;
        }
        proof {
            assert(next.drop_last() =~= pre);
            assert(next.last() == c);
            lemma_digits_value_nonneg(pre);
            assert forall|k: int| 0 <= k < next.len() implies is_digit(#[trigger] next[k]) by {
                if k < pre.len() {
                    assert(next[k] == pre[k]);
                }
            }
        }
        let d = (c as u32 - '0' as u32) as i64;
        if acc < DIGITS_CAP {
            acc = acc * 10 + d;
            if acc > DIGITS_CAP {
                acc = DIGITS_CAP;
            }
        }
        i = i + 1;
    }
    Some(acc)
}

/// The `i32` that the token spells, if any.
fn parse_token(t: &Vec<char>) -> (r: Option<i32>)
    ensures
        r == token_value(t@),
{
    let n = t.len();
    if n == 0 {
        return None;
    }
    let signed = t[0] == '+' || t[0] == '-';
    let neg = t[0] == '-';
    let start: usize = if signed {
        1
    } else {
        0
    };
    let ghost body = if signed {
        t@.drop_first()
    } else {
        t@
    };
    assert(body =~= t@.subrange(start as int, n as int));
    if start == n {
        return None;
    }
    let acc = match digits_from(t, start) {
        Some(a) => a,
        None => {
            return None;
        },
    };
    let v = if neg {
        -acc
    } else {
        acc
    };
    if -2147483648 <= v && v <= 2147483647 {
        Some(v as i32)
    } else {
        None
    }
}

/// Reads a board from its text: the side on the first line with tokens,
/// then one line of tokens per row.
pub fn parse(raw: &str) -> (r: Result<Grid, ParsingError>)
    ensures
        r is Ok <==> text_ok(raw@),
        r matches Ok(g) ==> g@ == text_board(raw@) && g@.wf() && g@.distinct(),
{
    let cs = chars_of(raw);
    let rows = tokenize(&cs);
    let ghost tr = text_rows(raw@);
    if rows.len() < 2 {
        return Err(ParsingError);
    }
    if rows[0].len() != 1 {
        return Err(ParsingError);
    }
    let n = match parse_token(&rows[0][0]) {
        Some(n) => n,
        None => {
            return Err(ParsingError);
        },
    };
    if n < 1 || n > MAX_SIDE {
        return Err(ParsingError);
    }
    assert(n == text_size(raw@));
    if rows.len() - 1 != n as usize {
        return Err(ParsingError);
    }
    let mut r: usize = 1;
    while r < rows.len()
        invariant
            1 <= r <= rows.len(),
            1 <= n <= MAX_SIDE,
            n == text_size(raw@),
            tr == text_rows(raw@),
            rows.len() == n + 1,
            rows.len() == tr.len(),
            forall|i: int| 0 <= i < rows.len() ==> (#[trigger] rows@[i]).len() == tr[i].len(),
            forall|i: int| 1 <= i < r ==> (#[trigger] tr[i]).len() == n,
        decreases rows.len() - r,
    {
        if rows[r].len() != n as usize {
            return Err(ParsingError);
        }
        r = r + 1;
    }
    let ghost tiles_spec = text_tiles(raw@);
    assert(n * n <= MAX_SIDE * MAX_SIDE) by (nonlinear_arith)
        requires
            1 <= n <= MAX_SIDE,
    ;
    let nn = (n * n) as usize;
    let mut tiles: Vec<i32> = Vec::new();
    let mut r: usize = 1;
    while r <= n as usize
        invariant
            1 <= r <= n + 1,
            1 <= n <= MAX_SIDE,
            n == text_size(raw@),
            nn == n * n,
            rows.len() == n + 1,
            rows.len() == tr.len(),
            tr == text_rows(raw@),
            tiles_spec == text_tiles(raw@),
            forall|i: int| 1 <= i < rows.len() ==> (#[trigger] rows@[i]).len() == n,
            forall|i: int, j: int|
                0 <= i < rows.len() && 0 <= j < rows@[i].len() ==> (#[trigger] rows@[i]@[j])@ == tr[i][j],
            forall|i: int, j: int|
                1 <= i < r && 0 <= j < n ==> (#[trigger] token_value(tr[i][j])) is Some,
            tiles.len() == (r - 1) * n,
            forall|k: int| 0 <= k < tiles.len() ==> tiles@[k] == #[trigger] tiles_spec[k],
        decreases n + 1 - r,
    {
        let mut c: usize = 0;
        while c < n as usize
            invariant
                1 <= r <= n,
                1 <= n <= MAX_SIDE,
                n == text_size(raw@),
                nn == n * n,
                rows.len() == n + 1,
                rows.len() == tr.len(),
                tr == text_rows(raw@),
                tiles_spec == text_tiles(raw@),
                forall|i: int| 1 <= i < rows.len() ==> (#[trigger] rows@[i]).len() == n,
                forall|i: int, j: int|
                    0 <= i < rows.len() && 0 <= j < rows@[i].len() ==> (#[trigger] rows@[i]@[j])@ == tr[i][j],
                forall|i: int, j: int|
                    1 <= i < r && 0 <= j < n ==> (#[trigger] token_value(tr[i][j])) is Some,
                forall|j: int| 0 <= j < c ==> (#[trigger] token_value(tr[r as int][j])) is Some,
                c <= n,
                tiles.len() == (r - 1) * n + c,
                forall|k: int| 0 <= k < tiles.len() ==> tiles@[k] == #[trigger] tiles_spec[k],
            decreases n - c,
        {
            assert(rows@[r as int]@[c as int]@ == tr[r as int][c as int]);
            let v = match parse_token(&rows[r][c]) {
                Some(v) => v,
                None => {
                    return Err(ParsingError);
                },
            };
            proof {
                let k = (r - 1) * n + c;
                lemma_cell_in_range(n as int, c as int, r - 1);
                assert((r - 1) * n + c < n * n);
                assert(tiles_spec[k] == token_value(tr[1 + k / (n as int)][k % (n as int)])->0);
            }
            tiles.push(v);
            c = c + 1;
        }
        proof {
            assert((r - 1) * n + n == r * n) by (nonlinear_arith);
        }
        r = r + 1;
    }
    assert(tiles@ =~= tiles_spec);
    let mut seen: Vec<bool> = Vec::new();
    let mut k: usize = 0;
    while k < nn
        invariant
            k <= nn,
            seen.len() == k,
            forall|x: int| 0 <= x < k ==> !(#[trigger] seen@[x]),
        decreases nn - k,
    {
        seen.push(false);
        k = k + 1;
    }
    let mut k: usize = 0;
    while k < nn
        invariant
            k <= nn,
            nn == n * n,
            1 <= n <= MAX_SIDE,
            tiles.len() == nn,
            tiles@ == tiles_spec,
            tiles_spec == text_tiles(raw@),
            n == text_size(raw@),
            seen.len() == nn,
            forall|j: int| 0 <= j < k ==> 0 <= #[trigger] tiles@[j] < nn,
            forall|j: int, l: int| 0 <= j < k && 0 <= l < k && j != l ==> tiles@[j] != tiles@[l],
            forall|x: int| 0 <= x < nn && #[trigger] seen@[x] ==> exists|j: int| 0 <= j < k && tiles@[j] == x,
            forall|j: int| 0 <= j < k ==> seen@[#[trigger] tiles@[j] as int],
        decreases nn - k,
    {
        let v = tiles[k];
        if v < 0 || v as usize >= nn {
            return Err(ParsingError);
        }
        if seen[v as usize] {
            proof {
                let j = choose|j: int| 0 <= j < k && tiles@[j] == v as int;
                assert(tiles@[j] == tiles@[k as int]);
            }
            return Err(ParsingError);
        }
        seen.set(v as usize, true);
        k = k + 1;
    }
    proof {
        assert(nn >= 1) by (nonlinear_arith)
            requires
                nn == n * n,
                n >= 1,
        ;
        lemma_distinct_covers(tiles@, nn as int);
        assert(tiles@.contains(0i32));
    }
    let mut z: usize = 0;
    while z < nn
        invariant
            z <= nn,
            tiles.len() == nn,
            tiles@ == tiles_spec,
            tiles@.contains(0i32),
            forall|j: int| 0 <= j < z ==> tiles@[j] != 0,
        ensures
            z <= nn,
            tiles@ == tiles_spec,
            z < nn ==> tiles@[z as int] == 0,
            z == nn ==> forall|j: int| 0 <= j < nn ==> tiles@[j] != 0,
        decreases nn - z,
    {
        if tiles[z] == 0 {
            break;
        }
        z = z + 1;
    }
    if z == nn {
        proof {
            let j = choose|j: int| 0 <= j < tiles.len() && tiles@[j] == 0i32;
        }
        return Err(ParsingError);
    }
    let ghost b = text_board(raw@);
    proof {
        lemma_index_coords(n as int, z as int);
        assert(tiles_spec[z as int] == 0);
        let w = choose|w: int| 0 <= w < n * n && tiles_spec[w] == 0;
        assert(w == z);
    }
    let g = Grid { v: tiles, size: n, zero: Complex::new(z as i32 % n, z as i32 / n) };
    proof {
        assert(g@.tiles == b.tiles);
    }
    Ok(g)
}

/// The decimal digit character of `d < 10`.
pub open spec fn digit_char(d: int) -> char {
    seq!['0', '1', '2', '3', '4', '5', '6', '7', '8', '9'][d]
}

/// Decimal digits of `v ≥ 0`, most significant first.
pub open spec fn decimal(v: nat) -> Seq<char>
    decreases v,
{
    if v < 10 {
        seq![digit_char(v as int)]
    } else {
        decimal(v / 10).push(digit_char((v % 10) as int))
    }
}

/// Tokens joined by single spaces.
pub open spec fn tokens_line(toks: Seq<Seq<char>>) -> Seq<char>
    decreases toks.len(),
{
    if toks.len() == 0 {
        seq![]
    } else if toks.len() == 1 {
        toks[0]
    } else {
        tokens_line(toks.drop_last()) + seq![' '] + toks.last()
    }
}

/// Lines of tokens, each line ended by a newline.
pub open spec fn lines_text(lines: Seq<Seq<Seq<char>>>) -> Seq<char>
    decreases lines.len(),
{
    if lines.len() == 0 {
        seq![]
    } else {
        lines_text(lines.drop_last()) + tokens_line(lines.last()) + seq!['\n']
    }
}

/// The lines of a board's text: its side alone, then one line per row.
pub open spec fn board_lines(b: Board) -> Seq<Seq<Seq<char>>> {
    seq![seq![decimal(b.size as nat)]] + Seq::new(
        b.size as nat,
        |r: int| Seq::new(b.size as nat, |c: int| decimal(b.tiles[r * b.size + c] as nat)),
    )
}

/// A board written out as text: the side on the first line, then the rows,
/// tiles separated by single spaces.
pub open spec fn board_text(b: Board) -> Seq<char> {
    lines_text(board_lines(b))
}

/// A character that neither separates tokens nor opens a comment.
spec fn plain(c: char) -> bool {
    c != '\n' && c != '#' && !is_space(c)
}

spec fn plain_token(t: Seq<char>) -> bool {
    t.len() > 0 && forall|i: int| 0 <= i < t.len() ==> plain(#[trigger] t[i])
}

spec fn plain_line(toks: Seq<Seq<char>>) -> bool {
    toks.len() > 0 && forall|i: int| 0 <= i < toks.len() ==> plain_token(#[trigger] toks[i])
}

proof fn lemma_scan_concat(st: Scan, a: Seq<char>, b: Seq<char>)
    ensures
        scan_from(st, a + b) == scan_from(scan_from(st, a), b),
    decreases b.len(),
{
    if b.len() == 0 {
        assert(a + b =~= a);
    } else {
        assert((a + b).drop_last() =~= a + b.drop_last());
        assert((a + b).last() == b.last());
        lemma_scan_concat(st, a, b.drop_last());
    }
}

proof fn lemma_scan_token(st: Scan, t: Seq<char>)
    requires
        !st.comment,
        forall|i: int| 0 <= i < t.len() ==> plain(#[trigger] t[i]),
    ensures
        scan_from(st, t) == (Scan { rows: st.rows, row: st.row, tok: st.tok + t, comment: false }),
    decreases t.len(),
{
    if t.len() == 0 {
        assert(st.tok + t =~= st.tok);
    } else {
        let p = t.drop_last();
        assert forall|i: int| 0 <= i < p.len() implies plain(#[trigger] p[i]) by {
            assert(p[i] == t[i]);
        }
        lemma_scan_token(st, p);
        assert(t.last() == t[t.len() - 1]);
        assert(plain(t[t.len() - 1]));
        assert((st.tok + p).push(t.last()) =~= st.tok + t);
    }
}

proof fn lemma_scan_line(rows: Seq<Seq<Seq<char>>>, toks: Seq<Seq<char>>)
    requires
        plain_line(toks),
    ensures
        scan_from(Scan { rows, row: seq![], tok: seq![], comment: false }, tokens_line(toks)) == (Scan {
            rows,
            row: toks.drop_last(),
            tok: toks.last(),
            comment: false,
        }),
    decreases toks.len(),
{
    let st = Scan { rows, row: seq![], tok: seq![], comment: false };
    if toks.len() == 1 {
        assert(plain_token(toks[0]));
        lemma_scan_token(st, toks[0]);
        assert(Seq::<char>::empty() + toks[0] =~= toks[0]);
        assert(toks.drop_last() =~= Seq::<Seq<char>>::empty());
    } else {
        let p = toks.drop_last();
        assert forall|i: int| 0 <= i < p.len() implies plain_token(#[trigger] p[i]) by {
            assert(p[i] == toks[i]);
        }
        lemma_scan_line(rows, p);
        let mid = scan_from(st, tokens_line(p));
        lemma_scan_concat(st, tokens_line(p), seq![' ']);
        assert(is_space(' ')) by {
            assert((' ' as u32) == 0x20);
        }
        assert(seq![' '].drop_last() =~= Seq::<char>::empty());
        assert(seq![' '].last() == ' ');
        assert(scan_from(mid, seq![' ']) == scan_step(scan_from(mid, Seq::<char>::empty()), ' '));
        let after_space = scan_from(mid, seq![' ']);
        assert(p.last() == toks[toks.len() - 2]);
        assert(plain_token(p.last()));
        assert(after_space == (Scan { rows, row: p.drop_last().push(p.last()), tok: seq![], comment: false }));
        assert(p.drop_last().push(p.last()) =~= toks.drop_last());
        assert(plain_token(toks[toks.len() - 1]));
        lemma_scan_token(after_space, toks.last());
        assert(Seq::<char>::empty() + toks.last() =~= toks.last());
        lemma_scan_concat(st, tokens_line(p) + seq![' '], toks.last());
    }
}

proof fn lemma_scan_lines(lines: Seq<Seq<Seq<char>>>)
    requires
        forall|i: int| 0 <= i < lines.len() ==> plain_line(#[trigger] lines[i]),
    ensures
        scan(lines_text(lines)) == (Scan { rows: lines, row: seq![], tok: seq![], comment: false }),
    decreases lines.len(),
{
    if lines.len() == 0 {
        assert(lines_text(lines) =~= Seq::<char>::empty());
        assert(lines =~= Seq::<Seq<Seq<char>>>::empty());
    } else {
        let p = lines.drop_last();
        assert forall|i: int| 0 <= i < p.len() implies plain_line(#[trigger] p[i]) by {
            assert(p[i] == lines[i]);
        }
        lemma_scan_lines(p);
        let toks = lines.last();
        assert(plain_line(lines[lines.len() - 1]));
        let st = Scan { rows: p, row: seq![], tok: seq![], comment: false };
        lemma_scan_line(p, toks);
        lemma_scan_concat(scan_start(), lines_text(p), tokens_line(toks));
        lemma_scan_concat(scan_start(), lines_text(p) + tokens_line(toks), seq!['\n']);
        assert(seq!['\n'].drop_last() =~= Seq::<char>::empty());
        assert(seq!['\n'].last() == '\n');
        let x = Scan { rows: p, row: toks.drop_last(), tok: toks.last(), comment: false };
        assert(scan_from(x, seq!['\n']) == scan_step(scan_from(x, Seq::<char>::empty()), '\n'));
        assert(lines.drop_last() == p);
        assert(lines_text(lines) == lines_text(p) + tokens_line(toks) + seq!['\n']);
        assert(plain_token(toks[toks.len() - 1]));
        assert(toks.drop_last().push(toks.last()) =~= toks);
        assert(p.push(toks) =~= lines);
    }
}

proof fn lemma_digit_char(d: int)
    requires
        0 <= d < 10,
    ensures
        is_digit(digit_char(d)),
        plain(digit_char(d)),
        digit_char(d) as int - '0' as int == d,
        digit_char(d) != '+' && digit_char(d) != '-',
{
    let c = digit_char(d);
    if d == 0 {
        assert(c == '0');
    } else if d == 1 {
        assert(c == '1');
    } else if d == 2 {
        assert(c == '2');
    } else if d == 3 {
        assert(c == '3');
    } else if d == 4 {
        assert(c == '4');
    } else if d == 5 {
        assert(c == '5');
    } else if d == 6 {
        assert(c == '6');
    } else if d == 7 {
        assert(c == '7');
    } else if d == 8 {
        assert(c == '8');
    } else {
        assert(c == '9');
    }
}

proof fn lemma_decimal(v: nat)
    ensures
        decimal(v).len() > 0,
        all_digits(decimal(v)),
        forall|i: int| 0 <= i < decimal(v).len() ==> plain(#[trigger] decimal(v)[i]),
        digits_value(decimal(v)) == v,
        decimal(v)[0] != '+' && decimal(v)[0] != '-',
    decreases v,
{
    if v < 10 {
        lemma_digit_char(v as int);
        let s = seq![digit_char(v as int)];
        assert(s.drop_last() =~= Seq::<char>::empty());
        assert(digits_value(s.drop_last()) == 0);
        assert(s.last() == digit_char(v as int));
    } else {
        lemma_decimal(v / 10);
        let d = (v % 10) as int;
        lemma_digit_char(d);
        let p = decimal(v / 10);
        let s = p.push(digit_char(d));
        assert(s.drop_last() =~= p);
        assert(s.last() == digit_char(d));
        vstd::arithmetic::div_mod::lemma_fundamental_div_mod(v as int, 10);
        assert forall|i: int| 0 <= i < s.len() implies plain(#[trigger] s[i]) && is_digit(s[i]) by {
            if i < p.len() {
                assert(s[i] == p[i]);
            }
        }
        assert(s[0] == p[0]);
    }
}

proof fn lemma_token_decimal(v: int)
    requires
        0 <= v <= i32::MAX,
    ensures
        token_value(decimal(v as nat)) == Some(v as i32),
{
    lemma_decimal(v as nat);
}

/// Writing a board out as text and reading it back gives the board: the
/// text is accepted, and every tile comes back at its own cell.
pub proof fn lemma_parse_board_text(b: Board)
    requires
        b.wf(),
        b.distinct(),
    ensures
        text_ok(board_text(b)),
        text_board(board_text(b)) == b,
{
    let n = b.size;
    let lines = board_lines(b);
    let t = board_text(b);
    assert(n * n <= MAX_SIDE * MAX_SIDE) by (nonlinear_arith)
        requires
            1 <= n <= MAX_SIDE,
    ;
    assert forall|i: int| 0 <= i < lines.len() implies plain_line(#[trigger] lines[i]) by {
        if i == 0 {
            lemma_decimal(n as nat);
            assert(lines[0] == seq![decimal(n as nat)]);
        } else {
            let row = lines[i];
            assert forall|c: int| 0 <= c < row.len() implies plain_token(#[trigger] row[c]) by {
                lemma_cell_in_range(n, c, i - 1);
                lemma_decimal(b.tiles[(i - 1) * n + c] as nat);
            }
        }
    }
    lemma_scan_lines(lines);
    let rows = text_rows(t);
    assert(rows == lines);
    lemma_token_decimal(n);
    assert(rows[0][0] == decimal(n as nat));
    assert(text_size(t) == n);
    assert forall|r: int, c: int| 1 <= r < rows.len() && 0 <= c < n implies (#[trigger] token_value(
        rows[r][c],
    )) is Some by {
        lemma_cell_in_range(n, c, r - 1);
        lemma_token_decimal(b.tiles[(r - 1) * n + c] as int);
    }
    let tiles = text_tiles(t);
    assert(tiles =~= b.tiles) by {
        assert forall|k: int| 0 <= k < n * n implies tiles[k] == b.tiles[k] by {
            lemma_index_coords(n, k);
            lemma_token_decimal(b.tiles[k] as int);
            assert(rows[1 + k / n][k % n] == decimal(b.tiles[(k / n) * n + k % n] as nat));
        }
    }
    let z = choose|k: int| 0 <= k < n * n && tiles[k] == 0;
    lemma_cell_in_range(n, b.zx, b.zy);
    assert(tiles[b.cell(b.zx, b.zy)] == 0);
    assert(z == b.cell(b.zx, b.zy));
}

} // verus!
