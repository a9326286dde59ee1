use vstd::prelude::*;
use crate::bit_grid::{BitGrid, BitOperation};
use crate::gen_state::{GenState, GenStatePair};
use crate::cell_state::{CellState, cell_char, player_char, has_char};

verus! {

/// The character of a pattern that leaves a cell unchanged.
pub const NO_OP_CHAR: char = '"';

/// The longest line of a pattern, line breaks excluded.
pub const MAX_LINE_LEN: usize = 70;

/// A pattern in run-length encoded (RLE) form: runs such as `3o` or `b`, rows separated by `$`
/// (a count before `$` skips that many rows), ended by `!`, with lines broken by `\r\n`.
#[derive(Debug, Clone)]
pub struct Pattern(pub String);

/// The character of a decimal digit.
pub open spec fn digit_char(d: int) -> char {
    (48 + d) as char
}

/// The decimal digits of `n`, most significant first, without leading zeroes.
pub open spec fn digits(n: nat) -> Seq<char>
    decreases n,
{
    if n < 10 {
        seq![digit_char(n as int)]
    } else {
        digits(n / 10).push(digit_char((n % 10) as int))
    }
}

/// A run of `n` characters `ch`: the character alone for a single one, else the count first.
pub open spec fn token(n: nat, ch: char) -> Seq<char> {
    if n == 1 {
        seq![ch]
    } else {
        digits(n).push(ch)
    }
}

/// The text of the fragments `frags`, in order, on lines of at most `MAX_LINE_LEN` characters
/// where the fragments allow: a fragment that would make the current line (already `line_len`
/// long) longer goes on a new line, after `\r\n`.
pub open spec fn wrap(frags: Seq<Seq<char>>, line_len: nat) -> Seq<char>
    decreases frags.len(),
{
    if frags.len() == 0 {
        Seq::empty()
    } else {
        let f = frags[0];
        if line_len + f.len() > MAX_LINE_LEN {
            seq!['\r', '\n'] + f + wrap(frags.drop_first(), f.len())
        } else {
            f + wrap(frags.drop_first(), line_len + f.len())
        }
    }
}

/// The line length after one more fragment of length `n`.
pub open spec fn next_line_len(line_len: nat, n: nat) -> nat {
    if line_len + n > MAX_LINE_LEN { n } else { line_len + n }
}

/// The length of the last line after the fragments `frags` were written on a line already
/// `line_len` long (see `wrap`).
pub open spec fn wrap_end(frags: Seq<Seq<char>>, line_len: nat) -> nat
    decreases frags.len(),
{
    if frags.len() == 0 {
        line_len
    } else {
        wrap_end(frags.drop_first(), next_line_len(line_len, frags[0].len()))
    }
}

/// Writing two lists of fragments one after the other is writing their concatenation.
pub proof fn lemma_wrap_concat(a: Seq<Seq<char>>, b: Seq<Seq<char>>, line_len: nat)
    ensures
        wrap(a + b, line_len) == wrap(a, line_len) + wrap(b, wrap_end(a, line_len)),
        wrap_end(a + b, line_len) == wrap_end(b, wrap_end(a, line_len)),
    decreases a.len(),
{
    if a.len() == 0 {
        assert(a + b =~= b);
        assert(wrap(a, line_len) =~= Seq::<char>::empty());
        assert(Seq::<char>::empty() + wrap(b, line_len) =~= wrap(b, line_len));
    } else {
        let f = a[0];
        let next = next_line_len(line_len, f.len());
        assert((a + b)[0] == f);
        assert((a + b).drop_first() =~= a.drop_first() + b);
        lemma_wrap_concat(a.drop_first(), b, next);
        if line_len + f.len() > MAX_LINE_LEN {
            assert(seq!['\r', '\n'] + f + wrap(a.drop_first() + b, next)
                =~= seq!['\r', '\n'] + f + wrap(a.drop_first(), next) + wrap(b, wrap_end(a.drop_first(), next)));
        } else {
            assert(f + wrap(a.drop_first() + b, next)
                =~= f + wrap(a.drop_first(), next) + wrap(b, wrap_end(a.drop_first(), next)));
        }
    }
}

/// The tokens of row `row` from column `col` on, given the run `(length, character)` that
/// starts at each cell: one token per run, except, when `trim` holds, a final run of dead cells
/// ('b'), which is left out.
pub open spec fn row_tokens(run_at: spec_fn(int, int) -> (int, char), width: int, row: int, col: int, trim: bool) -> Seq<Seq<char>>
    decreases width - col,
{
    if col >= width {
        Seq::empty()
    } else {
        let n = run_at(col, row).0;
        let ch = run_at(col, row).1;
        if n < 1 || col + n > width || (trim && ch == 'b' && col + n == width) {
            Seq::empty()
        } else {
            seq![token(n as nat, ch)] + row_tokens(run_at, width, row, col + n, trim)
        }
    }
}

/// The tokens of the rows from `row` on, when `pending` row ends are still to be written:
/// rows without tokens only add to the pending row ends, which are written as one `$` token
/// before the next row with tokens; row ends after the last such row are left out.
pub open spec fn rows_tokens(run_at: spec_fn(int, int) -> (int, char), width: int, height: int, row: int, pending: nat, trim: bool)
    -> Seq<Seq<char>>
    decreases height - row,
{
    if row >= height {
        Seq::empty()
    } else {
        let rt = row_tokens(run_at, width, row, 0, trim);
        if rt.len() == 0 {
            rows_tokens(run_at, width, height, row + 1, pending + 1, trim)
        } else if pending == 0 {
            rt + rows_tokens(run_at, width, height, row + 1, 1, trim)
        } else {
            seq![token(pending, '$')] + rt + rows_tokens(run_at, width, height, row + 1, 1, trim)
        }
    }
}

/// The pattern text of a grid of `width` by `height` cells whose runs are given by `run_at`:
/// the tokens of its rows, then `!`.
pub open spec fn pattern_text(run_at: spec_fn(int, int) -> (int, char), width: int, height: int, trim: bool) -> Seq<char> {
    wrap(rows_tokens(run_at, width, height, 0, 0, trim).push(seq!['!']), 0)
}

/// The tokens of a list of runs.
pub open spec fn runs_tokens(runs: Seq<(usize, char)>) -> Seq<Seq<char>> {
    runs.map_values(|x: (usize, char)| token(x.0 as nat, x.1))
}

/// Appends `ch` to `s` by calling std's `String::push`, which its documentation describes as
/// appending the given character to the end of the string. The contract states just that, and is
/// trusted, not proved.
#[verifier::external_body]
pub(crate) fn push_char(s: &mut String, ch: char)
    ensures
        final(s)@ == old(s)@.push(ch),
{
    s.push(ch);
}

/// Appends the decimal digits of `n` to `out`.
pub(crate) fn push_digits(out: &mut String, n: usize)
    ensures
        final(out)@ == old(out)@ + digits(n as nat),
    decreases n,
{
    if n >= 10 {
        push_digits(out, n / 10);
    }
    let d: u8 = (n % 10) as u8;
    let ch = (d + 48) as char;
    push_char(out, ch);
    proof {
        assert(out@ =~= old(out)@ + digits(n as nat));
    }
}

/// The length of the token of a run of `n` characters `ch`.
fn token_len(n: usize, ch: char) -> (len: usize)
    requires
        n >= 1,
    ensures
        len == token(n as nat, ch).len(),
{
    if n == 1 {
        return 1;
    }
    let mut len: usize = 2;
    let mut m = n;
    proof {
        lemma_digits_len(n as nat);
    }
    while m >= 10
        invariant
            2 <= n,
            1 <= m <= n,
            digits(n as nat).len() <= 20,
            len + digits(m as nat).len() == token(n as nat, ch).len() + 1,
        decreases m,
    {
        proof {
            lemma_digits_len(m as nat);
            lemma_digits_len((m / 10) as nat);
        }
        m = m / 10;
        len += 1;
    }
    proof {
        lemma_digits_len(m as nat);
    }
    len
}

/// Ten to the power `k`.
pub open spec fn pow10(k: nat) -> nat
    decreases k,
{
    if k == 0 { 1 } else { 10 * pow10((k - 1) as nat) }
}

/// How many digits `n` has; at most 20 for a `usize`.
pub proof fn lemma_digits_len(n: nat)
    ensures
        1 <= digits(n).len(),
        n >= 10 ==> digits(n).len() == digits(n / 10).len() + 1,
        n <= usize::MAX ==> digits(n).len() <= 20,
    decreases n,
{
    if n >= 10 {
        lemma_digits_len(n / 10);
    }
    if n <= usize::MAX {
        assert(pow10(20) == 100_000_000_000_000_000_000nat) by {
            reveal_with_fuel(pow10, 21);
        }
        lemma_digits_bound(n, 20);
    }
}

/// A number below 10^k has at most k digits.
proof fn lemma_digits_bound(n: nat, k: nat)
    requires
        1 <= k,
        n < pow10(k),
    ensures
        digits(n).len() <= k,
    decreases k,
{
    if n >= 10 {
        assert(pow10(1) == 10) by {
            reveal_with_fuel(pow10, 2);
        }
        assert(k != 1);
        let p = pow10((k - 1) as nat);
        assert(n / 10 < p) by (nonlinear_arith)
            requires n < 10 * p;
        lemma_digits_bound(n / 10, (k - 1) as nat);
    }
}

/// Writes pattern text fragment by fragment, keeping track of the current line's length.
struct PatternWriter {
    out: String,
    line_len: usize,
}

impl PatternWriter {
    /// An empty writer.
    fn new() -> (w: PatternWriter)
        ensures
            w.out@ == Seq::<char>::empty(),
            w.line_len == 0,
    {
        PatternWriter { out: String::new(), line_len: 0 }
    }

    /// Appends the token of a run of `n` characters `ch`, on a new line when the current one
    /// would grow beyond `MAX_LINE_LEN`.
    fn push_run(&mut self, n: usize, ch: char)
        requires
            n >= 1,
            old(self).line_len <= MAX_LINE_LEN,
        ensures
            final(self).out@ == old(self).out@ + wrap(seq![token(n as nat, ch)], old(self).line_len as nat),
            final(self).line_len == next_line_len(old(self).line_len as nat, token(n as nat, ch).len()),
            final(self).line_len <= MAX_LINE_LEN,
    {
        let len = token_len(n, ch);
        proof {
            lemma_digits_len(n as nat);
        }
        let ghost start = self.out@;
        let ghost f = token(n as nat, ch);
        if self.line_len + len > MAX_LINE_LEN {
            push_char(&mut self.out, '\r');
            push_char(&mut self.out, '\n');
            self.line_len = len;
        } else {
            self.line_len = self.line_len + len;
        }
        let ghost mid = self.out@;
        if n != 1 {
            push_digits(&mut self.out, n);
        }
        push_char(&mut self.out, ch);
        proof {
            let frags = seq![f];
            assert(frags.drop_first() =~= Seq::<Seq<char>>::empty());
            assert(wrap(frags.drop_first(), f.len()) =~= Seq::<char>::empty());
            assert(wrap(frags.drop_first(), (old(self).line_len + f.len()) as nat) =~= Seq::<char>::empty());
            assert(f + Seq::<char>::empty() =~= f);
            assert(self.out@ =~= mid + f);
            if old(self).line_len + f.len() > MAX_LINE_LEN {
                assert(mid =~= start + seq!['\r', '\n']);
                assert(wrap(frags, old(self).line_len as nat) =~= seq!['\r', '\n'] + f);
            } else {
                assert(mid =~= start);
                assert(wrap(frags, old(self).line_len as nat) =~= f);
            }
        }
    }

    /// Appends the tokens of `pending` row ends (if any) and then of `runs`.
    fn push_row(&mut self, runs: &Vec<(usize, char)>, pending: usize)
        requires
            old(self).line_len <= MAX_LINE_LEN,
            forall|i: int| 0 <= i < runs@.len() ==> (#[trigger] runs@[i]).0 >= 1,
        ensures
            final(self).line_len <= MAX_LINE_LEN,
            final(self).out@ == old(self).out@ + wrap(pending_tokens(pending as nat) + runs_tokens(runs@), old(self).line_len as nat),
            final(self).line_len == wrap_end(pending_tokens(pending as nat) + runs_tokens(runs@), old(self).line_len as nat),
    {
        let ghost start = self.out@;
        let ghost ll0 = self.line_len as nat;
        let ghost all = pending_tokens(pending as nat) + runs_tokens(runs@);
        if pending > 0 {
            let ghost ll = self.line_len as nat;
            self.push_run(pending, '$');
            proof {
                lemma_wrap_one(token(pending as nat, '$'), ll);
            }
        }
        proof {
            assert(pending_tokens(pending as nat) + Seq::<Seq<char>>::empty() =~= pending_tokens(pending as nat));
            assert(runs_tokens(runs@.subrange(0, 0)) =~= Seq::<Seq<char>>::empty());
            if pending == 0 {
                assert(wrap(Seq::<Seq<char>>::empty(), ll0) =~= Seq::<char>::empty());
                assert(self.out@ =~= start + wrap(pending_tokens(pending as nat), ll0));
            }
        }
        let mut i: usize = 0;
        while i < runs.len()
            invariant
                i <= runs@.len(),
                self.line_len <= MAX_LINE_LEN,
                forall|j: int| 0 <= j < runs@.len() ==> (#[trigger] runs@[j]).0 >= 1,
                self.out@ == start + wrap(pending_tokens(pending as nat) + runs_tokens(runs@.subrange(0, i as int)), ll0),
                self.line_len == wrap_end(pending_tokens(pending as nat) + runs_tokens(runs@.subrange(0, i as int)), ll0),
            decreases runs@.len() - i,
        {
            let (n, ch) = runs[i];
            let ghost ll = self.line_len as nat;
            let ghost done = pending_tokens(pending as nat) + runs_tokens(runs@.subrange(0, i as int));
            self.push_run(n, ch);
            proof {
                lemma_wrap_one(token(n as nat, ch), ll);
                lemma_wrap_concat(done, seq![token(n as nat, ch)], ll0);
                assert(runs_tokens(runs@.subrange(0, i + 1)) =~= runs_tokens(runs@.subrange(0, i as int)).push(token(n as nat, ch)));
                assert(done + seq![token(n as nat, ch)] =~= pending_tokens(pending as nat) + runs_tokens(runs@.subrange(0, i + 1)));
            }
            i += 1;
        }
        proof {
            assert(runs@.subrange(0, runs@.len() as int) =~= runs@);
        }
    }
}

/// The token of `pending` row ends, if there are any.
pub open spec fn pending_tokens(pending: nat) -> Seq<Seq<char>> {
    if pending > 0 { seq![token(pending, '$')] } else { Seq::empty() }
}

/// Writing a single fragment.
pub proof fn lemma_wrap_one(f: Seq<char>, line_len: nat)
    ensures
        wrap(seq![f], line_len) == if line_len + f.len() > MAX_LINE_LEN { seq!['\r', '\n'] + f } else { f },
        wrap_end(seq![f], line_len) == next_line_len(line_len, f.len()),
{
    let frags = seq![f];
    assert(frags.drop_first() =~= Seq::<Seq<char>>::empty());
    assert(wrap(frags.drop_first(), f.len()) =~= Seq::<char>::empty());
    assert(wrap(frags.drop_first(), (line_len + f.len()) as nat) =~= Seq::<char>::empty());
    assert(f + Seq::<char>::empty() =~= f);
    assert(seq!['\r', '\n'] + f + Seq::<char>::empty() =~= seq!['\r', '\n'] + f);
    assert(wrap_end(frags.drop_first(), next_line_len(line_len, f.len())) == next_line_len(line_len, f.len()));
}

/// The runs of a bit grid: the maximal run of equal cells from each cell, as 'o' (set) or 'b'.
pub open spec fn bit_runs(g: BitGrid) -> spec_fn(int, int) -> (int, char) {
    |c: int, r: int| (g.run_len(c, r), if g.cell(c, r) { 'o' } else { 'b' })
}

/// Writes the runs of the rows from `row` on, then `!`, and returns the text.
fn finish_rows(
    w: &mut PatternWriter,
    Ghost(run_at): Ghost<spec_fn(int, int) -> (int, char)>,
    Ghost(width): Ghost<int>,
    Ghost(height): Ghost<int>,
    Ghost(trim): Ghost<bool>,
    row: usize,
    pending: usize,
    runs: &Vec<(usize, char)>,
)
    requires
        old(w).line_len <= MAX_LINE_LEN,
        row < height,
        forall|i: int| 0 <= i < runs@.len() ==> (#[trigger] runs@[i]).0 >= 1,
        runs_tokens(runs@) == row_tokens(run_at, width, row as int, 0, trim),
        pending <= row,
    ensures
        final(w).line_len <= MAX_LINE_LEN,
        final(w).out@ + wrap(rows_tokens(run_at, width, height, row + 1, if runs@.len() == 0 { (pending + 1) as nat } else { 1 }, trim).push(seq!['!']),
            final(w).line_len as nat)
            == old(w).out@ + wrap(rows_tokens(run_at, width, height, row as int, pending as nat, trim).push(seq!['!']), old(w).line_len as nat),
{
    let ghost rest = rows_tokens(run_at, width, height, row + 1, 1, trim).push(seq!['!']);
    if runs.len() > 0 {
        let ghost ll = w.line_len as nat;
        let ghost out0 = w.out@;
        w.push_row(runs, pending);
        proof {
            let head = pending_tokens(pending as nat) + runs_tokens(runs@);
            assert(runs_tokens(runs@).len() > 0);
            assert(rows_tokens(run_at, width, height, row as int, pending as nat, trim) =~= head + rows_tokens(run_at, width, height, row + 1, 1, trim));
            assert(rows_tokens(run_at, width, height, row as int, pending as nat, trim).push(seq!['!']) =~= head + rest);
            lemma_wrap_concat(head, rest, ll);
            assert(w.out@ + wrap(rest, w.line_len as nat) =~= out0 + wrap(head + rest, ll));
        }
    } else {
        proof {
            assert(runs_tokens(runs@).len() == 0);
        }
    }
}

impl BitGrid {
    /// The RLE pattern of this grid: each row's runs as tokens (`3o`, `b`), without a final
    /// run of clear cells, rows ended by `$` (counted for skipped rows), then `!`. A bit grid
    /// looks the same to every player, so `_visibility` plays no part.
    pub fn to_pattern(&self, _visibility: Option<usize>) -> (p: Pattern)
        requires
            self.well_shaped(),
        ensures
            p.0@ == pattern_text(bit_runs(*self), (self.words_per_row() * 64) as int, self.rows() as int, true),
    {
        let ghost run_at = bit_runs(*self);
        let ghost width = (self.words_per_row() * 64) as int;
        let ghost height = self.rows() as int;
        let w_cells = self.width();
        let h = self.height();
        let mut w = PatternWriter::new();
        let mut pending: usize = 0;
        let mut row: usize = 0;
        proof {
            assert(w.out@ + wrap(rows_tokens(run_at, width, height, 0, 0, true).push(seq!['!']), 0)
                =~= pattern_text(run_at, width, height, true));
        }
        while row < h
            invariant
                self.well_shaped(),
                run_at == bit_runs(*self),
                width == self.words_per_row() * 64,
                height == self.rows(),
                h == height,
                w_cells == width,
                row <= h,
                pending <= row,
                w.line_len <= MAX_LINE_LEN,
                w.out@ + wrap(rows_tokens(run_at, width, height, row as int, pending as nat, true).push(seq!['!']), w.line_len as nat)
                    == pattern_text(run_at, width, height, true),
            decreases h - row,
        {
            let runs = self.row_runs(row);
            finish_rows(&mut w, Ghost(run_at), Ghost(width), Ghost(height), Ghost(true), row, pending, &runs);
            if runs.len() == 0 {
                pending = pending + 1;
            } else {
                pending = 1;
            }
            row += 1;
        }
        let ghost out0 = w.out@;
        let ghost ll = w.line_len as nat;
        w.push_run(1, '!');
        proof {
            assert(rows_tokens(run_at, width, height, row as int, pending as nat, true).push(seq!['!']) =~= seq![seq!['!']]);
            assert(token(1, '!') =~= seq!['!']);
        }
        Pattern(w.out)
    }

    /// The runs of row `row`, left to right, without a final run of clear cells.
    fn row_runs(&self, row: usize) -> (runs: Vec<(usize, char)>)
        requires
            self.well_shaped(),
            row < self.rows(),
        ensures
            forall|i: int| 0 <= i < runs@.len() ==> (#[trigger] runs@[i]).0 >= 1,
            runs_tokens(runs@) == row_tokens(bit_runs(*self), (self.words_per_row() * 64) as int, row as int, 0, true),
    {
        let ghost run_at = bit_runs(*self);
        let ghost width = (self.words_per_row() * 64) as int;
        let w = self.width();
        let mut runs: Vec<(usize, char)> = Vec::new();
        let mut col: usize = 0;
        while col < w
            invariant
                self.well_shaped(),
                row < self.rows(),
                run_at == bit_runs(*self),
                width == self.words_per_row() * 64,
                w == width,
                col <= w,
                forall|i: int| 0 <= i < runs@.len() ==> (#[trigger] runs@[i]).0 >= 1,
                runs_tokens(runs@) + row_tokens(run_at, width, row as int, col as int, true) == row_tokens(run_at, width, row as int, 0, true),
            ensures
                forall|i: int| 0 <= i < runs@.len() ==> (#[trigger] runs@[i]).0 >= 1,
                runs_tokens(runs@) == row_tokens(run_at, width, row as int, 0, true),
            decreases w - col,
        {
            let (n, ch) = self.get_run(col, row);
            if ch == 'b' && col + n == w {
                proof {
                    assert(run_at(col as int, row as int) == (n as int, ch));
                    assert(row_tokens(run_at, width, row as int, col as int, true) =~= Seq::<Seq<char>>::empty());
                    assert(runs_tokens(runs@) + Seq::<Seq<char>>::empty() =~= runs_tokens(runs@));
                }
                break;
            }
            proof {
                assert(run_at(col as int, row as int) == (n as int, ch));
                assert(runs_tokens(runs@.push((n, ch))) =~= runs_tokens(runs@).push(token(n as nat, ch)));
                assert(row_tokens(run_at, width, row as int, col as int, true) =~= seq![token(n as nat, ch)]
                    + row_tokens(run_at, width, row as int, (col + n) as int, true));
                assert(runs_tokens(runs@).push(token(n as nat, ch)) + row_tokens(run_at, width, row as int, (col + n) as int, true)
                    =~= runs_tokens(runs@) + row_tokens(run_at, width, row as int, col as int, true));
            }
            runs.push((n, ch));
            col += n;
        }
        runs
    }
}

/// The runs of a pair of generation states as observed with `visibility` (see
/// `GenStatePair::get_run`).
pub open spec fn pair_runs<'a, 'b>(pair: GenStatePair<'a, 'b>, visibility: Option<usize>) -> spec_fn(int, int) -> (int, char) {
    |c: int, r: int| (pair.pair_run(visibility, c, r), pair.pair_char(visibility, c, r))
}

impl<'a, 'b> GenStatePair<'a, 'b> {
    /// Every cell of both states can be shown as a character.
    pub open spec fn chars_ok(&self, visibility: Option<usize>) -> bool {
        forall|r: int| 0 <= r < self.gen_state0.rows() ==> #[trigger] self.row_chars_ok(visibility, 0, r)
    }

    /// The RLE pattern of the pair: the no-op character where both states show the same
    /// character, the second state's character elsewhere (see `pair_char` and `pair_run`).
    pub fn to_pattern(&self, visibility: Option<usize>) -> (p: Pattern)
        requires
            self.valid(),
            visibility matches Some(q) ==> q < self.gen_state0.players(),
            self.chars_ok(visibility),
        ensures
            p.0@ == pattern_text(pair_runs(*self, visibility), self.width_spec(), self.gen_state0.rows() as int, false),
    {
        let ghost run_at = pair_runs(*self, visibility);
        let ghost width = self.width_spec();
        let ghost height = self.gen_state0.rows() as int;
        let h = self.height();
        let mut w = PatternWriter::new();
        let mut pending: usize = 0;
        let mut row: usize = 0;
        proof {
            assert(w.out@ + wrap(rows_tokens(run_at, width, height, 0, 0, false).push(seq!['!']), 0)
                =~= pattern_text(run_at, width, height, false));
        }
        while row < h
            invariant
                self.valid(),
                visibility matches Some(q) ==> q < self.gen_state0.players(),
                self.chars_ok(visibility),
                run_at == pair_runs(*self, visibility),
                width == self.width_spec(),
                height == self.gen_state0.rows(),
                h == height,
                row <= h,
                pending <= row,
                w.line_len <= MAX_LINE_LEN,
                w.out@ + wrap(rows_tokens(run_at, width, height, row as int, pending as nat, false).push(seq!['!']), w.line_len as nat)
                    == pattern_text(run_at, width, height, false),
            decreases h - row,
        {
            assert(self.row_chars_ok(visibility, 0, row as int));
            let runs = self.row_runs(row, visibility);
            finish_rows(&mut w, Ghost(run_at), Ghost(width), Ghost(height), Ghost(false), row, pending, &runs);
            if runs.len() == 0 {
                pending = pending + 1;
            } else {
                pending = 1;
            }
            row += 1;
        }
        w.push_run(1, '!');
        proof {
            assert(rows_tokens(run_at, width, height, row as int, pending as nat, false).push(seq!['!']) =~= seq![seq!['!']]);
            assert(token(1, '!') =~= seq!['!']);
        }
        Pattern(w.out)
    }

    /// The runs of row `row`, left to right.
    fn row_runs(&self, row: usize, visibility: Option<usize>) -> (runs: Vec<(usize, char)>)
        requires
            self.valid(),
            row < self.gen_state0.rows(),
            visibility matches Some(q) ==> q < self.gen_state0.players(),
            self.row_chars_ok(visibility, 0, row as int),
        ensures
            forall|i: int| 0 <= i < runs@.len() ==> (#[trigger] runs@[i]).0 >= 1,
            runs_tokens(runs@) == row_tokens(pair_runs(*self, visibility), self.width_spec(), row as int, 0, false),
    {
        let ghost run_at = pair_runs(*self, visibility);
        let ghost width = self.width_spec();
        let w = self.width();
        let mut runs: Vec<(usize, char)> = Vec::new();
        let mut col: usize = 0;
        while col < w
            invariant
                self.valid(),
                row < self.gen_state0.rows(),
                visibility matches Some(q) ==> q < self.gen_state0.players(),
                self.row_chars_ok(visibility, 0, row as int),
                run_at == pair_runs(*self, visibility),
                width == self.width_spec(),
                w == width,
                col <= w,
                forall|i: int| 0 <= i < runs@.len() ==> (#[trigger] runs@[i]).0 >= 1,
                runs_tokens(runs@) + row_tokens(run_at, width, row as int, col as int, false) == row_tokens(run_at, width, row as int, 0, false),
            ensures
                forall|i: int| 0 <= i < runs@.len() ==> (#[trigger] runs@[i]).0 >= 1,
                runs_tokens(runs@) == row_tokens(run_at, width, row as int, 0, false),
            decreases w - col,
        {
            let (n, ch) = self.get_run(col, row, visibility);
            proof {
                assert(run_at(col as int, row as int) == (n as int, ch));
                assert(runs_tokens(runs@.push((n, ch))) =~= runs_tokens(runs@).push(token(n as nat, ch)));
                assert(row_tokens(run_at, width, row as int, col as int, false) =~= seq![token(n as nat, ch)]
                    + row_tokens(run_at, width, row as int, (col + n) as int, false));
                assert(runs_tokens(runs@).push(token(n as nat, ch)) + row_tokens(run_at, width, row as int, (col + n) as int, false)
                    =~= runs_tokens(runs@) + row_tokens(run_at, width, row as int, col as int, false));
            }
            runs.push((n, ch));
            col += n;
        }
        runs
    }
}

/// What reading a pattern has found so far.
pub ghost struct Decoder {
    /// The column of the next run.
    pub col: int,
    /// The row of the next run.
    pub row: int,
    /// The count read so far for the next token (0 when none).
    pub count: int,
    /// `!` has been read: the rest of the text is ignored.
    pub stopped: bool,
    /// 0, or why the pattern was refused: 1 for a character that is not part of a pattern, 2 for
    /// a run outside the grid, 3 for a count too large.
    pub error: int,
    /// The runs to write, in order: column, row, length and character. No-op runs are left out.
    pub runs: Seq<(int, int, int, char)>,
}

/// Whether `ch` stands for cells: 'o' and 'b' for a bit grid; for generation states also the
/// player letters, 'W', '?' and the no-op character.
pub open spec fn is_cell_char(ch: char, states: bool) -> bool {
    if states {
        ch == 'o' || ch == 'b' || ('A' <= ch <= 'W') || ch == '?' || ch == NO_OP_CHAR
    } else {
        ch == 'o' || ch == 'b'
    }
}

/// The count that applies to a token: the one read, or 1 when none was.
pub open spec fn effective_count(count: int) -> int {
    if count == 0 { 1 } else { count }
}

/// Reading one more character `ch` of a pattern for a grid of `width` by `height` cells.
pub open spec fn decode_step(d: Decoder, ch: char, width: int, height: int, states: bool) -> Decoder {
    if d.stopped || d.error != 0 {
        d
    } else if '0' <= ch <= '9' {
        let n = d.count * 10 + (ch as int - 48);
        if n > usize::MAX { Decoder { error: 3, ..d } } else { Decoder { count: n, ..d } }
    } else if ch == '!' {
        Decoder { stopped: true, ..d }
    } else if ch == '$' {
        Decoder { row: d.row + effective_count(d.count), col: 0, count: 0, ..d }
    } else if ch == '\r' || ch == '\n' {
        d
    } else if is_cell_char(ch, states) {
        let k = effective_count(d.count);
        if d.row >= height || d.col + k > width {
            Decoder { error: 2, ..d }
        } else {
            Decoder {
                col: d.col + k,
                count: 0,
                runs: if ch == NO_OP_CHAR { d.runs } else { d.runs.push((d.col, d.row, k, ch)) },
                ..d
            }
        }
    } else {
        Decoder { error: 1, ..d }
    }
}

/// The state after reading the first `k` characters of `text`.
pub open spec fn decode_prefix(text: Seq<char>, k: nat, width: int, height: int, states: bool) -> Decoder
    decreases k,
{
    if k == 0 {
        Decoder { col: 0, row: 0, count: 0, stopped: false, error: 0, runs: Seq::empty() }
    } else {
        decode_step(decode_prefix(text, (k - 1) as nat, width, height, states), text[k - 1], width, height, states)
    }
}

/// The state after reading all of `text`.
pub open spec fn decode(text: Seq<char>, width: int, height: int, states: bool) -> Decoder {
    decode_prefix(text, text.len(), width, height, states)
}

/// Once reading has failed, the rest of the text changes nothing.
pub proof fn lemma_decode_error_sticks(text: Seq<char>, k: nat, n: nat, width: int, height: int, states: bool)
    requires
        k <= n,
        decode_prefix(text, k, width, height, states).error != 0,
    ensures
        decode_prefix(text, n, width, height, states) == decode_prefix(text, k, width, height, states),
    decreases n,
{
    if n > k {
        lemma_decode_error_sticks(text, k, (n - 1) as nat, width, height, states);
    }
}

/// The character that the runs write on cell `(c, r)`, if any (the last such run).
pub open spec fn run_char_at(runs: Seq<(int, int, int, char)>, c: int, r: int) -> Option<char>
    decreases runs.len(),
{
    if runs.len() == 0 {
        None
    } else {
        let last = runs.last();
        if last.1 == r && last.0 <= c < last.0 + last.2 {
            Some(last.3)
        } else {
            run_char_at(runs.drop_last(), c, r)
        }
    }
}

/// Run `a` ends before run `b` starts, in reading order.
pub open spec fn run_before(a: (int, int, int, char), b: (int, int, int, char)) -> bool {
    a.1 < b.1 || (a.1 == b.1 && a.0 + a.2 <= b.0)
}

/// Run `a` covers cell `(c, r)`.
pub open spec fn covers(a: (int, int, int, char), c: int, r: int) -> bool {
    a.1 == r && a.0 <= c < a.0 + a.2
}

/// The runs lie within a grid of `width` by `height` cells, are not empty, and come in reading
/// order without overlapping.
pub open spec fn runs_ordered(runs: Seq<(int, int, int, char)>, width: int, height: int) -> bool {
    &&& forall|i: int| 0 <= i < runs.len() ==> {
        &&& 0 <= (#[trigger] runs[i]).0
        &&& 1 <= runs[i].2
        &&& runs[i].0 + runs[i].2 <= width
        &&& 0 <= runs[i].1 < height
    }
    &&& forall|i: int, j: int| 0 <= i < j < runs.len() ==> run_before(#[trigger] runs[i], #[trigger] runs[j])
}

/// The runs read so far lie within the grid, in reading order, before the current position.
pub proof fn lemma_decode_ordered(text: Seq<char>, k: nat, width: int, height: int, states: bool)
    requires
        k <= text.len(),
    ensures
        ({
            let d = decode_prefix(text, k, width, height, states);
            &&& runs_ordered(d.runs, width, height)
            &&& 0 <= d.col
            &&& 0 <= d.row
            &&& 0 <= d.count
            &&& forall|i: int| 0 <= i < d.runs.len() ==> run_before(#[trigger] d.runs[i], (d.col, d.row, 0, ' '))
            &&& forall|i: int| 0 <= i < d.runs.len() ==> is_cell_char((#[trigger] d.runs[i]).3, states)
                && d.runs[i].3 != NO_OP_CHAR
        }),
    decreases k,
{
    if k > 0 {
        lemma_decode_ordered(text, (k - 1) as nat, width, height, states);
        let d0 = decode_prefix(text, (k - 1) as nat, width, height, states);
        let d = decode_prefix(text, k, width, height, states);
        if d.runs.len() > d0.runs.len() {
            assert(d.runs == d0.runs.push((d0.col, d0.row, effective_count(d0.count), text[k - 1])));
            assert forall|i: int, j: int| 0 <= i < j < d.runs.len() implies run_before(#[trigger] d.runs[i], #[trigger] d.runs[j]) by {
                if j == d0.runs.len() {
                    assert(run_before(d0.runs[i], (d0.col, d0.row, 0, ' ')));
                } else {
                    assert(d.runs[i] == d0.runs[i]);
                    assert(d.runs[j] == d0.runs[j]);
                }
            }
            assert forall|i: int| 0 <= i < d.runs.len() implies run_before(#[trigger] d.runs[i], (d.col, d.row, 0, ' ')) by {
                if i < d0.runs.len() {
                    assert(d.runs[i] == d0.runs[i]);
                    assert(run_before(d0.runs[i], (d0.col, d0.row, 0, ' ')));
                }
            }
            assert forall|i: int| 0 <= i < d.runs.len() implies is_cell_char((#[trigger] d.runs[i]).3, states)
                && d.runs[i].3 != NO_OP_CHAR by {
                if i < d0.runs.len() {
                    assert(d.runs[i] == d0.runs[i]);
                }
            }
        } else {
            assert(d.runs == d0.runs);
            assert forall|i: int| 0 <= i < d.runs.len() implies run_before(#[trigger] d.runs[i], (d.col, d.row, 0, ' ')) by {
                assert(run_before(d0.runs[i], (d0.col, d0.row, 0, ' ')));
            }
        }
    }
}

/// A cell that no run covers gets no character; a cell covered by the last run gets its
/// character.
pub proof fn lemma_run_char_at(runs: Seq<(int, int, int, char)>, c: int, r: int)
    ensures
        (forall|j: int| 0 <= j < runs.len() ==> !covers(#[trigger] runs[j], c, r)) ==> run_char_at(runs, c, r) is None,
        (exists|j: int| 0 <= j < runs.len() && covers(#[trigger] runs[j], c, r)) ==> run_char_at(runs, c, r) is Some,
    decreases runs.len(),
{
    if runs.len() > 0 {
        lemma_run_char_at(runs.drop_last(), c, r);
        if exists|j: int| 0 <= j < runs.len() && covers(#[trigger] runs[j], c, r) {
            let j = choose|j: int| 0 <= j < runs.len() && covers(#[trigger] runs[j], c, r);
            if j < runs.len() - 1 {
                assert(runs.drop_last()[j] == runs[j]);
            }
        }
        assert forall|j: int| 0 <= j < runs.drop_last().len() implies #[trigger] runs.drop_last()[j] == runs[j] by {}
    }
}

/// The message of each reason for refusing a pattern.
pub open spec fn decode_error_message(error: int) -> Seq<char> {
    if error == 1 {
        "invalid character in pattern"@
    } else if error == 2 {
        "pattern does not fit in the grid"@
    } else {
        "count too large in pattern"@
    }
}

/// The runs that reading `text` produces, or the message of the reason it was refused.
fn decode_runs(text: &String, width: usize, height: usize, states: bool) -> (res: Result<Vec<(usize, usize, usize, char)>, String>)
    ensures
        ({
            let d = decode(text@, width as int, height as int, states);
            match res {
                Ok(runs) => d.error == 0 && runs@.len() == d.runs.len() && forall|i: int| 0 <= i < runs@.len() ==>
                    (#[trigger] runs@[i]).0 == d.runs[i].0 && runs@[i].1 == d.runs[i].1 && runs@[i].2 == d.runs[i].2
                    && runs@[i].3 == d.runs[i].3,
                Err(e) => d.error != 0 && e@ == decode_error_message(d.error),
            }
        }),
{
    let mut col: usize = 0;
    let mut row: usize = 0;
    let mut count: usize = 0;
    let mut stopped = false;
    let mut runs: Vec<(usize, usize, usize, char)> = Vec::new();
    let ghost w = width as int;
    let ghost h = height as int;
    for ch in it: text.as_str().chars()
        invariant
            it.seq() == text@,
            w == width,
            h == height,
            ({
                let d = decode_prefix(text@, it.index() as nat, w, h, states);
                &&& d.error == 0
                &&& d.col == col
                &&& (row == d.row || (row == height && d.row >= height))
                &&& d.count == count
                &&& d.stopped == stopped
                &&& runs@.len() == d.runs.len()
                &&& forall|i: int| 0 <= i < runs@.len() ==> (#[trigger] runs@[i]).0 == d.runs[i].0
                    && runs@[i].1 == d.runs[i].1 && runs@[i].2 == d.runs[i].2 && runs@[i].3 == d.runs[i].3
            }),
            col <= width,
            row <= height,
    {
        assert(ch == text@[it.index() as int]);
        if stopped {
        } else if '0' <= ch && ch <= '9' {
            let dv: usize = (ch as u32 - 48) as usize;
            if count > (usize::MAX - dv) / 10 {
                proof {
                    lemma_decode_error_sticks(text@, (it.index() + 1) as nat, text@.len(), w, h, states);
                }
                return Err("count too large in pattern".to_owned());
            }
            count = count * 10 + dv;
        } else if ch == '!' {
            stopped = true;
        } else if ch == '$' {
            let k = if count == 0 { 1 } else { count };
            row = if k >= height - row { height } else { row + k };
            col = 0;
            count = 0;
        } else if ch == '\r' || ch == '\n' {
        } else if (states && (ch == 'o' || ch == 'b' || ('A' <= ch && ch <= 'W') || ch == '?' || ch == NO_OP_CHAR))
            || (!states && (ch == 'o' || ch == 'b')) {
            let k = if count == 0 { 1 } else { count };
            if row >= height || k > width - col {
                proof {
                    lemma_decode_error_sticks(text@, (it.index() + 1) as nat, text@.len(), w, h, states);
                }
                return Err("pattern does not fit in the grid".to_owned());
            }
            if ch != NO_OP_CHAR {
                runs.push((col, row, k, ch));
            }
            col = col + k;
            count = 0;
        } else {
            proof {
                    lemma_decode_error_sticks(text@, (it.index() + 1) as nat, text@.len(), w, h, states);
                }
                return Err("invalid character in pattern".to_owned());
        }
    }
    Ok(runs)
}

/// The characters written so far while applying `runs`: those of the first `i` runs, and of
/// the first `j` cells of run `i`.
pub open spec fn chars_so_far(runs: Seq<(int, int, int, char)>, i: int, j: int) -> spec_fn(int, int) -> Option<char> {
    |c: int, r: int| if i < runs.len() && r == runs[i].1 && runs[i].0 <= c < runs[i].0 + j {
        Some(runs[i].3)
    } else {
        run_char_at(runs.take(i), c, r)
    }
}

/// Every run of a pattern can be written into a generation state with `players` players, as
/// observed with `visibility`.
pub open spec fn runs_writable(runs: Seq<(int, int, int, char)>, players: nat, visibility: Option<usize>) -> bool {
    forall|i: int| 0 <= i < runs.len() ==> GenState::writable_char(#[trigger] runs[i].3, players)
        && (runs[i].3 == '?' ==> visibility is Some)
}

/// The cells of run `i` are not covered by the runs before it.
proof fn lemma_run_fresh(runs: Seq<(int, int, int, char)>, width: int, height: int, i: int, c: int)
    requires
        runs_ordered(runs, width, height),
        0 <= i < runs.len(),
        runs[i].0 <= c,
    ensures
        run_char_at(runs.take(i), c, runs[i].1) is None,
{
    let pre = runs.take(i);
    assert forall|j: int| 0 <= j < pre.len() implies !covers(#[trigger] pre[j], c, runs[i].1) by {
        assert(pre[j] == runs[j]);
        assert(run_before(runs[j], runs[i]));
    }
    lemma_run_char_at(pre, c, runs[i].1);
}

impl Pattern {
    /// Writes this pattern into `gs` as observed with `visibility` (see
    /// `GenState::write_at_position`): each run writes its character on its cells; no-op runs,
    /// and cells after a row's last run, are left as they were. A pattern that is refused (a
    /// character that is not part of a pattern, a run outside the grid, a count too large)
    /// leaves `gs` unchanged and gives the reason.
    pub fn to_grid(&self, gs: &mut GenState, visibility: Option<usize>) -> (res: Result<(), String>)
        requires
            old(gs).valid(),
            visibility matches Some(p) ==> p < old(gs).players(),
            ({
                let d = decode(self.0@, (old(gs).words() * 64) as int, old(gs).rows() as int, true);
                d.error == 0 ==> runs_writable(d.runs, old(gs).players(), visibility)
            }),
        ensures
            ({
                let d = decode(self.0@, (old(gs).words() * 64) as int, old(gs).rows() as int, true);
                match res {
                    Ok(_) => d.error == 0 && final(gs).gen_or_none == old(gs).gen_or_none
                        && old(gs).written(final(gs), |c: int, r: int| run_char_at(d.runs, c, r), visibility),
                    Err(e) => d.error != 0 && e@ == decode_error_message(d.error) && *final(gs) == *old(gs),
                }
            }),
    {
        let ghost old_s = *gs;
        let ghost width = (gs.words() * 64) as int;
        let ghost height = gs.rows() as int;
        let ghost d = decode(self.0@, width, height, true);
        let w = gs.width();
        let h = gs.height();
        let runs = match decode_runs(&self.0, w, h, true) {
            Ok(runs) => runs,
            Err(e) => {
                return Err(e);
            },
        };
        proof {
            lemma_decode_ordered(self.0@, self.0@.len(), width, height, true);
            old_s.lemma_written_none(visibility);
            assert(d.runs.take(0) =~= Seq::<(int, int, int, char)>::empty());
            assert(chars_so_far(d.runs, 0, 0) =~= |c: int, r: int| None::<char>);
        }
        let mut i: usize = 0;
        while i < runs.len()
            invariant
                old_s.valid(),
                visibility matches Some(p) ==> p < old_s.players(),
                d == decode(self.0@, width, height, true),
                d.error == 0,
                width == old_s.words() * 64,
                height == old_s.rows(),
                runs_ordered(d.runs, width, height),
                runs_writable(d.runs, old_s.players(), visibility),
                runs@.len() == d.runs.len(),
                forall|k: int| 0 <= k < runs@.len() ==> (#[trigger] runs@[k]).0 == d.runs[k].0
                    && runs@[k].1 == d.runs[k].1 && runs@[k].2 == d.runs[k].2 && runs@[k].3 == d.runs[k].3,
                i <= runs@.len(),
                gs.gen_or_none == old_s.gen_or_none,
                old_s.written(gs, chars_so_far(d.runs, i as int, 0), visibility),
            decreases runs@.len() - i,
        {
            let (col, row, k, ch) = runs[i];
            let ghost ri = d.runs[i as int];
            let mut j: usize = 0;
            while j < k
                invariant
                    old_s.valid(),
                    visibility matches Some(p) ==> p < old_s.players(),
                    width == old_s.words() * 64,
                    height == old_s.rows(),
                    runs_ordered(d.runs, width, height),
                    runs_writable(d.runs, old_s.players(), visibility),
                    i < d.runs.len(),
                    ri == d.runs[i as int],
                    col == ri.0,
                    row == ri.1,
                    k == ri.2,
                    ch == ri.3,
                    j <= k,
                    gs.gen_or_none == old_s.gen_or_none,
                    old_s.written(gs, chars_so_far(d.runs, i as int, j as int), visibility),
                decreases k - j,
            {
                let ghost prev = *gs;
                let ghost f = chars_so_far(d.runs, i as int, j as int);
                proof {
                    lemma_run_fresh(d.runs, width, height, i as int, (col + j) as int);
                    assert(f((col + j) as int, row as int) is None);
                }
                gs.write_at_position(col + j, row, ch, visibility);
                proof {
                    GenState::lemma_written_step(&old_s, &prev, gs, f, (col + j) as int, row as int, ch, visibility);
                    let g = |x: int, y: int| if x == (col + j) as int && y == row as int { Some(ch) } else { f(x, y) };
                    assert(g =~= chars_so_far(d.runs, i as int, (j + 1) as int));
                }
                j += 1;
            }
            proof {
                let pre = d.runs.take(i as int);
                let pre1 = d.runs.take(i as int + 1);
                assert(pre1.drop_last() =~= pre);
                assert(pre1.last() == ri);
                assert(chars_so_far(d.runs, i as int, k as int) =~= chars_so_far(d.runs, i as int + 1, 0));
            }
            i += 1;
        }
        proof {
            assert(d.runs.take(d.runs.len() as int) =~= d.runs);
            assert(chars_so_far(d.runs, d.runs.len() as int, 0) =~= |c: int, r: int| run_char_at(d.runs, c, r));
        }
        Ok(())
    }
}

impl Pattern {
    /// A new grid of `height` rows, `width` cells wide rounded up to whole words, with this
    /// pattern written into it: cells of 'o' runs are set, all others clear. A pattern that is
    /// refused gives the reason (see `to_grid`).
    pub fn to_new_bit_grid(&self, width: usize, height: usize) -> (res: Result<BitGrid, String>)
        requires
            width <= isize::MAX - 63,
            height <= isize::MAX,
        ensures
            ({
                let words = ((width + 63) / 64) as nat;
                let d = decode(self.0@, (words * 64) as int, height as int, false);
                match res {
                    Ok(g) => d.error == 0 && g.shaped(words, height as nat)
                        && forall|c: int, r: int| 0 <= r < height && 0 <= c < words * 64 ==>
                            #[trigger] g.cell(c, r) == (run_char_at(d.runs, c, r) == Some('o')),
                    Err(e) => d.error != 0 && e@ == decode_error_message(d.error),
                }
            }),
    {
        let words = (width + 63) / 64;
        let ghost gw = (words * 64) as int;
        let ghost gh = height as int;
        let ghost d = decode(self.0@, gw, gh, false);
        let mut g = BitGrid::new(words, height);
        let runs = match decode_runs(&self.0, words * 64, height, false) {
            Ok(runs) => runs,
            Err(e) => {
                return Err(e);
            },
        };
        proof {
            lemma_decode_ordered(self.0@, self.0@.len(), gw, gh, false);
            assert(d.runs.take(0) =~= Seq::<(int, int, int, char)>::empty());
            assert forall|c: int, r: int| 0 <= r < height && 0 <= c < words * 64 implies
                #[trigger] g.cell(c, r) == (chars_so_far(d.runs, 0, 0)(c, r) == Some('o')) by {
                crate::universe::lemma_col_word(c, words as nat);
                crate::bit_grid::lemma_zero_word(c % 64);
            }
        }
        let mut i: usize = 0;
        while i < runs.len()
            invariant
                d == decode(self.0@, gw, gh, false),
                d.error == 0,
                forall|k: int| 0 <= k < d.runs.len() ==> is_cell_char((#[trigger] d.runs[k]).3, false),
                gw == words * 64,
                gh == height,
                words * 64 <= isize::MAX,
                runs_ordered(d.runs, gw, gh),
                runs@.len() == d.runs.len(),
                forall|k: int| 0 <= k < runs@.len() ==> (#[trigger] runs@[k]).0 == d.runs[k].0
                    && runs@[k].1 == d.runs[k].1 && runs@[k].2 == d.runs[k].2 && runs@[k].3 == d.runs[k].3,
                i <= runs@.len(),
                g.shaped(words as nat, height as nat),
                forall|c: int, r: int| 0 <= r < height && 0 <= c < words * 64 ==>
                    #[trigger] g.cell(c, r) == (chars_so_far(d.runs, i as int, 0)(c, r) == Some('o')),
            decreases runs@.len() - i,
        {
            let (col, row, k, ch) = runs[i];
            let ghost ri = d.runs[i as int];
            assert(is_cell_char(ri.3, false));
            let mut j: usize = 0;
            while j < k
                invariant
                    gw == words * 64,
                    gh == height,
                    words * 64 <= isize::MAX,
                    runs_ordered(d.runs, gw, gh),
                    i < d.runs.len(),
                    ri == d.runs[i as int],
                    col == ri.0,
                    row == ri.1,
                    k == ri.2,
                    ch == ri.3,
                    ch == 'o' || ch == 'b',
                    j <= k,
                    g.shaped(words as nat, height as nat),
                    forall|c: int, r: int| 0 <= r < height && 0 <= c < words * 64 ==>
                        #[trigger] g.cell(c, r) == (chars_so_far(d.runs, i as int, j as int)(c, r) == Some('o')),
                decreases k - j,
            {
                let x = col + j;
                proof {
                    crate::universe::lemma_col_word(x as int, words as nat);
                }
                let mask: u64 = 1u64 << ((63 - x % 64) as u64);
                let op = if ch == 'o' { BitOperation::SetBit } else { BitOperation::Clear };
                let ghost prev = g;
                g.modify_bits_in_word(row, x / 64, mask, op);
                proof {
                    crate::bit_grid::lemma_single_cell_update(&prev, &g, x as int, row as int, op, words as nat, height as nat);
                    assert forall|c: int, r: int| 0 <= r < height && 0 <= c < words * 64 implies
                        #[trigger] g.cell(c, r) == (chars_so_far(d.runs, i as int, j + 1)(c, r) == Some('o')) by {
                        assert(prev.cell(c, r) == (chars_so_far(d.runs, i as int, j as int)(c, r) == Some('o')));
                    }
                }
                j += 1;
            }
            proof {
                let pre = d.runs.take(i as int);
                let pre1 = d.runs.take(i as int + 1);
                assert(pre1.drop_last() =~= pre);
                assert(pre1.last() == ri);
                assert(chars_so_far(d.runs, i as int, k as int) =~= chars_so_far(d.runs, i as int + 1, 0));
            }
            i += 1;
        }
        proof {
            assert(d.runs.take(d.runs.len() as int) =~= d.runs);
            assert(chars_so_far(d.runs, d.runs.len() as int, 0) =~= |c: int, r: int| run_char_at(d.runs, c, r));
        }
        Ok(g)
    }
}

/// The state after reading `t`, starting from `d`.
pub open spec fn run_text(d: Decoder, t: Seq<char>, width: int, height: int, states: bool) -> Decoder
    decreases t.len(),
{
    if t.len() == 0 {
        d
    } else {
        decode_step(run_text(d, t.drop_last(), width, height, states), t.last(), width, height, states)
    }
}

/// The state of a reader that has read nothing.
pub open spec fn start_decoder() -> Decoder {
    Decoder { col: 0, row: 0, count: 0, stopped: false, error: 0, runs: Seq::empty() }
}

/// Reading a prefix of a text is reading the text's first characters from the start.
pub proof fn lemma_decode_prefix_run(text: Seq<char>, k: nat, width: int, height: int, states: bool)
    requires
        k <= text.len(),
    ensures
        decode_prefix(text, k, width, height, states) == run_text(start_decoder(), text.take(k as int), width, height, states),
    decreases k,
{
    if k > 0 {
        lemma_decode_prefix_run(text, (k - 1) as nat, width, height, states);
        assert(text.take(k as int).drop_last() =~= text.take(k - 1));
        assert(text.take(k as int).last() == text[k - 1]);
    }
}

/// Reading two texts one after the other is reading their concatenation.
pub proof fn lemma_run_text_concat(d: Decoder, a: Seq<char>, b: Seq<char>, width: int, height: int, states: bool)
    ensures
        run_text(d, a + b, width, height, states) == run_text(run_text(d, a, width, height, states), b, width, height, states),
    decreases b.len(),
{
    if b.len() == 0 {
        assert(a + b =~= a);
    } else {
        assert((a + b).drop_last() =~= a + b.drop_last());
        assert((a + b).last() == b.last());
        lemma_run_text_concat(d, a, b.drop_last(), width, height, states);
    }
}

/// The fragments `frags` written one after the other, without line breaks.
pub open spec fn flat(frags: Seq<Seq<char>>) -> Seq<char>
    decreases frags.len(),
{
    if frags.len() == 0 {
        Seq::empty()
    } else {
        frags[0] + flat(frags.drop_first())
    }
}

/// Line breaks change nothing in what is read.
pub proof fn lemma_run_wrap(d: Decoder, frags: Seq<Seq<char>>, line_len: nat, width: int, height: int, states: bool)
    ensures
        run_text(d, wrap(frags, line_len), width, height, states) == run_text(d, flat(frags), width, height, states),
    decreases frags.len(),
{
    if frags.len() > 0 {
        let f = frags[0];
        let next = next_line_len(line_len, f.len());
        let crlf = seq!['\r', '\n'];
        lemma_run_text_concat(d, f, flat(frags.drop_first()), width, height, states);
        let d1 = run_text(d, f, width, height, states);
        lemma_run_wrap(d1, frags.drop_first(), next, width, height, states);
        if line_len + f.len() > MAX_LINE_LEN {
            lemma_run_text_concat(d, crlf + f, wrap(frags.drop_first(), next), width, height, states);
            lemma_run_text_concat(d, crlf, f, width, height, states);
            assert(crlf.drop_last() =~= seq!['\r']);
            assert(seq!['\r'].drop_last() =~= Seq::<char>::empty());
            assert(run_text(d, seq!['\r'].drop_last(), width, height, states) == d);
            assert(decode_step(d, '\r', width, height, states) == d);
            assert(run_text(d, seq!['\r'], width, height, states) == d);
            assert(decode_step(d, '\n', width, height, states) == d);
            assert(run_text(d, crlf, width, height, states) == d);
        } else {
            lemma_run_text_concat(d, f, wrap(frags.drop_first(), next), width, height, states);
        }
    }
}

/// A reader that has neither stopped nor failed and holds no count.
pub open spec fn ready(d: Decoder) -> bool {
    d.count == 0 && !d.stopped && d.error == 0
}

/// Reading one character more.
proof fn lemma_run_push(d: Decoder, t: Seq<char>, ch: char, width: int, height: int, states: bool)
    ensures
        run_text(d, t.push(ch), width, height, states)
            == decode_step(run_text(d, t, width, height, states), ch, width, height, states),
{
    assert(t.push(ch).drop_last() =~= t);
    assert(t.push(ch).last() == ch);
}

/// Reading the digits of `n` gives the count `n`.
pub proof fn lemma_run_digits(d: Decoder, n: nat, width: int, height: int, states: bool)
    requires
        ready(d),
        1 <= n <= usize::MAX,
    ensures
        run_text(d, digits(n), width, height, states) == (Decoder { count: n as int, ..d }),
    decreases n,
{
    if n < 10 {
        lemma_run_push(d, Seq::<char>::empty(), digit_char(n as int), width, height, states);
        assert(seq![digit_char(n as int)] =~= Seq::<char>::empty().push(digit_char(n as int)));
    } else {
        lemma_run_digits(d, n / 10, width, height, states);
        lemma_run_push(d, digits(n / 10), digit_char((n % 10) as int), width, height, states);
    }
}

/// What reading the token of a run of `n` characters `ch` does to a ready reader.
pub open spec fn after_token(d: Decoder, n: int, ch: char, width: int, height: int) -> Decoder {
    if ch == '!' {
        Decoder { stopped: true, ..d }
    } else if ch == '$' {
        Decoder { row: d.row + n, col: 0, count: 0, ..d }
    } else if d.row >= height || d.col + n > width {
        Decoder { error: 2, count: if n == 1 { 0 } else { n }, ..d }
    } else {
        Decoder {
            col: d.col + n,
            count: 0,
            runs: if ch == NO_OP_CHAR { d.runs } else { d.runs.push((d.col, d.row, n, ch)) },
            ..d
        }
    }
}

/// Reading the token of a run.
pub proof fn lemma_run_token(d: Decoder, n: nat, ch: char, width: int, height: int, states: bool)
    requires
        ready(d),
        1 <= n <= usize::MAX,
        ch == '!' || ch == '$' || is_cell_char(ch, states),
        ch == '!' ==> n == 1,
    ensures
        run_text(d, token(n, ch), width, height, states) == after_token(d, n as int, ch, width, height),
{
    if n == 1 {
        lemma_run_push(d, Seq::<char>::empty(), ch, width, height, states);
        assert(seq![ch] =~= Seq::<char>::empty().push(ch));
    } else {
        lemma_run_digits(d, n, width, height, states);
        lemma_run_push(d, digits(n), ch, width, height, states);
    }
}

/// `run_at` describes the runs of a grid of `width` by `height` cells: every run is
/// non-empty, ends within its row and shows one cell character throughout.
pub open spec fn runs_fit(run_at: spec_fn(int, int) -> (int, char), width: int, height: int, states: bool) -> bool {
    &&& 0 <= width <= usize::MAX
    &&& 0 <= height <= usize::MAX
    &&& forall|c: int, r: int| 0 <= c < width && 0 <= r < height ==> {
        &&& 1 <= (#[trigger] run_at(c, r)).0
        &&& c + run_at(c, r).0 <= width
        &&& is_cell_char(run_at(c, r).1, states)
    }
    &&& forall|c: int, r: int, i: int| #![trigger run_at(c, r), run_at(i, r)]
        0 <= c < width && 0 <= r < height && c <= i < c + run_at(c, r).0 ==> run_at(i, r).1 == run_at(c, r).1
}

/// Where the tokens of row `r`, from column `col` on, stop: at the start of a final run of
/// dead cells ('b') when `trim` holds, or at the end of the row.
pub open spec fn tail_start(run_at: spec_fn(int, int) -> (int, char), width: int, r: int, col: int, trim: bool) -> int
    decreases width - col,
{
    if col >= width {
        width
    } else {
        let n = run_at(col, r).0;
        if n < 1 || col + n > width || (trim && run_at(col, r).1 == 'b' && col + n == width) {
            col
        } else {
            tail_start(run_at, width, r, col + n, trim)
        }
    }
}

/// The character that the pattern of a grid writes on cell `(c, r)`: the cell's own character,
/// except on no-op cells and, when `trim` holds, in the final run of dead cells of the row,
/// which are not written.
pub open spec fn pattern_char(run_at: spec_fn(int, int) -> (int, char), width: int, c: int, r: int, trim: bool) -> Option<char> {
    if c < tail_start(run_at, width, r, 0, trim) && run_at(c, r).1 != NO_OP_CHAR {
        Some(run_at(c, r).1)
    } else {
        None
    }
}

/// The text of consecutive fragments is the concatenation of their texts.
pub proof fn lemma_flat_concat(a: Seq<Seq<char>>, b: Seq<Seq<char>>)
    ensures
        flat(a + b) == flat(a) + flat(b),
    decreases a.len(),
{
    if a.len() == 0 {
        assert(a + b =~= b);
        assert(flat(a) + flat(b) =~= flat(b));
    } else {
        assert((a + b).drop_first() =~= a.drop_first() + b);
        assert((a + b)[0] == a[0]);
        lemma_flat_concat(a.drop_first(), b);
        assert(a[0] + flat(a.drop_first() + b) =~= a[0] + flat(a.drop_first()) + flat(b));
    }
}

/// The text of a single fragment is that fragment.
pub proof fn lemma_flat_one(f: Seq<char>)
    ensures
        flat(seq![f]) == f,
{
    assert(seq![f].drop_first() =~= Seq::<Seq<char>>::empty());
    assert(seq![f].drop_first().len() == 0);
    assert(flat(seq![f].drop_first()) =~= Seq::<char>::empty());
    assert(seq![f][0] == f);
    assert(f + Seq::<char>::empty() =~= f);
}

/// Reading the tokens of row `r` from column `col` on writes each cell's character up to the
/// row's tail, and stops there.
pub proof fn lemma_run_row(d: Decoder, run_at: spec_fn(int, int) -> (int, char), width: int, height: int, r: int,
    col: int, states: bool, trim: bool)
    requires
        ready(d),
        runs_fit(run_at, width, height, states),
        0 <= r < height,
        d.row == r,
        d.col == col,
        0 <= col <= width,
    ensures
        ({
            let d2 = run_text(d, flat(row_tokens(run_at, width, r, col, trim)), width, height, states);
            let t = tail_start(run_at, width, r, col, trim);
            &&& ready(d2)
            &&& d2.row == r
            &&& d2.col == t
            &&& col <= t <= width
            &&& forall|x: int| t <= x < width ==> #[trigger] run_at(x, r).1 == 'b'
            &&& forall|x: int, y: int| #[trigger] run_char_at(d2.runs, x, y)
                == if y == r && col <= x < t && run_at(x, r).1 != NO_OP_CHAR { Some(run_at(x, r).1) } else { run_char_at(d.runs, x, y) }
        }),
    decreases width - col,
{
    let toks = row_tokens(run_at, width, r, col, trim);
    if col >= width {
        assert(flat(toks) =~= Seq::<char>::empty());
    } else {
        let n = run_at(col, r).0;
        let ch = run_at(col, r).1;
        if trim && ch == 'b' && col + n == width {
            assert(flat(toks) =~= Seq::<char>::empty());
            assert forall|x: int| tail_start(run_at, width, r, col, trim) <= x < width implies #[trigger] run_at(x, r).1 == 'b' by {
                assert(run_at(x, r).1 == run_at(col, r).1);
            }
        } else {
            let rest = row_tokens(run_at, width, r, col + n, trim);
            assert(toks == seq![token(n as nat, ch)] + rest);
            lemma_flat_concat(seq![token(n as nat, ch)], rest);
            lemma_flat_one(token(n as nat, ch));
            lemma_run_text_concat(d, token(n as nat, ch), flat(rest), width, height, states);
            lemma_run_token(d, n as nat, ch, width, height, states);
            let d1 = after_token(d, n, ch, width, height);
            lemma_run_row(d1, run_at, width, height, r, col + n, states, trim);
            let d2 = run_text(d1, flat(rest), width, height, states);
            let t = tail_start(run_at, width, r, col, trim);
            assert forall|x: int, y: int| #[trigger] run_char_at(d2.runs, x, y)
                == if y == r && col <= x < t && run_at(x, r).1 != NO_OP_CHAR { Some(run_at(x, r).1) } else { run_char_at(d.runs, x, y) } by {
                if y == r && col <= x < col + n {
                    assert(run_at(x, r).1 == ch);
                    if ch != NO_OP_CHAR {
                        assert(d1.runs.last() == (col, r, n, ch));
                        assert(d1.runs.drop_last() =~= d.runs);
                    } else {
                        assert(d1.runs == d.runs);
                    }
                } else {
                    if ch != NO_OP_CHAR {
                        assert(d1.runs.last() == (col, r, n, ch));
                        assert(d1.runs.drop_last() =~= d.runs);
                    }
                }
            }
        }
    }
}

/// Reading the tokens of the rows from `row` on writes the character of every cell up to the
/// tail of its row.
pub proof fn lemma_run_rows(d: Decoder, run_at: spec_fn(int, int) -> (int, char), width: int, height: int, row: int,
    pending: int, states: bool, trim: bool)
    requires
        ready(d),
        runs_fit(run_at, width, height, states),
        0 <= pending <= row <= height,
        d.row == row - pending,
        pending == 0 ==> d.col == 0 && row == 0,
        0 <= d.col <= width,
        forall|x: int, y: int| 0 <= x < width && 0 <= y < height ==> #[trigger] run_char_at(d.runs, x, y)
            == if y < row { pattern_char(run_at, width, x, y, trim) } else { None },
    ensures
        ({
            let d2 = run_text(d, flat(rows_tokens(run_at, width, height, row, pending as nat, trim)), width, height, states);
            &&& ready(d2)
            &&& forall|x: int, y: int| 0 <= x < width && 0 <= y < height ==>
                #[trigger] run_char_at(d2.runs, x, y) == pattern_char(run_at, width, x, y, trim)
        }),
    decreases height - row,
{
    if row >= height {
        assert(flat(rows_tokens(run_at, width, height, row, pending as nat, trim)) =~= Seq::<char>::empty());
    } else {
        let rt = row_tokens(run_at, width, row, 0, trim);
        if rt.len() == 0 {
            assert(tail_start(run_at, width, row, 0, trim) == 0);
            lemma_run_rows(d, run_at, width, height, row + 1, pending + 1, states, trim);
        } else {
            let rest = rows_tokens(run_at, width, height, row + 1, 1, trim);
            let d1 = if pending > 0 { after_token(d, pending, '$', width, height) } else { d };
            if pending > 0 {
                let dollar = token(pending as nat, '$');
                assert(rows_tokens(run_at, width, height, row, pending as nat, trim) == seq![dollar] + rt + rest);
                lemma_flat_concat(seq![dollar] + rt, rest);
                lemma_flat_concat(seq![dollar], rt);
                lemma_flat_one(dollar);
                lemma_run_text_concat(d, dollar + flat(rt), flat(rest), width, height, states);
                lemma_run_text_concat(d, dollar, flat(rt), width, height, states);
                lemma_run_token(d, pending as nat, '$', width, height, states);
            } else {
                assert(rows_tokens(run_at, width, height, row, pending as nat, trim) == rt + rest);
                lemma_flat_concat(rt, rest);
                lemma_run_text_concat(d, flat(rt), flat(rest), width, height, states);
            }
            lemma_run_row(d1, run_at, width, height, row, 0, states, trim);
            let d3 = run_text(d1, flat(rt), width, height, states);
            assert forall|x: int, y: int| 0 <= x < width && 0 <= y < height implies #[trigger] run_char_at(d3.runs, x, y)
                == if y < row + 1 { pattern_char(run_at, width, x, y, trim) } else { None } by {
                assert(run_char_at(d1.runs, x, y) == run_char_at(d.runs, x, y));
            }
            lemma_run_rows(d3, run_at, width, height, row + 1, 1, states, trim);
        }
    }
}

/// Reading the pattern text of a grid whose runs fit writes the character of every cell up to
/// the tail of its row, and nothing else.
pub proof fn lemma_pattern_decodes(run_at: spec_fn(int, int) -> (int, char), width: int, height: int, states: bool, trim: bool)
    requires
        runs_fit(run_at, width, height, states),
    ensures
        ({
            let d = decode(pattern_text(run_at, width, height, trim), width, height, states);
            &&& d.error == 0
            &&& forall|x: int, y: int| 0 <= x < width && 0 <= y < height ==>
                #[trigger] run_char_at(d.runs, x, y) == pattern_char(run_at, width, x, y, trim)
        }),
{
    let text = pattern_text(run_at, width, height, trim);
    let toks = rows_tokens(run_at, width, height, 0, 0, trim);
    let bang = seq!['!'];
    lemma_decode_prefix_run(text, text.len(), width, height, states);
    assert(text.take(text.len() as int) =~= text);
    lemma_run_wrap(start_decoder(), toks.push(bang), 0, width, height, states);
    assert(toks.push(bang) =~= toks + seq![bang]);
    lemma_flat_concat(toks, seq![bang]);
    lemma_flat_one(bang);
    lemma_run_text_concat(start_decoder(), flat(toks), bang, width, height, states);
    assert forall|x: int, y: int| 0 <= x < width && 0 <= y < height implies
        #[trigger] run_char_at(start_decoder().runs, x, y) == if y < 0 { pattern_char(run_at, width, x, y, trim) } else { None } by {
    }
    lemma_run_rows(start_decoder(), run_at, width, height, 0, 0, states, trim);
    let d2 = run_text(start_decoder(), flat(toks), width, height, states);
    lemma_run_token(d2, 1, '!', width, height, states);
    assert(token(1, '!') == bang);
}

/// The tail of a row consists of dead cells ('b'); without trimming, there is no tail.
pub proof fn lemma_tail_dead(run_at: spec_fn(int, int) -> (int, char), width: int, height: int, r: int, col: int,
    states: bool, trim: bool)
    requires
        runs_fit(run_at, width, height, states),
        0 <= r < height,
        0 <= col <= width,
    ensures
        col <= tail_start(run_at, width, r, col, trim) <= width,
        forall|x: int| tail_start(run_at, width, r, col, trim) <= x < width ==> #[trigger] run_at(x, r).1 == 'b',
        !trim ==> tail_start(run_at, width, r, col, trim) == width,
    decreases width - col,
{
    if col < width {
        let n = run_at(col, r).0;
        if trim && run_at(col, r).1 == 'b' && col + n == width {
            assert forall|x: int| tail_start(run_at, width, r, col, trim) <= x < width implies #[trigger] run_at(x, r).1 == 'b' by {
                assert(run_at(x, r).1 == run_at(col, r).1);
            }
        } else {
            lemma_tail_dead(run_at, width, height, r, col + n, states, trim);
        }
    }
}

/// Turning a bit grid into a pattern and reading the pattern back into a grid of the same size
/// gives back every cell: the pattern is read without error, and exactly the set cells are
/// written 'o'.
pub proof fn lemma_bit_grid_round_trip(g: &BitGrid)
    requires
        g.well_shaped(),
    ensures
        ({
            let width = (g.words_per_row() * 64) as int;
            let height = g.rows() as int;
            let d = decode(pattern_text(bit_runs(*g), width, height, true), width, height, false);
            &&& d.error == 0
            &&& forall|x: int, y: int| 0 <= x < width && 0 <= y < height ==>
                (run_char_at(d.runs, x, y) == Some('o')) == #[trigger] g.cell(x, y)
        }),
{
    let width = (g.words_per_row() * 64) as int;
    let height = g.rows() as int;
    let run_at = bit_runs(*g);
    assert forall|c: int, r: int| 0 <= c < width && 0 <= r < height implies {
        &&& 1 <= (#[trigger] run_at(c, r)).0
        &&& c + run_at(c, r).0 <= width
        &&& is_cell_char(run_at(c, r).1, false)
    } by {
        g.lemma_run_len_cells(c, r);
    }
    assert forall|c: int, r: int, i: int| #![trigger run_at(c, r), run_at(i, r)]
        0 <= c < width && 0 <= r < height && c <= i < c + run_at(c, r).0 implies run_at(i, r).1 == run_at(c, r).1 by {
        g.lemma_run_len_cells(c, r);
        assert(g.cell(i, r) == g.cell(c, r));
    }
    assert(runs_fit(run_at, width, height, false));
    lemma_pattern_decodes(run_at, width, height, false, true);
    let d = decode(pattern_text(run_at, width, height, true), width, height, false);
    assert forall|x: int, y: int| 0 <= x < width && 0 <= y < height implies
        (run_char_at(d.runs, x, y) == Some('o')) == #[trigger] g.cell(x, y) by {
        lemma_tail_dead(run_at, width, height, y, 0, false, true);
        assert(run_at(x, y).1 == if g.cell(x, y) { 'o' } else { 'b' });
    }
}

/// Among runs in reading order, the first cell of each run gets that run's character.
pub proof fn lemma_run_char_at_run(runs: Seq<(int, int, int, char)>, width: int, height: int, i: int)
    requires
        runs_ordered(runs, width, height),
        0 <= i < runs.len(),
    ensures
        run_char_at(runs, runs[i].0, runs[i].1) == Some(runs[i].3),
    decreases runs.len(),
{
    if i < runs.len() - 1 {
        let pre = runs.drop_last();
        assert(run_before(runs[i], runs[runs.len() - 1]));
        assert(pre[i] == runs[i]);
        assert forall|j: int| 0 <= j < pre.len() implies (#[trigger] pre[j]) == runs[j] by {}
        assert(runs_ordered(pre, width, height));
        lemma_run_char_at_run(pre, width, height, i);
    }
}

/// Writing the difference pattern of two states (`GenState::diff`) over the first, as
/// observed with the same visibility, makes every cell show what the second state shows (for
/// any state `restored` so written). The pattern is always read without error, and its runs can be written when there is an
/// observing player. Without one, a cell unknown in the second state must be unknown in the
/// first too ('?' cannot be written for nobody).
pub proof fn lemma_diff_restores(gs0: &GenState, gs1: &GenState, visibility: Option<usize>, restored: &GenState)
    requires
        (GenStatePair { gen_state0: gs0, gen_state1: gs1 }).valid(),
        visibility matches Some(q) ==> q < gs0.players(),
        (GenStatePair { gen_state0: gs0, gen_state1: gs1 }).chars_ok(visibility),
        visibility is None ==> forall|x: int, y: int| gs1.in_grid(x, y) && !gs1.known.cell(x, y) ==>
            !#[trigger] gs0.known.cell(x, y),
    ensures
        ({
            let pair = GenStatePair { gen_state0: gs0, gen_state1: gs1 };
            let width = (gs0.words() * 64) as int;
            let height = gs0.rows() as int;
            let run_at = pair_runs(pair, visibility);
            let d = decode(pattern_text(run_at, width, height, false), width, height, true);
            &&& d.error == 0
            &&& runs_writable(d.runs, gs0.players(), visibility)
            &&& gs0.written(restored, |c: int, r: int| run_char_at(d.runs, c, r), visibility) ==>
                forall|x: int, y: int| 0 <= x < width && 0 <= y < height ==>
                cell_char(#[trigger] restored.run_state(visibility, x, y)) == cell_char(gs1.run_state(visibility, x, y))
            &&& forall|x: int, y: int| 0 <= x < width && 0 <= y < height ==> #[trigger] run_char_at(d.runs, x, y)
                == if pair.pair_char(visibility, x, y) != NO_OP_CHAR { Some(pair.pair_char(visibility, x, y)) } else { None }
        }),
{
    let pair = GenStatePair { gen_state0: gs0, gen_state1: gs1 };
    let width = (gs0.words() * 64) as int;
    let height = gs0.rows() as int;
    let run_at = pair_runs(pair, visibility);
    let d = decode(pattern_text(run_at, width, height, false), width, height, true);
    let chars = |c: int, r: int| run_char_at(d.runs, c, r);
    assert(gs1.players() == gs1.player_states.len());
    // a cell shown by the second state has a pattern character, whose player (if any) exists
    assert forall|c: int, r: int| 0 <= c < width && 0 <= r < height implies
        has_char(#[trigger] gs1.run_state(visibility, c, r)) && has_char(gs0.run_state(visibility, c, r))
        && (!(gs1.run_state(visibility, c, r) is Fog) ==> GenState::writable_char(cell_char(gs1.run_state(visibility, c, r)), gs0.players()))
        && ((cell_char(gs1.run_state(visibility, c, r)) == '?') == (gs1.run_state(visibility, c, r) is Fog)) by {
        assert(pair.row_chars_ok(visibility, 0, r));
        assert(has_char(gs0.run_state(visibility, c, r)) && has_char(gs1.run_state(visibility, c, r)));
        gs1.lemma_shown_char(visibility, c, r);
    }
    assert forall|c: int, r: int| 0 <= c < width && 0 <= r < height implies {
        &&& 1 <= (#[trigger] run_at(c, r)).0
        &&& c + run_at(c, r).0 <= width
        &&& is_cell_char(run_at(c, r).1, true)
    } by {
        pair.lemma_pair_run(visibility, c, r);
        assert(has_char(gs1.run_state(visibility, c, r)));
        if let CellState::Alive(Some(p)) = gs1.run_state(visibility, c, r) {
            assert(player_char(p as int) as int == 65 + p);
        }
    }
    assert forall|c: int, r: int, i: int| #![trigger run_at(c, r), run_at(i, r)]
        0 <= c < width && 0 <= r < height && c <= i < c + run_at(c, r).0 implies run_at(i, r).1 == run_at(c, r).1 by {
        pair.lemma_pair_run(visibility, c, r);
    }
    assert(runs_fit(run_at, width, height, true));
    lemma_pattern_decodes(run_at, width, height, true, false);
    lemma_decode_ordered(pattern_text(run_at, width, height, false), pattern_text(run_at, width, height, false).len(), width, height, true);
    assert forall|i: int| 0 <= i < d.runs.len() implies GenState::writable_char(#[trigger] d.runs[i].3, gs0.players())
        && (d.runs[i].3 == '?' ==> visibility is Some) by {
        lemma_run_char_at_run(d.runs, width, height, i);
        let x = d.runs[i].0;
        let y = d.runs[i].1;
        assert(pattern_char(run_at, width, x, y, false) == Some(d.runs[i].3));
        assert(run_at(x, y).1 == d.runs[i].3);
        assert(cell_char(gs1.run_state(visibility, x, y)) == d.runs[i].3);
        if visibility is None && d.runs[i].3 == '?' {
            assert(gs1.in_grid(x, y));
            assert(!gs1.known.cell(x, y));
            assert(!gs0.known.cell(x, y));
            assert(gs0.run_state(visibility, x, y) is Fog);
        }
    }
    if gs0.written(restored, chars, visibility) {
        assert forall|x: int, y: int| 0 <= x < width && 0 <= y < height implies
            cell_char(#[trigger] restored.run_state(visibility, x, y)) == cell_char(gs1.run_state(visibility, x, y)) by {
            lemma_tail_dead(run_at, width, height, y, 0, true, false);
            assert(chars(x, y) == pattern_char(run_at, width, x, y, false));
            assert(has_char(gs1.run_state(visibility, x, y)));
            if visibility is None && !gs1.known.cell(x, y) {
                assert(gs1.in_grid(x, y));
                assert(!gs0.known.cell(x, y));
                assert(gs0.run_state(visibility, x, y) is Fog);
                assert(gs1.run_state(visibility, x, y) is Fog);
            }
            GenState::lemma_written_read(gs0, restored, chars, visibility, x, y);
        }
    }
    assert forall|x: int, y: int| 0 <= x < width && 0 <= y < height implies #[trigger] run_char_at(d.runs, x, y)
        == if pair.pair_char(visibility, x, y) != NO_OP_CHAR { Some(pair.pair_char(visibility, x, y)) } else { None } by {
        lemma_tail_dead(run_at, width, height, y, 0, true, false);
        assert(chars(x, y) == pattern_char(run_at, width, x, y, false));
    }
}

/// The character that the pattern writes on one cell makes it carry the second state's bits
/// (see `lemma_diff_restores_bits`).
proof fn lemma_restored_cell(gs0: &GenState, gs1: &GenState, restored: &GenState, chars: spec_fn(int, int) -> Option<char>,
    x: int, y: int)
    requires
        (GenStatePair { gen_state0: gs0, gen_state1: gs1 }).valid(),
        (GenStatePair { gen_state0: gs0, gen_state1: gs1 }).row_chars_ok(None, 0, y),
        gs0.in_grid(x, y),
        !gs1.known.cell(x, y) ==> !gs0.known.cell(x, y),
        gs0.tidy_cell(x, y),
        gs1.tidy_cell(x, y),
        gs0.written(restored, chars, None),
        chars(x, y) == if (GenStatePair { gen_state0: gs0, gen_state1: gs1 }).pair_char(None, x, y) != NO_OP_CHAR {
            Some((GenStatePair { gen_state0: gs0, gen_state1: gs1 }).pair_char(None, x, y))
        } else {
            None
        },
    ensures
        restored.cells.cell(x, y) == gs1.cells.cell(x, y),
        restored.wall_cells.cell(x, y) == gs1.wall_cells.cell(x, y),
        restored.known.cell(x, y) == gs1.known.cell(x, y),
        forall|p: int| 0 <= p < gs0.players() ==> #[trigger] restored.pcells(p).cell(x, y) == gs1.pcells(p).cell(x, y),
{
    assert(has_char(gs0.run_state(None, x, y)) && has_char(gs1.run_state(None, x, y)));
    assert(gs0.players() == gs0.player_states.len());
    assert(gs1.players() == gs1.player_states.len());
    gs0.lemma_tidy_bits(x, y);
    gs1.lemma_tidy_bits(x, y);
    let ch1 = cell_char(gs1.run_state(None, x, y));
    gs1.lemma_lowest_owner(gs1.players(), x, y);
    if let CellState::Alive(Some(q)) = gs1.run_state(None, x, y) {
        assert(player_char(q as int) as int == 65 + q);
    }
    assert(ch1 != NO_OP_CHAR);
}

/// With no observing player, writing the difference pattern of two tidy states (see
/// `GenState::tidy`) over the first, where every cell unknown in the second state is unknown in
/// the first too, gives back the second state's bits: every cell's alive, wall and known bits,
/// and every player's cells (fog may differ).
pub proof fn lemma_diff_restores_bits(gs0: &GenState, gs1: &GenState, restored: &GenState)
    requires
        (GenStatePair { gen_state0: gs0, gen_state1: gs1 }).valid(),
        (GenStatePair { gen_state0: gs0, gen_state1: gs1 }).chars_ok(None),
        forall|x: int, y: int| gs1.in_grid(x, y) && !gs1.known.cell(x, y) ==> !#[trigger] gs0.known.cell(x, y),
        gs0.tidy(),
        gs1.tidy(),
        ({
            let pair = GenStatePair { gen_state0: gs0, gen_state1: gs1 };
            let width = (gs0.words() * 64) as int;
            let height = gs0.rows() as int;
            let d = decode(pattern_text(pair_runs(pair, None), width, height, false), width, height, true);
            gs0.written(restored, |c: int, r: int| run_char_at(d.runs, c, r), None)
        }),
    ensures
        forall|x: int, y: int| gs0.in_grid(x, y) ==> #[trigger] restored.cells.cell(x, y) == gs1.cells.cell(x, y),
        forall|x: int, y: int| gs0.in_grid(x, y) ==> #[trigger] restored.wall_cells.cell(x, y) == gs1.wall_cells.cell(x, y),
        forall|x: int, y: int| gs0.in_grid(x, y) ==> #[trigger] restored.known.cell(x, y) == gs1.known.cell(x, y),
        forall|p: int, x: int, y: int| 0 <= p < gs0.players() && gs0.in_grid(x, y) ==>
            #[trigger] restored.pcells(p).cell(x, y) == gs1.pcells(p).cell(x, y),
{
    let pair = GenStatePair { gen_state0: gs0, gen_state1: gs1 };
    let width = (gs0.words() * 64) as int;
    let height = gs0.rows() as int;
    let d = decode(pattern_text(pair_runs(pair, None), width, height, false), width, height, true);
    let chars = |c: int, r: int| run_char_at(d.runs, c, r);
    lemma_diff_restores(gs0, gs1, None, restored);
    assert forall|x: int, y: int| gs0.in_grid(x, y) implies {
        &&& restored.cells.cell(x, y) == gs1.cells.cell(x, y)
        &&& restored.wall_cells.cell(x, y) == gs1.wall_cells.cell(x, y)
        &&& restored.known.cell(x, y) == gs1.known.cell(x, y)
        &&& forall|p: int| 0 <= p < gs0.players() ==> #[trigger] restored.pcells(p).cell(x, y) == gs1.pcells(p).cell(x, y)
    } by {
        assert(pair.row_chars_ok(None, 0, y));
        assert(gs1.in_grid(x, y));
        assert(gs0.tidy_cell(x, y) && gs1.tidy_cell(x, y));
        assert(chars(x, y) == run_char_at(d.runs, x, y));
        lemma_restored_cell(gs0, gs1, restored, chars, x, y);
    }
}

/// The character that the pattern, as observed by player `q`, writes on one cell makes it
/// carry all of the second state's bits (see `lemma_diff_restores_bits_seen`).
proof fn lemma_restored_cell_seen(gs0: &GenState, gs1: &GenState, q: int, restored: &GenState,
    chars: spec_fn(int, int) -> Option<char>, x: int, y: int)
    requires
        (GenStatePair { gen_state0: gs0, gen_state1: gs1 }).valid(),
        0 <= q < gs0.players(),
        (GenStatePair { gen_state0: gs0, gen_state1: gs1 }).row_chars_ok(Some(q as usize), 0, y),
        gs0.in_grid(x, y),
        gs0.known.cell(x, y),
        gs1.known.cell(x, y),
        gs0.tidy_cell(x, y),
        gs1.tidy_cell(x, y),
        gs1.pfog(q).cell(x, y) ==> {
            &&& !gs0.cells.cell(x, y) && !gs0.wall_cells.cell(x, y)
            &&& !gs1.cells.cell(x, y) && !gs1.wall_cells.cell(x, y)
            &&& forall|p: int| 0 <= p < gs0.players() ==> !#[trigger] gs0.pcells(p).cell(x, y) && !gs1.pcells(p).cell(x, y)
        },
        forall|p: int| 0 <= p < gs0.players() && p != q ==> #[trigger] gs0.pfog(p).cell(x, y) == gs1.pfog(p).cell(x, y),
        gs0.written(restored, chars, Some(q as usize)),
        chars(x, y) == if (GenStatePair { gen_state0: gs0, gen_state1: gs1 }).pair_char(Some(q as usize), x, y) != NO_OP_CHAR {
            Some((GenStatePair { gen_state0: gs0, gen_state1: gs1 }).pair_char(Some(q as usize), x, y))
        } else {
            None
        },
    ensures
        restored.cells.cell(x, y) == gs1.cells.cell(x, y),
        restored.wall_cells.cell(x, y) == gs1.wall_cells.cell(x, y),
        restored.known.cell(x, y) == gs1.known.cell(x, y),
        forall|p: int| 0 <= p < gs0.players() ==> #[trigger] restored.pcells(p).cell(x, y) == gs1.pcells(p).cell(x, y),
        forall|p: int| 0 <= p < gs0.players() ==> #[trigger] restored.pfog(p).cell(x, y) == gs1.pfog(p).cell(x, y),
{
    let vis = Some(q as usize);
    assert(has_char(gs0.run_state(vis, x, y)) && has_char(gs1.run_state(vis, x, y)));
    assert(gs0.players() == gs0.player_states.len());
    assert(gs1.players() == gs1.player_states.len());
    if !gs0.pfog(q).cell(x, y) {
        assert(gs0.run_state(vis, x, y) == gs0.run_state(None, x, y));
        gs0.lemma_tidy_bits(x, y);
    }
    if !gs1.pfog(q).cell(x, y) {
        assert(gs1.run_state(vis, x, y) == gs1.run_state(None, x, y));
        gs1.lemma_tidy_bits(x, y);
    }
    gs0.lemma_lowest_owner(gs0.players(), x, y);
    gs1.lemma_lowest_owner(gs1.players(), x, y);
    if let CellState::Alive(Some(p)) = gs1.run_state(vis, x, y) {
        assert(player_char(p as int) as int == 65 + p);
    }
    if let CellState::Alive(Some(p)) = gs0.run_state(vis, x, y) {
        assert(player_char(p as int) as int == 65 + p);
    }
    let ch1 = cell_char(gs1.run_state(vis, x, y));
    assert(ch1 != NO_OP_CHAR);
}

/// With player `q` observing, writing the difference pattern of two tidy, fully known states
/// (see `GenState::tidy`) over the first gives back every bit of the second state, fog
/// included, when the cells in `q`'s fog in the second state are dead, not walls and unowned
/// in both states, and the other players' fog is the same in both.
pub proof fn lemma_diff_restores_bits_seen(gs0: &GenState, gs1: &GenState, q: usize, restored: &GenState)
    requires
        (GenStatePair { gen_state0: gs0, gen_state1: gs1 }).valid(),
        q < gs0.players(),
        (GenStatePair { gen_state0: gs0, gen_state1: gs1 }).chars_ok(Some(q)),
        forall|x: int, y: int| gs0.in_grid(x, y) ==> #[trigger] gs0.known.cell(x, y) && gs1.known.cell(x, y),
        gs0.tidy(),
        gs1.tidy(),
        forall|x: int, y: int| gs0.in_grid(x, y) && #[trigger] gs1.pfog(q as int).cell(x, y) ==> {
            &&& !gs0.cells.cell(x, y) && !gs0.wall_cells.cell(x, y)
            &&& !gs1.cells.cell(x, y) && !gs1.wall_cells.cell(x, y)
            &&& forall|p: int| 0 <= p < gs0.players() ==> !#[trigger] gs0.pcells(p).cell(x, y) && !gs1.pcells(p).cell(x, y)
        },
        forall|p: int, x: int, y: int| 0 <= p < gs0.players() && p != q && gs0.in_grid(x, y) ==>
            #[trigger] gs0.pfog(p).cell(x, y) == gs1.pfog(p).cell(x, y),
        ({
            let pair = GenStatePair { gen_state0: gs0, gen_state1: gs1 };
            let width = (gs0.words() * 64) as int;
            let height = gs0.rows() as int;
            let d = decode(pattern_text(pair_runs(pair, Some(q)), width, height, false), width, height, true);
            gs0.written(restored, |c: int, r: int| run_char_at(d.runs, c, r), Some(q))
        }),
    ensures
        forall|x: int, y: int| gs0.in_grid(x, y) ==> #[trigger] restored.cells.cell(x, y) == gs1.cells.cell(x, y),
        forall|x: int, y: int| gs0.in_grid(x, y) ==> #[trigger] restored.wall_cells.cell(x, y) == gs1.wall_cells.cell(x, y),
        forall|x: int, y: int| gs0.in_grid(x, y) ==> #[trigger] restored.known.cell(x, y) == gs1.known.cell(x, y),
        forall|p: int, x: int, y: int| 0 <= p < gs0.players() && gs0.in_grid(x, y) ==>
            #[trigger] restored.pcells(p).cell(x, y) == gs1.pcells(p).cell(x, y),
        forall|p: int, x: int, y: int| 0 <= p < gs0.players() && gs0.in_grid(x, y) ==>
            #[trigger] restored.pfog(p).cell(x, y) == gs1.pfog(p).cell(x, y),
{
    let pair = GenStatePair { gen_state0: gs0, gen_state1: gs1 };
    let width = (gs0.words() * 64) as int;
    let height = gs0.rows() as int;
    let d = decode(pattern_text(pair_runs(pair, Some(q)), width, height, false), width, height, true);
    let chars = |c: int, r: int| run_char_at(d.runs, c, r);
    lemma_diff_restores(gs0, gs1, Some(q), restored);
    assert forall|x: int, y: int| gs0.in_grid(x, y) implies {
        &&& restored.cells.cell(x, y) == gs1.cells.cell(x, y)
        &&& restored.wall_cells.cell(x, y) == gs1.wall_cells.cell(x, y)
        &&& restored.known.cell(x, y) == gs1.known.cell(x, y)
        &&& forall|p: int| 0 <= p < gs0.players() ==> #[trigger] restored.pcells(p).cell(x, y) == gs1.pcells(p).cell(x, y)
        &&& forall|p: int| 0 <= p < gs0.players() ==> #[trigger] restored.pfog(p).cell(x, y) == gs1.pfog(p).cell(x, y)
    } by {
        assert(pair.row_chars_ok(Some(q), 0, y));
        assert(gs0.known.cell(x, y) && gs1.known.cell(x, y));
        assert(gs0.tidy_cell(x, y) && gs1.tidy_cell(x, y));
        assert(chars(x, y) == run_char_at(d.runs, x, y));
        if gs1.pfog(q as int).cell(x, y) {
            assert(gs0.in_grid(x, y));
        }
        assert forall|p: int| 0 <= p < gs0.players() && p != q implies #[trigger] gs0.pfog(p).cell(x, y) == gs1.pfog(p).cell(x, y) by {}
        lemma_restored_cell_seen(gs0, gs1, q as int, restored, chars, x, y);
    }
}

/// `gs1` comes back exactly from writing the difference pattern of `gs0` and `gs1`, as
/// observed with `visibility`, over `gs0` (see `lemma_diff_restores_bits` and
/// `lemma_diff_restores_bits_seen`): both states are tidy and can be shown as characters, and
/// without an observer every cell unknown in `gs1` is unknown in `gs0`; with observer `q`, both
/// states are fully known, `q`'s fogged cells in `gs1` are dead, not walls and unowned in both,
/// and the other players' fog is the same in both.
pub open spec fn diff_round_trips(gs0: &GenState, gs1: &GenState, visibility: Option<usize>) -> bool {
    &&& (GenStatePair { gen_state0: gs0, gen_state1: gs1 }).valid()
    &&& (GenStatePair { gen_state0: gs0, gen_state1: gs1 }).chars_ok(visibility)
    &&& gs0.tidy()
    &&& gs1.tidy()
    &&& match visibility {
        None => forall|x: int, y: int| gs1.in_grid(x, y) && !gs1.known.cell(x, y) ==> !#[trigger] gs0.known.cell(x, y),
        Some(q) => {
            &&& q < gs0.players()
            &&& forall|x: int, y: int| gs0.in_grid(x, y) ==> #[trigger] gs0.known.cell(x, y) && gs1.known.cell(x, y)
            &&& forall|x: int, y: int| gs0.in_grid(x, y) && #[trigger] gs1.pfog(q as int).cell(x, y) ==> {
                &&& !gs0.cells.cell(x, y) && !gs0.wall_cells.cell(x, y)
                &&& !gs1.cells.cell(x, y) && !gs1.wall_cells.cell(x, y)
                &&& forall|p: int| 0 <= p < gs0.players() ==> !#[trigger] gs0.pcells(p).cell(x, y) && !gs1.pcells(p).cell(x, y)
            }
            &&& forall|p: int, x: int, y: int| 0 <= p < gs0.players() && p != q && gs0.in_grid(x, y) ==>
                #[trigger] gs0.pfog(p).cell(x, y) == gs1.pfog(p).cell(x, y)
        },
    }
}

/// `a` has the bits of `b` on every cell of `b`: cells, walls, known cells and every player's
/// cells, and also every player's fog when `with_fog` holds.
pub open spec fn same_bits(a: &GenState, b: &GenState, with_fog: bool) -> bool {
    &&& forall|x: int, y: int| b.in_grid(x, y) ==> #[trigger] a.cells.cell(x, y) == b.cells.cell(x, y)
    &&& forall|x: int, y: int| b.in_grid(x, y) ==> #[trigger] a.wall_cells.cell(x, y) == b.wall_cells.cell(x, y)
    &&& forall|x: int, y: int| b.in_grid(x, y) ==> #[trigger] a.known.cell(x, y) == b.known.cell(x, y)
    &&& forall|p: int, x: int, y: int| 0 <= p < b.players() && b.in_grid(x, y) ==>
        #[trigger] a.pcells(p).cell(x, y) == b.pcells(p).cell(x, y)
    &&& with_fog ==> forall|p: int, x: int, y: int| 0 <= p < b.players() && b.in_grid(x, y) ==>
        #[trigger] a.pfog(p).cell(x, y) == b.pfog(p).cell(x, y)
}

/// Under `diff_round_trips`, the difference pattern reads without error, its runs can be
/// written, and writing it over `gs0` gives `gs1`'s bits (fog included when there is an
/// observer).
pub proof fn lemma_diff_round_trip(gs0: &GenState, gs1: &GenState, visibility: Option<usize>, restored: &GenState)
    requires
        diff_round_trips(gs0, gs1, visibility),
    ensures
        ({
            let pair = GenStatePair { gen_state0: gs0, gen_state1: gs1 };
            let width = (gs0.words() * 64) as int;
            let height = gs0.rows() as int;
            let d = decode(pattern_text(pair_runs(pair, visibility), width, height, false), width, height, true);
            &&& d.error == 0
            &&& runs_writable(d.runs, gs0.players(), visibility)
            &&& gs0.written(restored, |c: int, r: int| run_char_at(d.runs, c, r), visibility) ==>
                same_bits(restored, gs1, visibility is Some)
        }),
{
    let pair = GenStatePair { gen_state0: gs0, gen_state1: gs1 };
    let width = (gs0.words() * 64) as int;
    let height = gs0.rows() as int;
    let d = decode(pattern_text(pair_runs(pair, visibility), width, height, false), width, height, true);
    assert(gs1.in_grid(0, 0));
    match visibility {
        None => {
            lemma_diff_restores(gs0, gs1, visibility, restored);
            if gs0.written(restored, |c: int, r: int| run_char_at(d.runs, c, r), visibility) {
                lemma_diff_restores_bits(gs0, gs1, restored);
            }
        },
        Some(q) => {
            lemma_diff_restores(gs0, gs1, visibility, restored);
            if gs0.written(restored, |c: int, r: int| run_char_at(d.runs, c, r), visibility) {
                lemma_diff_restores_bits_seen(gs0, gs1, q, restored);
            }
        },
    }
}

/// The difference pattern of two states (`GenState::diff`) reads without error and writes
/// exactly the changes: a cell gets a character if and only if the two states show it with
/// different characters (as observed with `visibility`), and then it gets the second state's
/// character. A cell shown the same in both (an unchanged wall, say) gets nothing.
pub proof fn lemma_diff_writes_changes(gs0: &GenState, gs1: &GenState, visibility: Option<usize>)
    requires
        (GenStatePair { gen_state0: gs0, gen_state1: gs1 }).valid(),
        visibility matches Some(q) ==> q < gs0.players(),
        (GenStatePair { gen_state0: gs0, gen_state1: gs1 }).chars_ok(visibility),
    ensures
        ({
            let pair = GenStatePair { gen_state0: gs0, gen_state1: gs1 };
            let width = (gs0.words() * 64) as int;
            let height = gs0.rows() as int;
            let d = decode(pattern_text(pair_runs(pair, visibility), width, height, false), width, height, true);
            &&& d.error == 0
            &&& forall|x: int, y: int| 0 <= x < width && 0 <= y < height ==> #[trigger] run_char_at(d.runs, x, y)
                == if cell_char(gs0.run_state(visibility, x, y)) == cell_char(gs1.run_state(visibility, x, y)) {
                    None
                } else {
                    Some(cell_char(gs1.run_state(visibility, x, y)))
                }
        }),
{
    let pair = GenStatePair { gen_state0: gs0, gen_state1: gs1 };
    let width = (gs0.words() * 64) as int;
    let height = gs0.rows() as int;
    let run_at = pair_runs(pair, visibility);
    let d = decode(pattern_text(run_at, width, height, false), width, height, true);
    assert(gs1.players() == gs1.player_states.len());
    assert forall|c: int, r: int| 0 <= c < width && 0 <= r < height implies
        has_char(#[trigger] gs1.run_state(visibility, c, r)) && has_char(gs0.run_state(visibility, c, r))
        && cell_char(gs1.run_state(visibility, c, r)) != NO_OP_CHAR by {
        assert(pair.row_chars_ok(visibility, 0, r));
        assert(has_char(gs0.run_state(visibility, c, r)) && has_char(gs1.run_state(visibility, c, r)));
        if let CellState::Alive(Some(p)) = gs1.run_state(visibility, c, r) {
            assert(player_char(p as int) as int == 65 + p);
        }
    }
    assert forall|c: int, r: int| 0 <= c < width && 0 <= r < height implies {
        &&& 1 <= (#[trigger] run_at(c, r)).0
        &&& c + run_at(c, r).0 <= width
        &&& is_cell_char(run_at(c, r).1, true)
    } by {
        pair.lemma_pair_run(visibility, c, r);
        assert(has_char(gs1.run_state(visibility, c, r)));
        if let CellState::Alive(Some(p)) = gs1.run_state(visibility, c, r) {
            assert(player_char(p as int) as int == 65 + p);
        }
    }
    assert forall|c: int, r: int, i: int| #![trigger run_at(c, r), run_at(i, r)]
        0 <= c < width && 0 <= r < height && c <= i < c + run_at(c, r).0 implies run_at(i, r).1 == run_at(c, r).1 by {
        pair.lemma_pair_run(visibility, c, r);
    }
    assert(runs_fit(run_at, width, height, true));
    lemma_pattern_decodes(run_at, width, height, true, false);
    assert forall|x: int, y: int| 0 <= x < width && 0 <= y < height implies #[trigger] run_char_at(d.runs, x, y)
        == if cell_char(gs0.run_state(visibility, x, y)) == cell_char(gs1.run_state(visibility, x, y)) {
            None
        } else {
            Some(cell_char(gs1.run_state(visibility, x, y)))
        } by {
        lemma_tail_dead(run_at, width, height, y, 0, true, false);
        assert(run_char_at(d.runs, x, y) == pattern_char(run_at, width, x, y, false));
        assert(has_char(gs1.run_state(visibility, x, y)));
    }
}

} // verus!
