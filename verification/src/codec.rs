//! The compact text encoding of a board layout: the run-length decoder
//! behind `from_string` with its error taxonomy, the symmetric encoder,
//! and the proof that decoding inverts encoding.

use vstd::prelude::*;
use vstd::string::StrSliceExecFns;
use crate::game::Cell;
use crate::game::Direction;
use crate::game::Game;
use crate::game::Snake;
use crate::game::food_follow;
use crate::numerals::digits_val;
use crate::numerals::is_digit_char;
use crate::numerals::parse_usize;
use crate::numerals::parses_as_usize;
use crate::numerals::usize_value;

verus! {

/// Why a board description failed to decode; each documented failure
/// condition has a variant of its own.
#[derive(Clone, Copy, PartialEq, Eq, Structural, Debug)]
pub enum DecodeError {
    /// The input is empty.
    EmptyInput,
    /// The first '|'-delimited segment does not start with 'B'.
    MissingBoardPrefix,
    /// The dimension segment does not split into exactly two
    /// 'x'-separated fields.
    BadDimensionSplit,
    /// The height field does not parse as an unsigned integer.
    InvalidHeight,
    /// The width field does not parse as an unsigned integer.
    InvalidWidth,
    /// A letter code other than 'W', 'E' or 'S' appears.
    UnknownChar,
    /// More than one Snake cell is described.
    MultipleSnakes,
    /// The decoded cell count differs from `width * height`.
    DimensionMismatch,
    /// No Snake cell is described.
    NoSnake,
}

impl DecodeError {
    /// The human-readable reason behind this error.
    pub open spec fn spec_message(self) -> Seq<char> {
        match self {
            DecodeError::EmptyInput => "Empty string"@,
            DecodeError::MissingBoardPrefix => "Invalid dimension format"@,
            DecodeError::BadDimensionSplit => "Invalid dimension format"@,
            DecodeError::InvalidHeight => "Invalid height"@,
            DecodeError::InvalidWidth => "Invalid width"@,
            DecodeError::UnknownChar => "Unknown char"@,
            DecodeError::MultipleSnakes => "Multiple snakes"@,
            DecodeError::DimensionMismatch => "Dimension mismatch"@,
            DecodeError::NoSnake => "No snake found"@,
        }
    }

    /// The human-readable reason behind this error.
    pub fn message(&self) -> (r: String)
        ensures
            r@ == self.spec_message(),
    {
        match self {
            DecodeError::EmptyInput => <String as vstd::string::StringExecFns>::from_str(
                "Empty string",
            ),
            DecodeError::MissingBoardPrefix => <String as vstd::string::StringExecFns>::from_str(
                "Invalid dimension format",
            ),
            DecodeError::BadDimensionSplit => <String as vstd::string::StringExecFns>::from_str(
                "Invalid dimension format",
            ),
            DecodeError::InvalidHeight => <String as vstd::string::StringExecFns>::from_str(
                "Invalid height",
            ),
            DecodeError::InvalidWidth => <String as vstd::string::StringExecFns>::from_str(
                "Invalid width",
            ),
            DecodeError::UnknownChar => <String as vstd::string::StringExecFns>::from_str(
                "Unknown char",
            ),
            DecodeError::MultipleSnakes => <String as vstd::string::StringExecFns>::from_str(
                "Multiple snakes",
            ),
            DecodeError::DimensionMismatch => <String as vstd::string::StringExecFns>::from_str(
                "Dimension mismatch",
            ),
            DecodeError::NoSnake => <String as vstd::string::StringExecFns>::from_str(
                "No snake found",
            ),
        }
    }
}

/// Whether `c` is an ASCII letter and so opens a cell token.
pub open spec fn is_letter_char(c: char) -> bool {
    (65 <= c as u32 <= 90) || (97 <= c as u32 <= 122)
}

/// One step of the token scanner: a letter opens a new token; a digit
/// directly following a letter or an attached digit extends the last
/// token's run-length digits; any other character detaches and is
/// skipped.
pub open spec fn scan_step(st: (Seq<(char, Seq<char>)>, bool), c: char) -> (
    Seq<(char, Seq<char>)>,
    bool,
) {
    let toks = st.0;
    if is_letter_char(c) {
        (toks.push((c, Seq::<char>::empty())), true)
    } else if is_digit_char(c) && st.1 && toks.len() >= 1 {
        let last = toks.last();
        (toks.update(toks.len() - 1, (last.0, last.1.push(c))), true)
    } else {
        (toks, false)
    }
}

/// The scanner's state after a character stream: the tokens seen so far
/// and whether the last character still attaches digits to the last
/// token.
pub open spec fn scan_rec(s: Seq<char>) -> (Seq<(char, Seq<char>)>, bool)
    decreases s.len(),
{
    if s.len() == 0 {
        (Seq::<(char, Seq<char>)>::empty(), false)
    } else {
        scan_step(scan_rec(s.drop_last()), s.last())
    }
}

/// The token list of a character stream.
pub open spec fn scan(s: Seq<char>) -> Seq<(char, Seq<char>)> {
    scan_rec(s).0
}

/// The run length a token's digit characters denote: their decimal
/// value, or 0 when they are absent or overflow the machine, the way the
/// standard parse's failure is read as 0.
pub open spec fn token_count(digits: Seq<char>) -> nat {
    if digits_val(digits) > usize::MAX {
        0
    } else {
        digits_val(digits)
    }
}

/// Tokens reduced to their letter and run length.
pub open spec fn counts_of(toks: Seq<(char, Seq<char>)>) -> Seq<(char, nat)> {
    toks.map_values(|t: (char, Seq<char>)| (t.0, token_count(t.1)))
}

/// Expands one token onto the cells decoded so far: 'W' and 'E' emit a
/// run of Wall or Plain cells, 'S' emits the single snake cell — a
/// second snake cell anywhere is a failure — and any other letter is a
/// failure. A token with run length 0 emits nothing.
pub open spec fn expand_one(cells: Seq<Cell>, snake: Option<int>, c: char, n: nat) -> Result<
    (Seq<Cell>, Option<int>),
    DecodeError,
> {
    if c == 'W' {
        Ok((cells + Seq::new(n, |i: int| Cell::Wall), snake))
    } else if c == 'E' {
        Ok((cells + Seq::new(n, |i: int| Cell::Plain), snake))
    } else if c == 'S' {
        if n == 0 {
            Ok((cells, snake))
        } else if snake is Some || n >= 2 {
            Err(DecodeError::MultipleSnakes)
        } else {
            Ok((cells.push(Cell::Snake), Option::Some(cells.len() as int)))
        }
    } else {
        Err(DecodeError::UnknownChar)
    }
}

/// Expands a token list left to right into the flat cell sequence and
/// the single snake index; the leftmost failing token decides the error.
pub open spec fn expand(toks: Seq<(char, nat)>) -> Result<(Seq<Cell>, Option<int>), DecodeError>
    decreases toks.len(),
{
    if toks.len() == 0 {
        Ok((Seq::<Cell>::empty(), Option::None))
    } else {
        match expand(toks.drop_last()) {
            Err(e) => Err(e),
            Ok(st) => expand_one(st.0, st.1, toks.last().0, toks.last().1),
        }
    }
}

/// A failure among the first `k` tokens is the failure of the whole
/// list.
pub proof fn lemma_expand_err_prefix(toks: Seq<(char, nat)>, k: int)
    requires
        0 <= k <= toks.len(),
        expand(toks.take(k)) is Err,
    ensures
        expand(toks) == expand(toks.take(k)),
    decreases toks.len(),
{
    if k == toks.len() {
        assert(toks.take(k) =~= toks);
    } else {
        assert(toks.drop_last().take(k) =~= toks.take(k));
        lemma_expand_err_prefix(toks.drop_last(), k);
    }
}

/// A successful expansion with a snake yields exactly one Snake cell,
/// at the reported index.
pub proof fn lemma_expand_snake(toks: Seq<(char, nat)>, cells: Seq<Cell>, snake: Option<int>)
    requires
        expand(toks) == Ok::<(Seq<Cell>, Option<int>), DecodeError>((cells, snake)),
    ensures
        snake matches Some(si) ==> 0 <= si < cells.len() && cells[si] == Cell::Snake,
        forall|j: int|
            0 <= j < cells.len() && cells[j] == Cell::Snake ==> snake == Some(j),
    decreases toks.len(),
{
    if toks.len() == 0 {
    } else {
        let prev = expand(toks.drop_last());
        let st = prev->Ok_0;
        lemma_expand_snake(toks.drop_last(), st.0, st.1);
    }
}

/// The index of the first occurrence of `c` in `s` at or after `from`,
/// or the length of `s` when there is none.
pub open spec fn find_char(s: Seq<char>, c: char, from: int) -> int
    decreases s.len() - from,
{
    if from < 0 || from >= s.len() {
        s.len() as int
    } else if s[from] == c {
        from
    } else {
        find_char(s, c, from + 1)
    }
}

/// The whole decode pipeline on a character stream. On success the
/// result carries the height, the width, the flat cell sequence and the
/// snake's index — the board before food placement.
pub open spec fn decode(s: Seq<char>) -> Result<(int, int, Seq<Cell>, int), DecodeError> {
    if s.len() == 0 {
        Err(DecodeError::EmptyInput)
    } else {
        let bar = find_char(s, '|', 0);
        let dims = s.take(bar);
        if !(dims.len() >= 1 && dims[0] == 'B') {
            Err(DecodeError::MissingBoardPrefix)
        } else {
            let fields = dims.skip(1);
            let x1 = find_char(fields, 'x', 0);
            if x1 == fields.len() || find_char(fields, 'x', x1 + 1) != fields.len() {
                Err(DecodeError::BadDimensionSplit)
            } else {
                let hs = fields.take(x1);
                let ws = fields.skip(x1 + 1);
                if !parses_as_usize(hs) {
                    Err(DecodeError::InvalidHeight)
                } else if !parses_as_usize(ws) {
                    Err(DecodeError::InvalidWidth)
                } else {
                    let height = usize_value(hs) as int;
                    let width = usize_value(ws) as int;
                    let body = if bar >= s.len() {
                        Seq::<char>::empty()
                    } else {
                        s.skip(bar + 1)
                    };
                    match expand(counts_of(scan(body))) {
                        Err(e) => Err(e),
                        Ok(st) => {
                            if st.0.len() != width * height {
                                Err(DecodeError::DimensionMismatch)
                            } else if st.1 is None {
                                Err(DecodeError::NoSnake)
                            } else {
                                Ok((height, width, st.0, st.1.unwrap()))
                            }
                        },
                    }
                }
            }
        }
    }
}

/// Exec-level scanned tokens reduced to letter and machine run length.
pub open spec fn counts_view(toks: Seq<(char, usize)>) -> Seq<(char, nat)> {
    toks.map_values(|t: (char, usize)| (t.0, t.1 as nat))
}

/// Scans the cell-token stream of `s` from position `start` on: each
/// ASCII letter together with the run length its directly attached
/// decimal digits denote, an overflowing or absent run reading as 0.
#[verifier::loop_isolation(false)]
#[verifier::rlimit(60)]
fn tokenize(s: &str, start: usize) -> (toks: Vec<(char, usize)>)
    requires
        start as int <= s@.len(),
    ensures
        counts_view(toks@) == counts_of(scan(s@.skip(start as int))),
{
    let ghost body = s@.skip(start as int);
    let n = s.unicode_len();
    let mut toks: Vec<(char, usize)> = Vec::new();
    let mut i: usize = start;
    proof {
        assert(body.take(0) =~= Seq::<char>::empty());
        assert(counts_view(toks@) =~= counts_of(scan_rec(body.take(0)).0));
    }
    while i < n
        invariant
            start <= i <= n,
            counts_view(toks@) == counts_of(scan_rec(body.take(i - start)).0),
            scan_rec(body.take(i - start)).1 ==> (i < n ==> !is_digit_char(body[i - start])),
        decreases n - i,
    {
        let ghost sc = scan_rec(body.take(i - start));
        let c = s.get_char(i);
        let u = c as u32;
        proof {
            assert(body[i - start] == c);
            assert(body.take(i - start + 1).drop_last() =~= body.take(i - start));
            assert(body.take(i - start + 1).last() == c);
            assert(scan_rec(body.take(i - start + 1)) == scan_step(sc, c));
        }
        let is_letter = (u >= 65 && u <= 90) || (u >= 97 && u <= 122);
        if !is_letter {
            proof {
                assert(!is_letter_char(c));
                assert(scan_step(sc, c).0 == sc.0);
            }
            i = i + 1;
            continue;
        }
        let ghost sc1 = scan_step(sc, c);
        proof {
            assert(is_letter_char(c));
            assert(sc1.0 == sc.0.push((c, Seq::<char>::empty())));
            assert(body.subrange(i + 1 - start, i + 1 - start) =~= Seq::<char>::empty());
        }
        let mut j = i + 1;
        let mut val: usize = 0;
        let mut ovf = false;
        let mut stop = false;
        while j < n && !stop
            invariant
                i + 1 <= j <= n,
                scan_rec(body.take(j - start)).0 == sc.0.push(
                    (c, body.subrange(i + 1 - start, j - start)),
                ),
                scan_rec(body.take(j - start)).1 == true,
                !ovf ==> val as nat == digits_val(body.subrange(i + 1 - start, j - start))
                    && digits_val(body.subrange(i + 1 - start, j - start)) <= usize::MAX,
                ovf ==> digits_val(body.subrange(i + 1 - start, j - start)) > usize::MAX,
                stop ==> j < n && !is_digit_char(body[j - start]),
            decreases n - j, 1int - (if stop { 1int } else { 0int }),
        {
            let c2 = s.get_char(j);
            let u2 = c2 as u32;
            proof {
                assert(body[j - start] == c2);
            }
            if u2 < 48 || u2 > 57 {
                proof {
                    assert(!is_digit_char(c2));
                }
                stop = true;
                continue;
            }
            let ghost run = body.subrange(i + 1 - start, j - start);
            let ghost run2 = body.subrange(i + 1 - start, j + 1 - start);
            proof {
                assert(is_digit_char(c2));
                assert(body.take(j - start + 1).drop_last() =~= body.take(j - start));
                assert(body.take(j - start + 1).last() == c2);
                let scj = scan_rec(body.take(j - start));
                assert(scan_rec(body.take(j + 1 - start)) == scan_step(scj, c2));
                assert(scj.0.last() == (c, run));
                assert(scj.0.update(scj.0.len() - 1, (c, run.push(c2))) =~= sc.0.push(
                    (c, run.push(c2)),
                ));
                assert(run.push(c2) =~= run2);
                assert(run2.drop_last() =~= run);
                assert(run2.last() == c2);
                assert(digits_val(run2) == digits_val(run) * 10 + crate::numerals::digit_val(c2));
                vstd::arithmetic::div_mod::lemma_fundamental_div_mod(usize::MAX as int, 10);
            }
            let d = (u2 - 48) as usize;
            if ovf {
                proof {
                    assert(digits_val(run2) > usize::MAX);
                }
            } else if val > usize::MAX / 10 || (val == usize::MAX / 10 && d > usize::MAX % 10) {
                ovf = true;
                proof {
                    assert(val * 10 + d > usize::MAX);
                    assert(digits_val(run2) > usize::MAX);
                }
            } else {
                val = val * 10 + d;
            }
            j = j + 1;
        }
        let count = if ovf {
            0
        } else {
            val
        };
        let ghost old_toks = toks@;
        toks.push((c, count));
        proof {
            let run = body.subrange(i + 1 - start, j - start);
            assert(count as nat == token_count(run));
            let lhs = counts_view(toks@);
            let rhs = counts_of(sc.0.push((c, run)));
            assert forall|q: int| 0 <= q < lhs.len() implies lhs[q] == rhs[q] by {
                if q < old_toks.len() {
                    assert(lhs[q] == counts_view(old_toks)[q]);
                    assert(rhs[q] == counts_of(sc.0)[q]);
                } else {
                    assert(toks@[q] == (c, count));
                    assert(sc.0.push((c, run))[q] == (c, run));
                }
            }
            assert(lhs =~= rhs);
        }
        i = j;
    }
    proof {
        assert(body.take(n - start) =~= body);
    }
    toks
}

/// Expands scanned tokens into the flat cell vector and the snake
/// index, reporting the leftmost failure.
#[verifier::loop_isolation(false)]
fn expand_tokens(toks: &Vec<(char, usize)>) -> (r: Result<(Vec<Cell>, Option<usize>), DecodeError>)
    ensures
        match r {
            Ok(p) => expand(counts_view(toks@)) == Ok::<(Seq<Cell>, Option<int>), DecodeError>(
                (
                    p.0@,
                    match p.1 {
                        Some(si) => Some(si as int),
                        None => None,
                    },
                ),
            ),
            Err(e) => expand(counts_view(toks@)) == Err::<(Seq<Cell>, Option<int>), DecodeError>(
                e,
            ),
        },
{
    let ghost cts = counts_view(toks@);
    let mut cells: Vec<Cell> = Vec::new();
    let mut snake_found = false;
    let mut snake_idx: usize = 0;
    let mut k: usize = 0;
    proof {
        assert(cts.take(0) =~= Seq::<(char, nat)>::empty());
    }
    while k < toks.len()
        invariant
            k <= toks@.len(),
            expand(cts.take(k as int)) == Ok::<(Seq<Cell>, Option<int>), DecodeError>(
                (
                    cells@,
                    if snake_found {
                        Some(snake_idx as int)
                    } else {
                        None
                    },
                ),
            ),
        decreases toks@.len() - k,
    {
        let (c, m) = toks[k];
        let ghost pre_state = (
            cells@,
            if snake_found {
                Some(snake_idx as int)
            } else {
                None::<int>
            },
        );
        proof {
            assert(cts.take(k + 1).drop_last() =~= cts.take(k as int));
            assert(cts.take(k + 1).last() == (c, m as nat));
            assert(expand(cts.take(k + 1)) == expand_one(pre_state.0, pre_state.1, c, m as nat));
        }
        if c == 'W' || c == 'E' {
            let cell = if c == 'W' {
                Cell::Wall
            } else {
                Cell::Plain
            };
            let ghost run_cell = cell;
            let ghost before = cells@;
            let mut q: usize = 0;
            while q < m
                invariant
                    q <= m,
                    cells@ == before + Seq::new(q as nat, |x: int| run_cell),
                decreases m - q,
            {
                cells.push(cell);
                q = q + 1;
                proof {
                    assert(cells@ =~= before + Seq::new(q as nat, |x: int| run_cell));
                }
            }
        } else if c == 'S' {
            if m == 0 {
            } else if snake_found || m >= 2 {
                proof {
                    lemma_expand_err_prefix(cts, k + 1);
                }
                return Err(DecodeError::MultipleSnakes);
            } else {
                snake_idx = cells.len();
                snake_found = true;
                cells.push(Cell::Snake);
            }
        } else {
            proof {
                assert(c != 'W' && c != 'E' && c != 'S');
                lemma_expand_err_prefix(cts, k + 1);
            }
            return Err(DecodeError::UnknownChar);
        }
        k = k + 1;
    }
    proof {
        assert(cts.take(toks@.len() as int) =~= cts);
    }
    Ok(
        (
            cells,
            if snake_found {
                Some(snake_idx)
            } else {
                None
            },
        ),
    )
}

impl Game {
    /// Decodes a run-length-encoded board description of the form
    /// `B<height>x<width>|<tokens>` and builds the game around it: the
    /// decoded snake cell becomes the single body segment heading Right,
    /// and one Food cell is placed on a Plain cell when the board has
    /// one. A failed decode reports its specific error and builds
    /// nothing.
    #[verifier::loop_isolation(false)]
    #[verifier::rlimit(100)]
    #[verifier::spinoff_prover]
    pub fn from_string(compressed: &str, grow_on_eat: bool) -> (r: Result<Game, DecodeError>)
        ensures
            match decode(compressed@) {
                Err(e) => r == Err::<Game, DecodeError>(e),
                Ok(d) => r matches Ok(g) && {
                    &&& g.inv()
                    &&& g.height as int == d.0
                    &&& g.width as int == d.1
                    &&& food_follow(d.2, g.cells@)
                    &&& g.snake.coordinates@ == seq![d.3 as usize]
                    &&& g.snake.direction == Direction::Right
                    &&& g.score == 0
                    &&& g.game_over == false
                    &&& g.grow_on_eat == grow_on_eat
                },
            },
    {
        let ghost s = compressed@;
        let n = compressed.unicode_len();
        if n == 0 {
            return Err(DecodeError::EmptyInput);
        }

        // the first '|' ends the dimension segment
        let mut bar: usize = 0;
        while bar < n && compressed.get_char(bar) != '|'
            invariant
                0 <= bar <= n,
                find_char(s, '|', 0) == find_char(s, '|', bar as int),
            decreases n - bar,
        {
            bar = bar + 1;
        }
        proof {
            assert(find_char(s, '|', 0) == bar as int);
        }
        let ghost dims = s.take(bar as int);

        if bar < 1 || compressed.get_char(0) != 'B' {
            proof {
                assert(!(dims.len() >= 1 && dims[0] == 'B'));
            }
            return Err(DecodeError::MissingBoardPrefix);
        }
        let fields = compressed.substring_char(1, bar);
        let fl = fields.unicode_len();
        proof {
            assert(fields@ =~= dims.skip(1));
        }

        // exactly one 'x' splits height from width
        let mut x1: usize = 0;
        while x1 < fl && fields.get_char(x1) != 'x'
            invariant
                0 <= x1 <= fl,
                find_char(fields@, 'x', 0) == find_char(fields@, 'x', x1 as int),
            decreases fl - x1,
        {
            x1 = x1 + 1;
        }
        proof {
            assert(find_char(fields@, 'x', 0) == x1 as int);
        }
        if x1 == fl {
            return Err(DecodeError::BadDimensionSplit);
        }
        let mut x2: usize = x1 + 1;
        while x2 < fl && fields.get_char(x2) != 'x'
            invariant
                x1 + 1 <= x2 <= fl,
                find_char(fields@, 'x', x1 + 1) == find_char(fields@, 'x', x2 as int),
            decreases fl - x2,
        {
            x2 = x2 + 1;
        }
        proof {
            assert(find_char(fields@, 'x', x1 + 1) == x2 as int);
        }
        if x2 != fl {
            return Err(DecodeError::BadDimensionSplit);
        }

        let hs = fields.substring_char(0, x1);
        let ws = fields.substring_char(x1 + 1, fl);
        proof {
            assert(hs@ =~= fields@.take(x1 as int));
            assert(ws@ =~= fields@.skip(x1 + 1));
        }
        let height = match parse_usize(hs) {
            Some(h) => h,
            None => {
                return Err(DecodeError::InvalidHeight);
            },
        };
        let width = match parse_usize(ws) {
            Some(w) => w,
            None => {
                return Err(DecodeError::InvalidWidth);
            },
        };

        // the cell-token stream follows the first '|'
        let start = if bar < n {
            bar + 1
        } else {
            n
        };
        let ghost body = if bar as int >= s.len() {
            Seq::<char>::empty()
        } else {
            s.skip(bar + 1)
        };
        proof {
            assert(s.skip(start as int) =~= body);
        }
        let toks = tokenize(compressed, start);
        let (cells, snake_opt) = match expand_tokens(&toks) {
            Ok(p) => p,
            Err(e) => {
                return Err(e);
            },
        };
        let ghost est = expand(counts_of(scan(body)))->Ok_0;

        // the token stream must describe exactly width * height cells
        let cl = cells.len();
        let count_matches = if height != 0 && width > usize::MAX / height {
            proof {
                vstd::arithmetic::div_mod::lemma_fundamental_div_mod(usize::MAX as int, height as int);
                assert((width as int) * (height as int) > usize::MAX) by (nonlinear_arith)
                    requires
                        height >= 1,
                        (width as int) > (usize::MAX as int) / (height as int),
                        (usize::MAX as int) == ((usize::MAX as int) / (height as int)) * (
                        height as int) + ((usize::MAX as int) % (height as int)),
                        ((usize::MAX as int) % (height as int)) < (height as int),
                ;
            }
            false
        } else {
            proof {
                if height != 0 {
                    vstd::arithmetic::div_mod::lemma_fundamental_div_mod(
                        usize::MAX as int,
                        height as int,
                    );
                    assert((width as int) * (height as int) <= usize::MAX) by (nonlinear_arith)
                        requires
                            height >= 1,
                            (width as int) <= (usize::MAX as int) / (height as int),
                            (usize::MAX as int) == ((usize::MAX as int) / (height as int)) * (
                            height as int) + ((usize::MAX as int) % (height as int)),
                            ((usize::MAX as int) % (height as int)) >= 0,
                    ;
                }
            }
            cl == width * height
        };
        if !count_matches {
            proof {
                assert(cells@.len() != (width as int) * (height as int));
            }
            return Err(DecodeError::DimensionMismatch);
        }
        let si = match snake_opt {
            Some(si) => si,
            None => {
                return Err(DecodeError::NoSnake);
            },
        };

        let mut coords = std::collections::VecDeque::new();
        coords.push_front(si);
        let mut game = Game {
            cells,
            width,
            height,
            snake: Snake { coordinates: coords, direction: Direction::Right },
            score: 0,
            game_over: false,
            grow_on_eat,
        };
        proof {
            lemma_expand_snake(counts_of(scan(body)), est.0, est.1);
            assert(game.cells@.len() >= 1);
            assert(width >= 1 && height >= 1) by (nonlinear_arith)
                requires
                    (width as int) * (height as int) >= 1,
                    width >= 0,
                    height >= 0,
            ;
            assert forall|jj: int|
                0 <= jj < game.cells@.len() && game.cells@[jj] == Cell::Snake implies game
                .snake
                .coordinates@
                .contains(jj as usize) by {
                assert(est.1 == Some(jj));
                assert(game.snake.coordinates@[0] == si);
            }
            assert(game.inv());
        }
        game.place_food();
        Ok(game)
    }
}

/// The letter code a cell is written as. Food is not part of the
/// encoded shape: it is written as Plain and re-placed after decoding.
pub open spec fn letter_of(c: Cell) -> char {
    match c {
        Cell::Wall => 'W',
        Cell::Snake => 'S',
        _ => 'E',
    }
}

/// The letter codes of a cell sequence.
pub open spec fn letters_of(cells: Seq<Cell>) -> Seq<char> {
    cells.map_values(|c: Cell| letter_of(c))
}

/// A cell sequence with its Food cell — not part of the encoded shape —
/// read back as Plain.
pub open spec fn defood(cells: Seq<Cell>) -> Seq<Cell> {
    cells.map_values(
        |c: Cell|
            if c == Cell::Food {
                Cell::Plain
            } else {
                c
            },
    )
}

/// The run-length grouping of a character sequence: maximal runs of
/// equal characters with their lengths.
pub open spec fn rle(s: Seq<char>) -> Seq<(char, nat)>
    decreases s.len(),
{
    if s.len() == 0 {
        Seq::<(char, nat)>::empty()
    } else {
        let r = rle(s.drop_last());
        if r.len() >= 1 && r.last().0 == s.last() {
            r.update(r.len() - 1, (s.last(), (r.last().1 + 1) as nat))
        } else {
            r.push((s.last(), 1))
        }
    }
}

/// Tokens written out: each letter followed by its run length in
/// decimal.
pub open spec fn render_tokens(toks: Seq<(char, nat)>) -> Seq<char>
    decreases toks.len(),
{
    if toks.len() == 0 {
        Seq::<char>::empty()
    } else {
        render_tokens(toks.drop_last()) + seq![toks.last().0] + crate::numerals::dec_digits(
            toks.last().1,
        )
    }
}

/// The full encoding of a board: the dimension header, then the
/// run-length tokens of the cells.
pub open spec fn encoding_of(height: nat, width: nat, cells: Seq<Cell>) -> Seq<char> {
    seq!['B'] + crate::numerals::dec_digits(height) + seq!['x'] + crate::numerals::dec_digits(
        width,
    ) + seq!['|'] + render_tokens(rle(letters_of(cells)))
}

/// The letter code of one cell.
fn letter_char_of(c: Cell) -> (r: char)
    ensures
        r == letter_of(c),
{
    match c {
        Cell::Wall => 'W',
        Cell::Snake => 'S',
        _ => 'E',
    }
}

/// One letter code as a string slice.
fn letter_str(c: char) -> (r: &'static str)
    requires
        c == 'W' || c == 'E' || c == 'S',
    ensures
        r@ == seq![c],
{
    let r = if c == 'W' {
        "W"
    } else if c == 'E' {
        "E"
    } else {
        "S"
    };
    proof {
        reveal_strlit("W");
        reveal_strlit("E");
        reveal_strlit("S");
        assert(r@ =~= seq![c]);
    }
    r
}

impl Game {
    /// Writes the board out in the form `from_string` reads:
    /// `B<height>x<width>|` followed by the run-length letter tokens of
    /// the cells, with Food written as Plain. Decoding the result gives
    /// the same dimensions, the same cells up to the re-placed Food, and
    /// the same snake cell.
    #[verifier::loop_isolation(false)]
    #[verifier::rlimit(60)]
    pub fn encode(&self) -> (r: String)
        ensures
            r@ == encoding_of(self.height as nat, self.width as nat, self.cells@),
    {
        let ghost letters = letters_of(self.cells@);
        let mut out = <String as vstd::string::StringExecFns>::from_str("B");
        let hs = crate::numerals::usize_to_string(self.height);
        out.append(hs.as_str());
        out.append("x");
        let ws = crate::numerals::usize_to_string(self.width);
        out.append(ws.as_str());
        out.append("|");
        proof {
            reveal_strlit("B");
            reveal_strlit("x");
            reveal_strlit("|");
            assert(out@ =~= seq!['B'] + crate::numerals::dec_digits(self.height as nat)
                + seq!['x'] + crate::numerals::dec_digits(self.width as nat) + seq!['|']);
        }

        let n = self.cells.len();
        if n == 0 {
            proof {
                assert(letters.take(0) =~= letters);
                assert(out@ =~= encoding_of(self.height as nat, self.width as nat, self.cells@));
            }
            return out;
        }
        let ghost head = out@;
        let mut body = String::new();
        let mut cur = letter_char_of(self.cells[0]);
        let mut cnt: usize = 1;
        let ghost mut flushed: Seq<(char, nat)> = Seq::<(char, nat)>::empty();
        proof {
            assert(letters.take(1).drop_last() =~= Seq::<char>::empty());
            assert(letters.take(1).last() == letters[0]);
            assert(letters[0] == letter_of(self.cells@[0]));
            assert(rle(Seq::<char>::empty()) =~= Seq::<(char, nat)>::empty());
            assert(rle(letters.take(1)) =~= flushed.push((cur, 1nat)));
        }
        let mut i: usize = 1;
        while i < n
            invariant
                1 <= i <= n,
                1 <= cnt <= i,
                cur == letter_of(self.cells@[i - 1]),
                cur == 'W' || cur == 'E' || cur == 'S',
                rle(letters.take(i as int)) == flushed.push((cur, cnt as nat)),
                body@ == render_tokens(flushed),
            decreases n - i,
        {
            let c = letter_char_of(self.cells[i]);
            proof {
                assert(letters.take(i + 1).drop_last() =~= letters.take(i as int));
                assert(letters.take(i + 1).last() == letters[i as int]);
            }
            if c == cur {
                cnt = cnt + 1;
                proof {
                    let r = rle(letters.take(i as int));
                    assert(rle(letters.take(i + 1)) == r.update(r.len() - 1, (cur, cnt as nat)));
                    assert(r.update(r.len() - 1, (cur, cnt as nat)) =~= flushed.push(
                        (cur, cnt as nat),
                    ));
                }
            } else {
                body.append(letter_str(cur));
                let cs = crate::numerals::usize_to_string(cnt);
                body.append(cs.as_str());
                proof {
                    let flushed2 = flushed.push((cur, cnt as nat));
                    assert(flushed2.drop_last() =~= flushed);
                    assert(body@ =~= render_tokens(flushed2));
                    flushed = flushed2;
                    let r = rle(letters.take(i as int));
                    assert(rle(letters.take(i + 1)) == r.push((c, 1nat)));
                    assert(r.push((c, 1nat)) =~= flushed.push((c, 1nat)));
                }
                cur = c;
                cnt = 1;
            }
            i = i + 1;
        }
        body.append(letter_str(cur));
        let cs = crate::numerals::usize_to_string(cnt);
        body.append(cs.as_str());
        proof {
            let flushed2 = flushed.push((cur, cnt as nat));
            assert(flushed2.drop_last() =~= flushed);
            assert(body@ =~= render_tokens(flushed2));
            assert(letters.take(n as int) =~= letters);
            assert(rle(letters) == flushed2);
        }
        out.append(body.as_str());
        proof {
            assert(out@ =~= encoding_of(self.height as nat, self.width as nat, self.cells@));
        }
        out
    }
}

/// The scanner run from an arbitrary starting state over a stream.
pub open spec fn scan_from(st: (Seq<(char, Seq<char>)>, bool), b: Seq<char>) -> (
    Seq<(char, Seq<char>)>,
    bool,
)
    decreases b.len(),
{
    if b.len() == 0 {
        st
    } else {
        scan_step(scan_from(st, b.drop_last()), b.last())
    }
}

/// Scanning a concatenation scans the second part from the state the
/// first part left behind.
pub proof fn lemma_scan_append(a: Seq<char>, b: Seq<char>)
    ensures
        scan_rec(a + b) == scan_from(scan_rec(a), b),
    decreases b.len(),
{
    if b.len() == 0 {
        assert(a + b =~= a);
    } else {
        assert((a + b).drop_last() =~= a + b.drop_last());
        assert((a + b).last() == b.last());
        lemma_scan_append(a, b.drop_last());
    }
}

/// `scan_from` itself composes over concatenation.
pub proof fn lemma_scan_from_append(st: (Seq<(char, Seq<char>)>, bool), a: Seq<char>, b: Seq<char>)
    ensures
        scan_from(st, a + b) == scan_from(scan_from(st, a), b),
    decreases b.len(),
{
    if b.len() == 0 {
        assert(a + b =~= a);
    } else {
        assert((a + b).drop_last() =~= a + b.drop_last());
        assert((a + b).last() == b.last());
        lemma_scan_from_append(st, a, b.drop_last());
    }
}

/// From an attached state, a digit stream attaches wholly to the last
/// token.
pub proof fn lemma_scan_digits(st: (Seq<(char, Seq<char>)>, bool), d: Seq<char>)
    requires
        st.1 == true,
        st.0.len() >= 1,
        crate::numerals::all_digits(d),
    ensures
        scan_from(st, d) == (
            st.0.update(st.0.len() - 1, (st.0.last().0, st.0.last().1 + d)),
            true,
        ),
    decreases d.len(),
{
    if d.len() == 0 {
        assert(st.0.last().1 + d =~= st.0.last().1);
        assert(st.0.update(st.0.len() - 1, (st.0.last().0, st.0.last().1 + d)) =~= st.0);
    } else {
        lemma_scan_digits(st, d.drop_last());
        let mid = scan_from(st, d.drop_last());
        assert(scan_from(st, d) == scan_step(mid, d.last()));
        assert(is_digit_char(d.last()));
        assert(mid.0.last() == (st.0.last().0, st.0.last().1 + d.drop_last()));
        assert(scan_step(mid, d.last()).0 == mid.0.update(
            mid.0.len() - 1,
            (st.0.last().0, (st.0.last().1 + d.drop_last()).push(d.last())),
        ));
        assert((st.0.last().1 + d.drop_last()).push(d.last()) =~= st.0.last().1 + d);
        assert(mid.0.update(mid.0.len() - 1, (st.0.last().0, st.0.last().1 + d)) =~= st.0.update(
            st.0.len() - 1,
            (st.0.last().0, st.0.last().1 + d),
        ));
    }
}

/// Tokens with their run lengths written back out as digit strings.
pub open spec fn toks_with_digits(toks: Seq<(char, nat)>) -> Seq<(char, Seq<char>)> {
    toks.map_values(|t: (char, nat)| (t.0, crate::numerals::dec_digits(t.1)))
}

/// Scanning a rendered token list recovers the tokens, digit for digit.
pub proof fn lemma_scan_render(toks: Seq<(char, nat)>)
    requires
        forall|i: int| 0 <= i < toks.len() ==> is_letter_char(#[trigger] toks[i].0),
    ensures
        scan_rec(render_tokens(toks)).0 == toks_with_digits(toks),
        scan_rec(render_tokens(toks)).1 == (toks.len() >= 1),
    decreases toks.len(),
{
    if toks.len() == 0 {
        assert(render_tokens(toks).len() == 0);
        assert(toks_with_digits(toks) =~= Seq::<(char, Seq<char>)>::empty());
    } else {
        let pre = toks.drop_last();
        let c = toks.last().0;
        let m = toks.last().1;
        let dd = crate::numerals::dec_digits(m);
        lemma_scan_render(pre);
        crate::numerals::lemma_dec_digits_val(m);
        let rp = render_tokens(pre);
        assert(render_tokens(toks) == rp + seq![c] + dd);
        assert(rp + seq![c] + dd =~= rp + (seq![c] + dd));
        lemma_scan_append(rp, seq![c] + dd);
        let st0 = scan_rec(rp);
        lemma_scan_from_append(st0, seq![c], dd);
        assert(seq![c].drop_last() =~= Seq::<char>::empty());
        assert(seq![c].last() == c);
        assert(scan_from(st0, Seq::<char>::empty()) == st0);
        assert(scan_from(st0, seq![c]) == scan_step(st0, c));
        assert(is_letter_char(c));
        let st1 = (st0.0.push((c, Seq::<char>::empty())), true);
        assert(scan_step(st0, c) == st1);
        lemma_scan_digits(st1, dd);
        assert(st1.0.last() == (c, Seq::<char>::empty()));
        assert(Seq::<char>::empty() + dd =~= dd);
        assert(st1.0.update(st1.0.len() - 1, (c, Seq::<char>::empty() + dd)) =~= st0.0.push(
            (c, dd),
        ));
        assert(scan_rec(render_tokens(toks)).0 == st0.0.push((c, dd)));
        assert(toks_with_digits(pre) =~= toks_with_digits(toks).drop_last());
        assert(st0.0.push((c, dd)) =~= toks_with_digits(toks));
    }
}

/// Every run the grouping yields has a letter drawn from the stream and
/// a length between 1 and the stream's length.
pub proof fn lemma_rle_shape(s: Seq<char>)
    ensures
        forall|i: int|
            0 <= i < rle(s).len() ==> s.contains(#[trigger] rle(s)[i].0) && 1 <= rle(s)[i].1
                <= s.len(),
        s.len() >= 1 ==> rle(s).len() >= 1 && rle(s).last().0 == s.last(),
    decreases s.len(),
{
    if s.len() > 0 {
        lemma_rle_shape(s.drop_last());
        let r0 = rle(s.drop_last());
        assert forall|i: int|
            0 <= i < rle(s).len() implies s.contains(#[trigger] rle(s)[i].0) && 1 <= rle(s)[i].1
            <= s.len() by {
            if i < r0.len() && rle(s)[i] == r0[i] {
                let k = choose|k: int| 0 <= k < s.drop_last().len() && s.drop_last()[k] == r0[i].0;
                assert(s[k] == r0[i].0);
            } else {
                assert(rle(s)[i].0 == s.last());
                assert(s[s.len() - 1] == s.last());
            }
        }
    }
}

/// Where the snake's single cell sits, if anywhere.
pub open spec fn snake_of(cells: Seq<Cell>) -> Option<int> {
    if exists|i: int| 0 <= i < cells.len() && cells[i] == Cell::Snake {
        Some(choose|i: int| 0 <= i < cells.len() && cells[i] == Cell::Snake)
    } else {
        None
    }
}

/// Expanding the run-length grouping of a board's letters recovers the
/// board, with Food read back as Plain, provided the board holds at
/// most one Snake cell.
pub proof fn lemma_expand_rle(cells: Seq<Cell>)
    requires
        forall|i: int, j: int|
            0 <= i < cells.len() && 0 <= j < cells.len() && cells[i] == Cell::Snake && cells[j]
                == Cell::Snake ==> i == j,
    ensures
        expand(rle(letters_of(cells))) == Ok::<(Seq<Cell>, Option<int>), DecodeError>(
            (defood(cells), snake_of(cells)),
        ),
    decreases cells.len(),
{
    let ls = letters_of(cells);
    if cells.len() == 0 {
        assert(ls =~= Seq::<char>::empty());
        assert(defood(cells) =~= Seq::<Cell>::empty());
    } else {
        let init = cells.drop_last();
        let last = cells.last();
        let c = letter_of(last);
        lemma_expand_rle(init);
        let ls0 = letters_of(init);
        assert(ls.drop_last() =~= ls0);
        assert(ls.last() == c);
        let r0 = rle(ls0);
        let r = rle(ls);
        assert(defood(cells).drop_last() =~= defood(init));
        assert(defood(cells).last() == if last == Cell::Food {
            Cell::Plain
        } else {
            last
        });
        if last == Cell::Snake {
            // the snake cell opens a run of its own: an adjacent second
            // snake cell would contradict uniqueness
            if r0.len() >= 1 && r0.last().0 == c {
                lemma_rle_shape(ls0);
                assert(ls0.last() == 'S');
                assert(letter_of(init.last()) == 'S');
                assert(init.last() == Cell::Snake);
                assert(cells[cells.len() - 2] == Cell::Snake);
                assert(cells[cells.len() - 1] == Cell::Snake);
                assert(false);
            }
            assert(r == r0.push((c, 1nat)));
            assert(r.drop_last() =~= r0);
            if snake_of(init) is Some {
                let k = choose|i: int| 0 <= i < init.len() && init[i] == Cell::Snake;
                assert(cells[k] == Cell::Snake);
                assert(false);
            }
            assert(expand(r) == expand_one(defood(init), None, c, 1));
            assert(expand(r) == Ok::<(Seq<Cell>, Option<int>), DecodeError>(
                (defood(init).push(Cell::Snake), Some(defood(init).len() as int)),
            ));
            assert(defood(init).push(Cell::Snake) =~= defood(cells));
            assert(cells[cells.len() - 1] == Cell::Snake);
            assert(snake_of(cells) == Some(cells.len() - 1));
        } else {
            // a Wall or Plain/Food cell: the snake position is untouched
            let emitted = if c == 'W' {
                Cell::Wall
            } else {
                Cell::Plain
            };
            assert(snake_of(cells) == snake_of(init)) by {
                if exists|i: int| 0 <= i < cells.len() && cells[i] == Cell::Snake {
                    let k = choose|i: int| 0 <= i < cells.len() && cells[i] == Cell::Snake;
                    assert(k < init.len());
                    assert(init[k] == Cell::Snake);
                    let k2 = choose|i: int| 0 <= i < init.len() && init[i] == Cell::Snake;
                    assert(cells[k2] == Cell::Snake);
                    assert(k2 == k);
                } else {
                    assert forall|i: int| 0 <= i < init.len() implies init[i] != Cell::Snake by {
                        assert(cells[i] == init[i]);
                    }
                }
            }
            assert(defood(cells).last() == emitted);
            if r0.len() >= 1 && r0.last().0 == c {
                let m = r0.last().1;
                assert(r == r0.update(r0.len() - 1, (c, (m + 1) as nat)));
                assert(r.len() == r0.len());
                assert(r.drop_last() =~= r0.drop_last());
                assert(r0.len() >= 1);
                assert(expand(r0) == match expand(r0.drop_last()) {
                    Err(e) => Err(e),
                    Ok(st) => expand_one(st.0, st.1, c, m),
                });
                assert(expand(r0.drop_last()) is Ok);
                let st0 = expand(r0.drop_last())->Ok_0;
                assert(expand_one(st0.0, st0.1, c, m) == Ok::<
                    (Seq<Cell>, Option<int>),
                    DecodeError,
                >((defood(init), snake_of(init))));
                assert(c == 'W' || c == 'E');
                assert(st0.0 + Seq::new(m, |x: int| emitted) == defood(init));
                assert(st0.1 == snake_of(init));
                assert(expand(r) == expand_one(st0.0, st0.1, c, (m + 1) as nat));
                assert(st0.0 + Seq::new((m + 1) as nat, |x: int| emitted) =~= (st0.0 + Seq::new(
                    m,
                    |x: int| emitted,
                )).push(emitted));
                assert(st0.0 + Seq::new((m + 1) as nat, |x: int| emitted) =~= defood(cells));
            } else {
                assert(r == r0.push((c, 1nat)));
                assert(r.drop_last() =~= r0);
                assert(c == 'W' || c == 'E');
                assert(expand(r) == expand_one(defood(init), snake_of(init), c, 1));
                assert(defood(init) + Seq::new(1nat, |x: int| emitted) =~= defood(cells));
            }
        }
    }
}

/// `find_char` returns the first occurrence: a position before which
/// the character never appears and at which it does, or the length when
/// it never appears at all.
pub proof fn lemma_find_char_from(s: Seq<char>, c: char, from: int, k: int)
    requires
        0 <= from <= k <= s.len(),
        forall|i: int| from <= i < k ==> s[i] != c,
        k == s.len() || s[k] == c,
    ensures
        find_char(s, c, from) == if k == s.len() {
            s.len() as int
        } else {
            k
        },
    decreases k - from,
{
    if from < k {
        lemma_find_char_from(s, c, from + 1, k);
    }
}

/// Law: decoding an encoded board yields the same height, width and
/// cell sequence — with Food reading back as Plain, since food is not
/// part of the encoded shape and is re-placed independently — and the
/// same single snake cell.
#[verifier::rlimit(100)]
#[verifier::spinoff_prover]
pub proof fn lemma_round_trip(height: nat, width: nat, cells: Seq<Cell>, si: int)
    requires
        height <= usize::MAX,
        width <= usize::MAX,
        cells.len() <= usize::MAX,
        cells.len() == width * height,
        0 <= si < cells.len(),
        cells[si] == Cell::Snake,
        forall|j: int| 0 <= j < cells.len() && #[trigger] cells[j] == Cell::Snake ==> j == si,
    ensures
        decode(encoding_of(height, width, cells)) == Ok::<(int, int, Seq<Cell>, int), DecodeError>(
            (height as int, width as int, defood(cells), si),
        ),
{
    let hd = crate::numerals::dec_digits(height);
    let wd = crate::numerals::dec_digits(width);
    crate::numerals::lemma_dec_digits_val(height);
    crate::numerals::lemma_dec_digits_val(width);
    let ls = letters_of(cells);
    let toks = rle(ls);
    let body = render_tokens(toks);
    let enc = encoding_of(height, width, cells);
    let head = seq!['B'] + hd + seq!['x'] + wd;
    let bar = head.len() as int;
    assert(enc =~= head + seq!['|'] + body);
    assert(enc.len() == bar + 1 + body.len());

    // the header holds no '|', and its dimension fields no 'x'
    assert forall|i: int| 0 <= i < bar implies enc[i] != '|' by {
        assert(enc[i] == head[i]);
        if 1 <= i < 1 + hd.len() {
            assert(head[i] == hd[i - 1]);
            assert(is_digit_char(hd[i - 1]));
        } else if i >= 2 + hd.len() {
            assert(head[i] == wd[i - 2 - hd.len()]);
            assert(is_digit_char(wd[i - 2 - hd.len()]));
        }
    }
    assert(enc[bar] == '|');
    lemma_find_char_from(enc, '|', 0, bar);
    assert(find_char(enc, '|', 0) == bar);

    let dims = enc.take(bar);
    assert(dims =~= head);
    assert(dims[0] == 'B');
    let fields = dims.skip(1);
    assert(fields =~= hd + seq!['x'] + wd);
    assert forall|i: int| 0 <= i < hd.len() implies fields[i] != 'x' by {
        assert(fields[i] == hd[i]);
        assert(is_digit_char(hd[i]));
    }
    assert(fields[hd.len() as int] == 'x');
    lemma_find_char_from(fields, 'x', 0, hd.len() as int);
    let x1 = hd.len() as int;
    assert(find_char(fields, 'x', 0) == x1);
    assert forall|i: int| x1 + 1 <= i < fields.len() implies fields[i] != 'x' by {
        assert(fields[i] == wd[i - x1 - 1]);
        assert(is_digit_char(wd[i - x1 - 1]));
    }
    lemma_find_char_from(fields, 'x', x1 + 1, fields.len() as int);
    assert(find_char(fields, 'x', x1 + 1) == fields.len());

    let hs = fields.take(x1);
    let ws = fields.skip(x1 + 1);
    assert(hs =~= hd);
    assert(ws =~= wd);
    assert(crate::numerals::parse_body(hd) == hd) by {
        assert(is_digit_char(hd[0]));
    }
    assert(crate::numerals::parse_body(wd) == wd) by {
        assert(is_digit_char(wd[0]));
    }
    assert(parses_as_usize(hd));
    assert(parses_as_usize(wd));
    assert(usize_value(hd) == height);
    assert(usize_value(wd) == width);

    // the body scans back to the very tokens the encoder rendered
    assert(enc.skip(bar + 1) =~= body);
    lemma_rle_shape(ls);
    assert forall|i: int| 0 <= i < toks.len() implies is_letter_char(#[trigger] toks[i].0) by {
        let k = choose|k: int| 0 <= k < ls.len() && ls[k] == toks[i].0;
        assert(ls[k] == letter_of(cells[k]));
    }
    lemma_scan_render(toks);
    assert(counts_of(toks_with_digits(toks)) =~= toks) by {
        assert forall|i: int| 0 <= i < toks.len() implies counts_of(toks_with_digits(toks))[i]
            == toks[i] by {
            crate::numerals::lemma_dec_digits_val(toks[i].1);
            assert(ls.contains(rle(ls)[i].0) && 1 <= rle(ls)[i].1 <= ls.len());
            assert(toks[i].1 <= ls.len());
            assert(token_count(crate::numerals::dec_digits(toks[i].1)) == toks[i].1);
        }
    }
    assert forall|i: int, j: int|
        0 <= i < cells.len() && 0 <= j < cells.len() && cells[i] == Cell::Snake && cells[j]
            == Cell::Snake implies i == j by {}
    lemma_expand_rle(cells);
    assert(snake_of(cells) == Some(si)) by {
        assert(exists|i: int| 0 <= i < cells.len() && cells[i] == Cell::Snake);
        let k = choose|i: int| 0 <= i < cells.len() && cells[i] == Cell::Snake;
        assert(k == si);
    }
    assert(defood(cells).len() == cells.len());
    assert(decode(enc) == Ok::<(int, int, Seq<Cell>, int), DecodeError>(
        (height as int, width as int, defood(cells), si),
    ));
}

} // verus!
