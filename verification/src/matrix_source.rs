//! The connection-cost source text: a header with the two table sizes, then
//! one `previous next cost` line per cost, with blank lines and `#` comments.

use vstd::prelude::*;
use crate::numbers::{parse_i32, parse_usize, spec_parse_i32, spec_parse_usize, IntErrorKind};
use crate::scan::{chars_views, spec_fields, spec_lines, spec_trim, split_fields, split_lines, trim};
use crate::text::chars_of;

verus! {

/// Why a connection-cost text cannot be read; lines count from 1 and include the header.
#[derive(Debug, Clone, Copy, PartialEq, Eq, Structural)]
pub enum MatrixSourceError {
    Empty,
    MissingPreviousSize,
    MissingNextSize,
    InvalidNumber(IntErrorKind),
    DimensionsOverflow,
    MissingPreviousId { line: usize },
    MissingNextId { line: usize },
    MissingCost { line: usize },
    OutOfRange { line: usize },
}

/// `costs` after the cost line `line`, numbered `number`.
pub open spec fn spec_cost_line(
    costs: Seq<i16>,
    previous_size: usize,
    next_size: usize,
    line: Seq<char>,
    number: int,
) -> Result<Seq<i16>, MatrixSourceError> {
    let t = spec_trim(line);
    let at = number as usize;
    if t.len() == 0 || t[0] == '#' {
        Ok(costs)
    } else {
        let f = spec_fields(t, false);
        if f.len() < 1 {
            Err(MatrixSourceError::MissingPreviousId { line: at })
        } else {
            match spec_parse_usize(f[0]) {
                Err(k) => Err(MatrixSourceError::InvalidNumber(k)),
                Ok(previous) => if f.len() < 2 {
                    Err(MatrixSourceError::MissingNextId { line: at })
                } else {
                    match spec_parse_usize(f[1]) {
                        Err(k) => Err(MatrixSourceError::InvalidNumber(k)),
                        Ok(next) => if f.len() < 3 {
                            Err(MatrixSourceError::MissingCost { line: at })
                        } else {
                            match spec_parse_i32(f[2]) {
                                Err(k) => Err(MatrixSourceError::InvalidNumber(k)),
                                Ok(cost) => if previous >= previous_size || next >= next_size || cost < i16::MIN
                                    || cost > i16::MAX {
                                    Err(MatrixSourceError::OutOfRange { line: at })
                                } else {
                                    Ok(costs.update(previous * next_size + next, cost as i16))
                                },
                            }
                        },
                    }
                },
            }
        }
    }
}

/// The costs after the lines `1..k` of `lines`, from all zeros.
pub open spec fn spec_cost_lines(
    lines: Seq<Seq<char>>,
    k: int,
    previous_size: usize,
    next_size: usize,
) -> Result<Seq<i16>, MatrixSourceError>
    decreases k,
{
    if k <= 1 {
        Ok(Seq::new((previous_size * next_size) as nat, |i: int| 0i16))
    } else {
        match spec_cost_lines(lines, k - 1, previous_size, next_size) {
            Err(e) => Err(e),
            Ok(costs) => spec_cost_line(costs, previous_size, next_size, lines[k - 1], k),
        }
    }
}

/// The table sizes and the costs, row by row, that a connection-cost text gives.
pub open spec fn spec_parse_matrix(text: Seq<char>) -> Result<(usize, usize, Seq<i16>), MatrixSourceError> {
    let lines = spec_lines(text);
    if lines.len() == 0 {
        Err(MatrixSourceError::Empty)
    } else {
        let dims = spec_fields(lines[0], false);
        if dims.len() < 1 {
            Err(MatrixSourceError::MissingPreviousSize)
        } else {
            match spec_parse_usize(dims[0]) {
                Err(k) => Err(MatrixSourceError::InvalidNumber(k)),
                Ok(previous_size) => if dims.len() < 2 {
                    Err(MatrixSourceError::MissingNextSize)
                } else {
                    match spec_parse_usize(dims[1]) {
                        Err(k) => Err(MatrixSourceError::InvalidNumber(k)),
                        Ok(next_size) => if previous_size * next_size > usize::MAX {
                            Err(MatrixSourceError::DimensionsOverflow)
                        } else {
                            match spec_cost_lines(lines, lines.len() as int, previous_size, next_size) {
                                Err(e) => Err(e),
                                Ok(costs) => Ok((previous_size, next_size, costs)),
                            }
                        },
                    }
                },
            }
        }
    }
}

proof fn lemma_cell(p: int, n: int, rows: int, cols: int)
    requires
        0 <= p < rows,
        0 <= n < cols,
    ensures
        0 <= p * cols + n < rows * cols,
{
    assert(p * cols + n < rows * cols) by (nonlinear_arith)
        requires
            0 <= p < rows,
            0 <= n < cols,
    ;
    assert(0 <= p * cols) by (nonlinear_arith)
        requires
            0 <= p,
            0 <= cols,
    ;
}

fn cost_line(costs: &mut Vec<i16>, previous_size: usize, next_size: usize, line: &[char], number: usize) -> (r: Result<
    (),
    MatrixSourceError,
>)
    requires
        old(costs)@.len() == previous_size * next_size,
        previous_size * next_size <= usize::MAX,
    ensures
        match spec_cost_line(old(costs)@, previous_size, next_size, line@, number as int) {
            Ok(c) => r is Ok && final(costs)@ == c,
            Err(e) => r == Err::<(), MatrixSourceError>(e),
        },
        final(costs)@.len() == old(costs)@.len(),
{
    let t = trim(line);
    if t.len() == 0 || t[0] == '#' {
        return Ok(());
    }
    let f = split_fields(t.as_slice(), false);
    proof {
        assert(chars_views(f@).len() == f@.len());
    }
    if f.len() < 1 {
        return Err(MatrixSourceError::MissingPreviousId { line: number });
    }
    proof {
        assert(chars_views(f@)[0] == f@[0]@);
    }
    let previous = match parse_usize(f[0].as_slice()) {
        Ok(v) => v,
        Err(k) => {
            return Err(MatrixSourceError::InvalidNumber(k));
        },
    };
    if f.len() < 2 {
        return Err(MatrixSourceError::MissingNextId { line: number });
    }
    proof {
        assert(chars_views(f@)[1] == f@[1]@);
    }
    let next = match parse_usize(f[1].as_slice()) {
        Ok(v) => v,
        Err(k) => {
            return Err(MatrixSourceError::InvalidNumber(k));
        },
    };
    if f.len() < 3 {
        return Err(MatrixSourceError::MissingCost { line: number });
    }
    proof {
        assert(chars_views(f@)[2] == f@[2]@);
    }
    let cost = match parse_i32(f[2].as_slice()) {
        Ok(v) => v,
        Err(k) => {
            return Err(MatrixSourceError::InvalidNumber(k));
        },
    };
    if previous >= previous_size || next >= next_size || cost < i16::MIN as i32 || cost > i16::MAX as i32 {
        return Err(MatrixSourceError::OutOfRange { line: number });
    }
    proof {
        lemma_cell(previous as int, next as int, previous_size as int, next_size as int);
    }
    let index = previous * next_size + next;
    costs.set(index, cost as i16);
    Ok(())
}

proof fn lemma_cost_lines_error_sticks(lines: Seq<Seq<char>>, k: int, n: int, previous_size: usize, next_size: usize)
    requires
        1 <= k <= n,
        spec_cost_lines(lines, k, previous_size, next_size) is Err,
    ensures
        spec_cost_lines(lines, n, previous_size, next_size) == spec_cost_lines(lines, k, previous_size, next_size),
    decreases n - k,
{
    if n > k {
        lemma_cost_lines_error_sticks(lines, k, n - 1, previous_size, next_size);
    }
}

/// The table sizes and the costs of a connection-cost text.
pub fn parse_matrix(text: &str) -> (r: Result<(usize, usize, Vec<i16>), MatrixSourceError>)
    ensures
        match spec_parse_matrix(text@) {
            Ok((p, n, costs)) => r matches Ok(v) && v.0 == p && v.1 == n && v.2@ == costs,
            Err(e) => r == Err::<(usize, usize, Vec<i16>), MatrixSourceError>(e),
        },
{
    let chars = chars_of(text);
    let lines = split_lines(chars.as_slice());
    let ghost lv = chars_views(lines@);
    if lines.len() == 0 {
        return Err(MatrixSourceError::Empty);
    }
    proof {
        assert(lv[0] == lines@[0]@);
    }
    let dims = split_fields(lines[0].as_slice(), false);
    proof {
        assert(chars_views(dims@).len() == dims@.len());
    }
    if dims.len() < 1 {
        return Err(MatrixSourceError::MissingPreviousSize);
    }
    proof {
        assert(chars_views(dims@)[0] == dims@[0]@);
    }
    let previous_size = match parse_usize(dims[0].as_slice()) {
        Ok(v) => v,
        Err(k) => {
            return Err(MatrixSourceError::InvalidNumber(k));
        },
    };
    if dims.len() < 2 {
        return Err(MatrixSourceError::MissingNextSize);
    }
    proof {
        assert(chars_views(dims@)[1] == dims@[1]@);
    }
    let next_size = match parse_usize(dims[1].as_slice()) {
        Ok(v) => v,
        Err(k) => {
            return Err(MatrixSourceError::InvalidNumber(k));
        },
    };
    let len = match previous_size.checked_mul(next_size) {
        Some(v) => v,
        None => {
            return Err(MatrixSourceError::DimensionsOverflow);
        },
    };
    let mut costs: Vec<i16> = Vec::new();
    let mut i: usize = 0;
    while i < len
        invariant
            i <= len,
            costs@ == Seq::new(i as nat, |j: int| 0i16),
        decreases len - i,
    {
        costs.push(0);
        proof {
            assert(costs@ =~= Seq::new((i + 1) as nat, |j: int| 0i16));
        }
        i = i + 1;
    }
    let ghost total = lv.len() as int;
    let mut k: usize = 1;
    proof {
        assert(spec_cost_lines(lv, 1, previous_size, next_size) == Ok::<Seq<i16>, MatrixSourceError>(costs@));
    }
    while k < lines.len()
        invariant
            1 <= k <= lines@.len(),
            lv == chars_views(lines@),
            total == lv.len(),
            len == previous_size * next_size,
            previous_size * next_size <= usize::MAX,
            costs@.len() == len,
            spec_parse_matrix(text@) == match spec_cost_lines(lv, total, previous_size, next_size) {
                Err(e) => Err(e),
                Ok(c) => Ok((previous_size, next_size, c)),
            },
            spec_cost_lines(lv, k as int, previous_size, next_size) == Ok::<Seq<i16>, MatrixSourceError>(costs@),
        decreases lines@.len() - k,
    {
        proof {
            assert(lv[k as int] == lines@[k as int]@);
        }
        let res = cost_line(&mut costs, previous_size, next_size, lines[k].as_slice(), k + 1);
        if let Err(e) = res {
            proof {
                assert(spec_cost_lines(lv, k + 1, previous_size, next_size) == Err::<Seq<i16>, MatrixSourceError>(e));
                lemma_cost_lines_error_sticks(lv, k + 1, total, previous_size, next_size);
            }
            return Err(e);
        }
        k = k + 1;
    }
    Ok((previous_size, next_size, costs))
}

} // verus!
