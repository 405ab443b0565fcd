//! Bounded-region counting: how many records edit a single pixel inside a
//! rectangle.

use vstd::prelude::*;
use crate::access::{ascii_text, line_fault, location_of, Access, Location};
use crate::engine::Bounds;
use crate::error::FormatError;

verus! {

/// Whether a line counts: it must be a record of a single pixel inside the bounds.
/// A rectangle does not count; a line that is no record is an error.
pub open spec fn counted(line: Seq<u8>, bounds: Bounds) -> Result<bool, FormatError> {
    match line_fault(line) {
        Some(fault) => Err(fault),
        None => match location_of(ascii_text(line)) {
            Err(fault) => Err(fault),
            Ok(Location::Coords(x, y)) => Ok(bounds.contains(x, y)),
            Ok(Location::Range(_, _, _, _)) => Ok(false),
        },
    }
}

/// The number of lines that count, or the error of the first line that is no
/// record.
pub open spec fn count_in_bounds(lines: Seq<Seq<u8>>, bounds: Bounds) -> Result<nat, FormatError>
    decreases lines.len(),
{
    if lines.len() == 0 {
        Ok(0)
    } else {
        match count_in_bounds(lines.drop_last(), bounds) {
            Err(fault) => Err(fault),
            Ok(count) => match counted(lines.last(), bounds) {
                Err(fault) => Err(fault),
                Ok(hit) => Ok(
                    if hit {
                        count + 1
                    } else {
                        count
                    },
                ),
            },
        }
    }
}

/// The bytes of each line.
pub open spec fn lines_of(lines: Seq<Vec<u8>>) -> Seq<Seq<u8>> {
    Seq::new(lines.len(), |i: int| lines[i]@)
}

/// Decides whether one line counts.
pub fn is_access_in_bounds(line: &[u8], bounds: &Bounds) -> (result: Result<bool, FormatError>)
    ensures
        result == counted(line@, *bounds),
{
    let record = match Access::read(line) {
        Ok(record) => record,
        Err(fault) => {
            return Err(fault);
        },
    };
    match record.coords() {
        Err(fault) => Err(fault),
        Ok(Location::Coords(x, y)) => Ok(bounds.includes(x, y)),
        Ok(Location::Range(_, _, _, _)) => Ok(false),
    }
}

/// Counts the lines that edit a single pixel inside `bounds`.
pub fn count_access_in_bounds(lines: &Vec<Vec<u8>>, bounds: &Bounds) -> (result: Result<
    usize,
    FormatError,
>)
    ensures
        match result {
            Ok(count) => count_in_bounds(lines_of(lines@), *bounds) == Ok::<nat, FormatError>(
                count as nat,
            ),
            Err(fault) => count_in_bounds(lines_of(lines@), *bounds) == Err::<nat, FormatError>(
                fault,
            ),
        },
{
    let ghost all = lines_of(lines@);
    let n: usize = lines.len();
    let mut count: usize = 0;
    let mut i: usize = 0;
    while i < n
        invariant
            i <= n,
            n == lines@.len(),
            all == lines_of(lines@),
            count <= i,
            count_in_bounds(all.subrange(0, i as int), *bounds) == Ok::<nat, FormatError>(
                count as nat,
            ),
        decreases n - i,
    {
        let ghost longer = all.subrange(0, i + 1);
        assert(longer.drop_last() =~= all.subrange(0, i as int));
        assert(longer.last() == lines@[i as int]@);
        match is_access_in_bounds(lines[i].as_slice(), bounds) {
            Ok(hit) => {
                if hit {
                    count = count + 1;
                }
            },
            Err(fault) => {
                proof {
                    lemma_count_fails_on(all, *bounds, i + 1);
                }
                return Err(fault);
            },
        }
        i = i + 1;
    }
    assert(all.subrange(0, n as int) =~= all);
    Ok(count)
}

/// Where the count of the first lines fails, the count of all lines fails alike.
proof fn lemma_count_fails_on(lines: Seq<Seq<u8>>, bounds: Bounds, upto: int)
    requires
        0 <= upto <= lines.len(),
        count_in_bounds(lines.subrange(0, upto), bounds) is Err,
    ensures
        count_in_bounds(lines, bounds) == count_in_bounds(lines.subrange(0, upto), bounds),
    decreases lines.len() - upto,
{
    if upto < lines.len() {
        let longer = lines.subrange(0, upto + 1);
        assert(longer.drop_last() =~= lines.subrange(0, upto));
        lemma_count_fails_on(lines, bounds, upto + 1);
    } else {
        assert(lines.subrange(0, upto) =~= lines);
    }
}

} // verus!
