use vstd::prelude::*;
use vstd::string::StringSliceAdditionalSpecFns;

verus! {

/// A position in a text: a line and a column, both counted from zero, the
/// column in bytes.
#[derive(Clone, Copy)]
pub struct Loc {
    pub line: u32,
    pub column: u32,
}

/// Why a position does not exist in a text.
#[derive(Clone, PartialEq, Eq, Debug)]
pub enum Loc_To_Index_Error {
    NOT_EXISTNIG_LINE,
    NOT_EXISTNIG_COLUMN,
}

/// The number of line breaks in `b[..i]`.
pub open spec fn breaks_before(b: Seq<u8>, i: int) -> nat
    decreases i,
{
    if i <= 0 {
        0
    } else {
        breaks_before(b, i - 1) + if b[i - 1] == 10u8 {
            1nat
        } else {
            0nat
        }
    }
}

/// `p` is where line `line` of `b` begins: the start of `b` for the first line,
/// else just after the `line`-th line break.
pub open spec fn is_line_start(b: Seq<u8>, line: nat, p: int) -> bool {
    if line == 0 {
        p == 0
    } else {
        0 < p <= b.len() && b[p - 1] == 10u8 && breaks_before(b, p) == line
    }
}

proof fn lemma_breaks_monotonic(b: Seq<u8>, i: int, j: int)
    requires
        0 <= i <= j <= b.len(),
    ensures
        breaks_before(b, i) <= breaks_before(b, j),
    decreases j - i,
{
    if j > i {
        lemma_breaks_monotonic(b, i, j - 1);
    }
}

impl Loc {
    /// The byte offset of this position in `code`. Fails where `code` has no
    /// such line, or where that line ends before the column.
    pub fn to_index(self, code: &str) -> (r: Result<usize, Loc_To_Index_Error>)
        ensures
            ({
                let b = code.spec_bytes();
                match r {
                    Ok(p) => exists|s: int| is_line_start(b, self.line as nat, s)
                        && p == s + self.column
                        && p <= b.len()
                        && forall|k: int| s <= k < p ==> b[k] != 10u8,
                    Err(Loc_To_Index_Error::NOT_EXISTNIG_LINE) =>
                        forall|s: int| !is_line_start(b, self.line as nat, s),
                    Err(Loc_To_Index_Error::NOT_EXISTNIG_COLUMN) => exists|s: int| is_line_start(b, self.line as nat, s)
                        && (s + self.column > b.len()
                        || exists|k: int| s <= k < s + self.column && b[k] == 10u8),
                }
            }),
    {
        let b = code.as_bytes();
        let col_begin = line_to_index(self.line, code)?;
        if self.column as usize > b.len() - col_begin {
            assert(is_line_start(b@, self.line as nat, col_begin as int));
            return Err(Loc_To_Index_Error::NOT_EXISTNIG_COLUMN);
        }
        let pos = col_begin + self.column as usize;
        let mut k = col_begin;
        while k < pos
            invariant
                col_begin <= k <= pos <= b@.len(),
                b@ == code.spec_bytes(),
                pos == col_begin + self.column,
                is_line_start(b@, self.line as nat, col_begin as int),
                forall|j: int| col_begin <= j < k ==> b@[j] != 10u8,
            decreases pos - k,
        {
            if b[k] == 10u8 {
                assert(is_line_start(b@, self.line as nat, col_begin as int));
                assert(col_begin <= k < col_begin + self.column && b@[k as int] == 10u8);
                return Err(Loc_To_Index_Error::NOT_EXISTNIG_COLUMN);
            }
            k = k + 1;
        }
        assert(is_line_start(b@, self.line as nat, col_begin as int));
        Ok(pos)
    }
}

/// Where line `line` of `code` begins.
fn line_to_index(line: u32, code: &str) -> (r: Result<usize, Loc_To_Index_Error>)
    ensures
        match r {
            Ok(p) => is_line_start(code.spec_bytes(), line as nat, p as int),
            Err(e) => e == Loc_To_Index_Error::NOT_EXISTNIG_LINE
                && forall|s: int| !is_line_start(code.spec_bytes(), line as nat, s),
        },
{
    if line == 0 {
        return Ok(0);
    }
    let b = code.as_bytes();
    let mut curr_line: u32 = 0;
    let mut idx: usize = 0;
    while idx < b.len()
        invariant
            0 < line,
            idx <= b@.len(),
            b@ == code.spec_bytes(),
            curr_line == breaks_before(b@, idx as int),
            curr_line < line,
        decreases b@.len() - idx,
    {
        assert(breaks_before(b@, idx + 1) == breaks_before(b@, idx as int) + if b@[idx as int] == 10u8 { 1nat } else { 0nat });
        if b[idx] == 10u8 {
            curr_line = curr_line + 1;
            if curr_line == line {
                assert(breaks_before(b@, (idx + 1) as int) == line as nat);
                assert(b@[idx as int] == 10u8);
                assert(is_line_start(b@, line as nat, (idx + 1) as int));
                return Ok(idx + 1);
            }
        }
        idx = idx + 1;
    }
    proof {
        assert forall|s: int| !is_line_start(b@, line as nat, s) by {
            if 0 < s <= b@.len() {
                lemma_breaks_monotonic(b@, s, b@.len() as int);
            }
        }
    }
    Err(Loc_To_Index_Error::NOT_EXISTNIG_LINE)
}

/// The position at `line` and `column`.
pub fn loc(line: u32, column: u32) -> (r: Loc)
    ensures
        r.line == line,
        r.column == column,
{
    Loc { line, column }
}

} // verus!
