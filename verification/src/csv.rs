//! Comma-separated rows, with double-quoted fields, as the lexicon sources use them.

use vstd::prelude::*;
use crate::scan::strip_cr;
use crate::text::{chars_of, string_from_chars};

verus! {

/// The text has a quoted field that never closes.
#[derive(Debug, Clone, Copy, PartialEq, Eq, Structural)]
pub enum CsvError {
    UnterminatedQuote,
}

/// Where the reader stands: the finished rows, the fields of the current row,
/// the current field, and whether it is inside quotes.
pub struct CsvState {
    pub rows: Seq<Seq<Seq<char>>>,
    pub row: Seq<Seq<char>>,
    pub field: Seq<char>,
    pub quoted: bool,
}

pub open spec fn all_empty(row: Seq<Seq<char>>) -> bool {
    forall|i: int| 0 <= i < row.len() ==> (#[trigger] row[i]).len() == 0
}

/// Reads `s[i..]` from the state `st`. Inside quotes a doubled quote is one
/// quote and a single quote closes them; outside, a quote opens them at the
/// start of a field, a comma ends the field, and a line feed ends the field
/// (without a carriage return before it) and the row, which is kept unless all
/// its fields are empty.
pub open spec fn csv_from(s: Seq<char>, i: int, st: CsvState) -> CsvState
    decreases s.len() - i,
{
    if i < 0 || i >= s.len() {
        st
    } else if st.quoted {
        if s[i] == '"' && i + 1 < s.len() && s[i + 1] == '"' {
            csv_from(s, i + 2, CsvState { field: st.field.push('"'), ..st })
        } else if s[i] == '"' {
            csv_from(s, i + 1, CsvState { quoted: false, ..st })
        } else {
            csv_from(s, i + 1, CsvState { field: st.field.push(s[i]), ..st })
        }
    } else if s[i] == '"' && st.field.len() == 0 {
        csv_from(s, i + 1, CsvState { quoted: true, ..st })
    } else if s[i] == ',' {
        csv_from(s, i + 1, CsvState { row: st.row.push(st.field), field: Seq::empty(), ..st })
    } else if s[i] == '\n' {
        let row = st.row.push(strip_cr(st.field));
        let rows = if all_empty(row) {
            st.rows
        } else {
            st.rows.push(row)
        };
        csv_from(s, i + 1, CsvState { rows, row: Seq::empty(), field: Seq::empty(), quoted: false })
    } else {
        csv_from(s, i + 1, CsvState { field: st.field.push(s[i]), ..st })
    }
}

/// The rows of `s`: those read up to its end, and a last row without a line
/// feed when anything of it was read.
pub open spec fn spec_parse_csv(s: Seq<char>) -> Result<Seq<Seq<Seq<char>>>, CsvError> {
    let st = csv_from(s, 0, CsvState { rows: Seq::empty(), row: Seq::empty(), field: Seq::empty(), quoted: false });
    if st.quoted {
        Err(CsvError::UnterminatedQuote)
    } else if st.field.len() > 0 || st.row.len() > 0 {
        Ok(st.rows.push(st.row.push(strip_cr(st.field))))
    } else {
        Ok(st.rows)
    }
}

pub open spec fn row_view(row: Seq<String>) -> Seq<Seq<char>> {
    row.map_values(|f: String| f@)
}

pub open spec fn rows_view(rows: Seq<Vec<String>>) -> Seq<Seq<Seq<char>>> {
    rows.map_values(|r: Vec<String>| row_view(r@))
}

fn field_text(field: &mut Vec<char>, strip: bool) -> (r: String)
    ensures
        r@ == (if strip {
            strip_cr(old(field)@)
        } else {
            old(field)@
        }),
        final(field)@ == Seq::<char>::empty(),
{
    if strip && field.len() > 0 && field[field.len() - 1] == '\r' {
        field.pop();
    }
    let text = string_from_chars(field.as_slice(), 0, field.len());
    proof {
        assert(field@.subrange(0, field@.len() as int) =~= field@);
    }
    field.clear();
    text
}

/// The rows of comma-separated `input`.
pub fn parse_csv(input: &str) -> (r: Result<Vec<Vec<String>>, CsvError>)
    ensures
        match spec_parse_csv(input@) {
            Ok(rows) => r matches Ok(v) && rows_view(v@) == rows,
            Err(e) => r == Err::<Vec<Vec<String>>, CsvError>(e),
        },
{
    let s = chars_of(input);
    let mut rows: Vec<Vec<String>> = Vec::new();
    let mut row: Vec<String> = Vec::new();
    let mut field: Vec<char> = Vec::new();
    let mut quoted = false;
    let mut blank = true;
    let mut i: usize = 0;
    proof {
        assert(rows_view(rows@) =~= Seq::<Seq<Seq<char>>>::empty());
        assert(row_view(row@) =~= Seq::<Seq<char>>::empty());
        assert(field@ =~= Seq::<char>::empty());
    }
    while i < s.len()
        invariant
            i <= s@.len(),
            s@ == input@,
            csv_from(s@, 0, CsvState { rows: Seq::empty(), row: Seq::empty(), field: Seq::empty(), quoted: false })
                == csv_from(
                s@,
                i as int,
                CsvState { rows: rows_view(rows@), row: row_view(row@), field: field@, quoted },
            ),
            blank == all_empty(row_view(row@)),
        decreases s@.len() - i,
    {
        let c = s[i];
        if quoted {
            if c == '"' && i + 1 < s.len() && s[i + 1] == '"' {
                field.push('"');
                i = i + 2;
            } else if c == '"' {
                quoted = false;
                i = i + 1;
            } else {
                field.push(c);
                i = i + 1;
            }
        } else if c == '"' && field.len() == 0 {
            quoted = true;
            i = i + 1;
        } else if c == ',' {
            let empty_field = field.len() == 0;
            let text = field_text(&mut field, false);
            let ghost before = row_view(row@);
            row.push(text);
            proof {
                assert(row_view(row@) =~= before.push(text@));
                assert(all_empty(row_view(row@)) == (all_empty(before) && text@.len() == 0)) by {
                    if all_empty(before) && text@.len() == 0 {
                        assert forall|j: int| 0 <= j < row_view(row@).len() implies (#[trigger] row_view(row@)[j]).len() == 0 by {
                            if j < before.len() {
                                assert(row_view(row@)[j] == before[j]);
                            }
                        }
                    }
                    if all_empty(row_view(row@)) {
                        assert(row_view(row@)[before.len() as int] == text@);
                        assert forall|j: int| 0 <= j < before.len() implies (#[trigger] before[j]).len() == 0 by {
                            assert(row_view(row@)[j] == before[j]);
                        }
                    }
                }
            }
            blank = blank && empty_field;
            i = i + 1;
        } else if c == '\n' {
            let text = field_text(&mut field, true);
            let ghost before = row_view(row@);
            let last_blank = text.as_str().is_empty();
            row.push(text);
            proof {
                assert(row_view(row@) =~= before.push(text@));
                assert(all_empty(row_view(row@)) == (all_empty(before) && text@.len() == 0)) by {
                    if all_empty(before) && text@.len() == 0 {
                        assert forall|j: int| 0 <= j < row_view(row@).len() implies (#[trigger] row_view(row@)[j]).len() == 0 by {
                            if j < before.len() {
                                assert(row_view(row@)[j] == before[j]);
                            }
                        }
                    }
                    if all_empty(row_view(row@)) {
                        assert(row_view(row@)[before.len() as int] == text@);
                        assert forall|j: int| 0 <= j < before.len() implies (#[trigger] before[j]).len() == 0 by {
                            assert(row_view(row@)[j] == before[j]);
                        }
                    }
                }
            }
            let mut done: Vec<String> = Vec::new();
            std::mem::swap(&mut done, &mut row);
            if !(blank && last_blank) {
                let ghost rb = rows_view(rows@);
                rows.push(done);
                proof {
                    assert(rows_view(rows@) =~= rb.push(row_view(done@)));
                }
            }
            proof {
                assert(row_view(row@) =~= Seq::<Seq<char>>::empty());
            }
            blank = true;
            i = i + 1;
        } else {
            field.push(c);
            i = i + 1;
        }
    }
    if quoted {
        return Err(CsvError::UnterminatedQuote);
    }
    if field.len() > 0 || row.len() > 0 {
        let text = field_text(&mut field, true);
        let ghost before = row_view(row@);
        row.push(text);
        proof {
            assert(row_view(row@) =~= before.push(text@));
        }
        let ghost rb = rows_view(rows@);
        let ghost last = row_view(row@);
        rows.push(row);
        proof {
            assert(rows_view(rows@) =~= rb.push(last));
        }
    }
    Ok(rows)
}

} // verus!
