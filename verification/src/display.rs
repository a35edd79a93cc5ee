//! Human-readable rendering of Klondike tableaus.
//!
//! Every renderer's contract states the exact character sequence it
//! produces, over the position's model: face-down cards show as
//! `XX`, face-up cards as their two-character code.

use crate::card::{card_str, card_valid, Card, Rank, Suit};
use crate::tableau::{tab_shape, tab_wf, ColModel, TabModel, Tableau};
use crate::text::{dec_digits, push_u8_decimal};
use vstd::prelude::*;
use vstd::string::StringExecFns;

verus! {

/// The display form of one card cell: the card's code when face-up,
/// `XX` when face-down.
pub open spec fn spec_card_visible(c: Card, face_up: bool) -> Seq<char> {
    if face_up {
        card_str(c)
    } else {
        "XX"@
    }
}

/// Format a single card for display, either face-up or face-down.
pub fn format_card_visible(card: Card, face_up: bool) -> (r: String)
    requires
        card_valid(card),
    ensures
        r@ == spec_card_visible(card, face_up),
{
    if face_up {
        card.short_str()
    } else {
        let mut s = String::new();
        s.append("XX");
        proof {
            assert(s@ =~= "XX"@);
        }
        s
    }
}

/// One foundation slot: `[  ]` when empty, else the top card in
/// brackets (foundation `i` belongs to suit `i`).
pub open spec fn found_cell(f: int, i: int) -> Seq<char> {
    if f == 0 {
        "[  ]"@
    } else {
        "["@ + card_str(Card((i * 13 + f - 1) as u8)) + "]"@
    }
}

/// The first `n` foundation slots, separated by single spaces.
pub open spec fn found_cells(found: Seq<int>, n: int) -> Seq<char>
    decreases n,
{
    if n <= 0 {
        Seq::empty()
    } else {
        found_cells(found, n - 1) + (if n > 1 {
            " "@
        } else {
            Seq::<char>::empty()
        }) + found_cell(found[n - 1], n - 1)
    }
}

/// The full foundations line.
pub open spec fn render_foundations_spec(t: TabModel) -> Seq<char> {
    "Foundations: "@ + found_cells(t.found, 4)
}

/// Render the foundation row, showing the top card of each pile.
pub fn render_foundations(tab: &Tableau) -> (r: String)
    requires
        tab_shape(tab@),
    ensures
        r@ == render_foundations_spec(tab@),
{
    let ghost t = tab@;
    let mut s = String::new();
    s.append("Foundations: ");
    let mut i: usize = 0;
    while i < 4
        invariant
            i <= 4,
            t == tab@,
            tab_shape(t),
            s@ == "Foundations: "@ + found_cells(t.found, i as int),
        decreases 4 - i,
    {
        if i > 0 {
            s.append(" ");
        }
        let f = tab.foundations[i];
        proof {
            assert(0 <= t.found[i as int] <= 13);
        }
        if f == 0 {
            s.append("[  ]");
        } else {
            let card = Card::new(Suit::from_u8(i as u8), Rank::from_u8(f - 1));
            let cs = card.short_str();
            s.append("[");
            s.append(cs.as_str());
            s.append("]");
        }
        proof {
            assert(s@ =~= "Foundations: "@ + found_cells(t.found, i + 1));
        }
        i = i + 1;
    }
    s
}

/// The stock-and-waste line: the stock as a count, the waste as its
/// top card plus a count.
pub open spec fn render_stock_waste_spec(t: TabModel) -> Seq<char> {
    (if t.stock.len() == 0 {
        "Stock: [empty]"@
    } else {
        "Stock: ["@ + dec_digits(t.stock.len() as int) + " cards]"@
    }) + "    "@ + (if t.waste.len() == 0 {
        "Waste: [empty]"@
    } else {
        "Waste: ["@ + card_str(t.waste.last()) + "] ("@ + dec_digits(t.waste.len() as int)
            + " cards)"@
    })
}

/// Render the stock (count only) and waste (top card and count) on a
/// single line.
pub fn render_stock_and_waste(tab: &Tableau) -> (r: String)
    requires
        tab_wf(tab@),
    ensures
        r@ == render_stock_waste_spec(tab@),
{
    let ghost t = tab@;
    let mut s = String::new();

    let stock_len = tab.stock.len();
    if stock_len == 0 {
        s.append("Stock: [empty]");
    } else {
        s.append("Stock: [");
        push_u8_decimal(&mut s, stock_len as u8);
        s.append(" cards]");
    }

    s.append("    ");

    let waste_len = tab.waste.len();
    if waste_len == 0 {
        s.append("Waste: [empty]");
    } else {
        let top = tab.waste.cards[waste_len - 1];
        proof {
            assert(card_valid(t.waste[t.waste.len() - 1]));
        }
        let cs = top.short_str();
        s.append("Waste: [");
        s.append(cs.as_str());
        s.append("] (");
        push_u8_decimal(&mut s, waste_len as u8);
        s.append(" cards)");
    }
    proof {
        assert(s@ =~= render_stock_waste_spec(t));
    }
    s
}

/// The column headers ` C1 ` .. ` Cn `.
pub open spec fn col_headers(n: int) -> Seq<char>
    decreases n,
{
    if n <= 0 {
        Seq::empty()
    } else {
        col_headers(n - 1) + " C"@ + dec_digits(n) + " "@
    }
}

/// The greatest column height among the first `n` columns.
pub open spec fn cols_max_len(cols: Seq<ColModel>, n: int) -> int
    decreases n,
{
    if n <= 0 {
        0
    } else if cols[n - 1].cards.len() > cols_max_len(cols, n - 1) {
        cols[n - 1].cards.len() as int
    } else {
        cols_max_len(cols, n - 1)
    }
}

/// One four-character cell of the column grid: blanks where the
/// column does not reach this row, else the (possibly hidden) card,
/// right-justified in three characters plus a trailing space.
pub open spec fn col_cell(c: ColModel, row: int) -> Seq<char> {
    if row >= c.cards.len() {
        "    "@
    } else {
        " "@ + spec_card_visible(c.cards[row], !(row < c.face_down)) + " "@
    }
}

/// The cells of one row across the first `n` columns.
pub open spec fn row_cells(t: TabModel, row: int, n: int) -> Seq<char>
    decreases n,
{
    if n <= 0 {
        Seq::empty()
    } else {
        row_cells(t, row, n - 1) + col_cell(t.cols[n - 1], row)
    }
}

/// One full row line of the column grid.
pub open spec fn row_line(t: TabModel, row: int) -> Seq<char> {
    "      "@ + row_cells(t, row, 7) + "\n"@
}

/// The first `n` row lines of the column grid.
pub open spec fn rows_upto(t: TabModel, n: int) -> Seq<char>
    decreases n,
{
    if n <= 0 {
        Seq::empty()
    } else {
        rows_upto(t, n - 1) + row_line(t, n - 1)
    }
}

/// The whole column area: a title line, a header row, and one line
/// per occupied row, top-justified.
pub open spec fn render_columns_spec(t: TabModel) -> Seq<char> {
    "Columns:\n"@ + "      "@ + col_headers(7) + "\n"@ + rows_upto(t, cols_max_len(t.cols, 7))
}

/// Render all tableau columns as a multi-line string: seven stacks of
/// four-character cells, face-down cards shown as `XX`.
pub fn render_columns(tab: &Tableau) -> (r: String)
    requires
        tab_wf(tab@),
    ensures
        r@ == render_columns_spec(tab@),
{
    let ghost t = tab@;
    let mut s = String::new();
    s.append("Columns:\n");
    s.append("      ");
    let mut i: usize = 0;
    while i < 7
        invariant
            i <= 7,
            t == tab@,
            s@ == "Columns:\n"@ + "      "@ + col_headers(i as int),
        decreases 7 - i,
    {
        s.append(" C");
        push_u8_decimal(&mut s, (i + 1) as u8);
        s.append(" ");
        proof {
            assert(s@ =~= "Columns:\n"@ + "      "@ + col_headers(i + 1));
        }
        i = i + 1;
    }
    s.append("\n");
    let ghost header = s@;

    // Maximum column height.
    let mut max_height: usize = 0;
    let mut c: usize = 0;
    while c < 7
        invariant
            c <= 7,
            t == tab@,
            tab_wf(t),
            max_height == cols_max_len(t.cols, c as int),
        decreases 7 - c,
    {
        if tab.columns[c].cards.len() > max_height {
            max_height = tab.columns[c].cards.len();
        }
        c = c + 1;
    }

    // Rows, top-justified: row 0 is the top of every column.
    let mut row: usize = 0;
    while row < max_height
        invariant
            row <= max_height,
            t == tab@,
            tab_wf(t),
            max_height == cols_max_len(t.cols, 7),
            header == "Columns:\n"@ + "      "@ + col_headers(7) + "\n"@,
            s@ == header + rows_upto(t, row as int),
        decreases max_height - row,
    {
        s.append("      ");
        let mut c: usize = 0;
        while c < 7
            invariant
                c <= 7,
                t == tab@,
                tab_wf(t),
                row < max_height,
                s@ == header + rows_upto(t, row as int) + "      "@ + row_cells(
                    t,
                    row as int,
                    c as int,
                ),
            decreases 7 - c,
        {
            let col = &tab.columns[c];
            if row >= col.cards.len() {
                s.append("    ");
            } else {
                let card = col.cards[row];
                let face_down = row < col.num_face_down;
                let rep = format_card_visible(card, !face_down);
                s.append(" ");
                s.append(rep.as_str());
                s.append(" ");
            }
            proof {
                assert(s@ =~= header + rows_upto(t, row as int) + "      "@ + row_cells(
                    t,
                    row as int,
                    c + 1,
                ));
            }
            c = c + 1;
        }
        s.append("\n");
        proof {
            assert(s@ =~= header + rows_upto(t, row + 1));
        }
        row = row + 1;
    }
    proof {
        assert(s@ =~= render_columns_spec(t));
    }
    s
}

/// The full position rendering: foundations line, stock-and-waste
/// line, a blank line, then the column grid.
pub open spec fn render_tableau_spec(t: TabModel) -> Seq<char> {
    render_foundations_spec(t) + "\n"@ + render_stock_waste_spec(t) + "\n"@ + "\n"@
        + render_columns_spec(t)
}

/// Render a full tableau (foundations, stock/waste, and columns) as a
/// multi-line string.
pub fn render_tableau(tab: &Tableau) -> (r: String)
    requires
        tab_wf(tab@),
    ensures
        r@ == render_tableau_spec(tab@),
{
    let mut s = render_foundations(tab);
    s.append("\n");
    let sw = render_stock_and_waste(tab);
    s.append(sw.as_str());
    s.append("\n");
    s.append("\n");
    let cols = render_columns(tab);
    s.append(cols.as_str());
    proof {
        assert(s@ =~= render_tableau_spec(tab@));
    }
    s
}

} // verus!
