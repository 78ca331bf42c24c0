use vstd::prelude::*;
use vstd::string::StringExecFns;
use crate::matrix::lemma_offset_in_range;
use crate::matrix::lemma_row_in_range;
use crate::matrix::Grid;
use crate::matrix::Matrix;

verus! {

/// `text` is a possible text of `cell`: what a string holds that `show` may
/// return for it.
pub open spec fn shown<T, F: Fn(T) -> String>(show: F, cell: T, text: Seq<char>) -> bool {
    exists|s: String| #[trigger] call_ensures(show, (cell,), s) && s@ == text
}

/// The first `n` of `texts`, with one space between each two neighbours.
pub open spec fn joined(texts: Seq<Seq<char>>, n: nat) -> Seq<char>
    decreases n,
{
    if n == 0 {
        Seq::empty()
    } else if n == 1 {
        texts[0]
    } else {
        joined(texts, (n - 1) as nat) + seq![' '] + texts[n - 1]
    }
}

/// One line: all of `texts` with one space between each two neighbours, and a
/// line feed after the last. Nothing stands between the last text and the
/// line feed.
pub open spec fn line(texts: Seq<Seq<char>>) -> Seq<char> {
    joined(texts, texts.len()) + seq!['\n']
}

/// The first `n` rows of a grid of texts, one line for each row.
pub open spec fn lines(g: Grid<Seq<char>>, n: nat) -> Seq<char>
    decreases n,
{
    if n == 0 {
        Seq::empty()
    } else {
        lines(g, (n - 1) as nat) + line(g.row(n - 1))
    }
}

/// `text` is a possible rendering of `g`: some text of every cell, laid out
/// with one line for each row.
pub open spec fn rendered<T, F: Fn(T) -> String>(show: F, g: Grid<T>, text: Seq<char>) -> bool {
    exists|texts: Seq<Seq<char>>|
        #![trigger lines(Grid { rows: g.rows, cols: g.cols, cells: texts }, g.rows)]
        {
            &&& texts.len() == g.cells.len()
            &&& forall|k: int|
                0 <= k < texts.len() ==> shown(show, g.cells[k], #[trigger] texts[k])
            &&& text == lines(Grid { rows: g.rows, cols: g.cols, cells: texts }, g.rows)
        }
}

/// Where the text that `show` gives for a cell is `f` of the cell and nothing
/// else, the one rendering of `g` is its cells under `f`, laid out with one
/// line for each row.
pub proof fn lemma_rendered_value<T, F: Fn(T) -> String>(
    show: F,
    f: spec_fn(T) -> Seq<char>,
    g: Grid<T>,
    text: Seq<char>,
)
    requires
        forall|x: T, s: String| #[trigger] call_ensures(show, (x,), s) ==> s@ == f(x),
        rendered(show, g, text),
    ensures
        text == lines(Grid { rows: g.rows, cols: g.cols, cells: g.cells.map_values(f) }, g.rows),
{
    let texts = choose|texts: Seq<Seq<char>>|
        #![trigger lines(Grid { rows: g.rows, cols: g.cols, cells: texts }, g.rows)]
        {
            &&& texts.len() == g.cells.len()
            &&& forall|k: int|
                0 <= k < texts.len() ==> shown(show, g.cells[k], #[trigger] texts[k])
            &&& text == lines(Grid { rows: g.rows, cols: g.cols, cells: texts }, g.rows)
        };
    assert forall|k: int| 0 <= k < texts.len() implies texts[k] == f(g.cells[k]) by {
    }
    assert(texts =~= g.cells.map_values(f));
}

/// Texts beyond the first `n` have no part in joining the first `n`.
proof fn lemma_joined_ignores_rest(t1: Seq<Seq<char>>, t2: Seq<Seq<char>>, n: nat)
    requires
        n <= t1.len(),
        n <= t2.len(),
        forall|k: int| 0 <= k < n ==> t1[k] == t2[k],
    ensures
        joined(t1, n) == joined(t2, n),
    decreases n,
{
    if n > 1 {
        lemma_joined_ignores_rest(t1, t2, (n - 1) as nat);
    }
}

/// Cells beyond the first `n` rows have no part in the lines of those rows.
proof fn lemma_lines_ignore_rest(g1: Grid<Seq<char>>, g2: Grid<Seq<char>>, n: nat)
    requires
        g1.cols == g2.cols,
        n * g1.cols <= g1.cells.len(),
        n * g1.cols <= g2.cells.len(),
        forall|k: int| 0 <= k < n * g1.cols ==> g1.cells[k] == g2.cells[k],
    ensures
        lines(g1, n) == lines(g2, n),
    decreases n,
{
    if n > 0 {
        let m = (n - 1) as nat;
        lemma_row_in_range(n, g1.cols, m as int);
        lemma_lines_ignore_rest(g1, g2, m);
        assert(g1.row(m as int) =~= g2.row(m as int));
    }
}

impl<T: Copy> Matrix<T> {
    /// The matrix as text: one line for each row, the texts of its cells
    /// with one space between each two of them, each line closed by a line
    /// feed. `show` gives the text of a cell.
    pub fn render<F: Fn(T) -> String>(&self, show: &F) -> (text: String)
        requires
            self@.wf(),
            forall|x: T| call_requires(*show, (x,)),
        ensures
            rendered(*show, self@, text@),
    {
        let (rows, cols) = self.shape();
        let buf = self.data();
        let ghost g = self@;
        let mut text = String::new();
        let ghost mut texts: Seq<Seq<char>> = Seq::empty();
        proof {
            reveal_strlit(" ");
            reveal_strlit("\n");
            assert(" "@ =~= seq![' ']);
            assert("\n"@ =~= seq!['\n']);
        }
        for i in 0..rows
            invariant
                g.wf(),
                g.rows == rows,
                g.cols == cols,
                buf@ == g.cells,
                " "@ == seq![' '],
                "\n"@ == seq!['\n'],
                forall|x: T| call_requires(*show, (x,)),
                texts.len() == i * cols,
                forall|k: int| 0 <= k < texts.len() ==> shown(*show, g.cells[k], #[trigger] texts[k]),
                text@ == lines(Grid { rows: g.rows, cols: g.cols, cells: texts }, i as nat),
        {
            let ghost above = texts;
            let ghost mut row_texts: Seq<Seq<char>> = Seq::empty();
            for j in 0..cols
                invariant
                    i < rows,
                    g.wf(),
                    g.rows == rows,
                    g.cols == cols,
                    buf@ == g.cells,
                    " "@ == seq![' '],
                    "\n"@ == seq!['\n'],
                    forall|x: T| call_requires(*show, (x,)),
                    above.len() == i * cols,
                    row_texts.len() == j,
                    texts == above + row_texts,
                    forall|k: int|
                        0 <= k < texts.len() ==> shown(*show, g.cells[k], #[trigger] texts[k]),
                    text@ == lines(Grid { rows: g.rows, cols: g.cols, cells: above }, i as nat)
                        + joined(row_texts, j as nat),
            {
                proof {
                    lemma_offset_in_range(g.rows, g.cols, i as int, j as int);
                    assert(buf.len() == g.cells.len());
                }
                if j > 0 {
                    text.append(" ");
                }
                let cell = show(buf[i * cols + j]);
                text.append(cell.as_str());
                proof {
                    let longer = row_texts.push(cell@);
                    lemma_joined_ignores_rest(row_texts, longer, j as nat);
                    texts = texts.push(cell@);
                    row_texts = longer;
                    assert(text@ =~= lines(
                        Grid { rows: g.rows, cols: g.cols, cells: above },
                        i as nat,
                    ) + joined(row_texts, (j + 1) as nat));
                }
            }
            text.append("\n");
            proof {
                let before = Grid { rows: g.rows, cols: g.cols, cells: above };
                let now = Grid { rows: g.rows, cols: g.cols, cells: texts };
                lemma_row_in_range(g.rows, g.cols, i as int);
                lemma_lines_ignore_rest(before, now, i as nat);
                assert(now.row(i as int) =~= row_texts);
            }
        }
        text
    }
}

} // verus!
