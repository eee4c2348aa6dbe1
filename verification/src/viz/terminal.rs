//! Text renderings for the terminal: tensor shapes, the transformer data
//! flow, the attention computation and a progress bar.
use vstd::prelude::*;
use crate::text::{
    decimal, join_with, min_nat, pad_right, push_padded, push_repeat, push_str, push_usize,
    repeat_char, string_from_chars,
};

verus! {

/// Text renderings for the terminal.
pub struct TerminalViz;

/// The dimensions of `shape` in decimal, joined by " × ".
pub open spec fn shape_text(shape: Seq<usize>) -> Seq<char> {
    join_with(shape.map_values(|d: usize| decimal(d as nat)), " × "@)
}

/// One row of the drawing of a matrix: `cols` squares between bars.
pub open spec fn matrix_row(cols: nat) -> Seq<char> {
    seq!['│'] + repeat_char('■', cols) + seq!['│']
}

/// The drawing of a tensor of shape `shape`: a bar of (at most 20) squares
/// for a vector, (at most 5) rows of (at most 10) squares for a matrix, a box
/// of its sizes for three or four dimensions, and "..." otherwise.
pub open spec fn shape_visual(shape: Seq<usize>) -> Seq<char> {
    if shape.len() == 1 {
        seq!['['] + repeat_char('■', min_nat(shape[0] as nat, 20)) + seq![']']
    } else if shape.len() == 2 {
        join_with(
            Seq::new(min_nat(shape[0] as nat, 5), |_i: int| matrix_row(min_nat(shape[1] as nat, 10))),
            seq!['\n'],
        )
    } else if shape.len() == 3 {
        "┌─────────────────┐\n│ Batch: "@ + decimal(shape[0] as nat) + " │\n│ Seq: "@ + decimal(
            shape[1] as nat,
        ) + " │\n│ Dim: "@ + decimal(shape[2] as nat) + " │\n└─────────────────┘"@
    } else if shape.len() == 4 {
        "┌─────────────────┐\n│ Batch: "@ + decimal(shape[0] as nat) + " │\n│ Heads: "@ + decimal(
            shape[1] as nat,
        ) + " │\n│ Seq: "@ + decimal(shape[2] as nat) + " │\n│ Dim: "@ + decimal(shape[3] as nat)
            + " │\n└─────────────────┘"@
    } else {
        "..."@
    }
}

/// `n` copies of `row`.
spec fn copies(row: Seq<char>, n: nat) -> Seq<Seq<char>> {
    Seq::new(n, |_i: int| row)
}

/// `n` copies of `row` joined by line feeds: each line holds `row`, and the
/// character at position `i` is found at `i` modulo the line length plus one.
proof fn lemma_join_rows(row: Seq<char>, n: nat)
    requires
        n >= 1,
    ensures
        join_with(copies(row, n), seq!['\n']).len() == n * (row.len() + 1) - 1,
        forall|i: int|
            0 <= i < join_with(copies(row, n), seq!['\n']).len() ==> #[trigger] join_with(copies(row, n), seq!['\n'])[i] == (if i % (row.len() + 1) as int == row.len() {
                '\n'
            } else {
                row[i % (row.len() + 1) as int]
            }),
    decreases n,
{
    let l = row.len() + 1;
    let j = join_with(copies(row, n), seq!['\n']);
    if n == 1 {
        assert forall|i: int| 0 <= i < j.len() implies #[trigger] j[i] == (if i % l as int == row.len() {
            '\n'
        } else {
            row[i % l as int]
        }) by {
            assert(0 * (l as int) == 0);
            vstd::arithmetic::div_mod::lemma_fundamental_div_mod_converse(i, l as int, 0, i);
        }
    } else {
        let m = (n - 1) as nat;
        lemma_join_rows(row, m);
        assert(copies(row, n).drop_last() =~= copies(row, m));
        let p = join_with(copies(row, m), seq!['\n']);
        assert(j == p + seq!['\n'] + row);
        assert(m * l + l == n * l) by (nonlinear_arith)
            requires
                m + 1 == n,
        ;
        assert forall|i: int| 0 <= i < j.len() implies #[trigger] j[i] == (if i % l as int == row.len() {
            '\n'
        } else {
            row[i % l as int]
        }) by {
            if i < p.len() {
                assert(j[i] == p[i]);
            } else if i == p.len() {
                assert(i == (m - 1) * (l as int) + row.len()) by (nonlinear_arith)
                    requires
                        i == m * l - 1,
                        l == row.len() + 1,
                ;
                vstd::arithmetic::div_mod::lemma_fundamental_div_mod_converse(i, l as int, m - 1, row.len() as int);
            } else {
                vstd::arithmetic::div_mod::lemma_fundamental_div_mod_converse(i, l as int, m as int, i - m * l);
            }
        }
    }
}

/// The drawing of a tensor shape. A vector of size `n` is a bar of
/// `min(n, 20)` squares between brackets. A matrix of `r` rows and `c`
/// columns is `min(r, 5)` lines (none when `r` is 0), each of `min(c, 10)`
/// squares between two bars, separated by line feeds: with line length
/// `w = min(c, 10) + 3` (line feed included), position `i` holds a line feed
/// where `i % w` is `w - 1`, a bar where it is 0 or `w - 2`, else a square.
pub proof fn lemma_shape_drawing(shape: Seq<usize>)
    ensures
        shape.len() == 1 ==> {
            let k: int = if shape[0] < 20 { shape[0] as int } else { 20 };
            let d = shape_visual(shape);
            &&& d.len() == k + 2
            &&& forall|i: int| 0 <= i < d.len() ==> #[trigger] d[i] == (if i == 0 {
                '['
            } else if i == k + 1 {
                ']'
            } else {
                '■'
            })
        },
        shape.len() == 2 ==> {
            let k: int = if shape[0] < 5 { shape[0] as int } else { 5 };
            let c: int = if shape[1] < 10 { shape[1] as int } else { 10 };
            let w = c + 3;
            let d = shape_visual(shape);
            &&& d.len() == if k == 0 { 0 } else { k * w - 1 }
            &&& forall|i: int| 0 <= i < d.len() ==> #[trigger] d[i] == (if i % w == w - 1 {
                '\n'
            } else if i % w == 0 || i % w == w - 2 {
                '│'
            } else {
                '■'
            })
        },
{
    if shape.len() == 2 {
        let k: int = if shape[0] < 5 { shape[0] as int } else { 5 };
        let c: int = if shape[1] < 10 { shape[1] as int } else { 10 };
        let row = matrix_row(c as nat);
        assert(row.len() == c + 2);
        assert(Seq::new(min_nat(shape[0] as nat, 5), |_i: int| matrix_row(min_nat(shape[1] as nat, 10)))
            =~= copies(row, k as nat));
        if k == 0 {
            assert(copies(row, k as nat) =~= Seq::<Seq<char>>::empty());
        } else {
            lemma_join_rows(row, k as nat);
        }
    }
}

/// The framed rendering of a named tensor shape.
pub open spec fn tensor_shape_text(name: Seq<char>, shape: Seq<usize>) -> Seq<char> {
    "╔══════════════════════════════════════╗\n║ "@ + pad_right(name, 36) + " ║\n║ Shape: "@
        + pad_right(shape_text(shape), 29) + " ║\n╠══════════════════════════════════════╣\n"@
        + shape_visual(shape) + "\n╚══════════════════════════════════════╝"@
}

/// The rendering of the transformer data flow for the given sizes.
pub open spec fn transformer_flow_text(batch: usize, seq_len: usize, d_model: usize, vocab_size: usize) -> Seq<char> {
    "\n╔═══════════════════════════════════════════════════════════════╗\n║                    TRANSFORMER 데이터 흐름                     ║\n╠═══════════════════════════════════════════════════════════════╣\n║                                                               ║\n║   입력 토큰 ID        ("@
        + decimal(batch as nat)
        + ", "@
        + decimal(seq_len as nat)
        + ")                              ║\n║         │                                                     ║\n║         ▼                                                     ║\n║   ┌─────────────┐                                             ║\n║   │  Embedding  │    ("@
        + decimal(batch as nat)
        + ", "@
        + decimal(seq_len as nat)
        + ", "@
        + decimal(d_model as nat)
        + ")                         ║\n║   └─────────────┘                                             ║\n║         │                                                     ║\n║         + ◄──── Position Encoding                             ║\n║         │                                                     ║\n║         ▼                                                     ║\n║   ┌─────────────────────────────────────┐                     ║\n║   │         Transformer Block           │                     ║\n║   │  ┌─────────────┐  ┌─────────────┐   │                     ║\n║   │  │  Attention  │  │     FFN     │   │                     ║\n║   │  └─────────────┘  └─────────────┘   │                     ║\n║   └─────────────────────────────────────┘                     ║\n║         │                                                     ║\n║         ▼                                                     ║\n║   ┌─────────────┐                                             ║\n║   │  Layer Norm │    ("@
        + decimal(batch as nat)
        + ", "@
        + decimal(seq_len as nat)
        + ", "@
        + decimal(d_model as nat)
        + ")                         ║\n║   └─────────────┘                                             ║\n║         │                                                     ║\n║         ▼                                                     ║\n║   ┌─────────────┐                                             ║\n║   │   LM Head   │    ("@
        + decimal(batch as nat)
        + ", "@
        + decimal(seq_len as nat)
        + ", "@
        + decimal(vocab_size as nat)
        + ")                        ║\n║   └─────────────┘                                             ║\n║         │                                                     ║\n║         ▼                                                     ║\n║   출력 Logits        ("@
        + decimal(batch as nat)
        + ", "@
        + decimal(seq_len as nat)
        + ", "@
        + decimal(vocab_size as nat)
        + ")                        ║\n║                                                               ║\n╚═══════════════════════════════════════════════════════════════╝\n"@
}

/// The rendering of multi-head attention for the given sizes, with
/// `head_dim` the size of one head.
pub open spec fn attention_text(seq_len: usize, d_model: usize, num_heads: usize, head_dim: usize) -> Seq<char> {
    "\n╔═══════════════════════════════════════════════════════════════╗\n║                    MULTI-HEAD ATTENTION                        ║\n╠═══════════════════════════════════════════════════════════════╣\n║                                                               ║\n║   입력 X: (batch, "@
        + decimal(seq_len as nat)
        + ", "@
        + decimal(d_model as nat)
        + ")                                  ║\n║      │                                                        ║\n║      ├──────────────┬──────────────┐                          ║\n║      ▼              ▼              ▼                          ║\n║   ┌─────┐       ┌─────┐       ┌─────┐                         ║\n║   │ Wq  │       │ Wk  │       │ Wv  │    Linear Projections   ║\n║   └─────┘       └─────┘       └─────┘                         ║\n║      │              │              │                          ║\n║      ▼              ▼              ▼                          ║\n║   Q: ("@
        + decimal(seq_len as nat)
        + ","@
        + decimal(d_model as nat)
        + ")   K: ("@
        + decimal(seq_len as nat)
        + ","@
        + decimal(d_model as nat)
        + ")   V: ("@
        + decimal(seq_len as nat)
        + ","@
        + decimal(d_model as nat)
        + ")                  ║\n║      │              │              │                          ║\n║      ├──────────────┴──────────────┤                          ║\n║      │      Split into "@
        + decimal(num_heads as nat)
        + " heads     │                          ║\n║      ▼                                                        ║\n║   ┌───────────────────────────────────┐                       ║\n║   │  Q·K^T / √"@
        + pad_right(decimal(head_dim as nat), 3)
        + "  →  Softmax  →  ·V  │   Scaled Dot-Product ║\n║   └───────────────────────────────────┘                       ║\n║      │                                                        ║\n║      ▼                                                        ║\n║   Concat all heads: (batch, "@
        + decimal(seq_len as nat)
        + ", "@
        + decimal(d_model as nat)
        + ")                        ║\n║      │                                                        ║\n║      ▼                                                        ║\n║   ┌─────┐                                                     ║\n║   │ Wo  │    Output Projection                                ║\n║   └─────┘                                                     ║\n║      │                                                        ║\n║      ▼                                                        ║\n║   출력: (batch, "@
        + decimal(seq_len as nat)
        + ", "@
        + decimal(d_model as nat)
        + ")                                    ║\n║                                                               ║\n╚═══════════════════════════════════════════════════════════════╝\n"@
}

/// The rendering of a progress bar of `width` cells, `filled` of them
/// filled, for `current` out of `total`, followed by the count and the
/// already formatted percentage `percent`.
pub open spec fn progress_bar_text(current: nat, total: nat, width: nat, filled: nat, percent: Seq<char>) -> Seq<char> {
    seq!['['] + repeat_char('█', filled) + repeat_char('░', (width - filled) as nat) + seq![']', ' ']
        + decimal(current) + seq!['/'] + decimal(total) + seq![' ', '('] + percent + seq!['%', ')']
}

/// The cell of a heatmap for intensity level `level`: four shades, levels
/// from 3 up all drawn darkest.
pub open spec fn heat_block(level: usize) -> char {
    if level == 0 {
        '░'
    } else if level == 1 {
        '▒'
    } else if level == 2 {
        '▓'
    } else {
        '█'
    }
}

/// One heatmap row: the cells of `levels` between bars, with "..." before
/// the closing bar when columns were left out.
pub open spec fn heat_row(levels: Seq<usize>, more: bool) -> Seq<char> {
    seq!['│'] + levels.map_values(|l: usize| heat_block(l)) + (if more { "..."@ } else { seq![] }) + "│\n"@
}

/// The heatmap rows of `grid`, in order.
pub open spec fn heat_rows(grid: Seq<Seq<usize>>, more: bool) -> Seq<char>
    decreases grid.len(),
{
    if grid.len() == 0 {
        seq![]
    } else {
        heat_rows(grid.drop_last(), more) + heat_row(grid.last(), more)
    }
}

/// The heatmap of a `rows` × `cols` matrix drawn from the intensity levels
/// `grid` of its displayed cells (at most 15 rows of at most 40 cells), with
/// the value range given as text.
pub open spec fn heatmap_text(
    title: Seq<char>,
    rows: nat,
    cols: nat,
    grid: Seq<Seq<usize>>,
    min_text: Seq<char>,
    max_text: Seq<char>,
) -> Seq<char> {
    "┌─ "@ + title + " ─┐\n"@ + heat_rows(grid, cols > 40) + (if rows > 15 { "│ ... │\n"@ } else { seq![] })
        + seq!['└'] + repeat_char('─', min_nat(cols, 40) + 2) + "┘\n"@ + "  Range: ["@ + min_text + ", "@
        + max_text + "]\n"@
}

proof fn lemma_heat_rows_flatten(grid: Seq<Seq<usize>>, more: bool)
    ensures
        heat_rows(grid, more) == grid.map_values(|r: Seq<usize>| heat_row(r, more)).flatten(),
    decreases grid.len(),
{
    if grid.len() > 0 {
        let p = grid.drop_last();
        lemma_heat_rows_flatten(p, more);
        let f = |r: Seq<usize>| heat_row(r, more);
        assert(grid.map_values(f) =~= p.map_values(f).push(f(grid.last())));
        p.map_values(f).lemma_flatten_push(f(grid.last()));
    }
}

/// The layout of a heatmap: the title line; one line per row of `grid`,
/// made of a bar, one cell per level (0 lightest, 1, 2, then 3 and above
/// darkest), "..." exactly when columns were left out (fewer than `cols`
/// shown, at most 40), and a closing bar; "│ ... │" exactly when rows were
/// left out (fewer than `rows` shown, at most 15); a bottom border two wider
/// than the shown columns; and the value range.
pub proof fn lemma_heatmap_layout(
    title: Seq<char>,
    rows: nat,
    cols: nat,
    grid: Seq<Seq<usize>>,
    min_text: Seq<char>,
    max_text: Seq<char>,
)
    ensures
        ({
            let shown_cols: nat = if cols < 40 { cols } else { 40 };
            let shown_rows: nat = if rows < 15 { rows } else { 15 };
            let line = |r: Seq<usize>|
                seq!['│'] + r.map_values(
                    |l: usize|
                        if l == 0 {
                            '░'
                        } else if l == 1 {
                            '▒'
                        } else if l == 2 {
                            '▓'
                        } else {
                            '█'
                        },
                ) + (if shown_cols < cols { "..."@ } else { seq![] }) + "│\n"@;
            heatmap_text(title, rows, cols, grid, min_text, max_text) == "┌─ "@ + title + " ─┐\n"@
                + grid.map_values(line).flatten() + (if shown_rows < rows { "│ ... │\n"@ } else { seq![] })
                + seq!['└'] + Seq::new(shown_cols + 2, |_i: int| '─') + "┘\n"@ + "  Range: ["@ + min_text
                + ", "@ + max_text + "]\n"@
        }),
{
    let shown_cols: nat = if cols < 40 { cols } else { 40 };
    let more = cols > 40;
    let line = |r: Seq<usize>|
        seq!['│'] + r.map_values(
            |l: usize|
                if l == 0 {
                    '░'
                } else if l == 1 {
                    '▒'
                } else if l == 2 {
                    '▓'
                } else {
                    '█'
                },
        ) + (if shown_cols < cols { "..."@ } else { seq![] }) + "│\n"@;
    let f = |r: Seq<usize>| heat_row(r, more);
    lemma_heat_rows_flatten(grid, more);
    assert forall|i: int| 0 <= i < grid.len() implies #[trigger] grid.map_values(f)[i] == grid.map_values(line)[i] by {
        let r = grid[i];
        assert(r.map_values(|l: usize| heat_block(l)) =~= r.map_values(
            |l: usize|
                if l == 0 {
                    '░'
                } else if l == 1 {
                    '▒'
                } else if l == 2 {
                    '▓'
                } else {
                    '█'
                },
        ));
    }
    assert(grid.map_values(f) =~= grid.map_values(line));
    assert(repeat_char('─', min_nat(cols, 40) + 2) =~= Seq::new(shown_cols + 2, |_i: int| '─'));
}

/// The rows (or columns) of a matrix dimension `n` that a heatmap of
/// `shown` cells samples: cell `i` shows position `i * n / shown`.
pub open spec fn heat_sample(i: nat, n: nat, shown: nat) -> nat {
    i * n / shown
}

impl TerminalViz {
    /// A framed rendering of the tensor shape `shape` under `name`.
    pub fn show_tensor_shape(name: &str, shape: &[usize]) -> (r: String)
        ensures
            r@ == tensor_shape_text(name@, shape@),
    {
        let mut shape_chars: Vec<char> = Vec::new();
        let ghost dims = shape@.map_values(|d: usize| decimal(d as nat));
        let mut i: usize = 0;
        while i < shape.len()
            invariant
                i <= shape.len(),
                dims == shape@.map_values(|d: usize| decimal(d as nat)),
                shape_chars@ == join_with(dims.take(i as int), " × "@),
            decreases shape.len() - i,
        {
            proof {
                assert(dims.take(i + 1).drop_last() =~= dims.take(i as int));
            }
            if i > 0 {
                push_str(&mut shape_chars, " × ");
            }
            push_usize(&mut shape_chars, shape[i]);
            proof {
                if i == 0 {
                    assert(shape_chars@ =~= join_with(dims.take(1), " × "@));
                }
            }
            i = i + 1;
        }
        assert(dims.take(shape.len() as int) =~= dims);
        let visual = shape_visual_chars(shape);
        let name_chars = crate::text::chars_of(name);
        let mut out: Vec<char> = Vec::new();
        push_str(&mut out, "╔══════════════════════════════════════╗\n║ ");
        push_padded(&mut out, &name_chars, 36);
        push_str(&mut out, " ║\n║ Shape: ");
        push_padded(&mut out, &shape_chars, 29);
        push_str(&mut out, " ║\n╠══════════════════════════════════════╣\n");
        crate::text::push_chars(&mut out, &visual);
        push_str(&mut out, "\n╚══════════════════════════════════════╝");
        string_from_chars(&out)
    }

    /// The transformer data flow for a batch of `batch` sequences of
    /// `seq_len` tokens, model width `d_model` and `vocab_size` tokens.
    pub fn show_transformer_flow(batch: usize, seq_len: usize, d_model: usize, vocab_size: usize) -> (r: String)
        ensures
            r@ == transformer_flow_text(batch, seq_len, d_model, vocab_size),
    {
        let mut out: Vec<char> = Vec::new();
        push_str(&mut out, "\n╔═══════════════════════════════════════════════════════════════╗\n║                    TRANSFORMER 데이터 흐름                     ║\n╠═══════════════════════════════════════════════════════════════╣\n║                                                               ║\n║   입력 토큰 ID        (");
        push_usize(&mut out, batch);
        push_str(&mut out, ", ");
        push_usize(&mut out, seq_len);
        push_str(&mut out, ")                              ║\n║         │                                                     ║\n║         ▼                                                     ║\n║   ┌─────────────┐                                             ║\n║   │  Embedding  │    (");
        push_usize(&mut out, batch);
        push_str(&mut out, ", ");
        push_usize(&mut out, seq_len);
        push_str(&mut out, ", ");
        push_usize(&mut out, d_model);
        push_str(&mut out, ")                         ║\n║   └─────────────┘                                             ║\n║         │                                                     ║\n║         + ◄──── Position Encoding                             ║\n║         │                                                     ║\n║         ▼                                                     ║\n║   ┌─────────────────────────────────────┐                     ║\n║   │         Transformer Block           │                     ║\n║   │  ┌─────────────┐  ┌─────────────┐   │                     ║\n║   │  │  Attention  │  │     FFN     │   │                     ║\n║   │  └─────────────┘  └─────────────┘   │                     ║\n║   └─────────────────────────────────────┘                     ║\n║         │                                                     ║\n║         ▼                                                     ║\n║   ┌─────────────┐                                             ║\n║   │  Layer Norm │    (");
        push_usize(&mut out, batch);
        push_str(&mut out, ", ");
        push_usize(&mut out, seq_len);
        push_str(&mut out, ", ");
        push_usize(&mut out, d_model);
        push_str(&mut out, ")                         ║\n║   └─────────────┘                                             ║\n║         │                                                     ║\n║         ▼                                                     ║\n║   ┌─────────────┐                                             ║\n║   │   LM Head   │    (");
        push_usize(&mut out, batch);
        push_str(&mut out, ", ");
        push_usize(&mut out, seq_len);
        push_str(&mut out, ", ");
        push_usize(&mut out, vocab_size);
        push_str(&mut out, ")                        ║\n║   └─────────────┘                                             ║\n║         │                                                     ║\n║         ▼                                                     ║\n║   출력 Logits        (");
        push_usize(&mut out, batch);
        push_str(&mut out, ", ");
        push_usize(&mut out, seq_len);
        push_str(&mut out, ", ");
        push_usize(&mut out, vocab_size);
        push_str(&mut out, ")                        ║\n║                                                               ║\n╚═══════════════════════════════════════════════════════════════╝\n");
        string_from_chars(&out)
    }

    /// Multi-head attention over `seq_len` tokens of width `d_model` split
    /// into `num_heads` heads.
    pub fn show_attention_computation(seq_len: usize, d_model: usize, num_heads: usize) -> (r: String)
        requires
            num_heads > 0,
        ensures
            r@ == attention_text(seq_len, d_model, num_heads, (d_model / num_heads) as usize),
    {
        let head_dim = d_model / num_heads;
        let mut out: Vec<char> = Vec::new();
        push_str(&mut out, "\n╔═══════════════════════════════════════════════════════════════╗\n║                    MULTI-HEAD ATTENTION                        ║\n╠═══════════════════════════════════════════════════════════════╣\n║                                                               ║\n║   입력 X: (batch, ");
        push_usize(&mut out, seq_len);
        push_str(&mut out, ", ");
        push_usize(&mut out, d_model);
        push_str(&mut out, ")                                  ║\n║      │                                                        ║\n║      ├──────────────┬──────────────┐                          ║\n║      ▼              ▼              ▼                          ║\n║   ┌─────┐       ┌─────┐       ┌─────┐                         ║\n║   │ Wq  │       │ Wk  │       │ Wv  │    Linear Projections   ║\n║   └─────┘       └─────┘       └─────┘                         ║\n║      │              │              │                          ║\n║      ▼              ▼              ▼                          ║\n║   Q: (");
        push_usize(&mut out, seq_len);
        push_str(&mut out, ",");
        push_usize(&mut out, d_model);
        push_str(&mut out, ")   K: (");
        push_usize(&mut out, seq_len);
        push_str(&mut out, ",");
        push_usize(&mut out, d_model);
        push_str(&mut out, ")   V: (");
        push_usize(&mut out, seq_len);
        push_str(&mut out, ",");
        push_usize(&mut out, d_model);
        push_str(&mut out, ")                  ║\n║      │              │              │                          ║\n║      ├──────────────┴──────────────┤                          ║\n║      │      Split into ");
        push_usize(&mut out, num_heads);
        push_str(&mut out, " heads     │                          ║\n║      ▼                                                        ║\n║   ┌───────────────────────────────────┐                       ║\n║   │  Q·K^T / √");
        let mut num: Vec<char> = Vec::new();
        push_usize(&mut num, head_dim);
        push_padded(&mut out, &num, 3);
        push_str(&mut out, "  →  Softmax  →  ·V  │   Scaled Dot-Product ║\n║   └───────────────────────────────────┘                       ║\n║      │                                                        ║\n║      ▼                                                        ║\n║   Concat all heads: (batch, ");
        push_usize(&mut out, seq_len);
        push_str(&mut out, ", ");
        push_usize(&mut out, d_model);
        push_str(&mut out, ")                        ║\n║      │                                                        ║\n║      ▼                                                        ║\n║   ┌─────┐                                                     ║\n║   │ Wo  │    Output Projection                                ║\n║   └─────┘                                                     ║\n║      │                                                        ║\n║      ▼                                                        ║\n║   출력: (batch, ");
        push_usize(&mut out, seq_len);
        push_str(&mut out, ", ");
        push_usize(&mut out, d_model);
        push_str(&mut out, ")                                    ║\n║                                                               ║\n╚═══════════════════════════════════════════════════════════════╝\n");
        string_from_chars(&out)
    }

    /// A progress bar of `width` cells for `current` out of `total`, with the
    /// count and the percentage. The number of filled cells and the
    /// percentage text (one decimal) are computed by the caller from the
    /// completed fraction.
    pub fn progress_bar(current: usize, total: usize, width: usize, filled: usize, percent: &str) -> (r: String)
        requires
            filled <= width,
        ensures
            r@ == progress_bar_text(current as nat, total as nat, width as nat, filled as nat, percent@),
    {
        let mut out: Vec<char> = Vec::new();
        out.push('[');
        push_repeat(&mut out, '█', filled);
        push_repeat(&mut out, '░', width - filled);
        out.push(']');
        out.push(' ');
        push_usize(&mut out, current);
        out.push('/');
        push_usize(&mut out, total);
        out.push(' ');
        out.push('(');
        push_str(&mut out, percent);
        out.push('%');
        out.push(')');
        assert(out@ =~= progress_bar_text(current as nat, total as nat, width as nat, filled as nat, percent@));
        string_from_chars(&out)
    }
}

impl TerminalViz {
    /// A heatmap titled `title` of a `rows` × `cols` matrix whose displayed
    /// cells (at most 15 rows of at most 40, taken at the positions of
    /// `heatmap_sample`) have the intensity levels `grid`, 0 to 3; the
    /// smallest and largest values are given already formatted.
    pub fn heatmap(
        title: &str,
        rows: usize,
        cols: usize,
        grid: &Vec<Vec<usize>>,
        min_text: &str,
        max_text: &str,
    ) -> (r: String)
        ensures
            r@ == heatmap_text(title@, rows as nat, cols as nat, grid@.map_values(|g: Vec<usize>| g@), min_text@, max_text@),
    {
        let ghost g = grid@.map_values(|v: Vec<usize>| v@);
        let more = cols > 40;
        let mut out: Vec<char> = Vec::new();
        push_str(&mut out, "┌─ ");
        push_str(&mut out, title);
        push_str(&mut out, " ─┐\n");
        let ghost head = out@;
        let mut i: usize = 0;
        while i < grid.len()
            invariant
                i <= grid.len(),
                g == grid@.map_values(|v: Vec<usize>| v@),
                more == (cols > 40),
                out@ == head + heat_rows(g.take(i as int), more),
            decreases grid.len() - i,
        {
            let ghost before = out@;
            let row = &grid[i];
            out.push('│');
            let mut j: usize = 0;
            while j < row.len()
                invariant
                    j <= row.len(),
                    out@ == before + seq!['│'] + row@.take(j as int).map_values(|l: usize| heat_block(l)),
                decreases row.len() - j,
            {
                let l = row[j];
                let c = if l == 0 {
                    '░'
                } else if l == 1 {
                    '▒'
                } else if l == 2 {
                    '▓'
                } else {
                    '█'
                };
                out.push(c);
                assert(row@.take(j + 1).map_values(|l: usize| heat_block(l)) =~= row@.take(j as int).map_values(
                    |l: usize| heat_block(l),
                ).push(c));
                j = j + 1;
            }
            if more {
                push_str(&mut out, "...");
            }
            push_str(&mut out, "│\n");
            proof {
                assert(row@.take(row.len() as int) =~= row@);
                assert(g[i as int] == row@);
                assert(g.take(i + 1).drop_last() =~= g.take(i as int));
                assert(out@ =~= head + heat_rows(g.take(i + 1), more));
            }
            i = i + 1;
        }
        assert(g.take(grid.len() as int) =~= g);
        if rows > 15 {
            push_str(&mut out, "│ ... │\n");
        }
        out.push('└');
        let shown = if cols < 40 { cols } else { 40 };
        push_repeat(&mut out, '─', shown + 2);
        push_str(&mut out, "┘\n");
        push_str(&mut out, "  Range: [");
        push_str(&mut out, min_text);
        push_str(&mut out, ", ");
        push_str(&mut out, max_text);
        push_str(&mut out, "]\n");
        assert(out@ =~= heatmap_text(title@, rows as nat, cols as nat, g, min_text@, max_text@));
        string_from_chars(&out)
    }

    /// The matrix position that display cell `i` of `shown` shows, for a
    /// dimension of size `n`: `i * n / shown`, always below `n`.
    pub fn heatmap_sample(i: usize, n: usize, shown: usize) -> (r: usize)
        requires
            i < shown <= n,
        ensures
            r == heat_sample(i as nat, n as nat, shown as nat),
            r < n,
    {
        let ii = i as u128;
        let nn = n as u128;
        assert(ii * nn <= 0xffff_ffff_ffff_ffffu128 * 0xffff_ffff_ffff_ffffu128) by (nonlinear_arith)
            requires
                ii <= 0xffff_ffff_ffff_ffffu128,
                nn <= 0xffff_ffff_ffff_ffffu128,
        ;
        let p = ii * nn;
        let q = p / (shown as u128);
        assert(q < n) by (nonlinear_arith)
            requires
                p == (i as int) * (n as int),
                q as int == (p as int) / (shown as int),
                i < shown,
                shown <= n,
        {
            assert((i as int) * (n as int) < (shown as int) * (n as int));
        }
        q as usize
    }
}

/// The drawing of a tensor of shape `shape`.
fn shape_visual_chars(shape: &[usize]) -> (r: Vec<char>)
    ensures
        r@ == shape_visual(shape@),
{
    let mut out: Vec<char> = Vec::new();
    if shape.len() == 1 {
        out.push('[');
        let n = if shape[0] < 20 { shape[0] } else { 20 };
        push_repeat(&mut out, '■', n);
        out.push(']');
        assert(out@ =~= shape_visual(shape@));
    } else if shape.len() == 2 {
        let rows = if shape[0] < 5 { shape[0] } else { 5 };
        let cols = if shape[1] < 10 { shape[1] } else { 10 };
        let ghost row = matrix_row(cols as nat);
        let mut r: usize = 0;
        while r < rows
            invariant
                r <= rows,
                row == matrix_row(cols as nat),
                out@ == join_with(Seq::new(r as nat, |_i: int| row), seq!['\n']),
            decreases rows - r,
        {
            proof {
                assert(Seq::new((r + 1) as nat, |_i: int| row).drop_last() =~= Seq::new(r as nat, |_i: int| row));
            }
            if r > 0 {
                out.push('\n');
            }
            out.push('│');
            push_repeat(&mut out, '■', cols);
            out.push('│');
            proof {
                if r == 0 {
                    assert(out@ =~= join_with(Seq::new(1, |_i: int| row), seq!['\n']));
                } else {
                    assert(out@ =~= join_with(Seq::new((r + 1) as nat, |_i: int| row), seq!['\n']));
                }
            }
            r = r + 1;
        }
        assert(Seq::new(min_nat(shape@[0] as nat, 5), |_i: int| matrix_row(min_nat(shape@[1] as nat, 10))) =~= Seq::new(rows as nat, |_i: int| row));
    } else if shape.len() == 3 {
        push_str(&mut out, "┌─────────────────┐\n│ Batch: ");
        push_usize(&mut out, shape[0]);
        push_str(&mut out, " │\n│ Seq: ");
        push_usize(&mut out, shape[1]);
        push_str(&mut out, " │\n│ Dim: ");
        push_usize(&mut out, shape[2]);
        push_str(&mut out, " │\n└─────────────────┘");
    } else if shape.len() == 4 {
        push_str(&mut out, "┌─────────────────┐\n│ Batch: ");
        push_usize(&mut out, shape[0]);
        push_str(&mut out, " │\n│ Heads: ");
        push_usize(&mut out, shape[1]);
        push_str(&mut out, " │\n│ Seq: ");
        push_usize(&mut out, shape[2]);
        push_str(&mut out, " │\n│ Dim: ");
        push_usize(&mut out, shape[3]);
        push_str(&mut out, " │\n└─────────────────┘");
    } else {
        push_str(&mut out, "...");
    }
    out
}

} // verus!
