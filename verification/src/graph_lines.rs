//! Drawing the graph beside the rows of commits.

use renderdag::GraphRowRenderer;
use renderdag::Renderer;
use vstd::prelude::*;

use crate::arrange::Ancestor;
use crate::arrange::Row;
use crate::file_search::lines_of;
use crate::fix::compute_file_line_count;
use crate::fix::lemma_line_count_lines;
use crate::fix::line_count;

verus! {

/// The number of lines that a row has at least.
pub const MIN_ROW_HEIGHT: usize = 2;

/// The text that `renderdag` draws for the last one of the rows, of which each is
/// a node, its edges, a glyph and a message. An edge leads to a node, or to
/// nothing in particular.
pub uninterp spec fn graph_row(
    min_row_height: int,
    rows: Seq<(u64, Seq<Option<u64>>, Seq<char>, Seq<char>)>,
) -> Seq<char>;

/// What can be seen of a row.
pub open spec fn input_view(row: (u64, Vec<Option<u64>>, String, String)) -> (
    u64,
    Seq<Option<u64>>,
    Seq<char>,
    Seq<char>,
) {
    (row.0, row.1@, row.2@, row.3@)
}

/// What can be seen of rows.
pub open spec fn input_views(rows: Seq<(u64, Vec<Option<u64>>, String, String)>) -> Seq<
    (u64, Seq<Option<u64>>, Seq<char>, Seq<char>),
> {
    rows.map_values(|row: (u64, Vec<Option<u64>>, String, String)| input_view(row))
}

/// `renderdag::Renderer::next_row` for each row in turn, on a new renderer that
/// draws boxes: one text for each row, which depends on the row and on those
/// before it. What that text is, is only named here.
#[verifier::external_body]
fn draw_rows(min_row_height: usize, rows: Vec<(u64, Vec<Option<u64>>, String, String)>) -> (lines:
    Vec<String>)
    ensures
        lines@.len() == rows@.len(),
        forall|i: int|
            0 <= i < rows@.len() ==> (#[trigger] lines@[i])@ == graph_row(
                min_row_height as int,
                input_views(rows@).take(i + 1),
            ),
{
    let builder = GraphRowRenderer::new().output().with_min_row_height(min_row_height);
    let mut renderer = builder.build_box_drawing();
    let edge = |id: Option<u64>| match id {
        Some(id) => renderdag::Ancestor::Parent(id),
        None => renderdag::Ancestor::Anonymous,
    };
    rows.into_iter()
        .map(|(id, edges, glyph, message)| {
            renderer.next_row(id, edges.into_iter().map(edge).collect(), glyph, message)
        })
        .collect()
}

/// Where edges lead to.
pub open spec fn edge_targets(edges: Seq<Ancestor>) -> Seq<Option<u64>> {
    edges.map_values(
        |edge: Ancestor|
            match edge {
                Ancestor::Parent(id) => Some(id),
                Ancestor::Anonymous => None,
            },
    )
}

/// A text that makes the graph as tall as another text.
pub open spec fn line_feeds(count: nat) -> Seq<char> {
    Seq::new(count, |i: int| '\n')
}

/// What is drawn for a row with the given text.
pub open spec fn row_input(row: Row, text: Seq<u8>) -> (
    u64,
    Seq<Option<u64>>,
    Seq<char>,
    Seq<char>,
) {
    (row.id, edge_targets(row.edges@), row.glyph@, line_feeds(line_count(text)))
}

/// What is drawn for rows with the given texts.
pub open spec fn row_inputs(rows: Seq<Row>, row_texts: Seq<Vec<u8>>) -> Seq<
    (u64, Seq<Option<u64>>, Seq<char>, Seq<char>),
> {
    Seq::new(rows.len(), |i: int| row_input(rows[i], row_texts[i]@))
}

/// Says what is drawn for a row: a node with its edges, and a message that makes
/// the graph as tall as the text of the row.
pub fn graph_input(row: &Row, text: &[u8]) -> (input: (u64, Vec<Option<u64>>, String, String))
    ensures
        input_view(input) == row_input(*row, text@),
{
    let ghost goal = edge_targets(row.edges@);
    let mut edges: Vec<Option<u64>> = Vec::new();
    let mut i: usize = 0;
    while i < row.edges.len()
        invariant
            i <= row.edges@.len(),
            goal == edge_targets(row.edges@),
            edges@ == goal.take(i as int),
        decreases row.edges@.len() - i,
    {
        match &row.edges[i] {
            Ancestor::Parent(id) => {
                edges.push(Some(*id));
            },
            Ancestor::Anonymous => {
                edges.push(None);
            },
        }
        i += 1;
        assert(edges@ =~= goal.take(i as int));
    }
    assert(edges@ =~= goal);
    let height: usize = compute_file_line_count(text);
    let mut message: String = String::new();
    let mut k: usize = 0;
    assert(message@ =~= line_feeds(0));
    while k < height
        invariant
            k <= height,
            message@ == line_feeds(k as nat),
        decreases height - k,
    {
        message.push('\n');
        k += 1;
        assert(message@ =~= line_feeds(k as nat));
    }
    (row.id, edges, row.glyph.to_owned(), message)
}

/// Draws the graph beside rows with the given texts, one text for each row.
pub fn graph_lines(rows: &[Row], row_texts: &[Vec<u8>]) -> (lines: Vec<String>)
    requires
        rows@.len() == row_texts@.len(),
    ensures
        lines@.len() == rows@.len(),
        forall|i: int|
            0 <= i < rows@.len() ==> (#[trigger] lines@[i])@ == graph_row(
                MIN_ROW_HEIGHT as int,
                row_inputs(rows@, row_texts@).take(i + 1),
            ),
{
    let ghost goal = row_inputs(rows@, row_texts@);
    let mut inputs: Vec<(u64, Vec<Option<u64>>, String, String)> = Vec::new();
    let mut i: usize = 0;
    while i < rows.len()
        invariant
            i <= rows@.len(),
            rows@.len() == row_texts@.len(),
            goal == row_inputs(rows@, row_texts@),
            input_views(inputs@) == goal.take(i as int),
        decreases rows@.len() - i,
    {
        let ghost before = inputs@;
        let input: (u64, Vec<Option<u64>>, String, String) = graph_input(
            &rows[i],
            row_texts[i].as_slice(),
        );
        let ghost view = input_view(input);
        inputs.push(input);
        proof {
            assert(input_views(inputs@) =~= input_views(before).push(view));
            assert(goal.take(i + 1) =~= goal.take(i as int).push(goal[i as int]));
        }
        i += 1;
    }
    proof {
        assert(goal.take(goal.len() as int) =~= goal);
        assert(inputs@.len() == input_views(inputs@).len());
    }
    draw_rows(MIN_ROW_HEIGHT, inputs)
}

/// What is drawn for a row is its own node, an edge for each of its edges, which
/// leads to the same node if it leads to one, its glyph, and as many line feeds
/// as its text has lines.
pub proof fn lemma_row_input(row: Row, text: Seq<u8>, i: int)
    requires
        0 <= i < row.edges@.len(),
    ensures
        row_input(row, text).0 == row.id,
        row_input(row, text).1.len() == row.edges@.len(),
        row.edges@[i] matches Ancestor::Parent(id) ==> row_input(row, text).1[i] == Some(id),
        row.edges@[i] is Anonymous ==> row_input(row, text).1[i] is None,
        row_input(row, text).2 == row.glyph@,
        row_input(row, text).3.len() == lines_of(text).len(),
        forall|k: int|
            0 <= k < row_input(row, text).3.len() ==> #[trigger] row_input(row, text).3[k] == '\n',
{
    lemma_line_count_lines(text);
}

} // verus!
