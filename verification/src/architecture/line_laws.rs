//! What the drawn lines of an architecture show.

use vstd::prelude::*;

use crate::architecture::scene::ArchLine;
use crate::architecture::svg::{line_svg, points_text, quoted};
use crate::emit::text_laws::{holds, lemma_holds_last, lemma_holds_more};
use crate::style::EDGE_COLOR;

verus! {

/// A line is drawn through its points and has a head at its end, at its
/// start, at both or at none, as it is asked for.
pub proof fn law_lines_have_their_heads(l: ArchLine)
    ensures
        holds(
            line_svg(l),
            quoted("points"@, points_text(l.waypoints@, l.waypoints@.len() as int)),
        ),
        l.arrow_end ==> holds(line_svg(l), " marker-end='url(#flowmaid-arch-arrow-end)'"@),
        l.arrow_start ==> holds(line_svg(l), " marker-start='url(#flowmaid-arch-arrow-start)'"@),
        !l.arrow_start && !l.arrow_end ==> line_svg(l) == "<polyline"@ + quoted(
            "points"@,
            points_text(l.waypoints@, l.waypoints@.len() as int),
        ) + " fill='none'"@ + quoted("stroke"@, EDGE_COLOR@) + " stroke-width='2'"@ + " />\n"@,
{
    let points = quoted("points"@, points_text(l.waypoints@, l.waypoints@.len() as int));
    let h1 = "<polyline"@ + points;
    let h2 = h1 + " fill='none'"@;
    let h3 = h2 + quoted("stroke"@, EDGE_COLOR@);
    let h4 = h3 + " stroke-width='2'"@;
    let end = if l.arrow_end {
        " marker-end='url(#flowmaid-arch-arrow-end)'"@
    } else {
        ""@
    };
    let start = if l.arrow_start {
        " marker-start='url(#flowmaid-arch-arrow-start)'"@
    } else {
        ""@
    };
    assert(line_svg(l) == h4 + end + start + " />\n"@);
    lemma_holds_last("<polyline"@, points);
    lemma_holds_more(h1, " fill='none'"@, points);
    lemma_holds_more(h2, quoted("stroke"@, EDGE_COLOR@), points);
    lemma_holds_more(h3, " stroke-width='2'"@, points);
    lemma_holds_more(h4, end, points);
    lemma_holds_more(h4 + end, start, points);
    lemma_holds_more(h4 + end + start, " />\n"@, points);
    lemma_holds_last(h4, end);
    lemma_holds_more(h4 + end, start, end);
    lemma_holds_more(h4 + end + start, " />\n"@, end);
    lemma_holds_last(h4 + end, start);
    lemma_holds_more(h4 + end + start, " />\n"@, start);
    if !l.arrow_start && !l.arrow_end {
        reveal_strlit("");
        assert(h4 + ""@ + ""@ =~= h4);
    }
}

} // verus!
