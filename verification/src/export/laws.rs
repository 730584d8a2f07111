//! What an export holds, over all indexes.

use crate::blast;
use crate::export;
use crate::export::{EdgeState, Picture};
use crate::plain;
use crate::postings;
use crate::query::Snapshot;
use crate::rows::{EdgeRow, FileRow, GhostRow};
use crate::text;
use vstd::prelude::*;

verus! {

/// An edge is known as a ghost: there is a row that says so.
pub open spec fn is_ghost(ghosts: Seq<GhostRow>, edge: i64) -> bool {
    exists|j: int| 0 <= j < ghosts.len() && (#[trigger] ghosts[j]).edge_id == edge
}

proof fn lemma_haunts(ghosts: Seq<GhostRow>, edge: i64)
    ensures
        export::haunts(ghosts, edge) <==> is_ghost(ghosts, edge),
{
    let keys = blast::ghost_edges(ghosts);
    postings::positions_are_indices(keys, edge);
    let p = postings::positions(keys, edge);
    if p.len() > 0 {
        let j = p[p.len() - 1];
        assert(keys[j] == ghosts[j].edge_id);
        assert(ghosts[j].edge_id == edge);
    }
    if is_ghost(ghosts, edge) {
        let j = choose|j: int| 0 <= j < ghosts.len() && (#[trigger] ghosts[j]).edge_id == edge;
        assert(keys[j] == edge);
        assert(p.contains(j));
    }
}

/// Law: in a table an open edge is live, a ghost that is not open is a ghost,
/// and any other is dead. In a picture a ghost is one though it is open again.
pub proof fn edges_have_states(snap: &Snapshot, e: EdgeRow)
    ensures
        plain::open_now(snap.intervals@, e.id) ==> export::table_state(snap, e) == EdgeState::Live,
        !plain::open_now(snap.intervals@, e.id) && is_ghost(snap.ghosts@, e.id) ==> export::table_state(snap, e)
            == EdgeState::Severed,
        !plain::open_now(snap.intervals@, e.id) && !is_ghost(snap.ghosts@, e.id) ==> export::table_state(snap, e)
            == EdgeState::Dead,
        is_ghost(snap.ghosts@, e.id) ==> export::drawn_state(snap, e) == EdgeState::Severed,
        plain::open_now(snap.intervals@, e.id) && !is_ghost(snap.ghosts@, e.id) ==> export::drawn_state(snap, e)
            == EdgeState::Live,
        !plain::open_now(snap.intervals@, e.id) && !is_ghost(snap.ghosts@, e.id) ==> export::drawn_state(snap, e)
            == EdgeState::Dead,
        EdgeState::Live.name() == "live"@,
        EdgeState::Severed.name() == "ghost"@,
        EdgeState::Dead.name() == "dead"@,
{
    lemma_haunts(snap.ghosts@, e.id);
    assert(crate::graph::ended(snap.intervals@, e.id, None) <==> plain::open_now(snap.intervals@, e.id));
}

proof fn lemma_push_line(s: Seq<Seq<char>>, x: Seq<char>, l: Seq<char>)
    ensures
        s.push(x).contains(l) <==> s.contains(l) || x == l,
{
    if s.contains(l) {
        assert(s.push(x)[s.index_of(l)] == l);
    }
    assert(s.push(x)[s.len() as int] == x);
    if s.push(x).contains(l) {
        let k = s.push(x).index_of(l);
        if k < s.len() {
            assert(s[k] == l);
        }
    }
}

/// Law: a picture has a line for each file that has a path at HEAD, and no
/// other line for files.
pub proof fn files_are_drawn(p: Picture, files: Seq<FileRow>, l: Seq<char>)
    ensures
        export::node_lines(p, files).contains(l) <==> exists|i: int|
            0 <= i < files.len() && ((#[trigger] files[i]).current_path matches Some(path) && l == p.node_line(
                files[i].id,
                path@,
            )),
    decreases files.len(),
{
    if files.len() > 0 {
        let d = files.drop_last();
        let f = files.last();
        files_are_drawn(p, d, l);
        assert(files[files.len() - 1] == f);
        if let Some(path) = f.current_path {
            lemma_push_line(export::node_lines(p, d), p.node_line(f.id, path@), l);
        }
        if export::node_lines(p, d).contains(l) {
            let i = choose|i: int|
                0 <= i < d.len() && ((#[trigger] d[i]).current_path matches Some(path) && l == p.node_line(
                    d[i].id,
                    path@,
                ));
            assert(files[i] == d[i]);
        }
        if exists|i: int|
            0 <= i < files.len() && ((#[trigger] files[i]).current_path matches Some(path) && l == p.node_line(
                files[i].id,
                path@,
            )) {
            let i = choose|i: int|
                0 <= i < files.len() && ((#[trigger] files[i]).current_path matches Some(path) && l == p.node_line(
                    files[i].id,
                    path@,
                ));
            if i < d.len() {
                assert(d[i] == files[i]);
            }
        }
    }
}

/// Law: a picture has a line for each edge that is open or a ghost, and no other
/// line for edges.
pub proof fn edges_are_drawn(p: Picture, snap: &Snapshot, edges: Seq<EdgeRow>, l: Seq<char>)
    ensures
        export::edge_lines(p, snap, edges).contains(l) <==> exists|i: int|
            #![trigger edges[i]]
            0 <= i < edges.len() && (plain::open_now(snap.intervals@, edges[i].id) || is_ghost(
                snap.ghosts@,
                edges[i].id,
            )) && l == p.edge_line(
                edges[i],
                if is_ghost(snap.ghosts@, edges[i].id) {
                    EdgeState::Severed
                } else {
                    EdgeState::Live
                },
            ),
    decreases edges.len(),
{
    if edges.len() > 0 {
        let d = edges.drop_last();
        let e = edges.last();
        edges_are_drawn(p, snap, d, l);
        edges_have_states(snap, e);
        assert(edges[edges.len() - 1] == e);
        lemma_push_line(export::edge_lines(p, snap, d), p.edge_line(e, export::drawn_state(snap, e)), l);
        if export::edge_lines(p, snap, d).contains(l) {
            let i = choose|i: int|
                #![trigger d[i]]
                0 <= i < d.len() && (plain::open_now(snap.intervals@, d[i].id) || is_ghost(snap.ghosts@, d[i].id)) && l
                    == p.edge_line(
                    d[i],
                    if is_ghost(snap.ghosts@, d[i].id) {
                        EdgeState::Severed
                    } else {
                        EdgeState::Live
                    },
                );
            assert(edges[i] == d[i]);
        }
        if exists|i: int|
            #![trigger edges[i]]
            0 <= i < edges.len() && (plain::open_now(snap.intervals@, edges[i].id) || is_ghost(
                snap.ghosts@,
                edges[i].id,
            )) && l == p.edge_line(
                edges[i],
                if is_ghost(snap.ghosts@, edges[i].id) {
                    EdgeState::Severed
                } else {
                    EdgeState::Live
                },
            ) {
            let i = choose|i: int|
                #![trigger edges[i]]
                0 <= i < edges.len() && (plain::open_now(snap.intervals@, edges[i].id) || is_ghost(
                    snap.ghosts@,
                    edges[i].id,
                )) && l == p.edge_line(
                    edges[i],
                    if is_ghost(snap.ghosts@, edges[i].id) {
                        EdgeState::Severed
                    } else {
                        EdgeState::Live
                    },
                );
            if i < d.len() {
                assert(d[i] == edges[i]);
            }
        }
    }
}

/// Law: a picture starts with its head and ends with its foot, with the files
/// before the edges.
pub proof fn pictures_are_framed(p: Picture, snap: &Snapshot)
    ensures
        ({
            let l = export::picture_lines(p, snap);
            let n = export::node_lines(p, snap.files.files());
            let e = export::edge_lines(p, snap, snap.edges@);
            &&& p == Picture::Dot ==> l == seq!["digraph palimpsest {"@] + n + e + seq!["}"@]
            &&& p == Picture::Graphml ==> l.last() == "</graph></graphml>"@ && l.len() == 6 + n.len() + e.len() + 1
                && l.subrange(6, 6 + n.len() as int) == n && l.subrange(6 + n.len() as int, (6 + n.len() + e.len()) as int)
                == e
        }),
{
    let l = export::picture_lines(p, snap);
    let n = export::node_lines(p, snap.files.files());
    let e = export::edge_lines(p, snap, snap.edges@);
    if p == Picture::Dot {
        assert(l =~= seq!["digraph palimpsest {"@] + n + e + seq!["}"@]);
    } else {
        assert(p.head().len() == 6);
        assert(l.subrange(6, 6 + n.len() as int) =~= n);
        assert(l.subrange(6 + n.len() as int, (6 + n.len() + e.len()) as int) =~= e);
    }
}

/// Law: ghosts are dashed and live edges solid; the lines name the two files by
/// their ids.
pub proof fn edges_are_written(e: EdgeRow)
    ensures
        Picture::Dot.edge_line(e, EdgeState::Severed) == "  n"@ + text::decimal_int(e.src.0 as int) + " -> n"@
            + text::decimal_int(e.dst.0 as int) + " [style="@ + "dashed"@ + " label=\""@ + e.kind.name() + "\"];"@,
        Picture::Dot.edge_line(e, EdgeState::Live) == "  n"@ + text::decimal_int(e.src.0 as int) + " -> n"@
            + text::decimal_int(e.dst.0 as int) + " [style="@ + "solid"@ + " label=\""@ + e.kind.name() + "\"];"@,
        Picture::Graphml.edge_line(e, EdgeState::Severed) == "  <edge source=\"n"@ + text::decimal_int(e.src.0 as int)
            + "\" target=\"n"@ + text::decimal_int(e.dst.0 as int) + "\"><data key=\"kind\">"@ + e.kind.name()
            + "</data><data key=\"state\">"@ + "ghost"@ + "</data></edge>"@,
{
}

/// Law: escaping goes from character to character and keeps all that is no
/// markup.
pub proof fn escaping_is_by_character(s: Seq<char>, c: char)
    ensures
        export::xml_text(s.push('&')) == export::xml_text(s) + "&amp;"@,
        export::xml_text(s.push('<')) == export::xml_text(s) + "&lt;"@,
        export::xml_text(s.push('>')) == export::xml_text(s) + "&gt;"@,
        export::xml_text(s.push('"')) == export::xml_text(s) + "&quot;"@,
        c != '&' && c != '<' && c != '>' && c != '"' ==> export::xml_text(s.push(c)) == export::xml_text(s).push(c),
        export::xml_text(Seq::empty()).len() == 0,
{
    assert(s.push('&').drop_last() =~= s);
    assert(s.push('<').drop_last() =~= s);
    assert(s.push('>').drop_last() =~= s);
    assert(s.push('"').drop_last() =~= s);
    assert(s.push(c).drop_last() =~= s);
    assert(export::xml_text(s) + seq![c] =~= export::xml_text(s).push(c));
}

/// Law: a table has a row for each file: its path at HEAD or its last one,
/// whether it is alive, its language, and whether it is a document.
pub proof fn files_are_tabled(snap: &Snapshot, f: FileRow)
    ensures
        ({
            let n = export::node_of(snap, f);
            &&& n.id == f.id.0
            &&& n.alive <==> f.current_path is Some
            &&& f.current_path matches Some(p) ==> n.path == p@
            &&& f.current_path is None ==> n.path == snap.shown(f.id)
            &&& n.lang == text::opt_view(f.lang)
            &&& n.is_doc == f.is_doc
        }),
{
}

} // verus!
