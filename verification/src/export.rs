//! The graph written out for other tools.

use crate::blast;
use crate::graph;
use crate::graph::{has_ended, interval_postings};
use crate::model::FileId;
use crate::postings::Postings;
use crate::postings;
use crate::query::Snapshot;
use crate::rows::{EdgeRow, FileRow, GhostRow};
use crate::rows;
use crate::text;
use vstd::prelude::*;
use vstd::string::*;

pub mod laws;

verus! {

// ---- text ----

/// A character as XML writes it.
pub open spec fn xml_char(c: char) -> Seq<char> {
    if c == '&' {
        "&amp;"@
    } else if c == '<' {
        "&lt;"@
    } else if c == '>' {
        "&gt;"@
    } else if c == '"' {
        "&quot;"@
    } else {
        seq![c]
    }
}

/// Text as XML writes it.
pub open spec fn xml_text(s: Seq<char>) -> Seq<char>
    decreases s.len(),
{
    if s.len() == 0 {
        Seq::empty()
    } else {
        xml_text(s.drop_last()) + xml_char(s.last())
    }
}

/// Write text so that it can stand in XML, between quotes too.
pub fn xml_escape(s: &str) -> (r: String)
    ensures
        r@ == xml_text(s@),
{
    let v = text::to_chars(s);
    let mut out = String::new();
    let mut i: usize = 0;
    assert(s@.take(0) =~= Seq::<char>::empty());
    assert(out@ =~= xml_text(s@.take(0)));
    while i < v.len()
        invariant
            i <= v@.len(),
            v@ == s@,
            out@ == xml_text(s@.take(i as int)),
        decreases v@.len() - i,
    {
        assert(s@.take(i + 1).drop_last() =~= s@.take(i as int));
        let c = v[i];
        if c == '&' {
            out.append("&amp;");
        } else if c == '<' {
            out.append("&lt;");
        } else if c == '>' {
            out.append("&gt;");
        } else if c == '"' {
            out.append("&quot;");
        } else {
            out.push(c);
            assert(out@ =~= xml_text(s@.take(i as int)) + seq![c]);
        }
        i += 1;
    }
    assert(s@.take(i as int) =~= s@);
    out
}

/// Law: escaped text holds no character that XML would take for markup.
pub proof fn escaped_is_plain(s: Seq<char>)
    ensures
        forall|i: int|
            0 <= i < xml_text(s).len() ==> (#[trigger] xml_text(s)[i]) != '<' && xml_text(s)[i] != '>' && xml_text(
                s,
            )[i] != '"',
    decreases s.len(),
{
    reveal_strlit("&amp;");
    reveal_strlit("&lt;");
    reveal_strlit("&gt;");
    reveal_strlit("&quot;");
    if s.len() > 0 {
        escaped_is_plain(s.drop_last());
        let a = xml_text(s.drop_last());
        let b = xml_char(s.last());
        let r = xml_text(s);
        assert forall|i: int| 0 <= i < r.len() implies (#[trigger] r[i]) != '<' && r[i] != '>' && r[i] != '"' by {
            if i < a.len() {
                assert(r[i] == a[i]);
            } else {
                assert(r[i] == b[i - a.len()]);
            }
        }
    }
}

// ---- what is drawn ----

/// An edge is known as a ghost.
pub open spec fn haunts(ghosts: Seq<GhostRow>, edge: i64) -> bool {
    postings::last_position(blast::ghost_edges(ghosts), edge) is Some
}

/// What becomes of an edge in a picture.
#[derive(Debug, Clone, Copy, PartialEq, Eq, Structural)]
pub enum EdgeState {
    Live,
    Severed,
    Dead,
}

/// An edge in a table: live where an interval is open, a ghost where it is
/// known as one, dead else.
pub open spec fn table_state(snap: &Snapshot, e: EdgeRow) -> EdgeState {
    if graph::ended(snap.intervals@, e.id, None) {
        EdgeState::Live
    } else if haunts(snap.ghosts@, e.id) {
        EdgeState::Severed
    } else {
        EdgeState::Dead
    }
}

/// An edge in a picture: a ghost is drawn as one though an interval is open.
pub open spec fn drawn_state(snap: &Snapshot, e: EdgeRow) -> EdgeState {
    if haunts(snap.ghosts@, e.id) {
        EdgeState::Severed
    } else if graph::ended(snap.intervals@, e.id, None) {
        EdgeState::Live
    } else {
        EdgeState::Dead
    }
}

impl EdgeState {
    pub open spec fn name(self) -> Seq<char> {
        match self {
            EdgeState::Live => "live"@,
            EdgeState::Severed => "ghost"@,
            EdgeState::Dead => "dead"@,
        }
    }

    pub fn as_str(self) -> (r: &'static str)
        ensures
            r@ == self.name(),
    {
        match self {
            EdgeState::Live => "live",
            EdgeState::Severed => "ghost",
            EdgeState::Dead => "dead",
        }
    }
}

struct States {
    by_edge: Postings,
    by_ghost: Postings,
}

impl States {
    spec fn of(&self, snap: &Snapshot) -> bool {
        &&& self.by_edge.wf()
        &&& self.by_ghost.wf()
        &&& self.by_edge@ == graph::interval_edges(snap.intervals@)
        &&& self.by_ghost@ == blast::ghost_edges(snap.ghosts@)
    }

    fn new(snap: &Snapshot) -> (r: Self)
        ensures
            r.of(snap),
    {
        States { by_edge: interval_postings(&snap.intervals), by_ghost: blast::ghost_postings(&snap.ghosts) }
    }

    fn open(&self, snap: &Snapshot, e: EdgeRow) -> (r: bool)
        requires
            self.of(snap),
        ensures
            r == graph::ended(snap.intervals@, e.id, None),
    {
        has_ended(&snap.intervals, &self.by_edge, e.id, None)
    }

    fn severed(&self, snap: &Snapshot, e: EdgeRow) -> (r: bool)
        requires
            self.of(snap),
        ensures
            r == haunts(snap.ghosts@, e.id),
    {
        self.by_ghost.last(e.id).is_some()
    }

    fn in_table(&self, snap: &Snapshot, e: EdgeRow) -> (r: EdgeState)
        requires
            self.of(snap),
        ensures
            r == table_state(snap, e),
    {
        if self.open(snap, e) {
            EdgeState::Live
        } else if self.severed(snap, e) {
            EdgeState::Severed
        } else {
            EdgeState::Dead
        }
    }

    fn in_picture(&self, snap: &Snapshot, e: EdgeRow) -> (r: EdgeState)
        requires
            self.of(snap),
        ensures
            r == drawn_state(snap, e),
    {
        if self.severed(snap, e) {
            EdgeState::Severed
        } else if self.open(snap, e) {
            EdgeState::Live
        } else {
            EdgeState::Dead
        }
    }
}

// ---- pictures ----

/// The languages of pictures.
#[derive(Debug, Clone, Copy, PartialEq, Eq, Structural)]
pub enum Picture {
    Dot,
    Graphml,
}

pub open spec fn number(n: i64) -> Seq<char> {
    text::decimal_int(n as int)
}

impl Picture {
    pub open spec fn node_line(self, id: FileId, path: Seq<char>) -> Seq<char> {
        match self {
            Picture::Dot => "  n"@ + number(id.0) + " [label=\""@ + path + "\"];"@,
            Picture::Graphml => "  <node id=\"n"@ + number(id.0) + "\"><data key=\"path\">"@ + xml_text(path)
                + "</data></node>"@,
        }
    }

    pub open spec fn edge_line(self, e: EdgeRow, state: EdgeState) -> Seq<char> {
        match self {
            Picture::Dot => "  n"@ + number(e.src.0) + " -> n"@ + number(e.dst.0) + " [style="@ + (if state is Severed {
                "dashed"@
            } else {
                "solid"@
            }) + " label=\""@ + e.kind.name() + "\"];"@,
            Picture::Graphml => "  <edge source=\"n"@ + number(e.src.0) + "\" target=\"n"@ + number(e.dst.0)
                + "\"><data key=\"kind\">"@ + e.kind.name() + "</data><data key=\"state\">"@ + state.name()
                + "</data></edge>"@,
        }
    }

    pub open spec fn head(self) -> Seq<Seq<char>> {
        match self {
            Picture::Dot => seq!["digraph palimpsest {"@],
            Picture::Graphml => seq![
                "<?xml version=\"1.0\" encoding=\"UTF-8\"?>"@,
                "<graphml xmlns=\"http://graphml.graphdrawing.org/xmlns\">"@,
                "<key id=\"path\" for=\"node\" attr.name=\"path\" attr.type=\"string\"/>"@,
                "<key id=\"kind\" for=\"edge\" attr.name=\"kind\" attr.type=\"string\"/>"@,
                "<key id=\"state\" for=\"edge\" attr.name=\"state\" attr.type=\"string\"/>"@,
                "<graph edgedefault=\"directed\">"@,
            ],
        }
    }

    pub open spec fn foot(self) -> Seq<char> {
        match self {
            Picture::Dot => "}"@,
            Picture::Graphml => "</graph></graphml>"@,
        }
    }
}

/// A line for each file that has a path.
pub open spec fn node_lines(p: Picture, files: Seq<FileRow>) -> Seq<Seq<char>>
    decreases files.len(),
{
    if files.len() == 0 {
        Seq::empty()
    } else {
        let b = node_lines(p, files.drop_last());
        match text::opt_view(files.last().current_path) {
            Some(path) => b.push(p.node_line(files.last().id, path)),
            None => b,
        }
    }
}

/// A line for each edge that is live or a ghost.
pub open spec fn edge_lines(p: Picture, snap: &Snapshot, edges: Seq<EdgeRow>) -> Seq<Seq<char>>
    decreases edges.len(),
{
    if edges.len() == 0 {
        Seq::empty()
    } else {
        let b = edge_lines(p, snap, edges.drop_last());
        let s = drawn_state(snap, edges.last());
        if s is Dead {
            b
        } else {
            b.push(p.edge_line(edges.last(), s))
        }
    }
}

/// The lines of a picture.
pub open spec fn picture_lines(p: Picture, snap: &Snapshot) -> Seq<Seq<char>> {
    (p.head() + node_lines(p, snap.files.files()) + edge_lines(p, snap, snap.edges@)).push(p.foot())
}

fn write_node(p: Picture, id: FileId, path: &str) -> (r: String)
    ensures
        r@ == p.node_line(id, path@),
{
    let n = text::int_text(id.0);
    match p {
        Picture::Dot => {
            let a = text::cat3("  n", n.as_str(), " [label=\"");
            text::cat3(a.as_str(), path, "\"];")
        },
        Picture::Graphml => {
            let a = text::cat3("  <node id=\"n", n.as_str(), "\"><data key=\"path\">");
            let x = xml_escape(path);
            text::cat3(a.as_str(), x.as_str(), "</data></node>")
        },
    }
}

fn write_edge(p: Picture, e: EdgeRow, state: EdgeState) -> (r: String)
    ensures
        r@ == p.edge_line(e, state),
{
    let s = text::int_text(e.src.0);
    let d = text::int_text(e.dst.0);
    match p {
        Picture::Dot => {
            let style = match state {
                EdgeState::Severed => "dashed",
                _ => "solid",
            };
            let a = text::cat3("  n", s.as_str(), " -> n");
            let b = text::cat3(a.as_str(), d.as_str(), " [style=");
            let c = text::cat3(b.as_str(), style, " label=\"");
            text::cat3(c.as_str(), e.kind.as_str(), "\"];")
        },
        Picture::Graphml => {
            let a = text::cat3("  <edge source=\"n", s.as_str(), "\" target=\"n");
            let b = text::cat3(a.as_str(), d.as_str(), "\"><data key=\"kind\">");
            let c = text::cat3(b.as_str(), e.kind.as_str(), "</data><data key=\"state\">");
            text::cat3(c.as_str(), state.as_str(), "</data></edge>")
        },
    }
}

fn write_head(p: Picture) -> (r: Vec<String>)
    ensures
        text::views(r@) == p.head(),
{
    let mut out: Vec<String> = Vec::new();
    match p {
        Picture::Dot => {
            out.push("digraph palimpsest {".to_owned());
        },
        Picture::Graphml => {
            out.push("<?xml version=\"1.0\" encoding=\"UTF-8\"?>".to_owned());
            out.push("<graphml xmlns=\"http://graphml.graphdrawing.org/xmlns\">".to_owned());
            out.push("<key id=\"path\" for=\"node\" attr.name=\"path\" attr.type=\"string\"/>".to_owned());
            out.push("<key id=\"kind\" for=\"edge\" attr.name=\"kind\" attr.type=\"string\"/>".to_owned());
            out.push("<key id=\"state\" for=\"edge\" attr.name=\"state\" attr.type=\"string\"/>".to_owned());
            out.push("<graph edgedefault=\"directed\">".to_owned());
        },
    }
    assert(text::views(out@) =~= p.head());
    out
}

/// Draw the graph of an index: the files that have a path, and the edges that
/// are live or ghosts.
pub fn export_picture(snap: &Snapshot, p: Picture) -> (r: Vec<String>)
    ensures
        text::views(r@) == picture_lines(p, snap),
{
    let mut out = write_head(p);
    let ghost head = p.head();
    let files = snap.files.rows();
    let mut i: usize = 0;
    assert(files@.take(0) =~= Seq::<FileRow>::empty());
    assert(head + node_lines(p, files@.take(0)) =~= head);
    while i < files.len()
        invariant
            i <= files@.len(),
            text::views(out@) == head + node_lines(p, files@.take(i as int)),
        decreases files@.len() - i,
    {
        assert(files@.take(i + 1).drop_last() =~= files@.take(i as int));
        match &files[i].current_path {
            Some(path) => {
                let line = write_node(p, files[i].id, path.as_str());
                proof {
                    text::lemma_views_push(out@, line);
                }
                out.push(line);
                assert(text::views(out@) =~= head + node_lines(p, files@.take(i + 1)));
            },
            None => {},
        }
        i += 1;
    }
    assert(files@.take(i as int) =~= files@);
    let ghost body = text::views(out@);
    let states = States::new(snap);
    let mut j: usize = 0;
    assert(snap.edges@.take(0) =~= Seq::<EdgeRow>::empty());
    assert(body + edge_lines(p, snap, snap.edges@.take(0)) =~= body);
    while j < snap.edges.len()
        invariant
            j <= snap.edges@.len(),
            states.of(snap),
            text::views(out@) == body + edge_lines(p, snap, snap.edges@.take(j as int)),
        decreases snap.edges@.len() - j,
    {
        assert(snap.edges@.take(j + 1).drop_last() =~= snap.edges@.take(j as int));
        let e = snap.edges[j];
        let state = states.in_picture(snap, e);
        match state {
            EdgeState::Dead => {},
            _ => {
                let line = write_edge(p, e, state);
                proof {
                    text::lemma_views_push(out@, line);
                }
                out.push(line);
                assert(text::views(out@) =~= body + edge_lines(p, snap, snap.edges@.take(j + 1)));
            },
        }
        j += 1;
    }
    assert(snap.edges@.take(j as int) =~= snap.edges@);
    let last = match p {
        Picture::Dot => "}",
        Picture::Graphml => "</graph></graphml>",
    };
    let last = last.to_owned();
    proof {
        text::lemma_views_push(out@, last);
    }
    out.push(last);
    out
}

// ---- tables ----

pub struct ExportNode {
    pub id: i64,
    pub path: String,
    pub alive: bool,
    pub lang: Option<String>,
    pub is_doc: bool,
}

#[verifier::ext_equal]
pub struct NodeView {
    pub id: i64,
    pub path: Seq<char>,
    pub alive: bool,
    pub lang: Option<Seq<char>>,
    pub is_doc: bool,
}

impl View for ExportNode {
    type V = NodeView;

    open spec fn view(&self) -> NodeView {
        NodeView {
            id: self.id,
            path: self.path@,
            alive: self.alive,
            lang: text::opt_view(self.lang),
            is_doc: self.is_doc,
        }
    }
}

pub open spec fn node_views(s: Seq<ExportNode>) -> Seq<NodeView> {
    s.map_values(|n: ExportNode| n@)
}

/// What a table says of a file: where it has no path now, its last one.
pub open spec fn node_of(snap: &Snapshot, f: FileRow) -> NodeView {
    NodeView {
        id: f.id.0,
        path: match text::opt_view(f.current_path) {
            Some(p) => p,
            None => snap.shown(f.id),
        },
        alive: f.current_path is Some,
        lang: text::opt_view(f.lang),
        is_doc: f.is_doc,
    }
}

/// A row for each file.
pub fn export_nodes(snap: &Snapshot) -> (r: Vec<ExportNode>)
    requires
        snap.wf(),
    ensures
        node_views(r@) == snap.files.files().map_values(|f: FileRow| node_of(snap, f)),
{
    let files = snap.files.rows();
    let mut out: Vec<ExportNode> = Vec::new();
    let mut i: usize = 0;
    while i < files.len()
        invariant
            i <= files@.len(),
            snap.wf(),
            out@.len() == i,
            forall|k: int| 0 <= k < i ==> (#[trigger] out@[k])@ == node_of(snap, files@[k]),
        decreases files@.len() - i,
    {
        let f = &files[i];
        let path = match &f.current_path {
            Some(p) => p.clone(),
            None => snap.files.display_path(f.id),
        };
        let lang = match &f.lang {
            Some(l) => Some(l.clone()),
            None => None,
        };
        out.push(ExportNode { id: f.id.0, path, alive: f.current_path.is_some(), lang, is_doc: f.is_doc });
        i += 1;
    }
    assert(node_views(out@) =~= files@.map_values(|f: FileRow| node_of(snap, f)));
    out
}

/// For each edge what a table says of it.
pub fn export_states(snap: &Snapshot) -> (r: Vec<EdgeState>)
    ensures
        r@ == snap.edges@.map_values(|e: EdgeRow| table_state(snap, e)),
{
    let states = States::new(snap);
    let mut out: Vec<EdgeState> = Vec::new();
    let mut i: usize = 0;
    while i < snap.edges.len()
        invariant
            i <= snap.edges@.len(),
            states.of(snap),
            out@.len() == i,
            forall|k: int| 0 <= k < i ==> #[trigger] out@[k] == table_state(snap, snap.edges@[k]),
        decreases snap.edges@.len() - i,
    {
        out.push(states.in_table(snap, snap.edges[i]));
        i += 1;
    }
    assert(out@ =~= snap.edges@.map_values(|e: EdgeRow| table_state(snap, e)));
    out
}

} // verus!
