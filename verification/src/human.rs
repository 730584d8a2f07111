//! What people read in a terminal, line by line. The machine-readable output
//! is the contract; this is for eyes.

use crate::blast::{BlastOutput, Evidence, EvidenceView, Relation};
use crate::listing::{CochangeEntry, CochangeOutput, DriftEntry, DriftOutput, GhostEntry, GhostsOutput};
use crate::listing::{SearchEntry, SearchOutput};
use crate::hotspots::{HotspotEntry, HotspotsOutput};
use crate::model::Direction;
use crate::path_query::{Hop, PathOutput};
use crate::query::CommitRef;
use crate::stats::StatsOutput;
use crate::text;
use crate::timeline::{ChurnBucket, TimelineEdgeEvent, TimelineOutput, TimelinePathSpan};
use crate::why::{WhyEdge, WhyGhost, WhyInterval, WhyOutput};
use vstd::prelude::*;
use vstd::string::*;

pub mod laws;

verus! {

// ---- putting lines together ----

/// Texts one after another.
pub open spec fn run_on(parts: Seq<Seq<char>>) -> Seq<char>
    decreases parts.len(),
{
    if parts.len() == 0 {
        Seq::empty()
    } else {
        run_on(parts.drop_last()) + parts.last()
    }
}

/// The lines of each element, one after another.
pub open spec fn each<A>(s: Seq<A>, lines: spec_fn(A) -> Seq<Seq<char>>) -> Seq<Seq<char>>
    decreases s.len(),
{
    if s.len() == 0 {
        Seq::empty()
    } else {
        each(s.drop_last(), lines) + lines(s.last())
    }
}

/// A line that stands there on a condition.
pub open spec fn on(condition: bool, line: Seq<char>) -> Seq<Seq<char>> {
    if condition {
        seq![line]
    } else {
        Seq::empty()
    }
}

pub open spec fn str_views(s: Seq<&str>) -> Seq<Seq<char>> {
    s.map_values(|x: &str| x@)
}

fn line(parts: &[&str]) -> (r: String)
    ensures
        r@ == run_on(str_views(parts@)),
{
    let mut out = String::new();
    let ghost p = str_views(parts@);
    let mut i: usize = 0;
    assert(p.take(0) =~= Seq::<Seq<char>>::empty());
    while i < parts.len()
        invariant
            i <= parts@.len(),
            p == str_views(parts@),
            out@ == run_on(p.take(i as int)),
        decreases parts@.len() - i,
    {
        assert(p.take(i + 1).drop_last() =~= p.take(i as int));
        out.append(parts[i]);
        i += 1;
    }
    assert(p.take(i as int) =~= p);
    out
}

fn put(out: &mut Vec<String>, line: String)
    ensures
        text::views(final(out)@) == text::views(old(out)@).push(line@),
{
    proof {
        text::lemma_views_push(out@, line);
    }
    out.push(line);
}

// ---- numbers ----

pub open spec fn sign(n: int) -> Seq<char> {
    if n < 0 {
        "-"@
    } else {
        ""@
    }
}

pub open spec fn magnitude(n: int) -> int {
    if n < 0 {
        -n
    } else {
        n
    }
}

/// A number of hundredths with two decimals.
pub open spec fn hundredths(n: int) -> Seq<char> {
    run_on(
        seq![
            sign(n),
            text::decimal((magnitude(n) / 100) as nat),
            "."@,
            text::decimal_padded(magnitude(n) % 100, 2),
        ],
    )
}

/// A number of tenths with one decimal.
pub open spec fn tenths(n: int) -> Seq<char> {
    run_on(
        seq![sign(n), text::decimal((magnitude(n) / 10) as nat), "."@, text::decimal((magnitude(n) % 10) as nat)],
    )
}

fn sign_text(n: i64) -> (r: &'static str)
    ensures
        r@ == sign(n as int),
{
    if n < 0 {
        "-"
    } else {
        ""
    }
}

fn magnitude_of(n: i64) -> (r: u64)
    ensures
        r == magnitude(n as int),
{
    if n < 0 {
        (-(n + 1)) as u64 + 1
    } else {
        n as u64
    }
}

fn hundredths_text(n: i64) -> (r: String)
    ensures
        r@ == hundredths(n as int),
{
    let m = magnitude_of(n);
    let whole = text::nat_text(m / 100);
    let rest = text::int_text_padded((m % 100) as i64, 2);
    let parts = [sign_text(n), whole.as_str(), ".", rest.as_str()];
    assert(str_views(parts@) =~= seq![
        sign(n as int),
        text::decimal((magnitude(n as int) / 100) as nat),
        "."@,
        text::decimal_padded(magnitude(n as int) % 100, 2),
    ]);
    line(&parts)
}

fn tenths_text(n: i64) -> (r: String)
    ensures
        r@ == tenths(n as int),
{
    let m = magnitude_of(n);
    let whole = text::nat_text(m / 10);
    let rest = text::nat_text(m % 10);
    let parts = [sign_text(n), whole.as_str(), ".", rest.as_str()];
    assert(str_views(parts@) =~= seq![
        sign(n as int),
        text::decimal((magnitude(n as int) / 10) as nat),
        "."@,
        text::decimal((magnitude(n as int) % 10) as nat),
    ]);
    line(&parts)
}

pub open spec fn spaces(n: int) -> Seq<char> {
    Seq::new(if n > 0 { n as nat } else { 0 }, |i: int| ' ')
}

/// A text with spaces in front up to a width.
pub open spec fn set_right(s: Seq<char>, width: int) -> Seq<char> {
    spaces(width - s.len()) + s
}

fn right_text(s: &str, width: usize) -> (r: String)
    ensures
        r@ == set_right(s@, width as int),
{
    let mut out = String::new();
    let mut k = s.unicode_len();
    let ghost have: int = k as int;
    while k < width
        invariant
            have <= k,
            k <= width || k == have,
            out@ == spaces(k - have),
        decreases width - k,
    {
        out.push(' ');
        k += 1;
        assert(spaces(k - have) =~= spaces(k - 1 - have).push(' '));
    }
    assert(spaces(k - have) =~= spaces(width - have));
    out.append(s);
    out
}

pub open spec fn number(n: int) -> Seq<char> {
    text::decimal_int(n)
}

/// Counts in plain decimals.
pub open spec fn count(n: int) -> Seq<char> {
    text::decimal(n as nat)
}


// ---- evidence ----

/// The measurements of a co-changing pair, written out.
pub struct PairFigures {
    /// How sure the second file follows the first, and the first the second.
    pub conf_ab: String,
    pub conf_ba: String,
    pub lift: String,
}

/// The measurements that evidence points to, written out: by the slots of
/// ghosts and of pairs.
pub struct Figures {
    pub ghosts: Vec<String>,
    pub pairs: Vec<PairFigures>,
}

impl Figures {
    /// The measurements of a piece of evidence are there.
    pub open spec fn covers(&self, e: EvidenceView) -> bool {
        match e {
            EvidenceView::GhostEdge { slot, .. } => slot < self.ghosts@.len(),
            EvidenceView::Cochange { slot, .. } => slot < self.pairs@.len(),
            _ => true,
        }
    }
}

pub open spec fn arrow(d: Direction) -> Seq<char> {
    match d {
        Direction::Out => "->"@,
        Direction::In => "<-"@,
    }
}

fn arrow_text(d: Direction) -> (r: &'static str)
    ensures
        r@ == arrow(d),
{
    match d {
        Direction::Out => "->",
        Direction::In => "<-",
    }
}

pub open spec fn distance(d: Option<u8>) -> Seq<char> {
    match d {
        Some(n) => count(n as int),
        None => "unreachable"@,
    }
}

fn distance_text(d: Option<u8>) -> (r: String)
    ensures
        r@ == distance(d),
{
    match d {
        Some(n) => text::nat_text(n as u64),
        None => "unreachable".to_owned(),
    }
}

/// A piece of evidence in words.
pub open spec fn evidence_text(e: EvidenceView, figures: &Figures) -> Seq<char> {
    run_on(
        match e {
            EvidenceView::StructuralEdge { kind, resolution, direction, .. } => seq![
                "live "@,
                kind.name(),
                " "@,
                arrow(direction),
                " ("@,
                resolution.name(),
                ")"@,
            ],
            EvidenceView::GhostEdge {
                kind,
                severed_at,
                severed_date,
                cochanges_since,
                slot,
                severing_subject,
                ..
            } => seq![
                "GHOST "@,
                kind.name(),
                ": severed "@,
                severed_at,
                " "@,
                severed_date,
                " \""@,
                severing_subject,
                "\"; co-changed "@,
                number(cochanges_since as int),
                "x since (conf "@,
                figures.ghosts@[slot as int]@,
                ")"@,
            ],
            EvidenceView::Cochange { n, slot, forward, last } => seq![
                "co-change "@,
                number(n as int),
                "x, conf "@,
                if forward {
                    figures.pairs@[slot as int].conf_ab@
                } else {
                    figures.pairs@[slot as int].conf_ba@
                },
                ", lift "@,
                figures.pairs@[slot as int].lift@,
                ", last "@,
                last,
            ],
            EvidenceView::Transitive { via, union_dist, head_dist } => if via.len() == 0 {
                seq!["transitive: union-dist "@, count(union_dist as int), ", live-dist "@, distance(head_dist)]
            } else {
                seq![
                    "transitive via "@,
                    text::join(via, " > "@),
                    ": union-dist "@,
                    count(union_dist as int),
                    ", live-dist "@,
                    distance(head_dist),
                ]
            },
            EvidenceView::DocDrift { commits_behind, .. } => seq![
                "doc is "@,
                count(commits_behind as int),
                " commits behind this file"@,
            ],
        },
    )
}

/// A piece of evidence in words.
pub fn evidence_line(e: &Evidence, figures: &Figures) -> (r: String)
    requires
        figures.covers(e@),
    ensures
        r@ == evidence_text(e@, figures),
{
    match e {
        Evidence::StructuralEdge { kind, resolution, direction, .. } => {
            let parts = ["live ", kind.as_str(), " ", arrow_text(*direction), " (", resolution.as_str(), ")"];
            assert(str_views(parts@) =~= seq![
                "live "@,
                kind.name(),
                " "@,
                arrow(*direction),
                " ("@,
                resolution.name(),
                ")"@,
            ]);
            line(&parts)
        },
        Evidence::GhostEdge {
            kind,
            severed_at,
            severed_date,
            cochanges_since,
            slot,
            severing_subject,
            ..
        } => {
            let n = text::int_text(*cochanges_since);
            let conf = &figures.ghosts[*slot];
            let parts = [
                "GHOST ",
                kind.as_str(),
                ": severed ",
                severed_at.as_str(),
                " ",
                severed_date.as_str(),
                " \"",
                severing_subject.as_str(),
                "\"; co-changed ",
                n.as_str(),
                "x since (conf ",
                conf.as_str(),
                ")",
            ];
            assert(str_views(parts@) =~= seq![
                "GHOST "@,
                kind.name(),
                ": severed "@,
                severed_at@,
                " "@,
                severed_date@,
                " \""@,
                severing_subject@,
                "\"; co-changed "@,
                number(*cochanges_since as int),
                "x since (conf "@,
                figures.ghosts@[*slot as int]@,
                ")"@,
            ]);
            line(&parts)
        },
        Evidence::Cochange { n, slot, forward, last } => {
            let f = &figures.pairs[*slot];
            let conf = if *forward {
                f.conf_ab.as_str()
            } else {
                f.conf_ba.as_str()
            };
            let times = text::int_text(*n);
            let parts = [
                "co-change ",
                times.as_str(),
                "x, conf ",
                conf,
                ", lift ",
                f.lift.as_str(),
                ", last ",
                last.as_str(),
            ];
            assert(str_views(parts@) =~= seq![
                "co-change "@,
                number(*n as int),
                "x, conf "@,
                if *forward {
                    figures.pairs@[*slot as int].conf_ab@
                } else {
                    figures.pairs@[*slot as int].conf_ba@
                },
                ", lift "@,
                figures.pairs@[*slot as int].lift@,
                ", last "@,
                last@,
            ]);
            line(&parts)
        },
        Evidence::Transitive { via, union_dist, head_dist } => {
            let u = text::nat_text(*union_dist as u64);
            let h = distance_text(*head_dist);
            if via.len() == 0 {
                let parts = ["transitive: union-dist ", u.as_str(), ", live-dist ", h.as_str()];
                assert(str_views(parts@) =~= seq![
                    "transitive: union-dist "@,
                    count(*union_dist as int),
                    ", live-dist "@,
                    distance(*head_dist),
                ]);
                line(&parts)
            } else {
                let way = text::join_with(via, " > ");
                let parts = [
                    "transitive via ",
                    way.as_str(),
                    ": union-dist ",
                    u.as_str(),
                    ", live-dist ",
                    h.as_str(),
                ];
                assert(str_views(parts@) =~= seq![
                    "transitive via "@,
                    text::join(text::views(via@), " > "@),
                    ": union-dist "@,
                    count(*union_dist as int),
                    ", live-dist "@,
                    distance(*head_dist),
                ]);
                line(&parts)
            }
        },
        Evidence::DocDrift { commits_behind, .. } => {
            let n = text::nat_text(*commits_behind as u64);
            let parts = ["doc is ", n.as_str(), " commits behind this file"];
            assert(str_views(parts@) =~= seq![
                "doc is "@,
                count(*commits_behind as int),
                " commits behind this file"@,
            ]);
            line(&parts)
        },
    }
}

// ---- blast ----

pub open spec fn evidence_lines(figures: &Figures) -> spec_fn(Evidence) -> Seq<Seq<char>> {
    |e: Evidence| seq![run_on(seq!["        "@, evidence_text(e@, figures)])]
}

pub open spec fn relation_lines(figures: &Figures) -> spec_fn(Relation) -> Seq<Seq<char>> {
    |r: Relation|
        seq![run_on(seq!["  "@, hundredths(r.rank_pct as int), "  "@, r.path@])] + each(
            r.evidence@,
            evidence_lines(figures),
        )
}

pub open spec fn note_lines() -> spec_fn(String) -> Seq<Seq<char>> {
    |c: String| seq![run_on(seq!["  note: "@, c@])]
}

/// The measurements of all evidence of a relation are there.
pub open spec fn covered(figures: &Figures, r: Relation) -> bool {
    forall|j: int| 0 <= j < r.evidence@.len() ==> figures.covers((#[trigger] r.evidence@[j])@)
}

pub open spec fn blast_lines(out: &BlastOutput, figures: &Figures) -> Seq<Seq<char>> {
    seq![run_on(seq!["blast radius of "@, out.query.file@, " (head "@, out.query.head@, ")"@])] + on(
        out.results@.len() == 0,
        "  nothing above threshold; absence of evidence is not evidence of absence"@,
    ) + each(out.results@, relation_lines(figures)) + on(
        out.truncated,
        "  (truncated; raise --limit for more)"@,
    ) + each(out.caveats@, note_lines())
}

fn put_relation(out: &mut Vec<String>, r: &Relation, figures: &Figures)
    requires
        covered(figures, *r),
    ensures
        text::views(final(out)@) == text::views(old(out)@) + relation_lines(figures)(*r),
{
    let rank = hundredths_text(r.rank_pct);
    let parts = ["  ", rank.as_str(), "  ", r.path.as_str()];
    let first = line(&parts);
    assert(str_views(parts@) =~= seq!["  "@, hundredths(r.rank_pct as int), "  "@, r.path@]);
    put(out, first);
    let ghost base = text::views(out@);
    let ghost f = evidence_lines(figures);
    let mut j: usize = 0;
    assert(base + each(r.evidence@.take(0), f) =~= base);
    while j < r.evidence.len()
        invariant
            j <= r.evidence@.len(),
            covered(figures, *r),
            f == evidence_lines(figures),
            text::views(out@) == base + each(r.evidence@.take(j as int), f),
        decreases r.evidence@.len() - j,
    {
        assert(r.evidence@.take(j + 1).drop_last() =~= r.evidence@.take(j as int));
        let words = evidence_line(&r.evidence[j], figures);
        let parts = ["        ", words.as_str()];
        let l = line(&parts);
        assert(str_views(parts@) =~= seq!["        "@, evidence_text(r.evidence@[j as int]@, figures)]);
        put(out, l);
        assert(text::views(out@) =~= base + each(r.evidence@.take(j + 1), f));
        j += 1;
    }
    assert(r.evidence@.take(j as int) =~= r.evidence@);
    assert(text::views(out@) =~= text::views(old(out)@) + relation_lines(figures)(*r));
}

fn put_notes(out: &mut Vec<String>, notes: &Vec<String>)
    ensures
        text::views(final(out)@) == text::views(old(out)@) + each(notes@, note_lines()),
{
    let ghost base = text::views(out@);
    let ghost f = note_lines();
    let mut j: usize = 0;
    assert(base + each(notes@.take(0), f) =~= base);
    while j < notes.len()
        invariant
            j <= notes@.len(),
            f == note_lines(),
            text::views(out@) == base + each(notes@.take(j as int), f),
        decreases notes@.len() - j,
    {
        assert(notes@.take(j + 1).drop_last() =~= notes@.take(j as int));
        let parts = ["  note: ", notes[j].as_str()];
        let l = line(&parts);
        assert(str_views(parts@) =~= seq!["  note: "@, notes@[j as int]@]);
        put(out, l);
        assert(text::views(out@) =~= base + each(notes@.take(j + 1), f));
        j += 1;
    }
    assert(notes@.take(j as int) =~= notes@);
}

pub fn blast(out: &BlastOutput, figures: &Figures) -> (r: Vec<String>)
    requires
        forall|i: int| 0 <= i < out.results@.len() ==> covered(figures, #[trigger] out.results@[i]),
    ensures
        text::views(r@) == blast_lines(out, figures),
{
    let mut lines: Vec<String> = Vec::new();
    let parts = ["blast radius of ", out.query.file.as_str(), " (head ", out.query.head.as_str(), ")"];
    let first = line(&parts);
    assert(str_views(parts@) =~= seq!["blast radius of "@, out.query.file@, " (head "@, out.query.head@, ")"@]);
    put(&mut lines, first);
    if out.results.len() == 0 {
        put(
            &mut lines,
            "  nothing above threshold; absence of evidence is not evidence of absence".to_owned(),
        );
    }
    let ghost base = text::views(lines@);
    assert(base =~= seq![
        run_on(seq!["blast radius of "@, out.query.file@, " (head "@, out.query.head@, ")"@]),
    ] + on(
        out.results@.len() == 0,
        "  nothing above threshold; absence of evidence is not evidence of absence"@,
    ));
    let ghost f = relation_lines(figures);
    let mut i: usize = 0;
    assert(base + each(out.results@.take(0), f) =~= base);
    while i < out.results.len()
        invariant
            i <= out.results@.len(),
            forall|i: int| 0 <= i < out.results@.len() ==> covered(figures, #[trigger] out.results@[i]),
            f == relation_lines(figures),
            text::views(lines@) == base + each(out.results@.take(i as int), f),
        decreases out.results@.len() - i,
    {
        assert(out.results@.take(i + 1).drop_last() =~= out.results@.take(i as int));
        put_relation(&mut lines, &out.results[i], figures);
        assert(text::views(lines@) =~= base + each(out.results@.take(i + 1), f));
        i += 1;
    }
    assert(out.results@.take(i as int) =~= out.results@);
    let ghost base = text::views(lines@);
    if out.truncated {
        put(&mut lines, "  (truncated; raise --limit for more)".to_owned());
    }
    assert(text::views(lines@) =~= base + on(out.truncated, "  (truncated; raise --limit for more)"@));
    put_notes(&mut lines, &out.caveats);
    lines
}

// ---- ghosts ----

pub open spec fn ghost_lines() -> spec_fn(GhostEntry) -> Seq<Seq<char>> {
    |g: GhostEntry|
        seq![
            run_on(seq![hundredths(g.score_pct as int), "  "@, g.from@, " -> "@, g.to@, " ("@, g.kind@, ")"@]),
            run_on(
                seq![
                    "      severed "@,
                    g.severed_at.oid@,
                    " "@,
                    g.severed_at.date@,
                    " \""@,
                    g.severed_at.subject@,
                    "\"; lived "@,
                    number(g.lifetime_days as int),
                    "d; co-changed "@,
                    number(g.cochanges_since as int),
                    "x since (conf "@,
                    hundredths(g.confidence_pct as int),
                    ")"@,
                ],
            ),
        ]
}

pub open spec fn ghosts_lines(out: &GhostsOutput) -> Seq<Seq<char>> {
    if out.results@.len() == 0 {
        seq!["no ghost edges"@]
    } else {
        each(out.results@, ghost_lines()) + on(out.truncated, "(truncated; raise --limit for more)"@)
    }
}

fn put_ghost(out: &mut Vec<String>, g: &GhostEntry)
    ensures
        text::views(final(out)@) == text::views(old(out)@) + ghost_lines()(*g),
{
    let score = hundredths_text(g.score_pct);
    let parts = [score.as_str(), "  ", g.from.as_str(), " -> ", g.to.as_str(), " (", g.kind, ")"];
    let first = line(&parts);
    assert(str_views(parts@) =~= seq![
        hundredths(g.score_pct as int),
        "  "@,
        g.from@,
        " -> "@,
        g.to@,
        " ("@,
        g.kind@,
        ")"@,
    ]);
    let days = text::int_text(g.lifetime_days);
    let times = text::int_text(g.cochanges_since);
    let conf = hundredths_text(g.confidence_pct);
    let parts = [
        "      severed ",
        g.severed_at.oid.as_str(),
        " ",
        g.severed_at.date.as_str(),
        " \"",
        g.severed_at.subject.as_str(),
        "\"; lived ",
        days.as_str(),
        "d; co-changed ",
        times.as_str(),
        "x since (conf ",
        conf.as_str(),
        ")",
    ];
    let second = line(&parts);
    assert(str_views(parts@) =~= seq![
        "      severed "@,
        g.severed_at.oid@,
        " "@,
        g.severed_at.date@,
        " \""@,
        g.severed_at.subject@,
        "\"; lived "@,
        number(g.lifetime_days as int),
        "d; co-changed "@,
        number(g.cochanges_since as int),
        "x since (conf "@,
        hundredths(g.confidence_pct as int),
        ")"@,
    ]);
    put(out, first);
    put(out, second);
    assert(text::views(out@) =~= text::views(old(out)@) + ghost_lines()(*g));
}

pub fn ghosts(out: &GhostsOutput) -> (r: Vec<String>)
    ensures
        text::views(r@) == ghosts_lines(out),
{
    let mut lines: Vec<String> = Vec::new();
    if out.results.len() == 0 {
        put(&mut lines, "no ghost edges".to_owned());
        assert(text::views(lines@) =~= seq!["no ghost edges"@]);
        return lines;
    }
    let ghost f = ghost_lines();
    let mut i: usize = 0;
    assert(text::views(lines@) =~= each(out.results@.take(0), f));
    while i < out.results.len()
        invariant
            i <= out.results@.len(),
            f == ghost_lines(),
            text::views(lines@) == each(out.results@.take(i as int), f),
        decreases out.results@.len() - i,
    {
        assert(out.results@.take(i + 1).drop_last() =~= out.results@.take(i as int));
        put_ghost(&mut lines, &out.results[i]);
        i += 1;
    }
    assert(out.results@.take(i as int) =~= out.results@);
    let ghost base = text::views(lines@);
    if out.truncated {
        put(&mut lines, "(truncated; raise --limit for more)".to_owned());
    }
    assert(text::views(lines@) =~= base + on(out.truncated, "(truncated; raise --limit for more)"@));
    lines
}

// ---- co-change ----

pub open spec fn pair_lines() -> spec_fn(CochangeEntry) -> Seq<Seq<char>> {
    |c: CochangeEntry|
        seq![
            run_on(
                seq![
                    "  "@,
                    number(c.n as int),
                    "x conf "@,
                    hundredths(c.confidence_pct as int),
                    " lift "@,
                    tenths(c.lift_tenths as int),
                    "  "@,
                    c.path@,
                    if c.structural_edge {
                        " [structural]"@
                    } else {
                        ""@
                    },
                    "  ("@,
                    c.first@,
                    " .. "@,
                    c.last@,
                    ")"@,
                ],
            ),
        ]
}

pub open spec fn cochange_lines(out: &CochangeOutput) -> Seq<Seq<char>> {
    seq![run_on(seq!["evolutionary coupling for "@, out.query.file@])] + on(
        out.results@.len() == 0,
        "  none above gates (n >= 3, lift >= 1.5)"@,
    ) + each(out.results@, pair_lines()) + on(out.truncated, "  (truncated; raise --limit for more)"@)
}

fn pair_line(c: &CochangeEntry) -> (r: String)
    ensures
        seq![r@] == pair_lines()(*c),
{
    let n = text::int_text(c.n);
    let conf = hundredths_text(c.confidence_pct);
    let lift = tenths_text(c.lift_tenths);
    let tag = if c.structural_edge {
        " [structural]"
    } else {
        ""
    };
    let parts = [
        "  ",
        n.as_str(),
        "x conf ",
        conf.as_str(),
        " lift ",
        lift.as_str(),
        "  ",
        c.path.as_str(),
        tag,
        "  (",
        c.first.as_str(),
        " .. ",
        c.last.as_str(),
        ")",
    ];
    assert(str_views(parts@) =~= seq![
        "  "@,
        number(c.n as int),
        "x conf "@,
        hundredths(c.confidence_pct as int),
        " lift "@,
        tenths(c.lift_tenths as int),
        "  "@,
        c.path@,
        if c.structural_edge {
            " [structural]"@
        } else {
            ""@
        },
        "  ("@,
        c.first@,
        " .. "@,
        c.last@,
        ")"@,
    ]);
    line(&parts)
}

pub fn cochange(out: &CochangeOutput) -> (r: Vec<String>)
    ensures
        text::views(r@) == cochange_lines(out),
{
    let mut lines: Vec<String> = Vec::new();
    let parts = ["evolutionary coupling for ", out.query.file.as_str()];
    let first = line(&parts);
    assert(str_views(parts@) =~= seq!["evolutionary coupling for "@, out.query.file@]);
    put(&mut lines, first);
    if out.results.len() == 0 {
        put(&mut lines, "  none above gates (n >= 3, lift >= 1.5)".to_owned());
    }
    let ghost base = text::views(lines@);
    assert(base =~= seq![run_on(seq!["evolutionary coupling for "@, out.query.file@])] + on(
        out.results@.len() == 0,
        "  none above gates (n >= 3, lift >= 1.5)"@,
    ));
    let ghost f = pair_lines();
    let mut i: usize = 0;
    assert(base + each(out.results@.take(0), f) =~= base);
    while i < out.results.len()
        invariant
            i <= out.results@.len(),
            f == pair_lines(),
            text::views(lines@) == base + each(out.results@.take(i as int), f),
        decreases out.results@.len() - i,
    {
        assert(out.results@.take(i + 1).drop_last() =~= out.results@.take(i as int));
        let l = pair_line(&out.results[i]);
        put(&mut lines, l);
        assert(text::views(lines@) =~= base + (each(out.results@.take(i as int), f) + seq![l@]));
        i += 1;
    }
    assert(out.results@.take(i as int) =~= out.results@);
    let ghost base = text::views(lines@);
    if out.truncated {
        put(&mut lines, "  (truncated; raise --limit for more)".to_owned());
    }
    assert(text::views(lines@) =~= base + on(out.truncated, "  (truncated; raise --limit for more)"@));
    lines
}

// ---- paths ----

pub open spec fn hop_state(h: Hop) -> Seq<char> {
    if h.alive {
        "live"@
    } else {
        match h.died {
            Some(d) => run_on(seq!["died "@, d.oid@, " "@, d.date@]),
            None => "dead"@,
        }
    }
}

pub open spec fn hop_lines() -> spec_fn(Hop) -> Seq<Seq<char>> {
    |h: Hop| seq![run_on(seq!["  "@, h.from@, " -> "@, h.to@, " ("@, h.kind@, ", "@, hop_state(h), ")"@])]
}

pub open spec fn broke_lines(c: Option<CommitRef>) -> Seq<Seq<char>> {
    match c {
        Some(c) => seq![run_on(seq!["  broke at "@, c.oid@, " "@, c.date@, " \""@, c.subject@, "\""@])],
        None => Seq::empty(),
    }
}

pub open spec fn path_lines(out: &PathOutput) -> Seq<Seq<char>> {
    match (out.live_path, out.union_path) {
        (Some(p), _) => seq![run_on(seq!["live path "@, out.a@, " .. "@, out.b@, ":"@])] + each(p@, hop_lines()),
        (None, Some(p)) => seq![
            run_on(seq!["no live path "@, out.a@, " .. "@, out.b@, "; historical path:"@]),
        ] + each(p@, hop_lines()) + broke_lines(out.broke_at),
        (None, None) => seq![run_on(seq!["no recorded path between "@, out.a@, " and "@, out.b@])],
    }
}

fn hop_line(h: &Hop) -> (r: String)
    ensures
        seq![r@] == hop_lines()(*h),
{
    let state = if h.alive {
        "live".to_owned()
    } else {
        match &h.died {
            Some(d) => {
                let parts = ["died ", d.oid.as_str(), " ", d.date.as_str()];
                assert(str_views(parts@) =~= seq!["died "@, d.oid@, " "@, d.date@]);
                line(&parts)
            },
            None => "dead".to_owned(),
        }
    };
    let parts = ["  ", h.from.as_str(), " -> ", h.to.as_str(), " (", h.kind, ", ", state.as_str(), ")"];
    assert(str_views(parts@) =~= seq![
        "  "@,
        h.from@,
        " -> "@,
        h.to@,
        " ("@,
        h.kind@,
        ", "@,
        hop_state(*h),
        ")"@,
    ]);
    line(&parts)
}

fn hops(out: &mut Vec<String>, hops: &Vec<Hop>)
    ensures
        text::views(final(out)@) == text::views(old(out)@) + each(hops@, hop_lines()),
{
    let ghost base = text::views(out@);
    let ghost f = hop_lines();
    let mut i: usize = 0;
    assert(base + each(hops@.take(0), f) =~= base);
    while i < hops.len()
        invariant
            i <= hops@.len(),
            f == hop_lines(),
            text::views(out@) == base + each(hops@.take(i as int), f),
        decreases hops@.len() - i,
    {
        assert(hops@.take(i + 1).drop_last() =~= hops@.take(i as int));
        let l = hop_line(&hops[i]);
        put(out, l);
        assert(text::views(out@) =~= base + (each(hops@.take(i as int), f) + seq![l@]));
        i += 1;
    }
    assert(hops@.take(i as int) =~= hops@);
}

pub fn path(out: &PathOutput) -> (r: Vec<String>)
    ensures
        text::views(r@) == path_lines(out),
{
    let mut lines: Vec<String> = Vec::new();
    match &out.live_path {
        Some(p) => {
            let parts = ["live path ", out.a.as_str(), " .. ", out.b.as_str(), ":"];
            let first = line(&parts);
            assert(str_views(parts@) =~= seq!["live path "@, out.a@, " .. "@, out.b@, ":"@]);
            put(&mut lines, first);
            assert(text::views(lines@) =~= seq![first@]);
            hops(&mut lines, p);
        },
        None => match &out.union_path {
            Some(p) => {
                let parts = ["no live path ", out.a.as_str(), " .. ", out.b.as_str(), "; historical path:"];
                let first = line(&parts);
                assert(str_views(parts@) =~= seq!["no live path "@, out.a@, " .. "@, out.b@, "; historical path:"@]);
                put(&mut lines, first);
                assert(text::views(lines@) =~= seq![first@]);
                hops(&mut lines, p);
                let ghost base = text::views(lines@);
                match &out.broke_at {
                    Some(c) => {
                        let parts = [
                            "  broke at ",
                            c.oid.as_str(),
                            " ",
                            c.date.as_str(),
                            " \"",
                            c.subject.as_str(),
                            "\"",
                        ];
                        let l = line(&parts);
                        assert(str_views(parts@) =~= seq![
                            "  broke at "@,
                            c.oid@,
                            " "@,
                            c.date@,
                            " \""@,
                            c.subject@,
                            "\""@,
                        ]);
                        put(&mut lines, l);
                    },
                    None => {},
                }
                assert(text::views(lines@) =~= base + broke_lines(out.broke_at));
            },
            None => {
                let parts = ["no recorded path between ", out.a.as_str(), " and ", out.b.as_str()];
                let l = line(&parts);
                assert(str_views(parts@) =~= seq!["no recorded path between "@, out.a@, " and "@, out.b@]);
                put(&mut lines, l);
                assert(text::views(lines@) =~= seq![l@]);
            },
        },
    }
    lines
}


// ---- why ----

/// When an edge lived.
pub open spec fn interval_lines() -> spec_fn(WhyInterval) -> Seq<Seq<char>> {
    |iv: WhyInterval|
        seq![
            run_on(
                match iv.died {
                    Some(d) => seq![
                        "    "@,
                        iv.born.oid@,
                        " "@,
                        iv.born.date@,
                        " .. "@,
                        d.oid@,
                        " "@,
                        d.date@,
                        " \""@,
                        d.subject@,
                        "\""@,
                    ],
                    None => seq!["    "@, iv.born.oid@, " "@, iv.born.date@, " .. now"@],
                },
            ),
        ]
}

fn interval_line(iv: &WhyInterval) -> (r: String)
    ensures
        seq![r@] == interval_lines()(*iv),
{
    match &iv.died {
        Some(d) => {
            let parts = [
                "    ",
                iv.born.oid.as_str(),
                " ",
                iv.born.date.as_str(),
                " .. ",
                d.oid.as_str(),
                " ",
                d.date.as_str(),
                " \"",
                d.subject.as_str(),
                "\"",
            ];
            assert(str_views(parts@) =~= seq![
                "    "@,
                iv.born.oid@,
                " "@,
                iv.born.date@,
                " .. "@,
                d.oid@,
                " "@,
                d.date@,
                " \""@,
                d.subject@,
                "\""@,
            ]);
            line(&parts)
        },
        None => {
            let parts = ["    ", iv.born.oid.as_str(), " ", iv.born.date.as_str(), " .. now"];
            assert(str_views(parts@) =~= seq!["    "@, iv.born.oid@, " "@, iv.born.date@, " .. now"@]);
            line(&parts)
        },
    }
}

/// How many lines of the severing message are shown.
pub const BODY_LINES: usize = 4;

pub open spec fn body_lines() -> spec_fn(Seq<char>) -> Seq<Seq<char>> {
    |l: Seq<char>| seq![run_on(seq!["      | "@, l])]
}

pub open spec fn first_lines(s: Seq<char>) -> Seq<Seq<char>> {
    let all = text::lines(s);
    if all.len() > BODY_LINES {
        all.take(BODY_LINES as int)
    } else {
        all
    }
}

pub open spec fn severed_lines(g: Option<WhyGhost>) -> Seq<Seq<char>> {
    match g {
        Some(g) => seq![
            run_on(
                seq![
                    "    GHOST: severed by "@,
                    g.severed_at.oid@,
                    " ("@,
                    g.severing_author@,
                    ") \""@,
                    g.severed_at.subject@,
                    "\"; lived "@,
                    number(g.lifetime_days as int),
                    "d; co-changed "@,
                    number(g.cochanges_since as int),
                    "x since (conf "@,
                    hundredths(g.confidence_pct as int),
                    ", score "@,
                    hundredths(g.score_pct as int),
                    ")"@,
                ],
            ),
        ] + each(first_lines(g.severing_body@), body_lines()),
        None => Seq::empty(),
    }
}

pub open spec fn edge_lines() -> spec_fn(WhyEdge) -> Seq<Seq<char>> {
    |e: WhyEdge|
        seq![
            run_on(
                seq![
                    "  "@,
                    e.kind@,
                    " edge "@,
                    e.from@,
                    " -> "@,
                    e.to@,
                    " ("@,
                    e.resolution@,
                    ", "@,
                    if e.alive {
                        "live"@
                    } else {
                        "dead"@
                    },
                    ")"@,
                ],
            ),
        ] + each(e.intervals@, interval_lines()) + severed_lines(e.severed)
}

pub open spec fn coupling_lines(c: Option<CochangeEntry>) -> Seq<Seq<char>> {
    match c {
        Some(c) => seq![
            run_on(
                seq![
                    "  co-change: "@,
                    number(c.n as int),
                    "x, conf "@,
                    hundredths(c.confidence_pct as int),
                    ", lift "@,
                    tenths(c.lift_tenths as int),
                    ", "@,
                    c.first@,
                    " .. "@,
                    c.last@,
                ],
            ),
        ],
        None => Seq::empty(),
    }
}

pub open spec fn why_lines(out: &WhyOutput) -> Seq<Seq<char>> {
    seq![run_on(seq![out.a@, " and "@, out.b@])] + each(out.edges@, edge_lines()) + coupling_lines(out.cochange)
        + each(out.caveats@, note_lines())
}

fn put_severed(out: &mut Vec<String>, g: &WhyGhost)
    ensures
        text::views(final(out)@) == text::views(old(out)@) + severed_lines(Some(*g)),
{
    let days = text::int_text(g.lifetime_days);
    let times = text::int_text(g.cochanges_since);
    let conf = hundredths_text(g.confidence_pct);
    let score = hundredths_text(g.score_pct);
    let parts = [
        "    GHOST: severed by ",
        g.severed_at.oid.as_str(),
        " (",
        g.severing_author.as_str(),
        ") \"",
        g.severed_at.subject.as_str(),
        "\"; lived ",
        days.as_str(),
        "d; co-changed ",
        times.as_str(),
        "x since (conf ",
        conf.as_str(),
        ", score ",
        score.as_str(),
        ")",
    ];
    let first = line(&parts);
    assert(str_views(parts@) =~= seq![
        "    GHOST: severed by "@,
        g.severed_at.oid@,
        " ("@,
        g.severing_author@,
        ") \""@,
        g.severed_at.subject@,
        "\"; lived "@,
        number(g.lifetime_days as int),
        "d; co-changed "@,
        number(g.cochanges_since as int),
        "x since (conf "@,
        hundredths(g.confidence_pct as int),
        ", score "@,
        hundredths(g.score_pct as int),
        ")"@,
    ]);
    put(out, first);
    let ghost base = text::views(out@);
    let body = text::lines_of(g.severing_body.as_str());
    let ghost all = text::views(body@);
    let ghost shown = first_lines(g.severing_body@);
    let ghost f = body_lines();
    let mut i: usize = 0;
    assert(base + each(shown.take(0), f) =~= base);
    while i < body.len() && i < BODY_LINES
        invariant
            i <= body@.len(),
            i <= BODY_LINES,
            all == text::views(body@),
            all.len() == body@.len(),
            shown == (if all.len() > BODY_LINES {
                all.take(BODY_LINES as int)
            } else {
                all
            }),
            f == body_lines(),
            text::views(out@) == base + each(shown.take(i as int), f),
        decreases body@.len() - i,
    {
        assert(shown.take(i + 1).drop_last() =~= shown.take(i as int));
        let parts = ["      | ", body[i].as_str()];
        let l = line(&parts);
        assert(str_views(parts@) =~= seq!["      | "@, shown[i as int]]);
        put(out, l);
        assert(text::views(out@) =~= base + (each(shown.take(i as int), f) + seq![l@]));
        i += 1;
    }
    assert(shown.take(i as int) =~= shown);
    assert(text::views(out@) =~= text::views(old(out)@) + severed_lines(Some(*g)));
}

fn put_edge(out: &mut Vec<String>, e: &WhyEdge)
    ensures
        text::views(final(out)@) == text::views(old(out)@) + edge_lines()(*e),
{
    let state = if e.alive {
        "live"
    } else {
        "dead"
    };
    let parts = [
        "  ",
        e.kind,
        " edge ",
        e.from.as_str(),
        " -> ",
        e.to.as_str(),
        " (",
        e.resolution,
        ", ",
        state,
        ")",
    ];
    let first = line(&parts);
    assert(str_views(parts@) =~= seq![
        "  "@,
        e.kind@,
        " edge "@,
        e.from@,
        " -> "@,
        e.to@,
        " ("@,
        e.resolution@,
        ", "@,
        if e.alive {
            "live"@
        } else {
            "dead"@
        },
        ")"@,
    ]);
    put(out, first);
    let ghost base = text::views(out@);
    let ghost f = interval_lines();
    let mut i: usize = 0;
    assert(base + each(e.intervals@.take(0), f) =~= base);
    while i < e.intervals.len()
        invariant
            i <= e.intervals@.len(),
            f == interval_lines(),
            text::views(out@) == base + each(e.intervals@.take(i as int), f),
        decreases e.intervals@.len() - i,
    {
        assert(e.intervals@.take(i + 1).drop_last() =~= e.intervals@.take(i as int));
        let l = interval_line(&e.intervals[i]);
        put(out, l);
        assert(text::views(out@) =~= base + (each(e.intervals@.take(i as int), f) + seq![l@]));
        i += 1;
    }
    assert(e.intervals@.take(i as int) =~= e.intervals@);
    match &e.severed {
        Some(g) => put_severed(out, g),
        None => {},
    }
    assert(text::views(out@) =~= text::views(old(out)@) + edge_lines()(*e));
}

fn coupling_line(c: &CochangeEntry) -> (r: String)
    ensures
        seq![r@] == coupling_lines(Some(*c)),
{
    let n = text::int_text(c.n);
    let conf = hundredths_text(c.confidence_pct);
    let lift = tenths_text(c.lift_tenths);
    let parts = [
        "  co-change: ",
        n.as_str(),
        "x, conf ",
        conf.as_str(),
        ", lift ",
        lift.as_str(),
        ", ",
        c.first.as_str(),
        " .. ",
        c.last.as_str(),
    ];
    assert(str_views(parts@) =~= seq![
        "  co-change: "@,
        number(c.n as int),
        "x, conf "@,
        hundredths(c.confidence_pct as int),
        ", lift "@,
        tenths(c.lift_tenths as int),
        ", "@,
        c.first@,
        " .. "@,
        c.last@,
    ]);
    line(&parts)
}

pub fn why(out: &WhyOutput) -> (r: Vec<String>)
    ensures
        text::views(r@) == why_lines(out),
{
    let mut lines: Vec<String> = Vec::new();
    let parts = [out.a.as_str(), " and ", out.b.as_str()];
    let first = line(&parts);
    assert(str_views(parts@) =~= seq![out.a@, " and "@, out.b@]);
    put(&mut lines, first);
    let ghost base = text::views(lines@);
    assert(base =~= seq![first@]);
    let ghost f = edge_lines();
    let mut i: usize = 0;
    assert(base + each(out.edges@.take(0), f) =~= base);
    while i < out.edges.len()
        invariant
            i <= out.edges@.len(),
            f == edge_lines(),
            text::views(lines@) == base + each(out.edges@.take(i as int), f),
        decreases out.edges@.len() - i,
    {
        assert(out.edges@.take(i + 1).drop_last() =~= out.edges@.take(i as int));
        put_edge(&mut lines, &out.edges[i]);
        assert(text::views(lines@) =~= base + each(out.edges@.take(i + 1), f));
        i += 1;
    }
    assert(out.edges@.take(i as int) =~= out.edges@);
    let ghost base = text::views(lines@);
    match &out.cochange {
        Some(c) => {
            let l = coupling_line(c);
            put(&mut lines, l);
        },
        None => {},
    }
    assert(text::views(lines@) =~= base + coupling_lines(out.cochange));
    put_notes(&mut lines, &out.caveats);
    lines
}

// ---- timeline ----

pub open spec fn commit_line(word: Seq<char>, c: CommitRef) -> Seq<char> {
    run_on(seq![word, c.oid@, " "@, c.date@, " \""@, c.subject@, "\""@])
}

fn commit_text(word: &str, c: &CommitRef) -> (r: String)
    ensures
        r@ == commit_line(word@, *c),
{
    let parts = [word, c.oid.as_str(), " ", c.date.as_str(), " \"", c.subject.as_str(), "\""];
    assert(str_views(parts@) =~= seq![word@, c.oid@, " "@, c.date@, " \""@, c.subject@, "\""@]);
    line(&parts)
}

/// How sure a rename is, where it is not certain.
pub open spec fn doubt(confidence: u8) -> Seq<char> {
    if confidence < 100 {
        run_on(seq![" (rename confidence "@, hundredths(confidence as int), ")"@])
    } else {
        ""@
    }
}

pub open spec fn span_lines() -> spec_fn(TimelinePathSpan) -> Seq<Seq<char>> {
    |p: TimelinePathSpan|
        seq![
            run_on(seq!["    "@, p.path@, " from "@, p.from.oid@, " "@, p.from.date@, doubt(p.confidence)]),
        ]
}

pub open spec fn event_lines() -> spec_fn(TimelineEdgeEvent) -> Seq<Seq<char>> {
    |e: TimelineEdgeEvent|
        seq![
            run_on(
                seq![
                    "    "@,
                    e.commit.date@,
                    " "@,
                    e.commit.oid@,
                    " "@,
                    e.event@,
                    " "@,
                    e.kind@,
                    " "@,
                    if e.direction@ == "out"@ {
                        "->"@
                    } else {
                        "<-"@
                    },
                    " "@,
                    e.other@,
                ],
            ),
        ]
}

pub open spec fn churn_lines() -> spec_fn(ChurnBucket) -> Seq<Seq<char>> {
    |c: ChurnBucket|
        seq![
            run_on(
                seq![
                    "    "@,
                    c.period@,
                    "  "@,
                    count(c.touches as int),
                    " touches, "@,
                    number(c.lines as int),
                    " lines"@,
                ],
            ),
        ]
}

/// Lines under a heading, where there are any.
pub open spec fn headed<A>(condition: bool, head: Seq<char>, s: Seq<A>, lines: spec_fn(A) -> Seq<Seq<char>>) -> Seq<
    Seq<char>,
> {
    if condition {
        seq![head] + each(s, lines)
    } else {
        Seq::empty()
    }
}

pub open spec fn timeline_lines(out: &TimelineOutput) -> Seq<Seq<char>> {
    seq![out.file@, commit_line("  born "@, out.born)] + (match out.died {
        Some(d) => seq![commit_line("  died "@, d)],
        None => Seq::empty(),
    }) + headed(out.paths@.len() > 1, "  paths:"@, out.paths@, span_lines()) + headed(
        out.edge_events@.len() > 0,
        "  edge events:"@,
        out.edge_events@,
        event_lines(),
    ) + headed(out.churn@.len() > 0, "  churn:"@, out.churn@, churn_lines())
}

fn span_line(p: &TimelinePathSpan) -> (r: String)
    ensures
        seq![r@] == span_lines()(*p),
{
    let conf = if p.confidence < 100 {
        let h = hundredths_text(p.confidence as i64);
        let parts = [" (rename confidence ", h.as_str(), ")"];
        assert(str_views(parts@) =~= seq![" (rename confidence "@, hundredths(p.confidence as int), ")"@]);
        line(&parts)
    } else {
        "".to_owned()
    };
    let parts = [
        "    ",
        p.path.as_str(),
        " from ",
        p.from.oid.as_str(),
        " ",
        p.from.date.as_str(),
        conf.as_str(),
    ];
    assert(str_views(parts@) =~= seq![
        "    "@,
        p.path@,
        " from "@,
        p.from.oid@,
        " "@,
        p.from.date@,
        doubt(p.confidence),
    ]);
    line(&parts)
}

fn event_line(e: &TimelineEdgeEvent) -> (r: String)
    ensures
        seq![r@] == event_lines()(*e),
{
    let arrow = if text::eq_str(e.direction, "out") {
        "->"
    } else {
        "<-"
    };
    let parts = [
        "    ",
        e.commit.date.as_str(),
        " ",
        e.commit.oid.as_str(),
        " ",
        e.event,
        " ",
        e.kind,
        " ",
        arrow,
        " ",
        e.other.as_str(),
    ];
    assert(str_views(parts@) =~= seq![
        "    "@,
        e.commit.date@,
        " "@,
        e.commit.oid@,
        " "@,
        e.event@,
        " "@,
        e.kind@,
        " "@,
        if e.direction@ == "out"@ {
            "->"@
        } else {
            "<-"@
        },
        " "@,
        e.other@,
    ]);
    line(&parts)
}

fn churn_line(c: &ChurnBucket) -> (r: String)
    ensures
        seq![r@] == churn_lines()(*c),
{
    let touches = text::nat_text(c.touches as u64);
    let n = text::wide_int_text(c.lines);
    let parts = ["    ", c.period.as_str(), "  ", touches.as_str(), " touches, ", n.as_str(), " lines"];
    assert(str_views(parts@) =~= seq![
        "    "@,
        c.period@,
        "  "@,
        count(c.touches as int),
        " touches, "@,
        number(c.lines as int),
        " lines"@,
    ]);
    line(&parts)
}

fn put_spans(out: &mut Vec<String>, paths: &Vec<TimelinePathSpan>)
    ensures
        text::views(final(out)@) == text::views(old(out)@) + headed(
            paths@.len() > 1,
            "  paths:"@,
            paths@,
            span_lines(),
        ),
{
    if paths.len() > 1 {
        put(out, "  paths:".to_owned());
        let ghost base = text::views(out@);
        let ghost f = span_lines();
        let mut i: usize = 0;
        assert(base + each(paths@.take(0), f) =~= base);
        while i < paths.len()
            invariant
                i <= paths@.len(),
                f == span_lines(),
                text::views(out@) == base + each(paths@.take(i as int), f),
            decreases paths@.len() - i,
        {
            assert(paths@.take(i + 1).drop_last() =~= paths@.take(i as int));
            let l = span_line(&paths[i]);
            put(out, l);
            assert(text::views(out@) =~= base + (each(paths@.take(i as int), f) + seq![l@]));
            i += 1;
        }
        assert(paths@.take(i as int) =~= paths@);
    }
    assert(text::views(out@) =~= text::views(old(out)@) + headed(
        paths@.len() > 1,
        "  paths:"@,
        paths@,
        span_lines(),
    ));
}

fn put_events(out: &mut Vec<String>, events: &Vec<TimelineEdgeEvent>)
    ensures
        text::views(final(out)@) == text::views(old(out)@) + headed(
            events@.len() > 0,
            "  edge events:"@,
            events@,
            event_lines(),
        ),
{
    if events.len() > 0 {
        put(out, "  edge events:".to_owned());
        let ghost base = text::views(out@);
        let ghost f = event_lines();
        let mut i: usize = 0;
        assert(base + each(events@.take(0), f) =~= base);
        while i < events.len()
            invariant
                i <= events@.len(),
                f == event_lines(),
                text::views(out@) == base + each(events@.take(i as int), f),
            decreases events@.len() - i,
        {
            assert(events@.take(i + 1).drop_last() =~= events@.take(i as int));
            let l = event_line(&events[i]);
            put(out, l);
            assert(text::views(out@) =~= base + (each(events@.take(i as int), f) + seq![l@]));
            i += 1;
        }
        assert(events@.take(i as int) =~= events@);
    }
    assert(text::views(out@) =~= text::views(old(out)@) + headed(
        events@.len() > 0,
        "  edge events:"@,
        events@,
        event_lines(),
    ));
}

fn put_churn(out: &mut Vec<String>, churn: &Vec<ChurnBucket>)
    ensures
        text::views(final(out)@) == text::views(old(out)@) + headed(
            churn@.len() > 0,
            "  churn:"@,
            churn@,
            churn_lines(),
        ),
{
    if churn.len() > 0 {
        put(out, "  churn:".to_owned());
        let ghost base = text::views(out@);
        let ghost f = churn_lines();
        let mut i: usize = 0;
        assert(base + each(churn@.take(0), f) =~= base);
        while i < churn.len()
            invariant
                i <= churn@.len(),
                f == churn_lines(),
                text::views(out@) == base + each(churn@.take(i as int), f),
            decreases churn@.len() - i,
        {
            assert(churn@.take(i + 1).drop_last() =~= churn@.take(i as int));
            let l = churn_line(&churn[i]);
            put(out, l);
            assert(text::views(out@) =~= base + (each(churn@.take(i as int), f) + seq![l@]));
            i += 1;
        }
        assert(churn@.take(i as int) =~= churn@);
    }
    assert(text::views(out@) =~= text::views(old(out)@) + headed(
        churn@.len() > 0,
        "  churn:"@,
        churn@,
        churn_lines(),
    ));
}

pub fn timeline(out: &TimelineOutput) -> (r: Vec<String>)
    ensures
        text::views(r@) == timeline_lines(out),
{
    let mut lines: Vec<String> = Vec::new();
    put(&mut lines, text::cat2(out.file.as_str(), ""));
    assert(out.file@ + ""@ =~= out.file@) by {
        reveal_strlit("");
    }
    let born = commit_text("  born ", &out.born);
    put(&mut lines, born);
    let ghost base = text::views(lines@);
    assert(base =~= seq![out.file@, commit_line("  born "@, out.born)]);
    match &out.died {
        Some(d) => {
            let l = commit_text("  died ", d);
            put(&mut lines, l);
        },
        None => {},
    }
    assert(text::views(lines@) =~= base + (match out.died {
        Some(d) => seq![commit_line("  died "@, d)],
        None => Seq::empty(),
    }));
    put_spans(&mut lines, &out.paths);
    put_events(&mut lines, &out.edge_events);
    put_churn(&mut lines, &out.churn);
    lines
}

// ---- drift ----

pub open spec fn drift_line(d: DriftEntry) -> Seq<char> {
    run_on(
        seq![
            count(d.commits_behind as int),
            " commits behind: "@,
            d.doc@,
            " (last "@,
            d.doc_last_touched@,
            ") references "@,
            d.code@,
            " (last "@,
            d.code_last_touched@,
            ")"@,
        ],
    )
}

pub open spec fn drift_lines(out: &DriftOutput) -> Seq<Seq<char>> {
    if out.results@.len() == 0 {
        seq!["no doc drift detected"@]
    } else {
        each(out.results@, |d: DriftEntry| seq![drift_line(d)]) + on(
            out.truncated,
            "(truncated; raise --limit for more)"@,
        )
    }
}

pub fn drift(out: &DriftOutput) -> (r: Vec<String>)
    ensures
        text::views(r@) == drift_lines(out),
{
    let mut lines: Vec<String> = Vec::new();
    if out.results.len() == 0 {
        put(&mut lines, "no doc drift detected".to_owned());
        assert(text::views(lines@) =~= seq!["no doc drift detected"@]);
        return lines;
    }
    let ghost f = |d: DriftEntry| seq![drift_line(d)];
    let mut i: usize = 0;
    assert(text::views(lines@) =~= each(out.results@.take(0), f));
    while i < out.results.len()
        invariant
            i <= out.results@.len(),
            f == (|d: DriftEntry| seq![drift_line(d)]),
            text::views(lines@) == each(out.results@.take(i as int), f),
        decreases out.results@.len() - i,
    {
        assert(out.results@.take(i + 1).drop_last() =~= out.results@.take(i as int));
        let d = &out.results[i];
        let n = text::nat_text(d.commits_behind as u64);
        let parts = [
            n.as_str(),
            " commits behind: ",
            d.doc.as_str(),
            " (last ",
            d.doc_last_touched.as_str(),
            ") references ",
            d.code.as_str(),
            " (last ",
            d.code_last_touched.as_str(),
            ")",
        ];
        let l = line(&parts);
        assert(str_views(parts@) =~= seq![
            count(d.commits_behind as int),
            " commits behind: "@,
            d.doc@,
            " (last "@,
            d.doc_last_touched@,
            ") references "@,
            d.code@,
            " (last "@,
            d.code_last_touched@,
            ")"@,
        ]);
        put(&mut lines, l);
        assert(text::views(lines@) =~= each(out.results@.take(i as int), f) + seq![drift_line(*d)]);
        i += 1;
    }
    assert(out.results@.take(i as int) =~= out.results@);
    let ghost base = text::views(lines@);
    if out.truncated {
        put(&mut lines, "(truncated; raise --limit for more)".to_owned());
    }
    assert(text::views(lines@) =~= base + on(out.truncated, "(truncated; raise --limit for more)"@));
    lines
}

// ---- hotspots ----

pub open spec fn hotspot_line(h: HotspotEntry) -> Seq<char> {
    run_on(seq!["  "@, set_right(hundredths(h.score_pct as int), 8), "  "@, h.path@, "  ("@, h.detail@, ")"@])
}

pub open spec fn hotspots_lines(out: &HotspotsOutput) -> Seq<Seq<char>> {
    seq![run_on(seq!["hotspots by "@, out.by@])] + each(out.results@, |h: HotspotEntry| seq![hotspot_line(h)]) + on(
        out.truncated,
        "  (truncated; raise --limit for more)"@,
    )
}

pub fn hotspots(out: &HotspotsOutput) -> (r: Vec<String>)
    ensures
        text::views(r@) == hotspots_lines(out),
{
    let mut lines: Vec<String> = Vec::new();
    let parts = ["hotspots by ", out.by.as_str()];
    let first = line(&parts);
    assert(str_views(parts@) =~= seq!["hotspots by "@, out.by@]);
    put(&mut lines, first);
    let ghost base = text::views(lines@);
    assert(base =~= seq![first@]);
    let ghost f = |h: HotspotEntry| seq![hotspot_line(h)];
    let mut i: usize = 0;
    assert(base + each(out.results@.take(0), f) =~= base);
    while i < out.results.len()
        invariant
            i <= out.results@.len(),
            f == (|h: HotspotEntry| seq![hotspot_line(h)]),
            text::views(lines@) == base + each(out.results@.take(i as int), f),
        decreases out.results@.len() - i,
    {
        assert(out.results@.take(i + 1).drop_last() =~= out.results@.take(i as int));
        let h = &out.results[i];
        let score = hundredths_text(h.score_pct);
        let set = right_text(score.as_str(), 8);
        let parts = ["  ", set.as_str(), "  ", h.path.as_str(), "  (", h.detail.as_str(), ")"];
        let l = line(&parts);
        assert(str_views(parts@) =~= seq![
            "  "@,
            set_right(hundredths(h.score_pct as int), 8),
            "  "@,
            h.path@,
            "  ("@,
            h.detail@,
            ")"@,
        ]);
        put(&mut lines, l);
        assert(text::views(lines@) =~= base + (each(out.results@.take(i as int), f) + seq![hotspot_line(*h)]));
        i += 1;
    }
    assert(out.results@.take(i as int) =~= out.results@);
    let ghost base = text::views(lines@);
    if out.truncated {
        put(&mut lines, "  (truncated; raise --limit for more)".to_owned());
    }
    assert(text::views(lines@) =~= base + on(out.truncated, "  (truncated; raise --limit for more)"@));
    lines
}

// ---- search ----

pub open spec fn hit_line(h: SearchEntry) -> Seq<char> {
    run_on(seq![h.commit.oid@, " "@, h.commit.date@, " "@, h.commit.subject@, " ("@, h.author@, ")"@])
}

pub open spec fn search_lines(out: &SearchOutput) -> Seq<Seq<char>> {
    each(out.results@, |h: SearchEntry| seq![hit_line(h)])
}

pub fn search(out: &SearchOutput) -> (r: Vec<String>)
    ensures
        text::views(r@) == search_lines(out),
{
    let mut lines: Vec<String> = Vec::new();
    let ghost f = |h: SearchEntry| seq![hit_line(h)];
    let mut i: usize = 0;
    assert(text::views(lines@) =~= each(out.results@.take(0), f));
    while i < out.results.len()
        invariant
            i <= out.results@.len(),
            f == (|h: SearchEntry| seq![hit_line(h)]),
            text::views(lines@) == each(out.results@.take(i as int), f),
        decreases out.results@.len() - i,
    {
        assert(out.results@.take(i + 1).drop_last() =~= out.results@.take(i as int));
        let h = &out.results[i];
        let parts = [
            h.commit.oid.as_str(),
            " ",
            h.commit.date.as_str(),
            " ",
            h.commit.subject.as_str(),
            " (",
            h.author.as_str(),
            ")",
        ];
        let l = line(&parts);
        assert(str_views(parts@) =~= seq![
            h.commit.oid@,
            " "@,
            h.commit.date@,
            " "@,
            h.commit.subject@,
            " ("@,
            h.author@,
            ")"@,
        ]);
        put(&mut lines, l);
        assert(text::views(lines@) =~= each(out.results@.take(i as int), f) + seq![hit_line(*h)]);
        i += 1;
    }
    assert(out.results@.take(i as int) =~= out.results@);
    lines
}

// ---- stats ----

/// The ratios that stats show, written out.
pub struct Ratios {
    pub excluded_pct: String,
    pub unresolved_ratio: String,
}

pub open spec fn commits_text(out: &StatsOutput, ratios: &Ratios) -> Seq<char> {
    run_on(
        seq![
            "commits: "@,
            count(out.commits.total as int),
            " total, "@,
            count(out.commits.excluded_too_large as int),
            " too-large, "@,
            count(out.commits.excluded_mechanical as int),
            " mechanical, "@,
            count(out.commits.merges as int),
            " merges, "@,
            ratios.excluded_pct@,
            "% excluded from co-change"@,
        ],
    )
}

pub open spec fn files_text(out: &StatsOutput) -> Seq<char> {
    run_on(
        seq![
            "files: "@,
            count(out.files.total as int),
            " total ("@,
            count(out.files.alive as int),
            " alive, "@,
            count(out.files.dead as int),
            " dead, "@,
            count(out.files.docs as int),
            " docs)"@,
        ],
    )
}

pub open spec fn edges_text(out: &StatsOutput) -> Seq<char> {
    run_on(
        seq![
            "edges: "@,
            count(out.edges.total as int),
            " total, "@,
            count(out.edges.live as int),
            " live, "@,
            count(out.edges.ghosts as int),
            " ghosts; cochange pairs: "@,
            count(out.cochange_pairs as int),
        ],
    )
}

pub open spec fn stats_lines(out: &StatsOutput, ratios: &Ratios) -> Seq<Seq<char>> {
    seq![
        run_on(
            seq![
                "head "@,
                out.head@,
                " indexed_at "@,
                match out.indexed_at {
                    Some(t) => t@,
                    None => "?"@,
                },
            ],
        ),
        commits_text(out, ratios),
        files_text(out),
        edges_text(out),
        run_on(
            seq![
                "imports: "@,
                number(out.imports.resolved as int),
                "/"@,
                number(out.imports.total as int),
                " resolved (unresolved ratio "@,
                ratios.unresolved_ratio@,
                ")"@,
            ],
        ),
        run_on(
            seq![
                "renames: "@,
                count(out.renames.total as int),
                " total, "@,
                count(out.renames.low_confidence as int),
                " low-confidence"@,
            ],
        ),
    ]
}

fn commits_line(out: &StatsOutput, ratios: &Ratios) -> (r: String)
    ensures
        r@ == commits_text(out, ratios),
{
    let a = text::nat_text(out.commits.total as u64);
    let b = text::nat_text(out.commits.excluded_too_large as u64);
    let c = text::nat_text(out.commits.excluded_mechanical as u64);
    let d = text::nat_text(out.commits.merges as u64);
    let parts = [
        "commits: ",
        a.as_str(),
        " total, ",
        b.as_str(),
        " too-large, ",
        c.as_str(),
        " mechanical, ",
        d.as_str(),
        " merges, ",
        ratios.excluded_pct.as_str(),
        "% excluded from co-change",
    ];
    assert(str_views(parts@) =~= seq![
        "commits: "@,
        count(out.commits.total as int),
        " total, "@,
        count(out.commits.excluded_too_large as int),
        " too-large, "@,
        count(out.commits.excluded_mechanical as int),
        " mechanical, "@,
        count(out.commits.merges as int),
        " merges, "@,
        ratios.excluded_pct@,
        "% excluded from co-change"@,
    ]);
    line(&parts)
}

fn files_line(out: &StatsOutput) -> (r: String)
    ensures
        r@ == files_text(out),
{
    let a = text::nat_text(out.files.total as u64);
    let b = text::nat_text(out.files.alive as u64);
    let c = text::nat_text(out.files.dead as u64);
    let d = text::nat_text(out.files.docs as u64);
    let parts = [
        "files: ",
        a.as_str(),
        " total (",
        b.as_str(),
        " alive, ",
        c.as_str(),
        " dead, ",
        d.as_str(),
        " docs)",
    ];
    assert(str_views(parts@) =~= seq![
        "files: "@,
        count(out.files.total as int),
        " total ("@,
        count(out.files.alive as int),
        " alive, "@,
        count(out.files.dead as int),
        " dead, "@,
        count(out.files.docs as int),
        " docs)"@,
    ]);
    line(&parts)
}

fn edges_line(out: &StatsOutput) -> (r: String)
    ensures
        r@ == edges_text(out),
{
    let a = text::nat_text(out.edges.total as u64);
    let b = text::nat_text(out.edges.live as u64);
    let c = text::nat_text(out.edges.ghosts as u64);
    let d = text::nat_text(out.cochange_pairs as u64);
    let parts = [
        "edges: ",
        a.as_str(),
        " total, ",
        b.as_str(),
        " live, ",
        c.as_str(),
        " ghosts; cochange pairs: ",
        d.as_str(),
    ];
    assert(str_views(parts@) =~= seq![
        "edges: "@,
        count(out.edges.total as int),
        " total, "@,
        count(out.edges.live as int),
        " live, "@,
        count(out.edges.ghosts as int),
        " ghosts; cochange pairs: "@,
        count(out.cochange_pairs as int),
    ]);
    line(&parts)
}

pub fn stats(out: &StatsOutput, ratios: &Ratios) -> (r: Vec<String>)
    ensures
        text::views(r@) == stats_lines(out, ratios),
{
    let mut lines: Vec<String> = Vec::new();
    let at = match &out.indexed_at {
        Some(t) => t.as_str(),
        None => "?",
    };
    let parts = ["head ", out.head.as_str(), " indexed_at ", at];
    let first = line(&parts);
    assert(str_views(parts@) =~= seq![
        "head "@,
        out.head@,
        " indexed_at "@,
        match out.indexed_at {
            Some(t) => t@,
            None => "?"@,
        },
    ]);
    put(&mut lines, first);
    let commits = commits_line(out, ratios);
    put(&mut lines, commits);
    let files = files_line(out);
    put(&mut lines, files);
    let edges = edges_line(out);
    put(&mut lines, edges);
    let a = text::int_text(out.imports.resolved);
    let b = text::int_text(out.imports.total);
    let parts = [
        "imports: ",
        a.as_str(),
        "/",
        b.as_str(),
        " resolved (unresolved ratio ",
        ratios.unresolved_ratio.as_str(),
        ")",
    ];
    let imports = line(&parts);
    assert(str_views(parts@) =~= seq![
        "imports: "@,
        number(out.imports.resolved as int),
        "/"@,
        number(out.imports.total as int),
        " resolved (unresolved ratio "@,
        ratios.unresolved_ratio@,
        ")"@,
    ]);
    put(&mut lines, imports);
    let a = text::nat_text(out.renames.total as u64);
    let b = text::nat_text(out.renames.low_confidence as u64);
    let parts = ["renames: ", a.as_str(), " total, ", b.as_str(), " low-confidence"];
    let renames = line(&parts);
    assert(str_views(parts@) =~= seq![
        "renames: "@,
        count(out.renames.total as int),
        " total, "@,
        count(out.renames.low_confidence as int),
        " low-confidence"@,
    ]);
    put(&mut lines, renames);
    assert(text::views(lines@) =~= stats_lines(out, ratios));
    lines
}

} // verus!
