//! What is written for people, over all results.

use crate::blast::{BlastOutput, EvidenceView};
use crate::human;
use crate::human::Figures;
use crate::listing::{CochangeOutput, DriftOutput, GhostsOutput};
use crate::hotspots::HotspotsOutput;
use crate::model::Direction;
use crate::path_query::{Hop, PathOutput};
use crate::text;
use crate::timeline::TimelineOutput;
use crate::why::WhyOutput;
use vstd::prelude::*;

verus! {

// ---- lines ----

proof fn lemma_each<A>(s: Seq<A>, f: spec_fn(A) -> Seq<Seq<char>>, i: int, l: Seq<char>)
    requires
        0 <= i < s.len(),
        f(s[i]).contains(l),
    ensures
        human::each(s, f).contains(l),
    decreases s.len(),
{
    let d = s.drop_last();
    let a = human::each(d, f);
    let b = f(s.last());
    if i == s.len() - 1 {
        assert((a + b)[a.len() + b.index_of(l)] == l);
    } else {
        assert(d[i] == s[i]);
        lemma_each(d, f, i, l);
        assert((a + b)[a.index_of(l)] == l);
    }
}

proof fn lemma_in_sum(a: Seq<Seq<char>>, b: Seq<Seq<char>>, l: Seq<char>)
    ensures
        (a + b).contains(l) <==> a.contains(l) || b.contains(l),
{
    if a.contains(l) {
        assert((a + b)[a.index_of(l)] == l);
    }
    if b.contains(l) {
        assert((a + b)[a.len() + b.index_of(l)] == l);
    }
    if (a + b).contains(l) {
        let k = (a + b).index_of(l);
        if k < a.len() {
            assert(a[k] == l);
        } else {
            assert(b[k - a.len()] == l);
        }
    }
}

proof fn lemma_on(condition: bool, l: Seq<char>)
    ensures
        condition ==> human::on(condition, l).contains(l),
        !condition ==> human::on(condition, l).len() == 0,
{
    if condition {
        assert(human::on(condition, l)[0] == l);
    }
}

proof fn lemma_one(l: Seq<char>)
    ensures
        seq![l].contains(l),
{
    assert(seq![l][0] == l);
}

/// Law: texts are run on in their order.
pub proof fn texts_run_on(a: Seq<char>, b: Seq<char>, c: Seq<char>, d: Seq<char>)
    ensures
        human::run_on(Seq::empty()).len() == 0,
        human::run_on(seq![a]) == a,
        human::run_on(seq![a, b]) == a + b,
        human::run_on(seq![a, b, c]) == a + b + c,
        human::run_on(seq![a, b, c, d]) == a + b + c + d,
{
    reveal_with_fuel(human::run_on, 5);
    assert(seq![a].drop_last() =~= Seq::<Seq<char>>::empty());
    assert(seq![a, b].drop_last() =~= seq![a]);
    assert(seq![a, b, c].drop_last() =~= seq![a, b]);
    assert(seq![a, b, c, d].drop_last() =~= seq![a, b, c]);
    assert(Seq::<char>::empty() + a =~= a);
}

/// Law: a number of hundredths is written with two decimals and one of tenths
/// with one, and what is below zero with a sign.
pub proof fn fractions_are_written(whole: nat, part: int)
    requires
        0 <= part < 100,
    ensures
        human::hundredths(100 * whole + part) == ""@ + text::decimal(whole) + "."@ + text::decimal_padded(part, 2),
        part < 10 ==> human::tenths(10 * whole + part) == ""@ + text::decimal(whole) + "."@ + text::decimal(part as nat),
        100 * whole + part > 0 ==> human::hundredths(-(100 * whole + part)) == "-"@ + text::decimal(whole) + "."@
            + text::decimal_padded(part, 2),
{
    texts_run_on(""@, text::decimal(whole), "."@, text::decimal_padded(part, 2));
    texts_run_on("-"@, text::decimal(whole), "."@, text::decimal_padded(part, 2));
    texts_run_on(""@, text::decimal(whole), "."@, text::decimal(part as nat));
    assert((100 * whole + part) / 100 == whole && (100 * whole + part) % 100 == part);
    if part < 10 {
        assert((10 * whole + part) / 10 == whole && (10 * whole + part) % 10 == part);
    }
}

/// Law: an edge out of the file is drawn away from it, one into it toward it,
/// and what cannot be reached is called so.
pub proof fn ways_are_drawn(n: u8)
    ensures
        human::arrow(Direction::Out) == "->"@,
        human::arrow(Direction::In) == "<-"@,
        human::distance(None) == "unreachable"@,
        human::distance(Some(n)) == text::decimal(n as nat),
{
}

// ---- results ----

/// Law: every result of a blast radius is written with its rank and its path
/// and each piece of its evidence in words, and every caveat is noted. What was
/// cut off is said, and so is that there is nothing.
pub proof fn blasts_are_written(out: &BlastOutput, figures: &Figures, i: int, j: int)
    ensures
        ({
            let l = human::blast_lines(out, figures);
            &&& l.len() > 0
            &&& 0 <= i < out.results@.len() ==> l.contains(
                human::run_on(
                    seq!["  "@, human::hundredths(out.results@[i].rank_pct as int), "  "@, out.results@[i].path@],
                ),
            )
            &&& 0 <= i < out.results@.len() && 0 <= j < out.results@[i].evidence@.len() ==> l.contains(
                human::run_on(seq!["        "@, human::evidence_text(out.results@[i].evidence@[j]@, figures)]),
            )
            &&& out.truncated ==> l.contains("  (truncated; raise --limit for more)"@)
            &&& out.results@.len() == 0 ==> l.contains(
                "  nothing above threshold; absence of evidence is not evidence of absence"@,
            )
            &&& 0 <= i < out.caveats@.len() ==> l.contains(human::run_on(seq!["  note: "@, out.caveats@[i]@]))
        }),
{
    let head = seq![human::run_on(seq!["blast radius of "@, out.query.file@, " (head "@, out.query.head@, ")"@])];
    let none = "  nothing above threshold; absence of evidence is not evidence of absence"@;
    let cut = "  (truncated; raise --limit for more)"@;
    let a = head + human::on(out.results@.len() == 0, none);
    let f = human::relation_lines(figures);
    let b = a + human::each(out.results@, f);
    let c = b + human::on(out.truncated, cut);
    let d = c + human::each(out.caveats@, human::note_lines());
    assert(human::blast_lines(out, figures) == d);
    lemma_on(out.results@.len() == 0, none);
    lemma_on(out.truncated, cut);
    lemma_in_sum(head, human::on(out.results@.len() == 0, none), none);
    lemma_in_sum(a, human::each(out.results@, f), none);
    lemma_in_sum(b, human::on(out.truncated, cut), none);
    lemma_in_sum(c, human::each(out.caveats@, human::note_lines()), none);
    lemma_in_sum(b, human::on(out.truncated, cut), cut);
    lemma_in_sum(c, human::each(out.caveats@, human::note_lines()), cut);
    if 0 <= i < out.results@.len() {
        let r = out.results@[i];
        let x = human::run_on(seq!["  "@, human::hundredths(r.rank_pct as int), "  "@, r.path@]);
        lemma_one(x);
        lemma_in_sum(seq![x], human::each(r.evidence@, human::evidence_lines(figures)), x);
        lemma_each(out.results@, f, i, x);
        lemma_in_sum(a, human::each(out.results@, f), x);
        lemma_in_sum(b, human::on(out.truncated, cut), x);
        lemma_in_sum(c, human::each(out.caveats@, human::note_lines()), x);
        if 0 <= j < r.evidence@.len() {
            let y = human::run_on(seq!["        "@, human::evidence_text(r.evidence@[j]@, figures)]);
            lemma_one(y);
            lemma_each(r.evidence@, human::evidence_lines(figures), j, y);
            lemma_in_sum(seq![x], human::each(r.evidence@, human::evidence_lines(figures)), y);
            lemma_each(out.results@, f, i, y);
            lemma_in_sum(a, human::each(out.results@, f), y);
            lemma_in_sum(b, human::on(out.truncated, cut), y);
            lemma_in_sum(c, human::each(out.caveats@, human::note_lines()), y);
        }
    }
    if 0 <= i < out.caveats@.len() {
        let z = human::run_on(seq!["  note: "@, out.caveats@[i]@]);
        lemma_one(z);
        lemma_each(out.caveats@, human::note_lines(), i, z);
        lemma_in_sum(c, human::each(out.caveats@, human::note_lines()), z);
    }
}

/// Law: evidence is told in words that say what it is, with the figures of its
/// own ghost or pair, read from the side of the file that was asked about.
pub proof fn evidence_is_told(e: EvidenceView, figures: &Figures)
    ensures
        e matches EvidenceView::StructuralEdge { kind, resolution, direction, .. } ==> human::evidence_text(e, figures)
            == "live "@ + kind.name() + " "@ + human::arrow(direction) + " ("@ + resolution.name() + ")"@,
        e matches EvidenceView::Cochange { n, slot, forward, last } ==> human::evidence_text(e, figures) == "co-change "@
            + text::decimal_int(n as int) + "x, conf "@ + (if forward {
            figures.pairs@[slot as int].conf_ab@
        } else {
            figures.pairs@[slot as int].conf_ba@
        }) + ", lift "@ + figures.pairs@[slot as int].lift@ + ", last "@ + last,
        e matches EvidenceView::DocDrift { doc, commits_behind } ==> human::evidence_text(e, figures) == "doc is "@
            + text::decimal(commits_behind as nat) + " commits behind this file"@,
        e matches EvidenceView::Transitive { via, union_dist, head_dist } ==> via.len() == 0 ==> human::evidence_text(
            e,
            figures,
        ) == "transitive: union-dist "@ + text::decimal(union_dist as nat) + ", live-dist "@ + human::distance(head_dist),
{
    match e {
        EvidenceView::StructuralEdge { kind, resolution, direction, .. } => {
            let s = seq!["live "@, kind.name(), " "@, human::arrow(direction), " ("@, resolution.name(), ")"@];
            lemma_run_long(s);
            assert(human::evidence_text(e, figures) =~= "live "@ + kind.name() + " "@ + human::arrow(direction) + " ("@
                + resolution.name() + ")"@);
        },
        EvidenceView::Cochange { n, slot, forward, last } => {
            let conf = if forward {
                figures.pairs@[slot as int].conf_ab@
            } else {
                figures.pairs@[slot as int].conf_ba@
            };
            let s = seq![
                "co-change "@,
                human::number(n as int),
                "x, conf "@,
                conf,
                ", lift "@,
                figures.pairs@[slot as int].lift@,
                ", last "@,
                last,
            ];
            lemma_run_long(s);
            assert(human::evidence_text(e, figures) =~= "co-change "@ + text::decimal_int(n as int) + "x, conf "@ + conf
                + ", lift "@ + figures.pairs@[slot as int].lift@ + ", last "@ + last);
        },
        EvidenceView::DocDrift { doc, commits_behind } => {
            texts_run_on("doc is "@, text::decimal(commits_behind as nat), " commits behind this file"@, ""@);
        },
        EvidenceView::Transitive { via, union_dist, head_dist } => {
            texts_run_on(
                "transitive: union-dist "@,
                text::decimal(union_dist as nat),
                ", live-dist "@,
                human::distance(head_dist),
            );
        },
        _ => {},
    }
}

proof fn lemma_run_long(s: Seq<Seq<char>>)
    requires
        s.len() >= 1,
    ensures
        human::run_on(s) == human::run_on(s.take(s.len() - 1)) + s[s.len() - 1],
        s.len() == 7 ==> human::run_on(s) == s[0] + s[1] + s[2] + s[3] + s[4] + s[5] + s[6],
        s.len() == 8 ==> human::run_on(s) == s[0] + s[1] + s[2] + s[3] + s[4] + s[5] + s[6] + s[7],
{
    assert(s.take(s.len() - 1) =~= s.drop_last());
    if s.len() == 7 || s.len() == 8 {
        texts_run_on(s[0], s[1], s[2], s[3]);
        assert(s.take(4) =~= seq![s[0], s[1], s[2], s[3]]);
        assert(s.take(5).drop_last() =~= s.take(4));
        assert(s.take(6).drop_last() =~= s.take(5));
        assert(s.take(7).drop_last() =~= s.take(6));
        assert(human::run_on(s.take(5)) == human::run_on(s.take(4)) + s[4]);
        assert(human::run_on(s.take(6)) == human::run_on(s.take(5)) + s[5]);
        assert(human::run_on(s.take(7)) == human::run_on(s.take(6)) + s[6]);
        if s.len() == 7 {
            assert(s.take(7) =~= s);
        } else {
            assert(s.take(8) =~= s);
            assert(s.take(8).drop_last() =~= s.take(7));
        }
    }
}

/// Law: every ghost is listed with its score, its ends and its kind. An empty
/// list says so, and a cut one too.
pub proof fn ghosts_are_written(out: &GhostsOutput, i: int)
    ensures
        ({
            let l = human::ghosts_lines(out);
            &&& out.results@.len() == 0 ==> l == seq!["no ghost edges"@]
            &&& 0 <= i < out.results@.len() ==> l.contains(
                human::run_on(
                    seq![
                        human::hundredths(out.results@[i].score_pct as int),
                        "  "@,
                        out.results@[i].from@,
                        " -> "@,
                        out.results@[i].to@,
                        " ("@,
                        out.results@[i].kind@,
                        ")"@,
                    ],
                ),
            )
            &&& out.results@.len() > 0 && out.truncated ==> l.contains("(truncated; raise --limit for more)"@)
        }),
{
    let f = human::ghost_lines();
    let cut = "(truncated; raise --limit for more)"@;
    let a = human::each(out.results@, f);
    lemma_on(out.truncated, cut);
    lemma_in_sum(a, human::on(out.truncated, cut), cut);
    if 0 <= i < out.results@.len() {
        let g = out.results@[i];
        let x = human::run_on(
            seq![human::hundredths(g.score_pct as int), "  "@, g.from@, " -> "@, g.to@, " ("@, g.kind@, ")"@],
        );
        assert(f(g)[0] == x);
        lemma_each(out.results@, f, i, x);
        lemma_in_sum(a, human::on(out.truncated, cut), x);
    }
}

/// Law: every coupled file is listed with how often the two changed together,
/// how sure that is, the lift, and the span of days; one that an edge joins is
/// marked.
pub proof fn pairs_are_written(out: &CochangeOutput, i: int)
    requires
        0 <= i < out.results@.len(),
    ensures
        human::cochange_lines(out).contains(
            human::run_on(
                seq![
                    "  "@,
                    text::decimal_int(out.results@[i].n as int),
                    "x conf "@,
                    human::hundredths(out.results@[i].confidence_pct as int),
                    " lift "@,
                    human::tenths(out.results@[i].lift_tenths as int),
                    "  "@,
                    out.results@[i].path@,
                    if out.results@[i].structural_edge {
                        " [structural]"@
                    } else {
                        ""@
                    },
                    "  ("@,
                    out.results@[i].first@,
                    " .. "@,
                    out.results@[i].last@,
                    ")"@,
                ],
            ),
        ),
{
    let f = human::pair_lines();
    let c = out.results@[i];
    let x = f(c)[0];
    lemma_one(x);
    assert(f(c) =~= seq![x]);
    lemma_each(out.results@, f, i, x);
    let head = seq![human::run_on(seq!["evolutionary coupling for "@, out.query.file@])];
    let none = "  none above gates (n >= 3, lift >= 1.5)"@;
    let a = head + human::on(out.results@.len() == 0, none);
    let b = a + human::each(out.results@, f);
    lemma_in_sum(a, human::each(out.results@, f), x);
    lemma_in_sum(b, human::on(out.truncated, "  (truncated; raise --limit for more)"@), x);
}

/// Law: a live way is shown where there is one, else a historical one with when
/// it broke, else that there is none. Every hop of it is shown, with whether it
/// is alive.
pub proof fn ways_are_written(out: &PathOutput, i: int, h: Hop)
    ensures
        out.live_path matches Some(p) ==> human::path_lines(out)[0] == human::run_on(
            seq!["live path "@, out.a@, " .. "@, out.b@, ":"@],
        ) && (0 <= i < p@.len() ==> human::path_lines(out).contains(human::hop_lines()(p@[i])[0])),
        out.live_path is None ==> (out.union_path matches Some(p) ==> human::path_lines(out)[0] == human::run_on(
            seq!["no live path "@, out.a@, " .. "@, out.b@, "; historical path:"@],
        ) && (0 <= i < p@.len() ==> human::path_lines(out).contains(human::hop_lines()(p@[i])[0])) && (
        out.broke_at matches Some(c) ==> human::path_lines(out).last() == human::run_on(
            seq!["  broke at "@, c.oid@, " "@, c.date@, " \""@, c.subject@, "\""@],
        ))),
        out.live_path is None && out.union_path is None ==> human::path_lines(out) == seq![
            human::run_on(seq!["no recorded path between "@, out.a@, " and "@, out.b@]),
        ],
        h.alive ==> human::hop_state(h) == "live"@,
        !h.alive && h.died is None ==> human::hop_state(h) == "dead"@,
        !h.alive ==> (h.died matches Some(d) ==> human::hop_state(h) == "died "@ + d.oid@ + " "@ + d.date@),
{
    let f = human::hop_lines();
    if let Some(d) = h.died {
        texts_run_on("died "@, d.oid@, " "@, d.date@);
    }
    match (out.live_path, out.union_path) {
        (Some(p), _) => {
            let head = seq![human::run_on(seq!["live path "@, out.a@, " .. "@, out.b@, ":"@])];
            if 0 <= i < p@.len() {
                let x = f(p@[i])[0];
                assert(f(p@[i]) =~= seq![x]);
                lemma_one(x);
                lemma_each(p@, f, i, x);
                lemma_in_sum(head, human::each(p@, f), x);
            }
        },
        (None, Some(p)) => {
            let head = seq![human::run_on(seq!["no live path "@, out.a@, " .. "@, out.b@, "; historical path:"@])];
            if 0 <= i < p@.len() {
                let x = f(p@[i])[0];
                assert(f(p@[i]) =~= seq![x]);
                lemma_one(x);
                lemma_each(p@, f, i, x);
                lemma_in_sum(head, human::each(p@, f), x);
                lemma_in_sum(head + human::each(p@, f), human::broke_lines(out.broke_at), x);
            }
        },
        (None, None) => {},
    }
}

/// Law: the events and the churn of a file are all written, its paths where it
/// had more than one, and its death where it died. An event out of the file
/// points away from it.
pub proof fn stories_are_written(out: &TimelineOutput, i: int)
    ensures
        ({
            let l = human::timeline_lines(out);
            &&& l[0] == out.file@
            &&& l[1] == human::commit_line("  born "@, out.born)
            &&& out.died matches Some(d) ==> l[2] == human::commit_line("  died "@, d)
            &&& 0 <= i < out.edge_events@.len() ==> l.contains(human::event_lines()(out.edge_events@[i])[0])
            &&& 0 <= i < out.churn@.len() ==> l.contains(human::churn_lines()(out.churn@[i])[0])
            &&& out.paths@.len() > 1 && 0 <= i < out.paths@.len() ==> l.contains(human::span_lines()(out.paths@[i])[0])
        }),
{
    let a = seq![out.file@, human::commit_line("  born "@, out.born)];
    let b = a + (match out.died {
        Some(d) => seq![human::commit_line("  died "@, d)],
        None => Seq::empty(),
    });
    let p = human::headed(out.paths@.len() > 1, "  paths:"@, out.paths@, human::span_lines());
    let e = human::headed(out.edge_events@.len() > 0, "  edge events:"@, out.edge_events@, human::event_lines());
    let c = human::headed(out.churn@.len() > 0, "  churn:"@, out.churn@, human::churn_lines());
    assert(human::timeline_lines(out) == b + p + e + c);
    if 0 <= i < out.edge_events@.len() {
        let f = human::event_lines();
        let x = f(out.edge_events@[i])[0];
        assert(f(out.edge_events@[i]) =~= seq![x]);
        lemma_one(x);
        lemma_each(out.edge_events@, f, i, x);
        lemma_in_sum(seq!["  edge events:"@], human::each(out.edge_events@, f), x);
        lemma_in_sum(b + p, e, x);
        lemma_in_sum(b + p + e, c, x);
    }
    if 0 <= i < out.churn@.len() {
        let f = human::churn_lines();
        let x = f(out.churn@[i])[0];
        assert(f(out.churn@[i]) =~= seq![x]);
        lemma_one(x);
        lemma_each(out.churn@, f, i, x);
        lemma_in_sum(seq!["  churn:"@], human::each(out.churn@, f), x);
        lemma_in_sum(b + p + e, c, x);
    }
    if out.paths@.len() > 1 && 0 <= i < out.paths@.len() {
        let f = human::span_lines();
        let x = f(out.paths@[i])[0];
        assert(f(out.paths@[i]) =~= seq![x]);
        lemma_one(x);
        lemma_each(out.paths@, f, i, x);
        lemma_in_sum(seq!["  paths:"@], human::each(out.paths@, f), x);
        lemma_in_sum(b, p, x);
        lemma_in_sum(b + p, e, x);
        lemma_in_sum(b + p + e, c, x);
    }
}

/// Law: every edge between two files is written with its kind, its ends, how it
/// was resolved and whether it is alive, and every caveat is noted.
pub proof fn reasons_are_written(out: &WhyOutput, i: int)
    ensures
        ({
            let l = human::why_lines(out);
            &&& l[0] == out.a@ + " and "@ + out.b@
            &&& 0 <= i < out.edges@.len() ==> l.contains(
                human::run_on(
                    seq![
                        "  "@,
                        out.edges@[i].kind@,
                        " edge "@,
                        out.edges@[i].from@,
                        " -> "@,
                        out.edges@[i].to@,
                        " ("@,
                        out.edges@[i].resolution@,
                        ", "@,
                        if out.edges@[i].alive {
                            "live"@
                        } else {
                            "dead"@
                        },
                        ")"@,
                    ],
                ),
            )
            &&& 0 <= i < out.caveats@.len() ==> l.contains(human::run_on(seq!["  note: "@, out.caveats@[i]@]))
        }),
{
    texts_run_on(out.a@, " and "@, out.b@, out.b@);
    let head = seq![human::run_on(seq![out.a@, " and "@, out.b@])];
    let f = human::edge_lines();
    let a = head + human::each(out.edges@, f);
    let b = a + human::coupling_lines(out.cochange);
    let c = b + human::each(out.caveats@, human::note_lines());
    assert(human::why_lines(out) == c);
    if 0 <= i < out.edges@.len() {
        let x = f(out.edges@[i])[0];
        assert(f(out.edges@[i]).contains(x));
        lemma_each(out.edges@, f, i, x);
        lemma_in_sum(head, human::each(out.edges@, f), x);
        lemma_in_sum(a, human::coupling_lines(out.cochange), x);
        lemma_in_sum(b, human::each(out.caveats@, human::note_lines()), x);
    }
    if 0 <= i < out.caveats@.len() {
        let z = human::run_on(seq!["  note: "@, out.caveats@[i]@]);
        lemma_one(z);
        lemma_each(out.caveats@, human::note_lines(), i, z);
        lemma_in_sum(b, human::each(out.caveats@, human::note_lines()), z);
    }
}

/// Law: every drifted document and every ranked file is written, and a cut list
/// says so.
pub proof fn lists_are_written(d: &DriftOutput, h: &HotspotsOutput, i: int)
    ensures
        0 <= i < d.results@.len() ==> human::drift_lines(d).contains(human::drift_line(d.results@[i])),
        d.results@.len() > 0 && d.truncated ==> human::drift_lines(d).contains("(truncated; raise --limit for more)"@),
        d.results@.len() == 0 ==> human::drift_lines(d) == seq!["no doc drift detected"@],
        0 <= i < h.results@.len() ==> human::hotspots_lines(h).contains(human::hotspot_line(h.results@[i])),
        h.truncated ==> human::hotspots_lines(h).contains("  (truncated; raise --limit for more)"@),
{
    let f = |d: crate::listing::DriftEntry| seq![human::drift_line(d)];
    let g = |h: crate::hotspots::HotspotEntry| seq![human::hotspot_line(h)];
    let cut = "(truncated; raise --limit for more)"@;
    let cut2 = "  (truncated; raise --limit for more)"@;
    lemma_on(d.truncated, cut);
    lemma_on(h.truncated, cut2);
    lemma_in_sum(human::each(d.results@, f), human::on(d.truncated, cut), cut);
    if 0 <= i < d.results@.len() {
        let x = human::drift_line(d.results@[i]);
        lemma_one(x);
        lemma_each(d.results@, f, i, x);
        lemma_in_sum(human::each(d.results@, f), human::on(d.truncated, cut), x);
    }
    let head = seq![human::run_on(seq!["hotspots by "@, h.by@])];
    let a = head + human::each(h.results@, g);
    lemma_in_sum(a, human::on(h.truncated, cut2), cut2);
    if 0 <= i < h.results@.len() {
        let x = human::hotspot_line(h.results@[i]);
        lemma_one(x);
        lemma_each(h.results@, g, i, x);
        lemma_in_sum(head, human::each(h.results@, g), x);
        lemma_in_sum(a, human::on(h.truncated, cut2), x);
    }
}

} // verus!
