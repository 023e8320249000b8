//! The editor aggregate: the persisted line list, the persisted fills, and
//! the command history that makes every mutation undoable.
//!
//! The arrangement is a pure derived view of the line list (see
//! `arrange::build`), so it is rebuilt on demand and never patched; undoing
//! a mutation therefore restores both the stored lines and, by determinism
//! of the builder, an identical arrangement.

use vstd::prelude::*;

use crate::arrange::lines_in_range;
use crate::fill::FillOutcome;
use crate::fill::Polygon;
use crate::geom::dist_sq;
use crate::geom::pt_in_range;
use crate::geom::LineSeg;
use crate::geom::Pt;
use crate::geom::COORD_LIMIT;

verus! {

/// Minimum accepted drawn-line length, squared, in subunits squared (one
/// drawing unit).
pub const MIN_LEN_SQ: i64 = 1024 * 1024;

/// One undoable mutation, with enough saved state to revert it.
pub enum Command {
    Add,
    AddFill,
    AddFrame,
    Clear { lines: Vec<LineSeg>, fills: Vec<Polygon> },
    CleanOverhangs { lines: Vec<LineSeg> },
}

/// The command log is consistent with the current amounts of lines and
/// fills: every entry can be reverted, all the way down.
pub open spec fn hist_ok(h: Seq<Command>, nlines: int, nfills: int) -> bool
    decreases h.len(),
{
    if h.len() == 0 {
        true
    } else {
        match h.last() {
            Command::Add => nlines >= 1 && hist_ok(h.drop_last(), nlines - 1, nfills),
            Command::AddFrame => nlines >= 4 && hist_ok(h.drop_last(), nlines - 4, nfills),
            Command::AddFill => nfills >= 1 && hist_ok(h.drop_last(), nlines, nfills - 1),
            Command::Clear { lines, fills } => lines_in_range(lines@) && hist_ok(
                h.drop_last(),
                lines@.len() as int,
                fills@.len() as int,
            ),
            Command::CleanOverhangs { lines } => lines_in_range(lines@) && hist_ok(
                h.drop_last(),
                lines@.len() as int,
                nfills,
            ),
        }
    }
}

/// The owned editor state.
pub struct Editor {
    pub lines: Vec<LineSeg>,
    pub fills: Vec<Polygon>,
    pub history: Vec<Command>,
}

pub open spec fn editor_wf(e: Editor) -> bool {
    &&& lines_in_range(e.lines@)
    &&& hist_ok(e.history@, e.lines@.len() as int, e.fills@.len() as int)
}

/// Two fill lists hold the same rings and colors.
pub open spec fn fills_equiv(a: Seq<Polygon>, b: Seq<Polygon>) -> bool {
    &&& a.len() == b.len()
    &&& forall|i: int|
        0 <= i < a.len() ==> (#[trigger] a[i]).points@ == b[i].points@ && a[i].color == b[i].color
}

/// What accepting a drawn line does to the editor.
pub open spec fn add_line_rel(pre: Editor, post: Editor, l: LineSeg) -> bool {
    &&& post.lines@ == pre.lines@.push(l)
    &&& post.fills@ == pre.fills@
    &&& post.history@ == pre.history@.push(Command::Add)
}

/// What adding a four-line frame does to the editor.
pub open spec fn add_frame_rel(pre: Editor, post: Editor, ls: Seq<LineSeg>) -> bool {
    &&& ls.len() == 4
    &&& post.lines@ == pre.lines@ + ls
    &&& post.fills@ == pre.fills@
    &&& post.history@ == pre.history@.push(Command::AddFrame)
}

/// What a successful fill does to the editor.
pub open spec fn fill_rel(pre: Editor, post: Editor) -> bool {
    &&& post.lines@ == pre.lines@
    &&& post.fills@.len() == pre.fills@.len() + 1
    &&& post.fills@.drop_last() == pre.fills@
    &&& post.history@ == pre.history@.push(Command::AddFill)
}

/// What clearing does to the editor.
pub open spec fn clear_rel(pre: Editor, post: Editor) -> bool {
    &&& post.lines@.len() == 0
    &&& post.fills@.len() == 0
    &&& post.history@.len() == pre.history@.len() + 1
    &&& post.history@.drop_last() == pre.history@
    &&& (match post.history@.last() {
        Command::Clear { lines, fills } => lines@ == pre.lines@ && fills_equiv(
            fills@,
            pre.fills@,
        ),
        _ => false,
    })
}

/// What a trimming that deleted something does to the editor.
pub open spec fn cleanup_rel(pre: Editor, post: Editor) -> bool {
    &&& post.fills@ == pre.fills@
    &&& post.history@.len() == pre.history@.len() + 1
    &&& post.history@.drop_last() == pre.history@
    &&& (match post.history@.last() {
        Command::CleanOverhangs { lines } => lines@ == pre.lines@,
        _ => false,
    })
}

/// What undo does: the most recent mutation is reverted exactly.
pub open spec fn undo_rel(pre: Editor, post: Editor) -> bool {
    if pre.history@.len() == 0 {
        &&& post.lines@ == pre.lines@
        &&& post.fills@ == pre.fills@
        &&& post.history@ == pre.history@
    } else {
        &&& post.history@ == pre.history@.drop_last()
        &&& (match pre.history@.last() {
            Command::Add => post.lines@ == pre.lines@.drop_last() && post.fills@ == pre.fills@,
            Command::AddFrame => post.lines@ == pre.lines@.take(pre.lines@.len() - 4)
                && post.fills@ == pre.fills@,
            Command::AddFill => post.lines@ == pre.lines@ && post.fills@ == pre.fills@.drop_last(),
            Command::Clear { lines, fills } => post.lines@ == lines@ && post.fills@ == fills@,
            Command::CleanOverhangs { lines } => post.lines@ == lines@ && post.fills@
                == pre.fills@,
        })
    }
}

/// Copies a line list element by element.
fn copy_lines(src: &Vec<LineSeg>) -> (r: Vec<LineSeg>)
    ensures
        r@ == src@,
{
    let mut r: Vec<LineSeg> = Vec::new();
    let n = src.len();
    let mut i: usize = 0;
    while i < n
        invariant
            n == src@.len(),
            i <= n,
            r@ == src@.take(i as int),
        decreases n - i,
    {
        r.push(src[i]);
        i += 1;
        proof {
            assert(src@.take(i as int) =~= src@.take(i as int - 1).push(src@[i - 1]));
        }
    }
    proof {
        assert(src@.take(n as int) =~= src@);
    }
    r
}

/// Copies a fill list ring by ring.
fn copy_fills(src: &Vec<Polygon>) -> (r: Vec<Polygon>)
    ensures
        fills_equiv(r@, src@),
{
    let mut r: Vec<Polygon> = Vec::new();
    let n = src.len();
    let mut i: usize = 0;
    while i < n
        invariant
            n == src@.len(),
            i <= n,
            r@.len() == i,
            forall|j: int|
                0 <= j < i ==> (#[trigger] r@[j]).points@ == src@[j].points@ && r@[j].color
                    == src@[j].color,
        decreases n - i,
    {
        let p = src[i].duplicate();
        r.push(p);
        i += 1;
    }
    r
}

impl Editor {
    pub fn new() -> (e: Editor)
        ensures
            editor_wf(e),
            e.lines@.len() == 0,
            e.fills@.len() == 0,
            e.history@.len() == 0,
    {
        Editor { lines: Vec::new(), fills: Vec::new(), history: Vec::new() }
    }

    pub fn line_count(&self) -> (c: usize)
        ensures
            c as int == self.lines@.len(),
    {
        self.lines.len()
    }

    pub fn fills_count(&self) -> (c: usize)
        ensures
            c as int == self.fills@.len(),
    {
        self.fills.len()
    }

    /// Appends a drawn line, rejecting (as a no-op) segments shorter than
    /// one drawing unit.
    pub fn add_line(&mut self, x1: i64, y1: i64, x2: i64, y2: i64) -> (added: bool)
        requires
            editor_wf(*old(self)),
            -COORD_LIMIT <= x1 <= COORD_LIMIT,
            -COORD_LIMIT <= y1 <= COORD_LIMIT,
            -COORD_LIMIT <= x2 <= COORD_LIMIT,
            -COORD_LIMIT <= y2 <= COORD_LIMIT,
        ensures
            editor_wf(*final(self)),
            added == (dist_sq(Pt { x: x1, y: y1 }, Pt { x: x2, y: y2 }) >= MIN_LEN_SQ),
            added ==> add_line_rel(
                *old(self),
                *final(self),
                LineSeg { a: Pt { x: x1, y: y1 }, b: Pt { x: x2, y: y2 } },
            ),
            !added ==> *final(self) == *old(self),
    {
        let a = Pt { x: x1, y: y1 };
        let b = Pt { x: x2, y: y2 };
        let len_sq = crate::geom::dist_sq_e(a, b);
        if len_sq < MIN_LEN_SQ {
            return false;
        }
        self.lines.push(LineSeg { a, b });
        self.history.push(Command::Add);
        proof {
            assert(self.history@.drop_last() =~= old(self).history@);
        }
        true
    }

    /// Appends four lines forming a frame as one grouped mutation.
    pub fn add_frame(
        &mut self,
        x1: i64,
        y1: i64,
        x2: i64,
        y2: i64,
        x3: i64,
        y3: i64,
        x4: i64,
        y4: i64,
    )
        requires
            editor_wf(*old(self)),
            -COORD_LIMIT <= x1 <= COORD_LIMIT,
            -COORD_LIMIT <= y1 <= COORD_LIMIT,
            -COORD_LIMIT <= x2 <= COORD_LIMIT,
            -COORD_LIMIT <= y2 <= COORD_LIMIT,
            -COORD_LIMIT <= x3 <= COORD_LIMIT,
            -COORD_LIMIT <= y3 <= COORD_LIMIT,
            -COORD_LIMIT <= x4 <= COORD_LIMIT,
            -COORD_LIMIT <= y4 <= COORD_LIMIT,
        ensures
            editor_wf(*final(self)),
            add_frame_rel(
                *old(self),
                *final(self),
                seq![
                    LineSeg { a: Pt { x: x1, y: y1 }, b: Pt { x: x2, y: y2 } },
                    LineSeg { a: Pt { x: x2, y: y2 }, b: Pt { x: x3, y: y3 } },
                    LineSeg { a: Pt { x: x3, y: y3 }, b: Pt { x: x4, y: y4 } },
                    LineSeg { a: Pt { x: x4, y: y4 }, b: Pt { x: x1, y: y1 } },
                ],
            ),
    {
        let p1 = Pt { x: x1, y: y1 };
        let p2 = Pt { x: x2, y: y2 };
        let p3 = Pt { x: x3, y: y3 };
        let p4 = Pt { x: x4, y: y4 };
        self.lines.push(LineSeg { a: p1, b: p2 });
        self.lines.push(LineSeg { a: p2, b: p3 });
        self.lines.push(LineSeg { a: p3, b: p4 });
        self.lines.push(LineSeg { a: p4, b: p1 });
        self.history.push(Command::AddFrame);
        proof {
            assert(self.history@.drop_last() =~= old(self).history@);
            assert(self.lines@ =~= old(self).lines@ + seq![
                LineSeg { a: p1, b: p2 },
                LineSeg { a: p2, b: p3 },
                LineSeg { a: p3, b: p4 },
                LineSeg { a: p4, b: p1 },
            ]);
            assert(self.lines@.take(self.lines@.len() - 4) =~= old(self).lines@);
        }
    }

    /// Empties the line and fill lists, saving both for undo.
    pub fn clear(&mut self)
        requires
            editor_wf(*old(self)),
        ensures
            editor_wf(*final(self)),
            clear_rel(*old(self), *final(self)),
    {
        let saved_lines = copy_lines(&self.lines);
        let saved_fills = copy_fills(&self.fills);
        self.lines = Vec::new();
        self.fills = Vec::new();
        self.history.push(Command::Clear { lines: saved_lines, fills: saved_fills });
        proof {
            assert(self.history@.drop_last() =~= old(self).history@);
        }
    }

    /// Reverts the most recent mutation; with an empty history nothing
    /// changes.
    pub fn undo(&mut self)
        requires
            editor_wf(*old(self)),
        ensures
            editor_wf(*final(self)),
            undo_rel(*old(self), *final(self)),
    {
        let cmd = match self.history.pop() {
            Some(c) => c,
            None => {
                return ;
            },
        };
        match cmd {
            Command::Add => {
                self.lines.pop();
            },
            Command::AddFrame => {
                self.lines.pop();
                self.lines.pop();
                self.lines.pop();
                self.lines.pop();
                proof {
                    assert(self.lines@ =~= old(self).lines@.take(old(self).lines@.len() - 4));
                }
            },
            Command::AddFill => {
                self.fills.pop();
            },
            Command::Clear { lines, fills } => {
                self.lines = lines;
                self.fills = fills;
            },
            Command::CleanOverhangs { lines } => {
                self.lines = lines;
            },
        }
        proof {
            assert forall|j: int|
                0 <= j < self.lines@.len() implies crate::geom::line_in_range(
                #[trigger] self.lines@[j]) by {
                if self.lines@.len() <= old(self).lines@.len() && self.lines@ == old(
                    self,
                ).lines@.take(self.lines@.len() as int) {
                    assert(self.lines@[j] == old(self).lines@[j]);
                }
            }
        }
    }

    /// Rebuilds the arrangement and runs the fill selection at the given
    /// point with the given color; a produced polygon is persisted.
    pub fn fill_at(&mut self, x: i64, y: i64, color_hex: &[u8]) -> (filled: bool)
        requires
            editor_wf(*old(self)),
            -COORD_LIMIT <= x <= COORD_LIMIT,
            -COORD_LIMIT <= y <= COORD_LIMIT,
        ensures
            editor_wf(*final(self)),
            !filled ==> *final(self) == *old(self),
            filled ==> fill_rel(*old(self), *final(self)),
            filled ==> crate::fill::seed_exists(old(self).lines@),
            !crate::fill::seed_exists(old(self).lines@) ==> !filled,
            ({
                let m = crate::fill::fill_model(
                    crate::arrange::built_views(old(self).lines@),
                    Pt { x, y },
                    crate::fill::GAP_RADIUS as int,
                );
                crate::arrange::built_segments(old(self).lines@).len() < 0x4000_0000 ==> {
                    &&& filled == m.is_filled
                    &&& filled ==> final(self).fills@.last().points@ == m.points
                }
            }),
            filled ==> ({
                let p = final(self).fills@.last();
                let origin = Pt { x, y };
                &&& p.points@.len() >= 3
                &&& p.points@[0] == p.points@[p.points@.len() - 1]
                &&& crate::poly::ring_in_range(p.points@)
                &&& crate::geom::iabs(crate::poly::area2x(p.points@)) > crate::fill::MIN_AREA_2X
                &&& crate::poly::point_in_poly(origin, p.points@)
                &&& p.color == crate::color::parse_hex_color_spec(color_hex@)
            }),
    {
        let origin = Pt { x, y };
        let color = crate::color::parse_hex_color(color_hex);
        let arr = crate::arrange::build(&self.lines);
        proof {
            crate::arrange::lemma_build_views(arr, self.lines@);
        }
        if arr.segments.len() >= 0x4000_0000 {
            // capacity guard: such an arrangement cannot be traced
            return false;
        }
        let outcome = crate::fill::fill_at(&arr, origin, color);
        proof {
            if exists|i: int| crate::fill::seed_ok(arr, i) {
                let i = choose|i: int| crate::fill::seed_ok(arr, i);
                assert(arr.segments@ == crate::arrange::built_segments(self.lines@));
                assert(arr.degree@ == crate::arrange::built_degree(self.lines@));
                assert(crate::fill::seed_at(self.lines@, i));
            } else {
                assert(outcome is NoFill && outcome->NoFill_0
                    == crate::trace::FailReason::DeadEnd);
            }
        }
        match outcome {
            FillOutcome::Filled(p) => {
                self.fills.push(p);
                self.history.push(Command::AddFill);
                proof {
                    assert(self.history@.drop_last() =~= old(self).history@);
                    assert(self.fills@.drop_last() =~= old(self).fills@);
                }
                true
            },
            FillOutcome::NoFill(_) => false,
        }
    }

    /// Rebuilds the arrangement and permanently deletes dangling segments,
    /// replacing the stored lines with the surviving segments; a no-op when
    /// nothing dangles.
    pub fn cleanup_overhangs(&mut self) -> (changed: bool)
        requires
            editor_wf(*old(self)),
        ensures
            editor_wf(*final(self)),
            !changed ==> *final(self) == *old(self),
            changed ==> cleanup_rel(*old(self), *final(self)),
            changed ==> lines_in_range(final(self).lines@),
            ({
                let segs = crate::arrange::built_segments(old(self).lines@);
                let nodes = crate::arrange::built_nodes(old(self).lines@);
                let mask = crate::trim::strip_run(
                    segs,
                    crate::prune::seed_queue(
                        crate::trim::init_degrees(segs, nodes.len() as int),
                        0,
                        Seq::empty(),
                    ),
                    crate::trim::no_deletions(segs.len()),
                    crate::trim::init_degrees(segs, nodes.len() as int),
                ).0;
                &&& changed == (segs.len() - crate::trim::deleted_measure(segs, mask) > 0)
                &&& changed ==> final(self).lines@ == crate::trim::kept_lines(
                    nodes,
                    segs,
                    mask,
                    0,
                    Seq::empty(),
                )
            }),
    {
        let arr = crate::arrange::build(&self.lines);
        let stripped = crate::trim::strip_overhangs(&arr);
        let del = stripped.0;
        let deleted = stripped.1;
        if deleted == 0 {
            return false;
        }
        let new_lines = crate::trim::collect_kept_lines(&arr, &del);
        let saved = copy_lines(&self.lines);
        self.lines = new_lines;
        self.history.push(Command::CleanOverhangs { lines: saved });
        proof {
            assert(self.history@.drop_last() =~= old(self).history@);
        }
        true
    }
}

/// Undo after an accepted line restores the exact prior line list, the
/// fills, the history, and (by determinism of the builder) an identical
/// arrangement.
pub proof fn lemma_undo_restores_add_line(e0: Editor, e1: Editor, e2: Editor, l: LineSeg)
    requires
        add_line_rel(e0, e1, l),
        undo_rel(e1, e2),
    ensures
        e2.lines@ == e0.lines@,
        e2.fills@ == e0.fills@,
        e2.history@ == e0.history@,
        crate::arrange::built_nodes(e2.lines@) == crate::arrange::built_nodes(e0.lines@),
        crate::arrange::built_segments(e2.lines@) == crate::arrange::built_segments(e0.lines@),
        crate::arrange::built_half_edges(e2.lines@) == crate::arrange::built_half_edges(e0.lines@),
{
    assert(e1.history@.len() > 0);
    assert(e2.lines@ =~= e0.lines@);
    assert(e2.history@ =~= e0.history@);
}

/// Undo after a frame restores the exact prior state.
pub proof fn lemma_undo_restores_add_frame(e0: Editor, e1: Editor, e2: Editor, ls: Seq<LineSeg>)
    requires
        add_frame_rel(e0, e1, ls),
        undo_rel(e1, e2),
    ensures
        e2.lines@ == e0.lines@,
        e2.fills@ == e0.fills@,
        e2.history@ == e0.history@,
        crate::arrange::built_segments(e2.lines@) == crate::arrange::built_segments(e0.lines@),
{
    assert(e1.history@.len() > 0);
    assert(e2.lines@ =~= e0.lines@);
    assert(e2.history@ =~= e0.history@);
}

/// Undo after a successful fill removes exactly that fill.
pub proof fn lemma_undo_restores_fill(e0: Editor, e1: Editor, e2: Editor)
    requires
        fill_rel(e0, e1),
        undo_rel(e1, e2),
    ensures
        e2.lines@ == e0.lines@,
        e2.fills@ == e0.fills@,
        e2.history@ == e0.history@,
{
    assert(e1.history@.len() > 0);
    assert(e2.history@ =~= e0.history@);
}

/// Undo after a clear restores the prior lines exactly and the prior fills
/// ring for ring.
pub proof fn lemma_undo_restores_clear(e0: Editor, e1: Editor, e2: Editor)
    requires
        clear_rel(e0, e1),
        undo_rel(e1, e2),
    ensures
        e2.lines@ == e0.lines@,
        fills_equiv(e2.fills@, e0.fills@),
        e2.history@ == e0.history@,
        crate::arrange::built_segments(e2.lines@) == crate::arrange::built_segments(e0.lines@),
{
    assert(e1.history@.len() > 0);
    assert(e2.history@ =~= e0.history@);
}

/// Undo after a trim restores the exact prior line list.
pub proof fn lemma_undo_restores_cleanup(e0: Editor, e1: Editor, e2: Editor)
    requires
        cleanup_rel(e0, e1),
        undo_rel(e1, e2),
    ensures
        e2.lines@ == e0.lines@,
        e2.fills@ == e0.fills@,
        e2.history@ == e0.history@,
        crate::arrange::built_segments(e2.lines@) == crate::arrange::built_segments(e0.lines@),
{
    assert(e1.history@.len() > 0);
    assert(e2.history@ =~= e0.history@);
}

} // verus!
