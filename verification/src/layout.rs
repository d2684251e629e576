use vstd::prelude::*;
use vstd::string::StrSliceExecFns;

verus! {

/// One cell of the progress bar.
pub enum BarCell {
    /// A term boundary inside the elapsed part.
    TickFilled,
    /// A term boundary outside the elapsed part.
    TickEmpty,
    /// Elapsed time.
    Filled,
    /// Time still to come.
    Empty,
}

/// A run of progress-bar cells, drawn as one styled piece.
pub enum BarSegment {
    /// One term-boundary cell; `filled` when it lies in the elapsed part.
    Tick { filled: bool },
    /// `width` cells of elapsed time.
    Filled { width: usize },
    /// `width` cells of time still to come.
    Empty { width: usize },
}

/// The cell at column `i` of a bar with `filled` elapsed columns and term
/// boundaries at the columns `ticks`.
pub open spec fn bar_cell(i: int, filled: usize, ticks: Seq<usize>) -> BarCell {
    if ticks.contains(i as usize) {
        if i < filled {
            BarCell::TickFilled
        } else {
            BarCell::TickEmpty
        }
    } else if i < filled {
        BarCell::Filled
    } else {
        BarCell::Empty
    }
}

/// The cells of a bar `width` columns wide.
pub open spec fn bar_cells(width: usize, filled: usize, ticks: Seq<usize>) -> Seq<BarCell> {
    Seq::new(width as nat, |i: int| bar_cell(i, filled, ticks))
}

/// The cells a segment covers.
pub open spec fn segment_cells(seg: BarSegment) -> Seq<BarCell> {
    match seg {
        BarSegment::Tick { filled } => seq![
            if filled {
                BarCell::TickFilled
            } else {
                BarCell::TickEmpty
            },
        ],
        BarSegment::Filled { width } => Seq::new(width as nat, |i: int| BarCell::Filled),
        BarSegment::Empty { width } => Seq::new(width as nat, |i: int| BarCell::Empty),
    }
}

/// The cells that `segs` cover, left to right.
pub open spec fn segments_cells(segs: Seq<BarSegment>) -> Seq<BarCell>
    decreases segs.len(),
{
    if segs.len() == 0 {
        seq![]
    } else {
        segments_cells(segs.drop_last()) + segment_cells(segs.last())
    }
}

/// The segments are maximal runs: no run is empty, and no two runs of
/// elapsed (or of future) cells stand side by side.
pub open spec fn is_run_length_form(segs: Seq<BarSegment>) -> bool {
    &&& forall|j: int|
        0 <= j < segs.len() ==> match #[trigger] segs[j] {
            BarSegment::Tick { .. } => true,
            BarSegment::Filled { width } => width > 0,
            BarSegment::Empty { width } => width > 0,
        }
    &&& forall|j: int|
        0 <= j < segs.len() - 1 ==> !(#[trigger] segs[j] is Filled && segs[j + 1] is Filled) && !(
        segs[j] is Empty && segs[j + 1] is Empty)
}

/// The columns are in ascending order.
pub open spec fn is_ascending(ticks: Seq<usize>) -> bool {
    forall|a: int, b: int| 0 <= a <= b < ticks.len() ==> ticks[a] <= ticks[b]
}

/// A bar is `width` cells wide; cell `i` is elapsed (a filled run cell or a
/// filled tick) exactly when `i < filled`, and a tick exactly when a term
/// boundary lies at column `i`.
pub proof fn lemma_bar_cells(width: usize, filled: usize, ticks: Seq<usize>)
    ensures
        bar_cells(width, filled, ticks).len() == width,
        forall|i: int|
            0 <= i < width ==> ((#[trigger] bar_cells(width, filled, ticks)[i] is Filled
                || bar_cells(width, filled, ticks)[i] is TickFilled) <==> i < filled),
        forall|i: int|
            0 <= i < width ==> ((#[trigger] bar_cells(width, filled, ticks)[i] is TickFilled
                || bar_cells(width, filled, ticks)[i] is TickEmpty) <==> ticks.contains(i as usize)),
{
}

/// The number of elapsed cells in a bar is the elapsed width, capped at the
/// bar's width.
pub proof fn lemma_bar_elapsed_count(width: usize, filled: usize, ticks: Seq<usize>)
    ensures
        bar_cells(width, filled, ticks).filter(|c: BarCell| c is Filled || c is TickFilled).len()
            == if filled < width {
            filled as nat
        } else {
            width as nat
        },
{
    let cells = bar_cells(width, filled, ticks);
    let lit = |c: BarCell| c is Filled || c is TickFilled;
    let m: int = if filled < width {
        filled as int
    } else {
        width as int
    };
    assert(cells =~= cells.take(m) + cells.skip(m));
    Seq::filter_distributes_over_add(cells.take(m), cells.skip(m), lit);
    lemma_filter_all(cells.take(m), lit);
    lemma_filter_none(cells.skip(m), lit);
}

proof fn lemma_filter_all(s: Seq<BarCell>, p: spec_fn(BarCell) -> bool)
    requires
        forall|i: int| 0 <= i < s.len() ==> p(#[trigger] s[i]),
    ensures
        s.filter(p).len() == s.len(),
    decreases s.len(),
{
    reveal(Seq::filter);
    if s.len() > 0 {
        lemma_filter_all(s.drop_last(), p);
        assert(p(s[s.len() - 1]));
    }
}

proof fn lemma_filter_none(s: Seq<BarCell>, p: spec_fn(BarCell) -> bool)
    requires
        forall|i: int| 0 <= i < s.len() ==> !p(#[trigger] s[i]),
    ensures
        s.filter(p).len() == 0,
    decreases s.len(),
{
    reveal(Seq::filter);
    if s.len() > 0 {
        lemma_filter_none(s.drop_last(), p);
        assert(!p(s[s.len() - 1]));
    }
}

fn contains_column(ticks: &Vec<usize>, col: usize) -> (found: bool)
    ensures
        found == ticks@.contains(col),
{
    let mut k: usize = 0;
    while k < ticks.len()
        invariant
            k <= ticks.len(),
            forall|t: int| 0 <= t < k ==> ticks@[t] != col,
        decreases ticks.len() - k,
    {
        if ticks[k] == col {
            return true;
        }
        k = k + 1;
    }
    false
}

/// The first column in `ticks`, in list order, that lies right of `col`.
fn first_tick_after(ticks: &Vec<usize>, col: usize) -> (next: Option<usize>)
    ensures
        match next {
            Some(c) => exists|j: int|
                0 <= j < ticks@.len() && ticks@[j] == c && c > col && forall|t: int|
                    0 <= t < j ==> ticks@[t] <= col,
            None => forall|t: int| 0 <= t < ticks@.len() ==> ticks@[t] <= col,
        },
{
    let mut k: usize = 0;
    while k < ticks.len()
        invariant
            k <= ticks.len(),
            forall|t: int| 0 <= t < k ==> ticks@[t] <= col,
        decreases ticks.len() - k,
    {
        if ticks[k] > col {
            return Some(ticks[k]);
        }
        k = k + 1;
    }
    None
}

proof fn lemma_cells_push(segs: Seq<BarSegment>, seg: BarSegment)
    ensures
        segments_cells(segs.push(seg)) == segments_cells(segs) + segment_cells(seg),
{
    assert(segs.push(seg).drop_last() =~= segs);
}

/// The pieces of a progress bar `bar_w` columns wide whose first `filled`
/// columns are elapsed, with term boundaries at the columns `tick_cols`
/// (ascending): each boundary column is one tick, and the columns between
/// boundaries form one run of elapsed and one run of future cells.
#[verifier::spinoff_prover]
#[verifier::rlimit(40)]
pub fn progress_segments(bar_w: usize, filled: usize, tick_cols: &Vec<usize>) -> (segs: Vec<
    BarSegment,
>)
    requires
        is_ascending(tick_cols@),
    ensures
        segments_cells(segs@) == bar_cells(bar_w, filled, tick_cols@),
        is_run_length_form(segs@),
        segments_cells(segs@).len() == bar_w,
        forall|i: int|
            0 <= i < bar_w ==> ((#[trigger] segments_cells(segs@)[i] is Filled
                || segments_cells(segs@)[i] is TickFilled) <==> i < filled),
        forall|i: int|
            0 <= i < bar_w ==> ((#[trigger] segments_cells(segs@)[i] is TickFilled
                || segments_cells(segs@)[i] is TickEmpty) <==> tick_cols@.contains(i as usize)),
{
    let ghost ticks = tick_cols@;
    let ghost cells = bar_cells(bar_w, filled, ticks);
    let mut segs: Vec<BarSegment> = Vec::new();
    let mut i: usize = 0;
    proof {
        assert(segments_cells(segs@) =~= cells.take(0));
    }
    while i < bar_w
        invariant
            ticks == tick_cols@,
            is_ascending(ticks),
            cells == bar_cells(bar_w, filled, ticks),
            i <= bar_w,
            segments_cells(segs@) == cells.take(i as int),
            is_run_length_form(segs@),
            segs@.len() > 0 && !(segs@.last() is Tick) ==> i == bar_w || ticks.contains(i),
        decreases bar_w - i,
    {
        let ghost before = segs@;
        if contains_column(tick_cols, i) {
            let seg = BarSegment::Tick { filled: i < filled };
            segs.push(seg);
            proof {
                lemma_cells_push(before, seg);
                assert(cells.take(i as int) + segment_cells(seg) =~= cells.take(i + 1));
                assert(segs@.drop_last() =~= before);
                assert forall|j: int| 0 <= j < segs@.len() - 1 implies !(
                #[trigger] segs@[j] is Filled && segs@[j + 1] is Filled) && !(segs@[j] is Empty
                    && segs@[j + 1] is Empty) by {
                    assert(segs@[j] == before[j]);
                    if j + 1 < before.len() {
                        assert(segs@[j + 1] == before[j + 1]);
                    }
                }
            }
            i = i + 1;
        } else {
            let next_tick = match first_tick_after(tick_cols, i) {
                Some(c) => c,
                None => bar_w,
            };
            let region_end = if next_tick < bar_w {
                next_tick
            } else {
                bar_w
            };
            let fill_end = if filled < region_end {
                filled
            } else {
                region_end
            };
            let ghost start = i;
            proof {
                // No boundary lies in [start, region_end).
                assert forall|p: int| start <= p < region_end implies !ticks.contains(
                    #[trigger] (p as usize),
                ) by {
                    if ticks.contains(p as usize) && p != start {
                        let m = choose|m: int| 0 <= m < ticks.len() && ticks[m] == p as usize;
                        let j = choose|j: int|
                            0 <= j < ticks.len() && ticks[j] == next_tick && next_tick > start
                                && forall|t: int| 0 <= t < j ==> ticks[t] <= start;
                        if m < j {
                            assert(ticks[m] <= start);
                        } else {
                            assert(ticks[j] <= ticks[m]);
                        }
                    }
                }
            }
            if i < fill_end {
                let seg = BarSegment::Filled { width: fill_end - i };
                let ghost b = segs@;
                segs.push(seg);
                proof {
                    lemma_cells_push(b, seg);
                    assert(cells.take(i as int) + segment_cells(seg) =~= cells.take(
                        fill_end as int,
                    )) by {
                        assert forall|p: int| i <= p < fill_end implies cells[p]
                            == BarCell::Filled by {
                            assert(!ticks.contains(p as usize));
                        }
                    }
                    assert(segs@.drop_last() =~= b);
                    assert forall|j: int| 0 <= j < segs@.len() - 1 implies !(
                    #[trigger] segs@[j] is Filled && segs@[j + 1] is Filled) && !(segs@[j] is Empty
                        && segs@[j + 1] is Empty) by {
                        assert(segs@[j] == b[j]);
                        if j + 1 < b.len() {
                            assert(segs@[j + 1] == b[j + 1]);
                        }
                    }
                }
                i = fill_end;
            }
            if i < region_end {
                let seg = BarSegment::Empty { width: region_end - i };
                let ghost b = segs@;
                segs.push(seg);
                proof {
                    lemma_cells_push(b, seg);
                    assert(cells.take(i as int) + segment_cells(seg) =~= cells.take(
                        region_end as int,
                    )) by {
                        assert forall|p: int| i <= p < region_end implies cells[p]
                            == BarCell::Empty by {
                            assert(!ticks.contains(p as usize));
                        }
                    }
                    assert(segs@.drop_last() =~= b);
                    assert forall|j: int| 0 <= j < segs@.len() - 1 implies !(
                    #[trigger] segs@[j] is Filled && segs@[j + 1] is Filled) && !(segs@[j] is Empty
                        && segs@[j + 1] is Empty) by {
                        assert(segs@[j] == b[j]);
                        if j + 1 < b.len() {
                            assert(segs@[j + 1] == b[j + 1]);
                        }
                    }
                }
                i = region_end;
            }
        }
    }
    proof {
        assert(cells.take(bar_w as int) =~= cells);
        lemma_bar_cells(bar_w, filled, ticks);
    }
    segs
}

/// Columns left between `left` and `right` on a line `width` columns wide,
/// counting one column per character; zero when they do not fit.
pub fn gap_between(width: u16, left: &str, right: &str) -> (gap: usize)
    ensures
        gap == if left@.len() + right@.len() >= width {
            0
        } else {
            width - (left@.len() + right@.len())
        },
{
    let used = left.unicode_len().saturating_add(right.unicode_len());
    (width as usize).saturating_sub(used)
}

/// One piece of the tagline.
pub enum TaglinePiece {
    /// The opening bracket.
    Open,
    /// The separator between two adjectives.
    Separator,
    /// An adjective.
    Adjective(String),
    /// The closing bracket.
    Close,
}

/// The tagline: the adjectives between brackets, separated from each other.
pub fn tagline_pieces(adjectives: &Vec<String>) -> (pieces: Vec<TaglinePiece>)
    ensures
        pieces@.len() == if adjectives@.len() == 0 {
            2
        } else {
            2 * adjectives@.len() + 1
        },
        pieces@[0] is Open,
        pieces@.last() is Close,
        forall|k: int|
            0 <= k < adjectives@.len() ==> (#[trigger] pieces@[2 * k + 1] matches TaglinePiece::Adjective(a)
                && a@ == adjectives@[k]@),
        forall|k: int| 1 <= k < adjectives@.len() ==> #[trigger] pieces@[2 * k] is Separator,
{
    let mut pieces: Vec<TaglinePiece> = Vec::new();
    pieces.push(TaglinePiece::Open);
    let mut i: usize = 0;
    while i < adjectives.len()
        invariant
            i <= adjectives@.len(),
            pieces@.len() == if i == 0 {
                1
            } else {
                2 * i
            },
            pieces@[0] is Open,
            forall|k: int|
                0 <= k < i ==> (#[trigger] pieces@[2 * k + 1] matches TaglinePiece::Adjective(a)
                    && a@ == adjectives@[k]@),
            forall|k: int| 1 <= k < i ==> #[trigger] pieces@[2 * k] is Separator,
        decreases adjectives.len() - i,
    {
        if i > 0 {
            pieces.push(TaglinePiece::Separator);
        }
        pieces.push(TaglinePiece::Adjective(adjectives[i].clone()));
        i = i + 1;
    }
    pieces.push(TaglinePiece::Close);
    pieces
}

} // verus!
