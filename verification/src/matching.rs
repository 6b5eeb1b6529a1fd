//! Maximum matching of key images to public keys by augmenting paths.
//!
//! The graph is held column by column: the columns are the key images, the
//! rows the public keys.  Columns are taken in ascending order; for each, a
//! depth-first search over alternating paths looks for an unmatched row, and
//! the path found is flipped.  A cursor per column remembers how far the
//! column has been scanned for unmatched rows, so that no search looks twice
//! at a row already known to be matched.

use vstd::prelude::*;

verus! {

/// The mate of a row or column that has none.
pub const UNMATCHED: u32 = 0xFFFF_FFFF;

/// A bipartite graph in compressed sparse column form.  The rows adjacent to
/// column `c` are `row_idx[col_ptr[c] .. col_ptr[c + 1]]`.
pub struct CscGraph {
    pub num_rows: usize,
    pub num_cols: usize,
    pub col_ptr: Vec<usize>,
    pub row_idx: Vec<u32>,
}

impl CscGraph {
    /// The column pointers rise from 0 to the number of entries, and every
    /// entry names a row.  Rows and columns are few enough that
    /// [`UNMATCHED`] names none of them.
    pub open spec fn wf(&self) -> bool {
        &&& self.num_rows <= u32::MAX
        &&& self.num_cols <= u32::MAX
        &&& self.col_ptr@.len() == self.num_cols + 1
        &&& self.col_ptr@[0] == 0
        &&& forall|i: int, j: int|
            0 <= i <= j <= self.num_cols ==> #[trigger] self.col_ptr@[i] <= #[trigger] self.col_ptr@[j]
        &&& self.col_ptr@[self.num_cols as int] == self.row_idx@.len()
        &&& forall|p: int|
            0 <= p < self.row_idx@.len() ==> (#[trigger] self.row_idx@[p]) < self.num_rows
    }

    /// Position `p` of the entries belongs to column `c`.
    pub open spec fn slot(&self, c: int, p: int) -> bool {
        0 <= c < self.num_cols && self.col_ptr@[c] <= p < self.col_ptr@[c + 1]
    }

    /// Row `r` is adjacent to column `c`.
    pub open spec fn has_edge(&self, r: int, c: int) -> bool {
        exists|p: int| #[trigger] self.slot(c, p) && self.row_idx@[p] == r
    }
}

/// `mates[r]` is the column matched to row `r`, or [`UNMATCHED`]: every
/// matched pair is an edge of the graph, and no column is matched twice.
pub open spec fn is_matching(g: &CscGraph, mates: Seq<u32>) -> bool {
    &&& mates.len() == g.num_rows
    &&& forall|r: int|
        0 <= r < mates.len() && #[trigger] mates[r] != UNMATCHED ==> g.has_edge(r, mates[r] as int)
    &&& forall|r1: int, r2: int|
        0 <= r1 < mates.len() && 0 <= r2 < mates.len() && r1 != r2 && #[trigger] mates[r1]
            != UNMATCHED ==> mates[r1] != #[trigger] mates[r2]
}

/// Some row is matched to column `c`.
pub open spec fn column_matched(mates: Seq<u32>, c: int) -> bool {
    exists|r: int| 0 <= r < mates.len() && #[trigger] mates[r] == c
}

/// Every row adjacent to a column of `w` is matched, and to a column of `w`.
/// From a column of such a set, alternating paths never leave the set and
/// never end in an unmatched row.
pub open spec fn is_tight(g: &CscGraph, mates: Seq<u32>, w: Set<int>) -> bool {
    forall|c: int, p: int|
        w.contains(c) && #[trigger] g.slot(c, p) ==> mates[g.row_idx@[p] as int] != UNMATCHED
            && w.contains(mates[g.row_idx@[p] as int] as int)
}

/// No alternating path leads from an unmatched column to an unmatched row:
/// the unmatched columns lie in a tight set.  Such a matching cannot be
/// enlarged by flipping a path.
pub open spec fn admits_no_augmentation(g: &CscGraph, mates: Seq<u32>) -> bool {
    exists|w: Set<int>|
        #![auto]
        is_tight(g, mates, w) && forall|c: int|
            0 <= c < g.num_cols && !column_matched(mates, c) ==> w.contains(c)
}

/// The rows that a matching matches.
pub open spec fn matched_rows(mates: Seq<u32>) -> Set<int> {
    Set::new(|r: int| 0 <= r < mates.len() && mates[r] != UNMATCHED)
}

/// The rows that a matching matches are finitely many.
pub proof fn lemma_matched_rows_finite(mates: Seq<u32>)
    ensures
        matched_rows(mates).finite(),
        matched_rows(mates).len() <= mates.len(),
{
    vstd::set_lib::lemma_int_range(0, mates.len() as int);
    assert(matched_rows(mates).subset_of(vstd::set_lib::set_int_range(0, mates.len() as int)));
    vstd::set_lib::lemma_len_subset(
        matched_rows(mates),
        vstd::set_lib::set_int_range(0, mates.len() as int),
    );
}

/// A matching that admits no augmentation is a maximum matching: no
/// matching of the graph matches more rows.
pub proof fn lemma_no_larger_matching(g: &CscGraph, mates: Seq<u32>, other: Seq<u32>)
    requires
        g.wf(),
        is_matching(g, mates),
        admits_no_augmentation(g, mates),
        is_matching(g, other),
    ensures
        matched_rows(other).len() <= matched_rows(mates).len(),
{
    let w = choose|w: Set<int>|
        #![auto]
        is_tight(g, mates, w) && forall|c: int|
            0 <= c < g.num_cols && !column_matched(mates, c) ==> w.contains(c);
    // Each row that `other` matches is sent to a row that `mates` matches:
    // to itself where its column lies in the tight set, and else to the row
    // that `mates` matches to its column.
    let f = |r: int|
        if w.contains(other[r] as int) {
            r
        } else {
            choose|p: int| 0 <= p < mates.len() && #[trigger] mates[p] == other[r]
        };
    let from = matched_rows(other);
    let to = matched_rows(mates);
    lemma_matched_rows_finite(other);
    lemma_matched_rows_finite(mates);
    assert forall|r: int| from.contains(r) implies to.contains(#[trigger] f(r)) && (w.contains(
        other[r] as int,
    ) ==> w.contains(mates[f(r)] as int)) && (!w.contains(other[r] as int) ==> mates[f(r)]
        == other[r]) by {
        let c = other[r] as int;
        assert(g.has_edge(r, c));
        let p = choose|p: int| #[trigger] g.slot(c, p) && g.row_idx@[p] == r;
        assert(g.slot(c, p));
        if w.contains(c) {
            assert(mates[r] != UNMATCHED && w.contains(mates[r] as int));
        } else {
            assert(column_matched(mates, c));
            let q = choose|q: int| 0 <= q < mates.len() && #[trigger] mates[q] == c;
            assert(mates[q] == other[r]);
        }
    }
    assert(vstd::relations::injective_on(f, from)) by {
        assert forall|a: int, b: int|
            from.contains(a) && from.contains(b) && #[trigger] f(a) == #[trigger] f(
                b,
            ) implies a == b by {
            assert(to.contains(f(a)));
            assert(to.contains(f(b)));
            let in_a = w.contains(other[a] as int);
            let in_b = w.contains(other[b] as int);
            if !in_a && !in_b {
                assert(mates[f(a)] == other[a]);
                assert(mates[f(b)] == other[b]);
            }
        }
    }
    let image = from.map(f);
    vstd::set_lib::lemma_map_size(from, image, f);
    assert(image.subset_of(to)) by {
        assert forall|y: int| image.contains(y) implies to.contains(y) by {
            let r = choose|r: int| from.contains(r) && y == f(r);
            assert(to.contains(f(r)));
        }
    }
    vstd::set_lib::lemma_len_subset(image, to);
}

/// The columns that a matching matches.
pub open spec fn matched_columns(mates: Seq<u32>) -> Set<int> {
    Set::new(|c: int| column_matched(mates, c) && c != UNMATCHED)
}

/// A matching matches as many columns as rows.
pub proof fn lemma_as_many_columns(g: &CscGraph, mates: Seq<u32>)
    requires
        g.wf(),
        is_matching(g, mates),
    ensures
        matched_columns(mates).finite(),
        matched_columns(mates).len() == matched_rows(mates).len(),
        forall|c: int| matched_columns(mates).contains(c) ==> 0 <= c < g.num_cols,
{
    let f = |r: int| mates[r] as int;
    lemma_matched_rows_finite(mates);
    assert(vstd::relations::injective_on(f, matched_rows(mates)));
    assert(matched_rows(mates).map(f) =~= matched_columns(mates)) by {
        assert forall|c: int| matched_columns(mates).contains(c) implies matched_rows(mates).map(
            f,
        ).contains(c) by {
            let r = choose|r: int| 0 <= r < mates.len() && #[trigger] mates[r] == c;
            assert(matched_rows(mates).contains(r));
            assert(f(r) == c);
        }
        assert forall|c: int| matched_rows(mates).map(f).contains(c) implies matched_columns(
            mates,
        ).contains(c) by {
            let r = choose|r: int| matched_rows(mates).contains(r) && c == f(r);
            assert(mates[r] == c);
        }
    }
    vstd::set_lib::lemma_map_size(matched_rows(mates), matched_columns(mates), f);
    assert forall|c: int| matched_columns(mates).contains(c) implies 0 <= c < g.num_cols by {
        let r = choose|r: int| 0 <= r < mates.len() && #[trigger] mates[r] == c;
        assert(g.has_edge(r, mates[r] as int));
        let p = choose|p: int| #[trigger] g.slot(mates[r] as int, p);
    }
}

/// Where a maximum matching leaves a column unmatched, every matching does.
pub proof fn lemma_some_column_stays_unmatched(
    g: &CscGraph,
    mates: Seq<u32>,
    other: Seq<u32>,
    c: int,
)
    requires
        g.wf(),
        is_matching(g, mates),
        admits_no_augmentation(g, mates),
        is_matching(g, other),
        0 <= c < g.num_cols,
        !column_matched(mates, c),
    ensures
        exists|c2: int| 0 <= c2 < g.num_cols && !column_matched(other, c2),
{
    lemma_no_larger_matching(g, mates, other);
    lemma_as_many_columns(g, mates);
    lemma_as_many_columns(g, other);
    let all = vstd::set_lib::set_int_range(0, g.num_cols as int);
    vstd::set_lib::lemma_int_range(0, g.num_cols as int);
    assert(matched_columns(mates).subset_of(all.remove(c)));
    vstd::set_lib::lemma_len_subset(matched_columns(mates), all.remove(c));
    if forall|c2: int| 0 <= c2 < g.num_cols ==> column_matched(other, c2) {
        assert(all.subset_of(matched_columns(other))) by {
            assert forall|c2: int| all.contains(c2) implies matched_columns(other).contains(c2) by {
                assert(column_matched(other, c2));
            }
        }
        vstd::set_lib::lemma_len_subset(all, matched_columns(other));
    }
}

/// The rows at the positions before each cursor are matched.
spec fn cursors_ok(g: &CscGraph, cursor: Seq<usize>, mates: Seq<u32>) -> bool {
    &&& cursor.len() == g.num_cols
    &&& forall|c: int|
        0 <= c < g.num_cols ==> g.col_ptr@[c] <= #[trigger] cursor[c] <= g.col_ptr@[c + 1]
    &&& forall|c: int, p: int|
        #[trigger] g.slot(c, p) && p < cursor[c] ==> mates[g.row_idx@[p] as int] != UNMATCHED
}

/// The columns that the search for `cur` has not entered yet.
spec fn unmarked(visited: Seq<u32>, cur: u32) -> Set<int> {
    Set::new(|c: int| 0 <= c < visited.len() && visited[c] != cur)
}

/// The columns that the search for `cur` has entered.
spec fn marked(visited: Seq<u32>, cur: u32) -> Set<int> {
    Set::new(|c: int| 0 <= c < visited.len() && visited[c] == cur)
}

/// The columns not entered yet are finitely many.
proof fn lemma_unmarked_finite(visited: Seq<u32>, cur: u32)
    ensures
        unmarked(visited, cur).finite(),
{
    vstd::set_lib::lemma_int_range(0, visited.len() as int);
    assert(unmarked(visited, cur).subset_of(vstd::set_lib::set_int_range(0, visited.len() as int)));
    vstd::set_lib::lemma_len_subset(
        unmarked(visited, cur),
        vstd::set_lib::set_int_range(0, visited.len() as int),
    );
}

/// Entering a column leaves fewer columns not entered.
proof fn lemma_mark(visited: Seq<u32>, cur: u32, c: int)
    requires
        0 <= c < visited.len(),
        visited[c] != cur,
    ensures
        unmarked(visited.update(c, cur), cur).len() < unmarked(visited, cur).len(),
{
    lemma_unmarked_finite(visited, cur);
    assert(unmarked(visited.update(c, cur), cur) =~= unmarked(visited, cur).remove(c));
    assert(unmarked(visited, cur).contains(c));
}

/// The state of one depth-first search.  The stack holds the columns of an
/// alternating path that starts at the column searched for; `rows[k]` is the
/// row by which the path leaves the column at depth `k`, `next[k]` the
/// position at which the scan of that column resumes, and `done[c]` the
/// position up to which the rows of a marked column `c` have been followed.
struct Search {
    cursor: Seq<usize>,
    visited: Seq<u32>,
    cols: Seq<u32>,
    rows: Seq<u32>,
    next: Seq<usize>,
    done: Seq<int>,
    found: bool,
}

impl Search {
    spec fn depth(self) -> int {
        self.cols.len() as int
    }

    spec fn sizes_ok(self, g: &CscGraph) -> bool {
        &&& self.rows.len() == self.depth()
        &&& self.next.len() == self.depth()
        &&& self.visited.len() == g.num_cols
        &&& self.done.len() == g.num_cols
        &&& self.cursor.len() == g.num_cols
        &&& forall|k: int| 0 <= k < self.depth() ==> (#[trigger] self.cols[k]) < g.num_cols
        &&& forall|c: int|
            0 <= c < g.num_cols ==> g.col_ptr@[c] <= #[trigger] self.cursor[c] <= g.col_ptr@[c + 1]
    }

    /// The rows before each cursor are matched, but for the unmatched row
    /// that ends a search.
    spec fn cursors_ok(self, g: &CscGraph, mates: Seq<u32>) -> bool {
        forall|c: int, p: int|
            #[trigger] g.slot(c, p) && p < self.cursor[c] ==> mates[g.row_idx@[p] as int] != UNMATCHED
                || (self.found && g.row_idx@[p] == self.rows[self.depth() - 1])
    }

    /// The stack is an alternating path of distinct columns from `cur`.
    spec fn path_ok(self, g: &CscGraph, mates: Seq<u32>, cur: u32) -> bool {
        &&& self.depth() > 0 ==> self.cols[0] == cur
        &&& self.depth() == 0 ==> self.visited[cur as int] == cur
        &&& forall|k: int|
            0 <= k < self.depth() - 1 ==> (#[trigger] self.rows[k]) < g.num_rows && g.has_edge(
                self.rows[k] as int,
                self.cols[k] as int,
            ) && mates[self.rows[k] as int] == self.cols[k + 1]
        &&& forall|i: int, j: int|
            0 <= i < j < self.depth() ==> #[trigger] self.cols[i] != #[trigger] self.cols[j]
        &&& forall|k: int|
            0 <= k < self.depth() - 1 ==> self.visited[(#[trigger] self.cols[k]) as int] == cur
        &&& self.found ==> self.depth() > 0 && self.rows[self.depth() - 1] < g.num_rows
            && g.has_edge(self.rows[self.depth() - 1] as int, self.cols[self.depth() - 1] as int)
            && mates[self.rows[self.depth() - 1] as int] == UNMATCHED
    }

    /// Marks are those of this search or of an earlier one, and a marked
    /// column has been scanned for unmatched rows to its end.
    spec fn marks_ok(self, g: &CscGraph, cur: u32) -> bool {
        &&& forall|c: int|
            0 <= c < g.num_cols ==> #[trigger] self.visited[c] == UNMATCHED || self.visited[c] <= cur
        &&& forall|c: int| 0 <= c < g.num_cols && #[trigger] self.visited[c] == cur ==> c <= cur
        &&& !self.found ==> forall|c: int|
            0 <= c < g.num_cols && #[trigger] self.visited[c] == cur ==> self.cursor[c]
                == g.col_ptr@[c + 1]
    }

    /// The rows followed so far from marked columns lead to marked columns,
    /// or to the column on top of the stack.
    spec fn progress_ok(self, g: &CscGraph, mates: Seq<u32>, cur: u32) -> bool {
        &&& forall|c: int|
            0 <= c < g.num_cols && self.visited[c] == cur ==> g.col_ptr@[c] <= #[trigger] self.done[c]
                <= g.col_ptr@[c + 1]
        &&& forall|c: int, p: int|
            #[trigger] g.slot(c, p) && self.visited[c] == cur && p < self.done[c] ==> {
                let m = mates[g.row_idx@[p] as int];
                m != UNMATCHED && (self.visited[m as int] == cur || (self.depth() > 0 && m
                    == self.cols[self.depth() - 1]))
            }
        &&& forall|c: int|
            0 <= c < g.num_cols && #[trigger] self.visited[c] == cur ==> self.done[c]
                == g.col_ptr@[c + 1] || (exists|k: int|
                0 <= k < self.depth() && #[trigger] self.cols[k] == c)
        &&& forall|k: int|
            0 <= k < self.depth() && self.visited[self.cols[k] as int] == cur && !(self.found && k
                == self.depth() - 1) ==> (#[trigger] self.next[k]) == self.done[self.cols[k] as int]
    }

    spec fn ok(self, g: &CscGraph, mates: Seq<u32>, cur: u32) -> bool {
        &&& self.sizes_ok(g)
        &&& self.cursors_ok(g, mates)
        &&& self.path_ok(g, mates, cur)
        &&& self.marks_ok(g, cur)
        &&& self.progress_ok(g, mates, cur)
    }

    spec fn top_col(self) -> int {
        self.cols[self.depth() - 1] as int
    }
}

/// What the search needs to know of the matching it starts from.
spec fn before_search(g: &CscGraph, mates: Seq<u32>, cur: u32) -> bool {
    &&& g.wf()
    &&& cur < g.num_cols
    &&& is_matching(g, mates)
    &&& forall|r: int| 0 <= r < mates.len() && #[trigger] mates[r] != UNMATCHED ==> mates[r] < cur
}

/// The search enters the column on top of the stack and finds the
/// unmatched row `row` just before position `p`.
proof fn lemma_enter_found(g: &CscGraph, mates: Seq<u32>, cur: u32, s: Search, p: int, row: u32) -> (t:
    Search)
    requires
        before_search(g, mates, cur),
        s.ok(g, mates, cur),
        !s.found,
        s.depth() > 0,
        s.visited[s.top_col()] != cur,
        s.cursor[s.top_col()] < p <= g.col_ptr@[s.top_col() + 1],
        row == g.row_idx@[p - 1],
        mates[row as int] == UNMATCHED,
        forall|q: int|
            s.cursor[s.top_col()] <= q < p - 1 ==> mates[(#[trigger] g.row_idx@[q]) as int] != UNMATCHED,
    ensures
        t == (Search {
            cursor: s.cursor.update(s.top_col(), p as usize),
            visited: s.visited.update(s.top_col(), cur),
            rows: s.rows.update(s.depth() - 1, row),
            done: s.done.update(s.top_col(), g.col_ptr@[s.top_col()] as int),
            found: true,
            ..s
        }),
        t.ok(g, mates, cur),
{
    let col = s.top_col();
    let t = Search {
        cursor: s.cursor.update(col, p as usize),
        visited: s.visited.update(col, cur),
        rows: s.rows.update(s.depth() - 1, row),
        done: s.done.update(col, g.col_ptr@[col] as int),
        found: true,
        ..s
    };
    assert(g.slot(col, p - 1));
    assert(t.sizes_ok(g));
    assert(t.cursors_ok(g, mates)) by {
        assert forall|c: int, q: int| #[trigger] g.slot(c, q) && q < t.cursor[c] implies mates[g.row_idx@[q] as int]
            != UNMATCHED || (t.found && g.row_idx@[q] == t.rows[t.depth() - 1]) by {
            if c == col && q >= s.cursor[c] {
            } else {
                assert(g.slot(c, q) && q < s.cursor[c]);
            }
        }
    }
    lemma_enter_common(g, mates, cur, s, t);
    t
}

/// The search enters the column on top of the stack and finds all its rows
/// matched.
proof fn lemma_enter_open(g: &CscGraph, mates: Seq<u32>, cur: u32, s: Search) -> (t: Search)
    requires
        before_search(g, mates, cur),
        s.ok(g, mates, cur),
        !s.found,
        s.depth() > 0,
        s.visited[s.top_col()] != cur,
        forall|q: int|
            s.cursor[s.top_col()] <= q < g.col_ptr@[s.top_col() + 1] ==> mates[(
            #[trigger] g.row_idx@[q]) as int] != UNMATCHED,
    ensures
        t == (Search {
            cursor: s.cursor.update(s.top_col(), g.col_ptr@[s.top_col() + 1]),
            visited: s.visited.update(s.top_col(), cur),
            next: s.next.update(s.depth() - 1, g.col_ptr@[s.top_col()]),
            done: s.done.update(s.top_col(), g.col_ptr@[s.top_col()] as int),
            ..s
        }),
        t.ok(g, mates, cur),
{
    let col = s.top_col();
    let t = Search {
        cursor: s.cursor.update(col, g.col_ptr@[col + 1]),
        visited: s.visited.update(col, cur),
        next: s.next.update(s.depth() - 1, g.col_ptr@[col]),
        done: s.done.update(col, g.col_ptr@[col] as int),
        ..s
    };
    assert(t.sizes_ok(g));
    assert(t.cursors_ok(g, mates)) by {
        assert forall|c: int, q: int| #[trigger] g.slot(c, q) && q < t.cursor[c] implies mates[g.row_idx@[q] as int]
            != UNMATCHED || (t.found && g.row_idx@[q] == t.rows[t.depth() - 1]) by {
            if c == col && q >= s.cursor[c] {
            } else {
                assert(g.slot(c, q) && q < s.cursor[c]);
            }
        }
    }
    lemma_enter_common(g, mates, cur, s, t);
    t
}

/// What entering the top column keeps, whether or not an unmatched row was
/// found in it.
proof fn lemma_enter_common(g: &CscGraph, mates: Seq<u32>, cur: u32, s: Search, t: Search)
    requires
        before_search(g, mates, cur),
        s.ok(g, mates, cur),
        !s.found,
        s.depth() > 0,
        s.visited[s.top_col()] != cur,
        t.sizes_ok(g),
        t.cols == s.cols,
        t.visited == s.visited.update(s.top_col(), cur),
        t.done == s.done.update(s.top_col(), g.col_ptr@[s.top_col()] as int),
        forall|c: int| 0 <= c < g.num_cols && c != s.top_col() ==> t.cursor[c] == s.cursor[c],
        forall|k: int| 0 <= k < s.depth() - 1 ==> t.rows[k] == s.rows[k] && t.next[k] == s.next[k],
        !t.found ==> t.cursor[s.top_col()] == g.col_ptr@[s.top_col() + 1] && t.next[s.depth() - 1]
            == g.col_ptr@[s.top_col()],
        t.found ==> t.rows[s.depth() - 1] < g.num_rows && g.has_edge(
            t.rows[s.depth() - 1] as int,
            s.top_col(),
        ) && mates[t.rows[s.depth() - 1] as int] == UNMATCHED,
    ensures
        t.path_ok(g, mates, cur),
        t.marks_ok(g, cur),
        t.progress_ok(g, mates, cur),
{
    let col = s.top_col();
    let top = s.depth() - 1;
    assert(t.path_ok(g, mates, cur)) by {
        assert forall|k: int| 0 <= k < t.depth() - 1 implies t.visited[(#[trigger] t.cols[k]) as int]
            == cur by {
            assert(s.visited[s.cols[k] as int] == cur);
        }
    }
    assert(col <= cur) by {
        if top > 0 {
            assert(mates[s.rows[top - 1] as int] == s.cols[top]);
        }
    }
    assert(t.marks_ok(g, cur)) by {
        assert forall|c: int| 0 <= c < g.num_cols implies #[trigger] t.visited[c] == UNMATCHED
            || t.visited[c] <= cur by {
            assert(s.visited[c] == UNMATCHED || s.visited[c] <= cur);
        }
        assert forall|c: int| 0 <= c < g.num_cols && #[trigger] t.visited[c] == cur implies c
            <= cur by {
            if c != col {
                assert(s.visited[c] == cur);
            }
        }
        if !t.found {
            assert forall|c: int| 0 <= c < g.num_cols && #[trigger] t.visited[c] == cur implies t.cursor[c]
                == g.col_ptr@[c + 1] by {
                if c != col {
                    assert(s.visited[c] == cur);
                }
            }
        }
    }
    assert(t.progress_ok(g, mates, cur)) by {
        assert forall|c: int| 0 <= c < g.num_cols && t.visited[c] == cur implies g.col_ptr@[c]
            <= #[trigger] t.done[c] <= g.col_ptr@[c + 1] by {
            if c != col {
                assert(s.visited[c] == cur);
            }
        }
        assert forall|c: int, q: int|
            #[trigger] g.slot(c, q) && t.visited[c] == cur && q < t.done[c] implies ({
            let m = mates[g.row_idx@[q] as int];
            m != UNMATCHED && (t.visited[m as int] == cur || (t.depth() > 0 && m == t.cols[t.depth()
                - 1]))
        }) by {
            if c != col {
                assert(g.slot(c, q) && s.visited[c] == cur && q < s.done[c]);
            }
        }
        assert forall|c: int| 0 <= c < g.num_cols && #[trigger] t.visited[c] == cur implies t.done[c]
            == g.col_ptr@[c + 1] || (exists|k: int| 0 <= k < t.depth() && #[trigger] t.cols[k] == c) by {
            if c != col {
                assert(s.visited[c] == cur);
            } else {
                assert(t.cols[top] == c);
            }
        }
        assert forall|k: int|
            0 <= k < t.depth() && t.visited[t.cols[k] as int] == cur && !(t.found && k == t.depth()
                - 1) implies (#[trigger] t.next[k]) == t.done[t.cols[k] as int] by {
            if k < top {
                assert(s.cols[k] != s.cols[top]);
                assert(s.visited[s.cols[k] as int] == cur);
                assert(s.next[k] == s.done[s.cols[k] as int]);
            }
        }
    }
}

/// The search follows the row at position `p` of the top column to its
/// mate, which it has not entered yet.
proof fn lemma_branch(g: &CscGraph, mates: Seq<u32>, cur: u32, s: Search, p: int, row: u32, mate: u32) -> (t:
    Search)
    requires
        before_search(g, mates, cur),
        s.ok(g, mates, cur),
        !s.found,
        s.depth() > 0,
        s.visited[s.top_col()] == cur,
        s.next[s.depth() - 1] <= p < g.col_ptr@[s.top_col() + 1],
        forall|q: int|
            s.next[s.depth() - 1] <= q < p ==> s.visited[mates[(#[trigger] g.row_idx@[q]) as int] as int]
                == cur,
        row == g.row_idx@[p],
        mate == mates[row as int],
        s.visited[mate as int] != cur,
    ensures
        t == (Search {
            cols: s.cols.push(mate),
            rows: s.rows.update(s.depth() - 1, row).push(UNMATCHED),
            next: s.next.update(s.depth() - 1, (p + 1) as usize).push(0),
            done: s.done.update(s.top_col(), p + 1),
            ..s
        }),
        t.ok(g, mates, cur),
        mate < cur,
{
    let col = s.top_col();
    let top = s.depth() - 1;
    let t = Search {
        cols: s.cols.push(mate),
        rows: s.rows.update(top, row).push(UNMATCHED),
        next: s.next.update(top, (p + 1) as usize).push(0),
        done: s.done.update(col, p + 1),
        ..s
    };
    assert(s.next[top] == s.done[col]);
    assert(g.slot(col, p));
    assert(s.cursor[col] == g.col_ptr@[col + 1]);
    assert(mates[row as int] != UNMATCHED);
    assert(mate < cur);
    assert(t.sizes_ok(g));
    assert(t.cursors_ok(g, mates)) by {
        assert forall|c: int, q: int| #[trigger] g.slot(c, q) && q < t.cursor[c] implies mates[g.row_idx@[q] as int]
            != UNMATCHED || (t.found && g.row_idx@[q] == t.rows[t.depth() - 1]) by {
            assert(g.slot(c, q) && q < s.cursor[c]);
        }
    }
    assert(t.path_ok(g, mates, cur)) by {
        assert forall|i: int, j: int| 0 <= i < j < t.depth() implies #[trigger] t.cols[i]
            != #[trigger] t.cols[j] by {
            if j == t.depth() - 1 {
                assert(t.cols[i] == s.cols[i]);
                if i < top {
                    assert(s.visited[s.cols[i] as int] == cur);
                }
            } else {
                assert(s.cols[i] != s.cols[j]);
            }
        }
        assert forall|k: int| 0 <= k < t.depth() - 1 implies (#[trigger] t.rows[k]) < g.num_rows
            && g.has_edge(t.rows[k] as int, t.cols[k] as int) && mates[t.rows[k] as int]
            == t.cols[k + 1] by {
            if k < top {
                assert(s.rows[k] < g.num_rows);
                assert(t.cols[k] == s.cols[k]);
                assert(t.cols[k + 1] == s.cols[k + 1]);
            }
        }
        assert forall|k: int| 0 <= k < t.depth() - 1 implies t.visited[(#[trigger] t.cols[k]) as int]
            == cur by {
            if k < top {
                assert(s.visited[s.cols[k] as int] == cur);
            }
        }
    }
    assert(t.marks_ok(g, cur));
    assert(t.progress_ok(g, mates, cur)) by {
        assert forall|c: int| 0 <= c < g.num_cols && t.visited[c] == cur implies g.col_ptr@[c]
            <= #[trigger] t.done[c] <= g.col_ptr@[c + 1] by {
            assert(g.col_ptr@[c] <= s.done[c] <= g.col_ptr@[c + 1]);
        }
        assert forall|c: int, q: int|
            #[trigger] g.slot(c, q) && t.visited[c] == cur && q < t.done[c] implies ({
            let m = mates[g.row_idx@[q] as int];
            m != UNMATCHED && (t.visited[m as int] == cur || (t.depth() > 0 && m == t.cols[t.depth()
                - 1]))
        }) by {
            let m = mates[g.row_idx@[q] as int];
            if c == col && q >= s.done[c] {
                if q < p {
                    assert(s.visited[mates[g.row_idx@[q] as int] as int] == cur);
                    assert(g.slot(c, q) && q < s.cursor[c]);
                }
            } else {
                assert(g.slot(c, q) && s.visited[c] == cur && q < s.done[c]);
                assert(m != UNMATCHED && (s.visited[m as int] == cur || m == s.cols[top]));
            }
        }
        assert forall|c: int| 0 <= c < g.num_cols && #[trigger] t.visited[c] == cur implies t.done[c]
            == g.col_ptr@[c + 1] || (exists|k: int| 0 <= k < t.depth() && #[trigger] t.cols[k] == c) by {
            if c == col {
                assert(t.cols[top] == c);
            } else if s.done[c] != g.col_ptr@[c + 1] {
                let k = choose|k: int| 0 <= k < s.depth() && #[trigger] s.cols[k] == c;
                assert(t.cols[k] == c);
            }
        }
        assert forall|k: int|
            0 <= k < t.depth() && t.visited[t.cols[k] as int] == cur && !(t.found && k == t.depth()
                - 1) implies (#[trigger] t.next[k]) == t.done[t.cols[k] as int] by {
            if k < top {
                assert(s.cols[k] != s.cols[top]);
                assert(t.cols[k] == s.cols[k]);
                assert(s.next[k] == s.done[s.cols[k] as int]);
            }
        }
    }
    t
}

/// The search has followed every row of the top column and leaves it.
proof fn lemma_retreat(g: &CscGraph, mates: Seq<u32>, cur: u32, s: Search) -> (t: Search)
    requires
        before_search(g, mates, cur),
        s.ok(g, mates, cur),
        !s.found,
        s.depth() > 0,
        s.visited[s.top_col()] == cur,
        forall|q: int|
            s.next[s.depth() - 1] <= q < g.col_ptr@[s.top_col() + 1] ==> s.visited[mates[(
            #[trigger] g.row_idx@[q]) as int] as int] == cur,
    ensures
        t == (Search {
            cols: s.cols.subrange(0, s.depth() - 1),
            rows: s.rows.subrange(0, s.depth() - 1),
            next: s.next.subrange(0, s.depth() - 1),
            done: s.done.update(s.top_col(), g.col_ptr@[s.top_col() + 1] as int),
            ..s
        }),
        t.ok(g, mates, cur),
        t.depth() > 0 ==> t.visited[t.top_col()] == cur,
{
    let col = s.top_col();
    let top = s.depth() - 1;
    let t = Search {
        cols: s.cols.subrange(0, top),
        rows: s.rows.subrange(0, top),
        next: s.next.subrange(0, top),
        done: s.done.update(col, g.col_ptr@[col + 1] as int),
        ..s
    };
    assert(s.next[top] == s.done[col]);
    assert(s.cursor[col] == g.col_ptr@[col + 1]);
    assert(t.sizes_ok(g)) by {
        assert forall|k: int| 0 <= k < t.depth() implies (#[trigger] t.cols[k]) < g.num_cols by {
            assert(s.cols[k] < g.num_cols);
        }
    }
    assert(t.cursors_ok(g, mates)) by {
        assert forall|c: int, q: int| #[trigger] g.slot(c, q) && q < t.cursor[c] implies mates[g.row_idx@[q] as int]
            != UNMATCHED || (t.found && g.row_idx@[q] == t.rows[t.depth() - 1]) by {
            assert(g.slot(c, q) && q < s.cursor[c]);
        }
    }
    assert(t.path_ok(g, mates, cur)) by {
        if t.depth() > 0 {
            assert(t.cols[0] == s.cols[0]);
        }
        assert forall|i: int, j: int| 0 <= i < j < t.depth() implies #[trigger] t.cols[i]
            != #[trigger] t.cols[j] by {
            assert(s.cols[i] != s.cols[j]);
        }
        assert forall|k: int| 0 <= k < t.depth() - 1 implies (#[trigger] t.rows[k]) < g.num_rows
            && g.has_edge(t.rows[k] as int, t.cols[k] as int) && mates[t.rows[k] as int]
            == t.cols[k + 1] by {
            assert(s.rows[k] < g.num_rows);
            assert(t.cols[k] == s.cols[k]);
            assert(t.cols[k + 1] == s.cols[k + 1]);
        }
        assert forall|k: int| 0 <= k < t.depth() - 1 implies t.visited[(#[trigger] t.cols[k]) as int]
            == cur by {
            assert(s.visited[s.cols[k] as int] == cur);
        }
    }
    assert(t.marks_ok(g, cur));
    if t.depth() > 0 {
        assert(s.visited[s.cols[top - 1] as int] == cur);
        assert(t.cols[top - 1] == s.cols[top - 1]);
    }
    assert(t.progress_ok(g, mates, cur)) by {
        assert forall|c: int| 0 <= c < g.num_cols && t.visited[c] == cur implies g.col_ptr@[c]
            <= #[trigger] t.done[c] <= g.col_ptr@[c + 1] by {
            assert(g.col_ptr@[c] <= s.done[c] <= g.col_ptr@[c + 1]);
        }
        assert forall|c: int, q: int|
            #[trigger] g.slot(c, q) && t.visited[c] == cur && q < t.done[c] implies ({
            let m = mates[g.row_idx@[q] as int];
            m != UNMATCHED && (t.visited[m as int] == cur || (t.depth() > 0 && m == t.cols[t.depth()
                - 1]))
        }) by {
            let m = mates[g.row_idx@[q] as int];
            if c == col && q >= s.done[c] {
                assert(s.visited[mates[g.row_idx@[q] as int] as int] == cur);
                assert(g.slot(c, q) && q < s.cursor[c]);
            } else {
                assert(g.slot(c, q) && s.visited[c] == cur && q < s.done[c]);
                assert(m != UNMATCHED && (s.visited[m as int] == cur || m == s.cols[top]));
            }
        }
        assert forall|c: int| 0 <= c < g.num_cols && #[trigger] t.visited[c] == cur implies t.done[c]
            == g.col_ptr@[c + 1] || (exists|k: int| 0 <= k < t.depth() && #[trigger] t.cols[k] == c) by {
            if c != col && s.done[c] != g.col_ptr@[c + 1] {
                let k = choose|k: int| 0 <= k < s.depth() && #[trigger] s.cols[k] == c;
                assert(t.cols[k] == c);
            }
        }
        assert forall|k: int|
            0 <= k < t.depth() && t.visited[t.cols[k] as int] == cur && !(t.found && k == t.depth()
                - 1) implies (#[trigger] t.next[k]) == t.done[t.cols[k] as int] by {
            assert(s.cols[k] != s.cols[top]);
            assert(t.cols[k] == s.cols[k]);
            assert(s.next[k] == s.done[s.cols[k] as int]);
        }
    }
    t
}

/// A search that found an unmatched row holds an augmenting path.
proof fn lemma_found_path(g: &CscGraph, mates: Seq<u32>, cur: u32, s: Search)
    requires
        before_search(g, mates, cur),
        s.ok(g, mates, cur),
        s.found,
    ensures
        s.cols.len() == s.rows.len(),
        s.cols.len() >= 1,
        s.cols[0] == cur,
        forall|i: int| 0 <= i < s.cols.len() ==> (#[trigger] s.cols[i]) < g.num_cols,
        forall|i: int|
            0 <= i < s.cols.len() ==> (#[trigger] s.rows[i]) < mates.len() && g.has_edge(
                s.rows[i] as int,
                s.cols[i] as int,
            ),
        forall|i: int|
            0 <= i < s.cols.len() - 1 ==> mates[(#[trigger] s.rows[i]) as int] == s.cols[i + 1],
        mates[s.rows[s.cols.len() - 1] as int] == UNMATCHED,
        forall|i: int, j: int|
            0 <= i < j < s.cols.len() ==> #[trigger] s.cols[i] != #[trigger] s.cols[j],
        forall|i: int, j: int|
            0 <= i < j < s.rows.len() ==> #[trigger] s.rows[i] != #[trigger] s.rows[j],
{
    assert forall|i: int, j: int| 0 <= i < j < s.rows.len() implies #[trigger] s.rows[i]
        != #[trigger] s.rows[j] by {
        assert(mates[s.rows[i] as int] == s.cols[i + 1]);
        assert(s.cols[i + 1] < g.num_cols);
        if j < s.rows.len() - 1 {
            assert(mates[s.rows[j] as int] == s.cols[j + 1]);
            assert(s.cols[i + 1] != s.cols[j + 1]);
        }
    }
}

/// A search that ran out of columns leaves a tight set: the columns it
/// marked.
proof fn lemma_failed_search(g: &CscGraph, mates: Seq<u32>, cur: u32, s: Search)
    requires
        before_search(g, mates, cur),
        s.ok(g, mates, cur),
        !s.found,
        s.depth() == 0,
    ensures
        is_tight(g, mates, marked(s.visited, cur)),
        marked(s.visited, cur).contains(cur as int),
        forall|c: int| marked(s.visited, cur).contains(c) ==> 0 <= c <= cur,
{
    let v = marked(s.visited, cur);
    assert forall|c: int, p: int| v.contains(c) && #[trigger] g.slot(c, p) implies mates[g.row_idx@[p] as int]
        != UNMATCHED && v.contains(mates[g.row_idx@[p] as int] as int) by {
        assert(s.visited[c] == cur);
        assert(s.done[c] == g.col_ptr@[c + 1]);
        assert(mates[g.row_idx@[p] as int] < cur);
    }
    assert forall|c: int| v.contains(c) implies 0 <= c <= cur by {
        assert(s.visited[c] == cur);
    }
}

/// Scans column `col` from position `start` for an unmatched row.
fn scan_for_unmatched(g: &CscGraph, row_mates: &Vec<u32>, col: u32, start: usize) -> (res: (
    usize,
    u32,
    bool,
))
    requires
        g.wf(),
        row_mates.len() == g.num_rows,
        col < g.num_cols,
        g.col_ptr@[col as int] <= start <= g.col_ptr@[col as int + 1],
    ensures
        start <= res.0 <= g.col_ptr@[col as int + 1],
        !res.2 ==> res.0 == g.col_ptr@[col as int + 1],
        !res.2 ==> forall|p: int|
            start <= p < res.0 ==> row_mates@[(#[trigger] g.row_idx@[p]) as int] != UNMATCHED,
        res.2 ==> res.0 > start && res.1 == g.row_idx@[res.0 - 1] && row_mates@[res.1 as int]
            == UNMATCHED,
        res.2 ==> forall|p: int|
            start <= p < res.0 - 1 ==> row_mates@[(#[trigger] g.row_idx@[p]) as int] != UNMATCHED,
{
    let end = g.col_ptr[col as usize + 1];
    let mut p = start;
    let mut row: u32 = UNMATCHED;
    let mut found = false;
    while p < end && !found
        invariant
            g.wf(),
            row_mates.len() == g.num_rows,
            col < g.num_cols,
            end == g.col_ptr@[col as int + 1],
            start <= p <= end,
            !found ==> forall|q: int|
                start <= q < p ==> row_mates@[(#[trigger] g.row_idx@[q]) as int] != UNMATCHED,
            found ==> p > start && row == g.row_idx@[p - 1] && row_mates@[row as int] == UNMATCHED,
            found ==> forall|q: int|
                start <= q < p - 1 ==> row_mates@[(#[trigger] g.row_idx@[q]) as int] != UNMATCHED,
        decreases end - p + if found { 0int } else { 1int },
    {
        assert(g.col_ptr@[col as int + 1] <= g.col_ptr@[g.num_cols as int]);
        row = g.row_idx[p];
        found = row_mates[row as usize] == UNMATCHED;
        p += 1;
    }
    (p, row, found)
}

/// Scans column `col` from position `start` for a row whose mate the search
/// for `cur` has not entered.  All rows of the column are matched.
fn scan_for_branch(
    g: &CscGraph,
    row_mates: &Vec<u32>,
    visited: &Vec<u32>,
    cur: u32,
    col: u32,
    start: usize,
) -> (res: (usize, bool, u32, u32))
    requires
        g.wf(),
        row_mates.len() == g.num_rows,
        visited.len() == g.num_cols,
        col < g.num_cols,
        g.col_ptr@[col as int] <= start <= g.col_ptr@[col as int + 1],
        forall|p: int|
            g.col_ptr@[col as int] <= p < g.col_ptr@[col as int + 1] ==> row_mates@[(
            #[trigger] g.row_idx@[p]) as int] < g.num_cols,
    ensures
        start <= res.0 <= g.col_ptr@[col as int + 1],
        forall|p: int|
            start <= p < res.0 ==> visited@[row_mates@[(#[trigger] g.row_idx@[p]) as int] as int]
                == cur,
        !res.1 ==> res.0 == g.col_ptr@[col as int + 1],
        res.1 ==> res.0 < g.col_ptr@[col as int + 1] && res.2 == g.row_idx@[res.0 as int] && res.3
            == row_mates@[res.2 as int] && visited@[res.3 as int] != cur,
{
    let end = g.col_ptr[col as usize + 1];
    let mut p = start;
    let mut row: u32 = UNMATCHED;
    let mut mate: u32 = UNMATCHED;
    let mut hit = false;
    while p < end && !hit
        invariant
            g.wf(),
            row_mates.len() == g.num_rows,
            visited.len() == g.num_cols,
            col < g.num_cols,
            end == g.col_ptr@[col as int + 1],
            g.col_ptr@[col as int] <= start <= p <= end,
            forall|q: int|
                g.col_ptr@[col as int] <= q < g.col_ptr@[col as int + 1] ==> row_mates@[(
                #[trigger] g.row_idx@[q]) as int] < g.num_cols,
            forall|q: int|
                start <= q < p ==> visited@[row_mates@[(#[trigger] g.row_idx@[q]) as int] as int]
                    == cur,
            hit ==> p < end && row == g.row_idx@[p as int] && mate == row_mates@[row as int]
                && visited@[mate as int] != cur,
        decreases end - p + if hit { 0int } else { 1int },
    {
        assert(g.col_ptr@[col as int + 1] <= g.col_ptr@[g.num_cols as int]);
        row = g.row_idx[p];
        mate = row_mates[row as usize];
        if visited[mate as usize] == cur {
            p += 1;
        } else {
            hit = true;
        }
    }
    (p, hit, row, mate)
}

/// The column at depth `k` of an augmenting path lies outside every tight set.
proof fn lemma_path_avoids_tight(
    g: &CscGraph,
    m0: Seq<u32>,
    cols: Seq<u32>,
    rows: Seq<u32>,
    w: Set<int>,
    k: int,
)
    requires
        is_tight(g, m0, w),
        cols.len() == rows.len(),
        0 <= k < cols.len(),
        forall|i: int|
            0 <= i < cols.len() ==> (#[trigger] rows[i]) < m0.len() && g.has_edge(
                rows[i] as int,
                cols[i] as int,
            ),
        forall|i: int| 0 <= i < cols.len() - 1 ==> m0[(#[trigger] rows[i]) as int] == cols[i + 1],
        m0[rows[cols.len() - 1] as int] == UNMATCHED,
    ensures
        !w.contains(cols[k] as int),
    decreases cols.len() - k,
{
    let p = choose|p: int| #[trigger] g.slot(cols[k] as int, p) && g.row_idx@[p] == rows[k];
    assert(g.slot(cols[k] as int, p));
    if k < cols.len() - 1 {
        lemma_path_avoids_tight(g, m0, cols, rows, w, k + 1);
    }
}

/// Flipping an augmenting path gives a matching again, keeps every matched
/// row and column matched, matches the column the path starts from, and
/// leaves every tight set tight.
proof fn lemma_flip(
    g: &CscGraph,
    m0: Seq<u32>,
    m1: Seq<u32>,
    cols: Seq<u32>,
    rows: Seq<u32>,
    cur: u32,
    w: Set<int>,
)
    requires
        g.wf(),
        is_matching(g, m0),
        forall|r: int| 0 <= r < m0.len() && #[trigger] m0[r] != UNMATCHED ==> m0[r] < cur,
        cur < g.num_cols,
        cols.len() == rows.len(),
        cols.len() >= 1,
        cols[0] == cur,
        forall|i: int| 0 <= i < cols.len() ==> (#[trigger] cols[i]) < g.num_cols,
        forall|i: int|
            0 <= i < cols.len() ==> (#[trigger] rows[i]) < m0.len() && g.has_edge(
                rows[i] as int,
                cols[i] as int,
            ),
        forall|i: int| 0 <= i < cols.len() - 1 ==> m0[(#[trigger] rows[i]) as int] == cols[i + 1],
        m0[rows[cols.len() - 1] as int] == UNMATCHED,
        forall|i: int, j: int| 0 <= i < j < cols.len() ==> #[trigger] cols[i] != #[trigger] cols[j],
        m1.len() == m0.len(),
        forall|i: int| 0 <= i < cols.len() ==> m1[(#[trigger] rows[i]) as int] == cols[i],
        forall|r: int|
            0 <= r < m0.len() && (forall|i: int| 0 <= i < rows.len() ==> #[trigger] rows[i] != r)
                ==> #[trigger] m1[r] == m0[r],
        is_tight(g, m0, w),
    ensures
        is_matching(g, m1),
        forall|r: int| 0 <= r < m1.len() && #[trigger] m1[r] != UNMATCHED ==> m1[r] <= cur,
        forall|r: int| 0 <= r < m0.len() && #[trigger] m0[r] != UNMATCHED ==> m1[r] != UNMATCHED,
        is_tight(g, m1, w),
        forall|c: int| 0 <= c < g.num_cols && column_matched(m0, c) ==> column_matched(m1, c),
        column_matched(m1, cur as int),
{
    let n = cols.len() as int;
    // Every row is either on the path, with its new mate, or keeps its mate.
    assert forall|r: int| 0 <= r < m0.len() implies (exists|i: int|
        0 <= i < n && #[trigger] rows[i] == r && m1[r] == cols[i]) || m1[r] == m0[r] by {
        if exists|i: int| 0 <= i < n && #[trigger] rows[i] == r {
            let i = choose|i: int| 0 <= i < n && #[trigger] rows[i] == r;
            assert(m1[rows[i] as int] == cols[i]);
        }
    }
    // A row that kept its mate is matched to no column of the path.
    assert forall|r: int, j: int|
        0 <= r < m0.len() && 0 <= j < n && (forall|i: int|
            0 <= i < n ==> #[trigger] rows[i] != r) implies #[trigger] m0[r] != #[trigger] cols[j] by {
        if m0[r] == cols[j] {
            assert(cols[j] < g.num_cols);
            if j == 0 {
                assert(m0[r] < cur);
            } else {
                assert(m0[rows[j - 1] as int] == cols[j]);
                assert(rows[j - 1] != r);
            }
        }
    }
    assert forall|r: int| 0 <= r < m1.len() && #[trigger] m1[r] != UNMATCHED implies g.has_edge(
        r,
        m1[r] as int,
    ) && m1[r] <= cur by {
        if exists|i: int| 0 <= i < n && #[trigger] rows[i] == r {
            let i = choose|i: int| 0 <= i < n && #[trigger] rows[i] == r;
            assert(m1[rows[i] as int] == cols[i]);
            if i > 0 {
                assert(m0[rows[i - 1] as int] == cols[i]);
            }
        } else {
            assert(m1[r] == m0[r]);
        }
    }
    assert forall|r1: int, r2: int|
        0 <= r1 < m1.len() && 0 <= r2 < m1.len() && r1 != r2 && #[trigger] m1[r1]
            != UNMATCHED implies m1[r1] != #[trigger] m1[r2] by {
        let on1 = exists|i: int| 0 <= i < n && #[trigger] rows[i] == r1;
        let on2 = exists|i: int| 0 <= i < n && #[trigger] rows[i] == r2;
        if on1 && on2 {
            let i = choose|i: int| 0 <= i < n && #[trigger] rows[i] == r1;
            let j = choose|j: int| 0 <= j < n && #[trigger] rows[j] == r2;
            assert(m1[rows[i] as int] == cols[i]);
            assert(m1[rows[j] as int] == cols[j]);
            assert(i != j);
            if i < j {
                assert(cols[i] != cols[j]);
            } else {
                assert(cols[j] != cols[i]);
            }
        } else if on1 {
            let i = choose|i: int| 0 <= i < n && #[trigger] rows[i] == r1;
            assert(m1[rows[i] as int] == cols[i]);
            assert(m1[r2] == m0[r2]);
            assert(m0[r2] != cols[i]);
        } else if on2 {
            let j = choose|j: int| 0 <= j < n && #[trigger] rows[j] == r2;
            assert(m1[rows[j] as int] == cols[j]);
            assert(m1[r1] == m0[r1]);
            assert(m0[r1] != cols[j]);
        } else {
            assert(m1[r1] == m0[r1]);
            assert(m1[r2] == m0[r2]);
        }
    }
    assert forall|r: int| 0 <= r < m0.len() && #[trigger] m0[r] != UNMATCHED implies m1[r]
        != UNMATCHED by {
        if exists|i: int| 0 <= i < n && #[trigger] rows[i] == r {
            let i = choose|i: int| 0 <= i < n && #[trigger] rows[i] == r;
            assert(m1[rows[i] as int] == cols[i]);
        }
    }
    assert forall|c: int, p: int| w.contains(c) && #[trigger] g.slot(c, p) implies m1[g.row_idx@[p] as int]
        != UNMATCHED && w.contains(m1[g.row_idx@[p] as int] as int) by {
        let r = g.row_idx@[p] as int;
        assert(m0[r] != UNMATCHED && w.contains(m0[r] as int));
        if exists|i: int| 0 <= i < n && #[trigger] rows[i] == r {
            let i = choose|i: int| 0 <= i < n && #[trigger] rows[i] == r;
            if i < n - 1 {
                assert(m0[rows[i] as int] == cols[i + 1]);
                lemma_path_avoids_tight(g, m0, cols, rows, w, i + 1);
            }
        }
    }
    assert forall|c: int| 0 <= c < g.num_cols && column_matched(m0, c) implies column_matched(
        m1,
        c,
    ) by {
        let r = choose|r: int| 0 <= r < m0.len() && #[trigger] m0[r] == c;
        if exists|i: int| 0 <= i < n && #[trigger] rows[i] == r {
            let i = choose|i: int| 0 <= i < n && #[trigger] rows[i] == r;
            assert(m0[rows[i] as int] == cols[i + 1]);
            assert(m1[rows[i + 1] as int] == cols[i + 1]);
        } else {
            assert(m1[r] == m0[r]);
        }
    }
    assert(m1[rows[0] as int] == cols[0]);
}

/// Matches each row of the path to the column at the same depth.
fn flip_path(row_mates: &mut Vec<u32>, cols: &Vec<u32>, rows: &Vec<u32>)
    requires
        cols.len() == rows.len(),
        forall|i: int| 0 <= i < rows.len() ==> (#[trigger] rows@[i]) < old(row_mates).len(),
        forall|i: int, j: int|
            0 <= i < j < rows.len() ==> #[trigger] rows@[i] != #[trigger] rows@[j],
    ensures
        final(row_mates).len() == old(row_mates).len(),
        forall|i: int|
            0 <= i < cols.len() ==> final(row_mates)@[(#[trigger] rows@[i]) as int] == cols@[i],
        forall|r: int|
            0 <= r < old(row_mates).len() && (forall|i: int|
                0 <= i < rows.len() ==> #[trigger] rows@[i] != r) ==> #[trigger] final(row_mates)@[r]
                == old(row_mates)@[r],
{
    let mut k: usize = rows.len();
    while k > 0
        invariant
            k <= rows.len(),
            cols.len() == rows.len(),
            row_mates.len() == old(row_mates).len(),
            forall|i: int| 0 <= i < rows.len() ==> (#[trigger] rows@[i]) < row_mates.len(),
            forall|i: int, j: int|
                0 <= i < j < rows.len() ==> #[trigger] rows@[i] != #[trigger] rows@[j],
            forall|i: int|
                k <= i < cols.len() ==> row_mates@[(#[trigger] rows@[i]) as int] == cols@[i],
            forall|r: int|
                0 <= r < row_mates.len() && (forall|i: int|
                    0 <= i < rows.len() ==> #[trigger] rows@[i] != r) ==> #[trigger] row_mates@[r]
                    == old(row_mates)@[r],
        decreases k,
    {
        k -= 1;
        let ghost prev = row_mates@;
        row_mates.set(rows[k] as usize, cols[k]);
        proof {
            assert forall|i: int| k <= i < cols.len() implies row_mates@[(#[trigger] rows@[i]) as int]
                == cols@[i] by {
                if i > k {
                    assert(rows@[k as int] != rows@[i]);
                    assert(prev[rows@[i] as int] == cols@[i]);
                }
            }
        }
    }
}

/// A maximum matching of the columns (key images) to the rows (public keys).
///
/// `row_mates[r]` is the column matched to row `r`, or [`UNMATCHED`].  The
/// result is a matching, no augmenting path is left for it, and no matching
/// of the graph matches more rows.
pub fn cn_txgraph_maximum_matching(g: &CscGraph) -> (row_mates: Vec<u32>)
    requires
        g.wf(),
    ensures
        is_matching(g, row_mates@),
        admits_no_augmentation(g, row_mates@),
        forall|other: Seq<u32>|
            is_matching(g, other) ==> (#[trigger] matched_rows(other)).len() <= matched_rows(
                row_mates@,
            ).len(),
{
    let num_rows = g.num_rows;
    let num_cols = g.num_cols;
    let mut row_mates: Vec<u32> = vec![UNMATCHED; num_rows];
    let mut visited: Vec<u32> = vec![UNMATCHED; num_cols];
    let mut cursor: Vec<usize> = Vec::new();
    let mut c0: usize = 0;
    while c0 < num_cols
        invariant
            g.wf(),
            num_cols == g.num_cols,
            c0 <= num_cols,
            cursor.len() == c0,
            forall|c: int| 0 <= c < c0 ==> #[trigger] cursor@[c] == g.col_ptr@[c],
        decreases num_cols - c0,
    {
        cursor.push(g.col_ptr[c0]);
        c0 += 1;
    }
    let ghost mut w: Set<int> = Set::empty();
    let mut current_col: u32 = 0;
    while (current_col as usize) < num_cols
        invariant
            g.wf(),
            num_rows == g.num_rows,
            num_cols == g.num_cols,
            current_col <= num_cols,
            is_matching(g, row_mates@),
            forall|r: int|
                0 <= r < row_mates.len() && #[trigger] row_mates@[r] != UNMATCHED ==> row_mates@[r]
                    < current_col,
            cursors_ok(g, cursor@, row_mates@),
            visited.len() == num_cols,
            forall|c: int|
                0 <= c < num_cols ==> #[trigger] visited@[c] == UNMATCHED || visited@[c]
                    < current_col,
            forall|c: int| w.contains(c) ==> 0 <= c < current_col,
            is_tight(g, row_mates@, w),
            forall|c: int| 0 <= c < current_col && !column_matched(row_mates@, c) ==> w.contains(c),
        decreases num_cols - current_col,
    {
        let cur = current_col;
        let mut cols: Vec<u32> = Vec::new();
        let mut rows: Vec<u32> = Vec::new();
        let mut next: Vec<usize> = Vec::new();
        cols.push(cur);
        rows.push(UNMATCHED);
        next.push(0);
        let mut found = false;
        let ghost mut done: Seq<int> = Seq::new(num_cols as nat, |c: int| 0int);
        let ghost mates = row_mates@;
        proof {
            lemma_unmarked_finite(visited@, cur);
            let s = Search {
                cursor: cursor@,
                visited: visited@,
                cols: cols@,
                rows: rows@,
                next: next@,
                done: done,
                found: found,
            };
            assert(s.sizes_ok(g));
            assert(s.cursors_ok(g, mates));
            assert(s.path_ok(g, mates, cur));
            assert(s.marks_ok(g, cur));
            assert(s.progress_ok(g, mates, cur));
        }
        while cols.len() > 0 && !found
            invariant
                before_search(g, mates, cur),
                num_cols == g.num_cols,
                mates == row_mates@,
                (Search {
                    cursor: cursor@,
                    visited: visited@,
                    cols: cols@,
                    rows: rows@,
                    next: next@,
                    done: done,
                    found: found,
                }).ok(g, mates, cur),
            decreases
                    unmarked(visited@, cur).len(),
                    (if cols.len() > 0 && visited@[cols@[cols.len() - 1] as int] == cur {
                        1int
                    } else {
                        0int
                    }),
                    cols.len(),
        {
            let ghost s0 = Search {
                cursor: cursor@,
                visited: visited@,
                cols: cols@,
                rows: rows@,
                next: next@,
                done: done,
                found: found,
            };
            let top = cols.len() - 1;
            let col = cols[top];
            if visited[col as usize] != cur {
                proof {
                    lemma_mark(visited@, cur, col as int);
                }
                let (p, row, hit) = scan_for_unmatched(g, &row_mates, col, cursor[col as usize]);
                visited.set(col as usize, cur);
                cursor.set(col as usize, p);
                if hit {
                    found = true;
                    rows.set(top, row);
                    proof {
                        done = done.update(col as int, g.col_ptr@[col as int] as int);
                        lemma_enter_found(g, mates, cur, s0, p as int, row);
                    }
                } else {
                    next.set(top, g.col_ptr[col as usize]);
                    proof {
                        done = done.update(col as int, g.col_ptr@[col as int] as int);
                        lemma_enter_open(g, mates, cur, s0);
                    }
                }
            }
            if !found {
                let ghost s1 = Search {
                    cursor: cursor@,
                    visited: visited@,
                    cols: cols@,
                    rows: rows@,
                    next: next@,
                    done: done,
                    found: found,
                };
                proof {
                    assert(s1.visited[col as int] == cur);
                    assert(s1.cursor[col as int] == g.col_ptr@[col as int + 1]);
                    assert forall|q: int|
                        g.col_ptr@[col as int] <= q < g.col_ptr@[col as int + 1] implies mates[(
                    #[trigger] g.row_idx@[q]) as int] < g.num_cols by {
                        assert(g.slot(col as int, q));
                        let r = g.row_idx@[q] as int;
                        assert(mates[r] != UNMATCHED);
                        assert(mates[r] < cur);
                    }
                    assert(s1.next[top as int] == s1.done[col as int]);
                }
                let (p, hit, row, mate) = scan_for_branch(
                    g,
                    &row_mates,
                    &visited,
                    cur,
                    col,
                    next[top],
                );
                if hit {
                    next.set(top, p + 1);
                    rows.set(top, row);
                    cols.push(mate);
                    rows.push(UNMATCHED);
                    next.push(0);
                    proof {
                        done = done.update(col as int, p + 1);
                        lemma_branch(g, mates, cur, s1, p as int, row, mate);
                    }
                } else {
                    cols.pop();
                    rows.pop();
                    next.pop();
                    proof {
                        done = done.update(col as int, g.col_ptr@[col as int + 1] as int);
                        lemma_retreat(g, mates, cur, s1);
                    }
                }
            }
        }
        let ghost s = Search {
            cursor: cursor@,
            visited: visited@,
            cols: cols@,
            rows: rows@,
            next: next@,
            done: done,
            found: found,
        };
        if found {
            proof {
                lemma_found_path(g, mates, cur, s);
            }
            flip_path(&mut row_mates, &cols, &rows);
            proof {
                lemma_flip(g, mates, row_mates@, cols@, rows@, cur, w);
                assert forall|c: int, p: int|
                    #[trigger] g.slot(c, p) && p < cursor@[c] implies row_mates@[g.row_idx@[p] as int]
                    != UNMATCHED by {
                    let r = g.row_idx@[p] as int;
                    if mates[r] == UNMATCHED {
                        assert(r == rows@[rows@.len() - 1]);
                        assert(row_mates@[rows@[rows@.len() - 1] as int] == cols@[rows@.len() - 1]);
                    }
                }
            }
        } else {
            proof {
                lemma_failed_search(g, mates, cur, s);
                w = w.union(marked(visited@, cur));
            }
        }
        current_col += 1;
    }
    proof {
        assert(admits_no_augmentation(g, row_mates@));
        assert forall|other: Seq<u32>| is_matching(g, other) implies (#[trigger] matched_rows(
            other,
        )).len() <= matched_rows(row_mates@).len() by {
            lemma_no_larger_matching(g, row_mates@, other);
        }
    }
    row_mates
}

} // verus!
