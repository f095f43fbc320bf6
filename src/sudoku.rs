use crate::cell::{all_digits, choose_one, without, Cell, Entropy, Error, SudokuCell};
use vstd::prelude::*;
use vstd::set_lib::{lemma_int_range, lemma_len_subset, lemma_map_size, set_int_range};
use vstd::string::StringSliceAdditionalSpecFns;

verus! {

/// Number of cells on a board.
pub const CELLS: usize = 81;

/// Row of cell `i`, counting in row-major order.
pub open spec fn row_of(i: int) -> int {
    i / 9
}

/// Column of cell `i`.
pub open spec fn column_of(i: int) -> int {
    i % 9
}

/// 3x3 box of cell `i`, numbered in row-major order.
pub open spec fn box_of(i: int) -> int {
    3 * (i / 27) + (i % 9) / 3
}

/// Two distinct cells of the board that share a row, a column or a box.
pub open spec fn is_neighbour(a: int, b: int) -> bool {
    &&& 0 <= a < 81
    &&& 0 <= b < 81
    &&& a != b
    &&& row_of(a) == row_of(b) || column_of(a) == column_of(b) || box_of(a) == box_of(b)
}

/// The three ways cells are grouped.
#[derive(Clone, Copy)]
enum Grouping {
    Row,
    Column,
    Box,
}

spec fn group_of(k: Grouping, i: int) -> int {
    match k {
        Grouping::Row => row_of(i),
        Grouping::Column => column_of(i),
        Grouping::Box => box_of(i),
    }
}

/// `groups` lists, for each of the nine groups of kind `k`, exactly its cells.
spec fn groups_wf(groups: Seq<Vec<usize>>, k: Grouping) -> bool {
    &&& groups.len() == 9
    &&& forall|g: int, x: usize|
        0 <= g < 9 ==> (#[trigger] groups[g]@.contains(x) <==> (x < 81 && group_of(k, x as int)
            == g))
}

/// A cell settled on `v` keeps `c` from holding `v`: `c` is settled on
/// another digit, or open without `v` among its candidates.
pub open spec fn excludes(c: SudokuCell, v: u32) -> bool {
    match c.settled() {
        Some(w) => w != v,
        None => !c.candidates().contains(v),
    }
}

/// No settled cell shares its digit with a neighbour, settled or open.
pub open spec fn consistent(cells: Seq<SudokuCell>) -> bool {
    forall|a: int, b: int|
        #[trigger] is_neighbour(a, b) && cells[a].settled() is Some ==> excludes(
            #[trigger] cells[b],
            cells[a].settled()->0,
        )
}

/// `b` is `a` after a constraint by `v` that succeeded.
pub open spec fn narrowed(a: SudokuCell, b: SudokuCell, v: u32) -> bool {
    &&& a.settled() is Some ==> b == a
    &&& a.settled() is None ==> b.settled() is None && b.candidates() == without(a.candidates(), v)
}

/// `new` is `old` with cell `x` settled on `v` and each neighbour of `x`
/// constrained by `v`; every other cell is as it was.
pub open spec fn propagated(old: Seq<SudokuCell>, new: Seq<SudokuCell>, x: int, v: u32) -> bool {
    &&& new.len() == old.len()
    &&& new[x].settled() == Some(v)
    &&& forall|c: int|
        0 <= c < 81 && c != x ==> if is_neighbour(x, c) {
            narrowed(old[c], #[trigger] new[c], v)
        } else {
            new[c] == old[c]
        }
}

/// What `Cell::collapse` promises, taking `a` to `b` with result `r`.
pub open spec fn collapsed(a: SudokuCell, b: SudokuCell, value: Option<u32>, r: Result<u32, Error>) -> bool {
    &&& a.settled() is Some ==> r == Err::<u32, Error>(Error::AlreadySettled)
    &&& a.settled() is None && value is Some && !a.candidates().contains(value->0) ==> r == Err::<
        u32,
        Error,
    >(Error::ValueNotCandidate)
    &&& a.settled() is None && value is None && a.candidates().len() == 0 ==> r == Err::<
        u32,
        Error,
    >(Error::EmptyCandidateSet)
    &&& can_collapse(a, value) ==> r is Ok
    &&& r is Err ==> b == a && (a.settled() is Some || !can_collapse(a, value))
    &&& r is Ok ==> {
        &&& a.settled() is None
        &&& a.candidates().contains(r->Ok_0)
        &&& value is Some ==> r->Ok_0 == value->0
        &&& b.settled() == Some(r->Ok_0)
    }
}

/// What `Cell::constrain` promises, taking `a` to `b` with result `r`.
pub open spec fn constrained(a: SudokuCell, b: SudokuCell, v: u32, r: Result<(), Error>) -> bool {
    &&& a.settled() is Some ==> b == a && (r is Err <==> a.settled() == Some(v)) && (r is Err
        ==> r == Err::<(), Error>(Error::AlreadySettled))
    &&& a.settled() is None ==> r is Ok && narrowed(a, b, v)
}

/// `c` is open and can be settled on `value`, or on some candidate when
/// `value` is `None`.
pub open spec fn can_collapse(c: SudokuCell, value: Option<u32>) -> bool {
    &&& c.settled() is None
    &&& match value {
        Some(v) => c.candidates().contains(v),
        None => c.candidates().len() > 0,
    }
}

/// Constraining by `v` keeps exactly the candidates other than `v`, and
/// never adds one.
pub proof fn lemma_constrain_narrows(a: SudokuCell, b: SudokuCell, v: u32)
    requires
        narrowed(a, b, v),
    ensures
        b.settled() == a.settled(),
        forall|y: u32| #[trigger]
            b.candidates().contains(y) <==> (a.candidates().contains(y) && (a.settled() is Some
                || y != v)),
        b.candidates().len() <= a.candidates().len(),
{
    if a.settled() is None {
        crate::cell::lemma_without(a.candidates(), v);
    }
}

/// Settling cell `x` on one of its candidates and constraining its
/// neighbours keeps a consistent board consistent.
pub proof fn lemma_propagation_consistent(old: Seq<SudokuCell>, new: Seq<SudokuCell>, x: int, v: u32)
    requires
        old.len() == 81,
        0 <= x < 81,
        consistent(old),
        old[x].settled() is None,
        old[x].candidates().contains(v),
        propagated(old, new, x, v),
    ensures
        consistent(new),
{
    assert forall|a: int, b: int| #[trigger]
        is_neighbour(a, b) && new[a].settled() is Some implies excludes(
        #[trigger] new[b],
        new[a].settled()->0,
    ) by {
        if a == x {
            assert(is_neighbour(x, b));
            lemma_constrain_narrows(old[b], new[b], v);
            if old[b].settled() is Some {
                assert(is_neighbour(b, x));
                assert(excludes(old[x], old[b].settled()->0));
            }
        } else {
            if is_neighbour(x, a) {
                lemma_constrain_narrows(old[a], new[a], v);
            }
            let va = old[a].settled()->0;
            assert(old[a].settled() == new[a].settled());
            assert(excludes(old[b], va));
            if b == x {
                assert(new[x].settled() == Some(v));
            } else if is_neighbour(x, b) {
                lemma_constrain_narrows(old[b], new[b], v);
            }
        }
    }
}

/// Every cell of the board is settled.
pub open spec fn all_settled(cells: Seq<SudokuCell>) -> bool {
    forall|i: int| 0 <= i < 81 ==> (#[trigger] cells[i]).settled() is Some
}

/// Some open cell has no candidates left.
pub open spec fn has_contradiction(cells: Seq<SudokuCell>) -> bool {
    exists|i: int|
        0 <= i < 81 && (#[trigger] cells[i]).settled() is None && cells[i].candidates().len() == 0
}

/// Cell `x` is open and no open cell has fewer candidates.
pub open spec fn lowest_entropy(cells: Seq<SudokuCell>, x: int) -> bool {
    &&& 0 <= x < 81
    &&& cells[x].settled() is None
    &&& forall|i: int|
        0 <= i < 81 && (#[trigger] cells[i]).settled() is None ==> cells[x].candidates().len()
            <= cells[i].candidates().len()
}

/// Number of open cells among the first `n`.
pub open spec fn count_open(cells: Seq<SudokuCell>, n: int) -> nat
    decreases n,
{
    if n <= 0 {
        0
    } else {
        count_open(cells, n - 1) + if cells[n - 1].settled() is None {
            1nat
        } else {
            0nat
        }
    }
}

proof fn lemma_count_open_drops(old: Seq<SudokuCell>, new: Seq<SudokuCell>, n: int, x: int)
    requires
        0 <= n <= 81,
        old.len() == 81,
        new.len() == 81,
        forall|i: int| 0 <= i < 81 && (#[trigger] new[i]).settled() is None ==> old[i].settled() is None,
    ensures
        count_open(new, n) <= count_open(old, n),
        0 <= x < n && old[x].settled() is None && new[x].settled() is Some ==> count_open(new, n)
            < count_open(old, n),
    decreases n,
{
    if n > 0 {
        lemma_count_open_drops(old, new, n - 1, x);
        assert(new[n - 1].settled() is None ==> old[n - 1].settled() is None);
    }
}

proof fn lemma_propagation_settles(old: Seq<SudokuCell>, new: Seq<SudokuCell>, x: int, v: u32)
    requires
        old.len() == 81,
        0 <= x < 81,
        old[x].settled() is None,
        propagated(old, new, x, v),
    ensures
        count_open(new, 81) < count_open(old, 81),
{
    assert forall|i: int| 0 <= i < 81 && (#[trigger] new[i]).settled() is None implies old[i].settled() is None by {
        if i != x && is_neighbour(x, i) {
            assert(narrowed(old[i], new[i], v));
        }
    }
    lemma_count_open_drops(old, new, 81, x);
}

/// The byte `'0'`; a blank cell in a digit string.
pub const BLANK: u8 = 48;

/// The byte `'?'`; an open cell in a rendered board.
pub const OPEN_MARK: u8 = 63;

/// 81 bytes, each an ASCII digit.
pub open spec fn valid_digits(d: Seq<u8>) -> bool {
    &&& d.len() == 81
    &&& forall|i: int| 0 <= i < 81 ==> BLANK <= #[trigger] d[i] <= BLANK + 9
}

/// Cell `i` holds a clue: a digit other than `0`.
pub open spec fn is_clue(d: Seq<u8>, i: int) -> bool {
    d[i] != BLANK
}

/// The digit written at cell `i`.
pub open spec fn digit_at(d: Seq<u8>, i: int) -> u32 {
    (d[i] - BLANK) as u32
}

/// A clue `e` stands at a neighbour of `i` among the first `n` cells.
pub open spec fn clue_near(d: Seq<u8>, i: int, e: u32, n: int) -> bool {
    exists|j: int| 0 <= j < n && #[trigger] is_neighbour(i, j) && is_clue(d, j) && digit_at(d, j) == e
}

/// No two neighbouring clues among the first `n` cells share a digit.
pub open spec fn clues_agree(d: Seq<u8>, n: int) -> bool {
    forall|i: int, j: int|
        0 <= i < n && 0 <= j < n && #[trigger] is_neighbour(i, j) && is_clue(d, i) && is_clue(d, j)
            ==> digit_at(d, i) != digit_at(d, j)
}

/// How a board shows a cell: its digit, or `?` while it is open.
pub open spec fn render(c: SudokuCell) -> u8 {
    match c.settled() {
        Some(v) => (BLANK + v) as u8,
        None => OPEN_MARK,
    }
}

/// The neighbour relation is symmetric: `b` neighbours `a` exactly when `a`
/// neighbours `b`.
pub proof fn lemma_neighbours_symmetric(a: int, b: int)
    ensures
        is_neighbour(a, b) == is_neighbour(b, a),
{
}

/// No cell is its own neighbour.
pub proof fn lemma_no_self_neighbour(a: int)
    ensures
        !is_neighbour(a, a),
{
}

/// On a consistent board whose cells are all settled, every cell holds a
/// digit of 1 to 9 and no two cells of one row, column or box hold the same
/// digit.
pub proof fn lemma_solved_board_valid(b: Sudoku)
    requires
        b.wf(),
        consistent(b@),
        all_settled(b@),
    ensures
        forall|i: int| 0 <= i < 81 ==> 1 <= (#[trigger] b@[i]).settled()->0 <= 9,
        forall|i: int, j: int|
            #[trigger] is_neighbour(i, j) ==> b@[i].settled() != b@[j].settled(),
{
    b.lemma_cells_wf();
    assert forall|i: int, j: int| #[trigger] is_neighbour(i, j) implies b@[i].settled() != b@[j].settled() by {
        assert(b@[i].settled() is Some);
        assert(excludes(b@[j], b@[i].settled()->0));
    }
}

/// The `k`-th cell, in row-major order, of 3x3 box `b`.
pub open spec fn box_cell(b: int, k: int) -> int {
    27 * (b / 3) + 3 * (b % 3) + 9 * (k / 3) + k % 3
}

proof fn lemma_group_cells(g: int, j: int, k: int)
    requires
        0 <= g < 9,
        0 <= j < 9,
        0 <= k < 9,
    ensures
        0 <= 9 * g + k < 81,
        row_of(9 * g + k) == g,
        0 <= 9 * k + g < 81,
        column_of(9 * k + g) == g,
        0 <= box_cell(g, k) < 81,
        box_of(box_cell(g, k)) == g,
        j != k ==> box_cell(g, j) != box_cell(g, k),
{
    let br = g / 3;
    let bc = g % 3;
    let kr = k / 3;
    let kc = k % 3;
    let id = box_cell(g, k);
    assert(id == 27 * br + 9 * kr + 3 * bc + kc);
    assert(id / 27 == br);
    assert(id % 9 == 3 * bc + kc);
    assert((id % 9) / 3 == bc);
    if j != k {
        let jr = j / 3;
        let jc = j % 3;
        assert(box_cell(g, j) == 27 * br + 9 * jr + 3 * bc + jc);
    }
}

/// Nine pairwise different digits of 1 to 9 include every digit.
proof fn lemma_nine_distinct_digits(f: spec_fn(int) -> int, d: int)
    requires
        forall|k: int| 0 <= k < 9 ==> 1 <= #[trigger] f(k) <= 9,
        forall|j: int, k: int| 0 <= j < 9 && 0 <= k < 9 && j != k ==> #[trigger] f(j) != #[trigger] f(k),
        1 <= d <= 9,
    ensures
        exists|k: int| 0 <= k < 9 && #[trigger] f(k) == d,
{
    let s = set_int_range(0, 9);
    lemma_int_range(0, 9);
    let t = s.map(f);
    lemma_map_size(s, t, f);
    if !(exists|k: int| 0 <= k < 9 && #[trigger] f(k) == d) {
        let u = set_int_range(1, 10).remove(d);
        lemma_int_range(1, 10);
        assert(t.subset_of(u)) by {
            assert forall|y: int| #[trigger] t.contains(y) implies u.contains(y) by {
                let k = choose|k: int| s.contains(k) && f(k) == y;
            }
        }
        lemma_len_subset(t, u);
    }
}

/// On a consistent board whose cells are all settled, each row, column and
/// box holds every digit of 1 to 9; its nine cells differ, so each digit
/// stands there once.
pub proof fn lemma_solved_groups_complete(b: Sudoku, g: int, d: u32)
    requires
        b.wf(),
        consistent(b@),
        all_settled(b@),
        0 <= g < 9,
        1 <= d <= 9,
    ensures
        exists|k: int| 0 <= k < 9 && (#[trigger] b@[9 * g + k]).settled() == Some(d),
        exists|k: int| 0 <= k < 9 && (#[trigger] b@[9 * k + g]).settled() == Some(d),
        exists|k: int| 0 <= k < 9 && (#[trigger] b@[box_cell(g, k)]).settled() == Some(d),
{
    lemma_solved_board_valid(b);
    let fr = |k: int| b@[9 * g + k].settled()->0 as int;
    let fc = |k: int| b@[9 * k + g].settled()->0 as int;
    let fb = |k: int| b@[box_cell(g, k)].settled()->0 as int;
    assert forall|j: int, k: int| 0 <= j < 9 && 0 <= k < 9 && j != k implies #[trigger] fr(j)
        != #[trigger] fr(k) by {
        lemma_group_cells(g, j, k);
        assert(is_neighbour(9 * g + j, 9 * g + k));
    }
    assert forall|j: int, k: int| 0 <= j < 9 && 0 <= k < 9 && j != k implies #[trigger] fc(j)
        != #[trigger] fc(k) by {
        lemma_group_cells(g, j, k);
        lemma_group_cells(g, k, j);
        assert(is_neighbour(9 * j + g, 9 * k + g));
    }
    assert forall|j: int, k: int| 0 <= j < 9 && 0 <= k < 9 && j != k implies #[trigger] fb(j)
        != #[trigger] fb(k) by {
        lemma_group_cells(g, j, k);
        lemma_group_cells(g, k, j);
        assert(is_neighbour(box_cell(g, j), box_cell(g, k)));
    }
    assert forall|k: int| 0 <= k < 9 implies 1 <= #[trigger] fr(k) <= 9 && 1 <= fc(k) <= 9 && 1
        <= fb(k) <= 9 by {
        lemma_group_cells(g, k, k);
    }
    lemma_nine_distinct_digits(fr, d as int);
    lemma_nine_distinct_digits(fc, d as int);
    lemma_nine_distinct_digits(fb, d as int);
    let kr = choose|k: int| 0 <= k < 9 && #[trigger] fr(k) == d as int;
    lemma_group_cells(g, kr, kr);
    assert(b@[9 * g + kr].settled() == Some(d));
    let kc = choose|k: int| 0 <= k < 9 && #[trigger] fc(k) == d as int;
    lemma_group_cells(g, kc, kc);
    assert(b@[9 * kc + g].settled() == Some(d));
    let kb = choose|k: int| 0 <= k < 9 && #[trigger] fb(k) == d as int;
    lemma_group_cells(g, kb, kb);
    assert(b@[box_cell(g, kb)].settled() == Some(d));
}

/// Row of a cell.
pub fn get_row_index(id: usize) -> (r: usize)
    requires
        id < 81,
    ensures
        r == row_of(id as int),
        r < 9,
{
    id / 9
}

/// Column of a cell.
pub fn get_column_index(id: usize) -> (r: usize)
    requires
        id < 81,
    ensures
        r == column_of(id as int),
        r < 9,
{
    id % 9
}

/// Box of a cell.
pub fn get_box_index(id: usize) -> (r: usize)
    requires
        id < 81,
    ensures
        r == box_of(id as int),
        r < 9,
{
    3 * (id / 27) + (id % 9) / 3
}

fn group_index(k: Grouping, id: usize) -> (r: usize)
    requires
        id < 81,
    ensures
        r == group_of(k, id as int),
        r < 9,
{
    match k {
        Grouping::Row => get_row_index(id),
        Grouping::Column => get_column_index(id),
        Grouping::Box => get_box_index(id),
    }
}

/// The cells of each of the nine groups of kind `k`, in ascending order.
fn build_groups(k: Grouping) -> (r: Vec<Vec<usize>>)
    ensures
        groups_wf(r@, k),
{
    let mut groups: Vec<Vec<usize>> = Vec::new();
    let mut g: usize = 0;
    while g < 9
        invariant
            g <= 9,
            groups@.len() == g,
            forall|h: int, x: usize|
                0 <= h < g ==> (#[trigger] groups@[h]@.contains(x) <==> (x < 81 && group_of(
                    k,
                    x as int,
                ) == h)),
        decreases 9 - g,
    {
        let mut members: Vec<usize> = Vec::new();
        let mut id: usize = 0;
        while id < CELLS
            invariant
                id <= 81,
                g < 9,
                forall|x: usize|
                    #[trigger] members@.contains(x) <==> (x < id && group_of(k, x as int) == g),
            decreases 81 - id,
        {
            let ghost before = members@;
            if group_index(k, id) == g {
                members.push(id);
                proof {
                    assert(members@[members@.len() - 1] == id);
                }
            }
            proof {
                assert forall|x: usize| #[trigger]
                    members@.contains(x) <==> (x < id + 1 && group_of(k, x as int) == g) by {
                    if x == id && group_of(k, x as int) == g {
                        assert(members@[members@.len() - 1] == id);
                    }
                    if members@.contains(x) && x != id {
                        let j = choose|j: int| 0 <= j < members@.len() && members@[j] == x;
                        assert(before[j] == x);
                    }
                    if before.contains(x) {
                        let j = choose|j: int| 0 <= j < before.len() && before[j] == x;
                        assert(members@[j] == x);
                    }
                }
            }
            id = id + 1;
        }
        groups.push(members);
        proof {
            assert forall|h: int, x: usize|
                0 <= h < g + 1 implies (#[trigger] groups@[h]@.contains(x) <==> (x < 81 && group_of(
                k,
                x as int,
            ) == h)) by {
                if h == g {
                    assert(groups@[h] == members);
                }
            }
        }
        g = g + 1;
    }
    groups
}

fn contains_id(v: &Vec<usize>, x: usize) -> (r: bool)
    ensures
        r == v@.contains(x),
{
    let mut i: usize = 0;
    while i < v.len()
        invariant
            i <= v@.len(),
            forall|k: int| 0 <= k < i ==> v@[k] != x,
        decreases v@.len() - i,
    {
        if v[i] == x {
            return true;
        }
        i = i + 1;
    }
    false
}

/// Adds to `out` each cell of `group` other than `id` that it lacks.
fn add_group(out: &mut Vec<usize>, group: &Vec<usize>, id: usize)
    requires
        old(out)@.no_duplicates(),
    ensures
        final(out)@.no_duplicates(),
        forall|x: usize|
            #[trigger] final(out)@.contains(x) <==> (old(out)@.contains(x) || (group@.contains(x)
                && x != id)),
{
    let ghost start = out@;
    let mut i: usize = 0;
    while i < group.len()
        invariant
            i <= group@.len(),
            out@.no_duplicates(),
            forall|x: usize|
                #[trigger] out@.contains(x) <==> (start.contains(x) || (group@.subrange(
                    0,
                    i as int,
                ).contains(x) && x != id)),
        decreases group@.len() - i,
    {
        let x = group[i];
        let ghost before = out@;
        if x != id && !contains_id(out, x) {
            out.push(x);
            proof {
                assert(out@[out@.len() - 1] == x);
            }
        }
        proof {
            let next = group@.subrange(0, i as int + 1);
            assert(next == group@.subrange(0, i as int).push(x));
            assert forall|y: usize| #[trigger]
                out@.contains(y) <==> (start.contains(y) || (next.contains(y) && y != id)) by {
                if y == x && y != id {
                    assert(next[i as int] == y);
                }
                if next.contains(y) && y != x {
                    let k = choose|k: int| 0 <= k < next.len() && next[k] == y;
                    assert(group@.subrange(0, i as int)[k] == y);
                }
                if out@.contains(y) && !before.contains(y) {
                    assert(y == x);
                }
                if before.contains(y) {
                    let k = choose|k: int| 0 <= k < before.len() && before[k] == y;
                    assert(out@[k] == y);
                }
            }
        }
        i = i + 1;
    }
    assert(group@.subrange(0, group@.len() as int) == group@);
}

/// A Sudoku board: 81 cells in row-major order, and the cells of each row,
/// column and box.
pub struct Sudoku {
    cells: Vec<SudokuCell>,
    neighbour_rows: Vec<Vec<usize>>,
    neighbour_columns: Vec<Vec<usize>>,
    neighbour_boxes: Vec<Vec<usize>>,
}

impl View for Sudoku {
    type V = Seq<SudokuCell>;

    closed spec fn view(&self) -> Seq<SudokuCell> {
        self.cells@
    }
}

impl Sudoku {
    /// 81 well-formed cells and the group tables of the board.
    pub closed spec fn wf(&self) -> bool {
        &&& self.cells@.len() == 81
        &&& forall|i: int| 0 <= i < 81 ==> (#[trigger] self.cells@[i]).wf()
        &&& groups_wf(self.neighbour_rows@, Grouping::Row)
        &&& groups_wf(self.neighbour_columns@, Grouping::Column)
        &&& groups_wf(self.neighbour_boxes@, Grouping::Box)
    }

    /// Each cell of a well-formed board is well-formed.
    pub proof fn lemma_cells_wf(&self)
        requires
            self.wf(),
        ensures
            forall|i: int| 0 <= i < 81 ==> (#[trigger] self@[i]).wf(),
            self@.len() == 81,
    {
    }

    /// An empty board: every cell open with every digit.
    pub fn new() -> (r: Self)
        ensures
            r.wf(),
            forall|i: int|
                0 <= i < 81 ==> (#[trigger] r@[i]).settled() is None && r@[i].candidates()
                    == all_digits(),
            consistent(r@),
    {
        let mut cells: Vec<SudokuCell> = Vec::new();
        let mut i: usize = 0;
        while i < CELLS
            invariant
                i <= 81,
                cells@.len() == i,
                forall|j: int|
                    0 <= j < i ==> (#[trigger] cells@[j]).wf() && cells@[j].settled() is None
                        && cells@[j].candidates() == all_digits(),
            decreases 81 - i,
        {
            cells.push(SudokuCell::new());
            i = i + 1;
        }
        Sudoku {
            cells,
            neighbour_rows: build_groups(Grouping::Row),
            neighbour_columns: build_groups(Grouping::Column),
            neighbour_boxes: build_groups(Grouping::Box),
        }
    }

    /// The neighbours of cell `id`, each once.
    pub fn cell_neighbours(&self, id: &usize) -> (r: Vec<usize>)
        requires
            self.wf(),
            *id < 81,
        ensures
            r@.no_duplicates(),
            forall|x: usize| #[trigger] r@.contains(x) <==> is_neighbour(*id as int, x as int),
    {
        let mut out: Vec<usize> = Vec::new();
        add_group(&mut out, &self.neighbour_rows[get_row_index(*id)], *id);
        add_group(&mut out, &self.neighbour_columns[get_column_index(*id)], *id);
        add_group(&mut out, &self.neighbour_boxes[get_box_index(*id)], *id);
        out
    }

    /// Collapses cell `id`, as `Cell::collapse` does.
    pub fn cell_collapse(&mut self, id: &usize, value: Option<u32>) -> (r: Result<u32, Error>)
        requires
            old(self).wf(),
        ensures
            final(self).wf(),
            *id >= 81 ==> r == Err::<u32, Error>(Error::CellNotFound) && final(self)@ == old(self)@,
            *id < 81 ==> final(self)@ == old(self)@.update(*id as int, final(self)@[*id as int])
                && collapsed(old(self)@[*id as int], final(self)@[*id as int], value, r),
    {
        if *id >= CELLS {
            return Err(Error::CellNotFound);
        }
        let ghost before = self.cells@[*id as int];
        let r = self.cells[*id].collapse(value);
        proof {
            if r is Ok {
                SudokuCell::lemma_collapse_wf(before, self.cells@[*id as int], r->Ok_0);
            }
            assert(self@ == old(self)@.update(*id as int, self@[*id as int]));
        }
        r
    }

    /// Constrains cell `id` by `value`, as `Cell::constrain` does.
    pub fn cell_constrain(&mut self, id: &usize, value: &u32) -> (r: Result<(), Error>)
        requires
            old(self).wf(),
        ensures
            final(self).wf(),
            *id >= 81 ==> r == Err::<(), Error>(Error::CellNotFound) && final(self)@ == old(self)@,
            *id < 81 ==> final(self)@ == old(self)@.update(*id as int, final(self)@[*id as int])
                && constrained(old(self)@[*id as int], final(self)@[*id as int], *value, r),
    {
        if *id >= CELLS {
            return Err(Error::CellNotFound);
        }
        let ghost before = self.cells@[*id as int];
        let r = self.cells[*id].constrain(value);
        proof {
            if before.settled() is None {
                SudokuCell::lemma_constrain_wf(before, self.cells@[*id as int], *value);
            }
            assert(self@ == old(self)@.update(*id as int, self@[*id as int]));
        }
        r
    }

    /// Collapses cell `id` and constrains each of its neighbours by the value
    /// it settled on.
    pub fn collapse_one(&mut self, id: &usize, value: Option<u32>) -> (r: Result<(), Error>)
        requires
            old(self).wf(),
        ensures
            final(self).wf(),
            *id >= 81 ==> r == Err::<(), Error>(Error::CellNotFound) && final(self)@ == old(self)@,
            *id < 81 && old(self)@[*id as int].settled() is Some ==> r == Err::<(), Error>(
                Error::AlreadySettled,
            ) && final(self)@ == old(self)@,
            *id < 81 && old(self)@[*id as int].settled() is None && value is Some && !old(
                self,
            )@[*id as int].candidates().contains(value->0) ==> r == Err::<(), Error>(
                Error::ValueNotCandidate,
            ) && final(self)@ == old(self)@,
            *id < 81 && old(self)@[*id as int].settled() is None && value is None && old(
                self,
            )@[*id as int].candidates().len() == 0 ==> r == Err::<(), Error>(
                Error::EmptyCandidateSet,
            ) && final(self)@ == old(self)@,
            r is Ok ==> *id < 81 && old(self)@[*id as int].settled() is None && exists|v: u32|
                {
                    &&& old(self)@[*id as int].candidates().contains(v)
                    &&& value is Some ==> v == value->0
                    &&& #[trigger] propagated(old(self)@, final(self)@, *id as int, v)
                },
            *id < 81 && can_collapse(old(self)@[*id as int], value) && r is Err ==> r == Err::<
                (),
                Error,
            >(Error::AlreadySettled),
            consistent(old(self)@) && *id < 81 && can_collapse(old(self)@[*id as int], value) ==> r is Ok
                && consistent(final(self)@),
    {
        let ghost start = self@;
        let v = match self.cell_collapse(id, value) {
            Ok(v) => v,
            Err(e) => {
                return Err(e);
            },
        };
        let ghost mid = self@;
        let ghost x = *id as int;
        proof {
            if consistent(start) {
                assert forall|c: int| is_neighbour(x, c) && (#[trigger] mid[c]).settled() is Some implies mid[c].settled()->0 != v by {
                    assert(is_neighbour(c, x));
                    assert(mid[c] == start[c]);
                    assert(excludes(start[x], start[c].settled()->0));
                }
            }
        }
        let neighbours = self.cell_neighbours(id);
        let mut k: usize = 0;
        while k < neighbours.len()
            invariant
                self.wf(),
                k <= neighbours@.len(),
                0 <= x < 81,
                x == *id as int,
                neighbours@.no_duplicates(),
                forall|y: usize| #[trigger] neighbours@.contains(y) <==> is_neighbour(x, y as int),
                start == old(self)@,
                mid.len() == 81,
                mid == start.update(x, mid[x]),
                mid[x].settled() == Some(v),
                start[x].settled() is None,
                start[x].candidates().contains(v),
                value is Some ==> v == value->0,
                self@.len() == 81,
                forall|c: int|
                    0 <= c < 81 ==> if neighbours@.subrange(0, k as int).contains(c as usize) {
                        narrowed(mid[c], #[trigger] self@[c], v)
                    } else {
                        self@[c] == mid[c]
                    },
                consistent(start) ==> forall|c: int|
                    is_neighbour(x, c) && (#[trigger] mid[c]).settled() is Some ==> mid[c].settled()->0 != v,
            decreases neighbours@.len() - k,
        {
            let c = neighbours[k];
            let ghost before = self@;
            let ghost done = neighbours@.subrange(0, k as int);
            proof {
                assert(neighbours@.contains(c));
                assert(!done.contains(c)) by {
                    if done.contains(c) {
                        let j = choose|j: int| 0 <= j < done.len() && done[j] == c;
                        assert(neighbours@[j] == neighbours@[k as int]);
                    }
                }
                assert(before[c as int] == mid[c as int]);
            }
            match self.cell_constrain(&c, &v) {
                Ok(()) => {},
                Err(e) => {
                    return Err(e);
                },
            }
            proof {
                let next = neighbours@.subrange(0, k as int + 1);
                assert(next == done.push(c));
                assert forall|d: int|
                    0 <= d < 81 implies if next.contains(d as usize) {
                    narrowed(mid[d], #[trigger] self@[d], v)
                } else {
                    self@[d] == mid[d]
                } by {
                    if d != c as int {
                        assert(self@[d] == before[d]);
                        if next.contains(d as usize) {
                            let j = choose|j: int| 0 <= j < next.len() && next[j] == d as usize;
                            assert(done[j] == d as usize);
                        }
                        if done.contains(d as usize) {
                            let j = choose|j: int| 0 <= j < done.len() && done[j] == d as usize;
                            assert(next[j] == d as usize);
                        }
                    } else {
                        assert(next[k as int] == c);
                    }
                }
            }
            k = k + 1;
        }
        proof {
            assert(neighbours@.subrange(0, neighbours@.len() as int) == neighbours@);
            assert forall|c: int| 0 <= c < 81 && c != x implies if is_neighbour(x, c) {
                narrowed(start[c], #[trigger] self@[c], v)
            } else {
                self@[c] == start[c]
            } by {
                assert(mid[c] == start[c]);
                assert(neighbours@.contains(c as usize) <==> is_neighbour(x, c));
            }
            assert(!neighbours@.contains(x as usize));
            assert(propagated(start, self@, x, v));
            if consistent(start) {
                lemma_propagation_consistent(start, self@, x, v);
            }
        }
        Ok(())
    }

    /// An open cell of lowest entropy with that entropy, drawn at random
    /// among the ties; `None` when every cell is settled.
    pub fn cell_with_lowest_entropy(&self) -> (r: Option<(usize, Entropy)>)
        requires
            self.wf(),
        ensures
            r is None <==> all_settled(self@),
            r matches Some(p) ==> lowest_entropy(self@, p.0 as int) && p.1 == self@[p.0 as int].candidates().len(),
    {
        let open = self.cells_to_collapse();
        if open.len() == 0 {
            proof {
                assert forall|i: int| 0 <= i < 81 implies (#[trigger] self@[i]).settled() is Some by {
                    if self@[i].settled() is None {
                        let j = choose|j: int| 0 <= j < open@.len() && open@[j].0 == i;
                    }
                }
            }
            return None;
        }
        let mut lowest: usize = open[0].1;
        let ghost mut at: int = 0;
        let mut j: usize = 1;
        while j < open.len()
            invariant
                1 <= j <= open@.len(),
                0 <= at < open@.len(),
                open@[at].1 == lowest,
                forall|k: int| 0 <= k < j ==> lowest <= (#[trigger] open@[k]).1,
            decreases open@.len() - j,
        {
            if open[j].1 < lowest {
                lowest = open[j].1;
                proof {
                    at = j as int;
                }
            }
            j = j + 1;
        }
        let mut ties: Vec<(usize, Entropy)> = Vec::new();
        let mut j: usize = 0;
        while j < open.len()
            invariant
                j <= open@.len(),
                0 <= at < open@.len(),
                open@[at].1 == lowest,
                at < j ==> ties@.len() > 0,
                forall|t: int| 0 <= t < ties@.len() ==> open@.contains(#[trigger] ties@[t]) && ties@[t].1 == lowest,
            decreases open@.len() - j,
        {
            if open[j].1 == lowest {
                ties.push(open[j]);
                proof {
                    assert(ties@[ties@.len() - 1] == open@[j as int]);
                }
            }
            j = j + 1;
        }
        match choose_one(&ties) {
            Some(t) => {
                proof {
                    let q = choose|q: int| 0 <= q < ties@.len() && ties@[q] == t;
                    assert(open@.contains(ties@[q]));
                    let k = choose|k: int| 0 <= k < open@.len() && open@[k] == t;
                    assert(open@[k].0 < 81);
                    assert forall|i: int| 0 <= i < 81 && (#[trigger] self@[i]).settled() is None implies t.1 <= self@[i].candidates().len() by {
                        let m = choose|m: int| 0 <= m < open@.len() && open@[m].0 == i;
                        assert(lowest <= open@[m].1);
                    }
                    assert(!all_settled(self@)) by {
                        assert(self@[t.0 as int].settled() is None);
                    }
                }
                Some(t)
            },
            None => {
                proof {
                    assert(false);
                }
                None
            },
        }
    }

    /// Settles one open cell of lowest entropy on a random candidate and
    /// constrains its neighbours. `Ok(true)` when every cell was already
    /// settled, `Ok(false)` after a step, and `Contradiction` when an open cell
    /// has no candidates left.
    pub fn collapse_lowest_entropy(&mut self) -> (r: Result<bool, Error>)
        requires
            old(self).wf(),
        ensures
            final(self).wf(),
            r == Ok::<bool, Error>(true) <==> all_settled(old(self)@),
            r == Err::<bool, Error>(Error::Contradiction) <==> has_contradiction(old(self)@),
            r == Ok::<bool, Error>(true) || r == Err::<bool, Error>(Error::Contradiction) ==> final(self)@ == old(self)@,
            r == Ok::<bool, Error>(false) ==> exists|x: int, v: u32|
                {
                    &&& lowest_entropy(old(self)@, x)
                    &&& old(self)@[x].candidates().contains(v)
                    &&& #[trigger] propagated(old(self)@, final(self)@, x, v)
                },
            r == Ok::<bool, Error>(false) ==> count_open(final(self)@, 81) < count_open(old(self)@, 81),
            r is Err ==> r == Err::<bool, Error>(Error::Contradiction) || r == Err::<bool, Error>(
                Error::AlreadySettled,
            ),
            consistent(old(self)@) ==> consistent(final(self)@) && (r is Err ==> r == Err::<
                bool,
                Error,
            >(Error::Contradiction)),
    {
        match self.cell_with_lowest_entropy() {
            None => Ok(true),
            Some((id, entropy)) => {
                if entropy == 0 {
                    return Err(Error::Contradiction);
                }
                proof {
                    assert(!has_contradiction(self@)) by {
                        if has_contradiction(self@) {
                            let i = choose|i: int|
                                0 <= i < 81 && (#[trigger] self@[i]).settled() is None
                                    && self@[i].candidates().len() == 0;
                        }
                    }
                    assert(can_collapse(self@[id as int], None));
                }
                let ghost start = self@;
                match self.collapse_one(&id, None) {
                    Ok(()) => {
                        proof {
                            let v = choose|v: u32|
                                {
                                    &&& start[id as int].candidates().contains(v)
                                    &&& #[trigger] propagated(start, self@, id as int, v)
                                };
                            lemma_propagation_settles(start, self@, id as int, v);
                        }
                        Ok(false)
                    },
                    Err(e) => Err(e),
                }
            },
        }
    }

    /// Collapses the board one cell at a time until every cell is settled,
    /// or stops at the first failure.
    pub fn collapse_all(&mut self) -> (r: Result<(), Error>)
        requires
            old(self).wf(),
        ensures
            final(self).wf(),
            r is Ok ==> all_settled(final(self)@),
            r == Err::<(), Error>(Error::Contradiction) ==> has_contradiction(final(self)@),
            consistent(old(self)@) ==> consistent(final(self)@) && (r is Err ==> r == Err::<
                (),
                Error,
            >(Error::Contradiction)),
    {
        loop
            invariant
                self.wf(),
                consistent(old(self)@) ==> consistent(self@),
            decreases count_open(self@, 81),
        {
            match self.collapse_lowest_entropy() {
                Ok(true) => {
                    return Ok(());
                },
                Ok(false) => {},
                Err(e) => {
                    return Err(e);
                },
            }
        }
    }

    /// Reads a board from 81 ASCII digits in row-major order, `0` for a blank.
    /// Each clue is collapsed in turn and constrains its neighbours.
    pub fn parse(s: &str) -> (r: Result<Sudoku, Error>)
        ensures
            !valid_digits(s.spec_bytes()) ==> r == Err::<Sudoku, Error>(Error::InvalidInput),
            valid_digits(s.spec_bytes()) && !clues_agree(s.spec_bytes(), 81) ==> r == Err::<
                Sudoku,
                Error,
            >(Error::ValueNotCandidate),
            valid_digits(s.spec_bytes()) && clues_agree(s.spec_bytes(), 81) ==> r is Ok,
            r matches Ok(b) ==> {
                &&& b.wf()
                &&& consistent(b@)
                &&& forall|i: int|
                    0 <= i < 81 ==> if is_clue(s.spec_bytes(), i) {
                        (#[trigger] b@[i]).settled() == Some(digit_at(s.spec_bytes(), i))
                    } else {
                        b@[i].settled() is None && forall|e: u32|
                            #[trigger] b@[i].candidates().contains(e) <==> (1 <= e <= 9
                                && !clue_near(s.spec_bytes(), i, e, 81))
                    }
            },
    {
        let d = s.as_bytes();
        let ghost ds = d@;
        if d.len() != CELLS {
            return Err(Error::InvalidInput);
        }
        let mut i: usize = 0;
        while i < CELLS
            invariant
                i <= 81,
                d@ == s.spec_bytes(),
                d@.len() == 81,
                forall|k: int| 0 <= k < i ==> BLANK <= #[trigger] d@[k] <= BLANK + 9,
            decreases 81 - i,
        {
            if d[i] < BLANK || d[i] > BLANK + 9 {
                return Err(Error::InvalidInput);
            }
            i = i + 1;
        }
        let mut board = Sudoku::new();
        proof {
            assert forall|i: int, e: u32| 0 <= i < 81 implies #[trigger] board@[i].candidates().contains(e) <==> (1 <= e <= 9 && !clue_near(ds, i, e, 0)) by {
                if 1 <= e <= 9 {
                    assert(all_digits()[e - 1] == e);
                }
            }
        }
        let mut n: usize = 0;
        while n < CELLS
            invariant
                n <= 81,
                ds == d@,
                d@ == s.spec_bytes(),
                valid_digits(ds),
                board.wf(),
                consistent(board@),
                clues_agree(ds, n as int),
                forall|i: int|
                    0 <= i < 81 ==> if i < n && is_clue(ds, i) {
                        (#[trigger] board@[i]).settled() == Some(digit_at(ds, i))
                    } else {
                        board@[i].settled() is None && forall|e: u32|
                            #[trigger] board@[i].candidates().contains(e) <==> (1 <= e <= 9
                                && !clue_near(ds, i, e, n as int))
                    },
            decreases 81 - n,
        {
            if d[n] != BLANK {
                let v: u32 = (d[n] - BLANK) as u32;
                let ghost before = board@;
                let ghost x = n as int;
                match board.collapse_one(&n, Some(v)) {
                    Ok(()) => {
                        proof {
                            let w = choose|w: u32|
                                {
                                    &&& before[x].candidates().contains(w)
                                    &&& w == v
                                    &&& #[trigger] propagated(before, board@, x, w)
                                };
                            assert(!clue_near(ds, x, v, x));
                            assert forall|i: int, j: int|
                                0 <= i < x + 1 && 0 <= j < x + 1 && #[trigger] is_neighbour(i, j)
                                    && is_clue(ds, i) && is_clue(ds, j) implies digit_at(ds, i)
                                != digit_at(ds, j) by {
                                if j == x && i < x {
                                    assert(is_neighbour(x, i));
                                } else if i == x && j < x {
                                    assert(is_neighbour(x, j));
                                }
                            }
                            assert forall|i: int|
                                0 <= i < 81 implies if i < x + 1 && is_clue(ds, i) {
                                (#[trigger] board@[i]).settled() == Some(digit_at(ds, i))
                            } else {
                                board@[i].settled() is None && forall|e: u32|
                                    #[trigger] board@[i].candidates().contains(e) <==> (1 <= e
                                        <= 9 && !clue_near(ds, i, e, x + 1))
                            } by {
                                if i != x {
                                    if is_neighbour(x, i) {
                                        lemma_constrain_narrows(before[i], board@[i], v);
                                        assert(is_neighbour(i, x));
                                        if !(i < x + 1 && is_clue(ds, i)) {
                                            assert forall|e: u32|
                                                #[trigger] board@[i].candidates().contains(e) <==> (1
                                                    <= e <= 9 && !clue_near(ds, i, e, x + 1)) by {
                                                if clue_near(ds, i, e, x + 1) && e != v {
                                                    let j = choose|j: int|
                                                        0 <= j < x + 1 && #[trigger] is_neighbour(i, j)
                                                            && is_clue(ds, j) && digit_at(ds, j) == e;
                                                    assert(j != x);
                                                }
                                            }
                                        }
                                    } else {
                                        if !(i < x + 1 && is_clue(ds, i)) {
                                            assert forall|e: u32|
                                                #[trigger] board@[i].candidates().contains(e) <==> (1
                                                    <= e <= 9 && !clue_near(ds, i, e, x + 1)) by {
                                                if clue_near(ds, i, e, x + 1) {
                                                    let j = choose|j: int|
                                                        0 <= j < x + 1 && #[trigger] is_neighbour(i, j)
                                                            && is_clue(ds, j) && digit_at(ds, j) == e;
                                                    assert(j != x);
                                                }
                                            }
                                        }
                                    }
                                }
                            }
                        }
                    },
                    Err(_) => {
                        proof {
                            assert(clue_near(ds, x, v, x));
                            let j = choose|j: int|
                                0 <= j < x && #[trigger] is_neighbour(x, j) && is_clue(ds, j)
                                    && digit_at(ds, j) == v;
                            assert(is_neighbour(j, x));
                            assert(!clues_agree(ds, 81));
                        }
                        return Err(Error::ValueNotCandidate);
                    },
                }
            } else {
                proof {
                    assert forall|i: int|
                        0 <= i < 81 implies if i < n + 1 && is_clue(ds, i) {
                        (#[trigger] board@[i]).settled() == Some(digit_at(ds, i))
                    } else {
                        board@[i].settled() is None && forall|e: u32|
                            #[trigger] board@[i].candidates().contains(e) <==> (1 <= e <= 9
                                && !clue_near(ds, i, e, n + 1))
                    } by {
                        if !(i < n + 1 && is_clue(ds, i)) {
                            assert forall|e: u32|
                                #[trigger] board@[i].candidates().contains(e) <==> (1 <= e <= 9
                                    && !clue_near(ds, i, e, n + 1)) by {
                                if clue_near(ds, i, e, n + 1) {
                                    let j = choose|j: int|
                                        0 <= j < n + 1 && #[trigger] is_neighbour(i, j) && is_clue(ds, j)
                                            && digit_at(ds, j) == e;
                                    assert(j != n);
                                }
                            }
                        }
                    }
                }
            }
            n = n + 1;
        }
        Ok(board)
    }

    /// The board as 81 bytes: each settled cell as its digit, each open
    /// cell as `?`.
    pub fn solution(&self) -> (r: Vec<u8>)
        requires
            self.wf(),
        ensures
            r@ == Seq::new(81, |i: int| render(self@[i])),
    {
        let mut out: Vec<u8> = Vec::new();
        let mut i: usize = 0;
        while i < CELLS
            invariant
                i <= 81,
                self.wf(),
                out@ == Seq::new(i as nat, |k: int| render(self@[k])),
            decreases 81 - i,
        {
            let b: u8 = match self.cells[i].value() {
                Some(v) => BLANK + (v as u8),
                None => OPEN_MARK,
            };
            out.push(b);
            i = i + 1;
        }
        out
    }

    /// Every open cell with its entropy, in ascending order of cell.
    pub fn cells_to_collapse(&self) -> (r: Vec<(usize, Entropy)>)
        requires
            self.wf(),
        ensures
            forall|j: int|
                0 <= j < r@.len() ==> {
                    &&& (#[trigger] r@[j]).0 < 81
                    &&& self@[r@[j].0 as int].settled() is None
                    &&& r@[j].1 == self@[r@[j].0 as int].candidates().len()
                },
            forall|i: int|
                0 <= i < 81 && (#[trigger] self@[i]).settled() is None ==> exists|j: int|
                    0 <= j < r@.len() && r@[j].0 == i,
            forall|j: int, k: int| 0 <= j < k < r@.len() ==> r@[j].0 < r@[k].0,
    {
        let mut out: Vec<(usize, Entropy)> = Vec::new();
        let mut i: usize = 0;
        while i < CELLS
            invariant
                i <= 81,
                self.wf(),
                forall|j: int|
                    0 <= j < out@.len() ==> {
                        &&& (#[trigger] out@[j]).0 < i
                        &&& self@[out@[j].0 as int].settled() is None
                        &&& out@[j].1 == self@[out@[j].0 as int].candidates().len()
                    },
                forall|c: int|
                    0 <= c < i && (#[trigger] self@[c]).settled() is None ==> exists|j: int|
                        0 <= j < out@.len() && out@[j].0 == c,
                forall|j: int, k: int| 0 <= j < k < out@.len() ==> out@[j].0 < out@[k].0,
            decreases 81 - i,
        {
            let ghost before = out@;
            match self.cells[i].entropy() {
                Some(e) => {
                    out.push((i, e));
                    proof {
                        assert forall|c: int|
                            0 <= c < i + 1 && (#[trigger] self@[c]).settled() is None implies exists|
                            j: int,
                        | 0 <= j < out@.len() && out@[j].0 == c by {
                            if c < i {
                                let j = choose|j: int| 0 <= j < before.len() && before[j].0 == c;
                                assert(out@[j] == before[j]);
                            } else {
                                assert(out@[out@.len() - 1].0 == c);
                            }
                        }
                    }
                },
                None => {},
            }
            i = i + 1;
        }
        out
    }
}

} // verus!
