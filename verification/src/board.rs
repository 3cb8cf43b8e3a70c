//! The 3×3 sliding puzzle: configurations, the four slides of the blank, and plans.
//!
//! A configuration is modelled as a `Seq<u8>` of nine cells in row-major order
//! (cell `3 * row + col`), the blank being tile `0`.

use vstd::prelude::*;

verus! {

/// Side length of the grid.
pub const N: usize = 3;

/// The direction in which the blank slides.
#[derive(Clone, Copy, Debug, PartialEq, Eq, Hash, Structural)]
pub enum Direction {
    Up,
    Down,
    Left,
    Right,
}

impl Direction {
    /// The slide that undoes `self`.
    pub open spec fn opposite(self) -> Direction {
        match self {
            Direction::Up => Direction::Down,
            Direction::Down => Direction::Up,
            Direction::Left => Direction::Right,
            Direction::Right => Direction::Left,
        }
    }
}

/// A grid is well formed when it holds nine distinct tiles out of `0..=8`, one of
/// them the blank.
pub open spec fn grid_wf(s: Seq<u8>) -> bool {
    &&& s.len() == 9
    &&& forall|i: int| 0 <= i < 9 ==> s[i] < 9
    &&& forall|i: int, j: int| 0 <= i < j < 9 ==> s[i] != s[j]
    &&& exists|i: int| 0 <= i < 9 && s[i] == 0
}

/// The solved configuration.
pub open spec fn goal_grid() -> Seq<u8> {
    seq![1u8, 2u8, 3u8, 4u8, 5u8, 6u8, 7u8, 8u8, 0u8]
}

/// Row-major cells of a 3×3 array.
pub open spec fn flatten(cells: [[u8; 3]; 3]) -> Seq<u8> {
    Seq::new(9, |i: int| cells[i / 3][i % 3])
}

/// Position of the blank.
pub open spec fn blank_of(s: Seq<u8>) -> int {
    choose|i: int| 0 <= i < 9 && s[i] == 0
}

/// The cell next to `blank` in direction `d`, if the grid has one.
pub open spec fn neighbour(blank: int, d: Direction) -> Option<int> {
    match d {
        Direction::Up => if blank >= 3 { Some(blank - 3) } else { None },
        Direction::Down => if blank < 6 { Some(blank + 3) } else { None },
        Direction::Left => if blank % 3 != 0 { Some(blank - 1) } else { None },
        Direction::Right => if blank % 3 != 2 { Some(blank + 1) } else { None },
    }
}

/// One slide: the blank trades places with its neighbour in direction `d`.
/// `None` when the blank would leave the grid.
pub open spec fn slide(s: Seq<u8>, d: Direction) -> Option<Seq<u8>> {
    let b = blank_of(s);
    match neighbour(b, d) {
        Some(t) => Some(s.update(b, s[t]).update(t, 0u8)),
        None => None,
    }
}

/// The configuration reached by making the slides of `plan` in order, or `None`
/// as soon as one of them is illegal.
pub open spec fn run(s: Seq<u8>, plan: Seq<Direction>) -> Option<Seq<u8>>
    decreases plan.len(),
{
    if plan.len() == 0 {
        Some(s)
    } else {
        match slide(s, plan[0]) {
            Some(t) => run(t, plan.drop_first()),
            None => None,
        }
    }
}

/// Base-16 packing of the cells from index `from` on, least significant first.
pub open spec fn pack(s: Seq<u8>, from: int) -> int
    decreases 9 - from,
{
    if from < 0 || from >= 9 {
        0
    } else {
        s[from] + 16 * pack(s, from + 1)
    }
}

/// The integer under which a grid is filed in hash tables.
pub open spec fn grid_key(s: Seq<u8>) -> u64 {
    pack(s, 0) as u64
}

/// Exclusive upper bound of the keys of well-formed grids.
pub const KEY_LIMIT: u64 = 68719476736;

/// A well-formed grid has exactly one blank.
pub proof fn lemma_blank_unique(s: Seq<u8>, i: int)
    requires
        grid_wf(s),
        0 <= i < 9,
        s[i] == 0,
    ensures
        blank_of(s) == i,
{
    let j = blank_of(s);
    assert(0 <= j < 9 && s[j] == 0);
    if j < i {
        assert(s[j] != s[i]);
    } else if i < j {
        assert(s[i] != s[j]);
    }
}

/// A slide keeps the grid well formed and moves the blank to the neighbour.
pub proof fn lemma_slide_wf(s: Seq<u8>, d: Direction)
    requires
        grid_wf(s),
        slide(s, d) is Some,
    ensures
        grid_wf(slide(s, d).unwrap()),
        neighbour(blank_of(s), d) == Some(blank_of(slide(s, d).unwrap())),
        slide(s, d).unwrap() != s,
{
    let b = blank_of(s);
    assert(0 <= b < 9 && s[b] == 0);
    let n = neighbour(b, d).unwrap();
    let t = slide(s, d).unwrap();
    assert(0 <= n < 9 && n != b);
    assert(t[n] == 0);
    assert(t[b] == s[n]);
    assert(forall|i: int| 0 <= i < 9 && i != b && i != n ==> t[i] == s[i]);
    assert forall|i: int, j: int| 0 <= i < j < 9 implies t[i] != t[j] by {
        let pi = if i == b { n } else if i == n { b } else { i };
        let pj = if j == b { n } else if j == n { b } else { j };
        assert(t[i] == s[pi]);
        assert(t[j] == s[pj]);
        if pi < pj {
            assert(s[pi] != s[pj]);
        } else {
            assert(s[pj] != s[pi]);
        }
    }
    assert(grid_wf(t));
    lemma_blank_unique(t, n);
    if b < n {
        assert(s[b] != s[n]);
    } else {
        assert(s[n] != s[b]);
    }
    assert(t[b] != s[b]);
}

/// Sliding back in the opposite direction restores the grid.
pub proof fn lemma_slide_back(s: Seq<u8>, d: Direction)
    requires
        grid_wf(s),
        slide(s, d) is Some,
    ensures
        slide(slide(s, d).unwrap(), d.opposite()) == Some(s),
{
    lemma_slide_wf(s, d);
    let b = blank_of(s);
    assert(0 <= b < 9 && s[b] == 0);
    let n = neighbour(b, d).unwrap();
    let t = slide(s, d).unwrap();
    assert(blank_of(t) == n);
    assert(neighbour(n, d.opposite()) == Some(b));
    assert(slide(t, d.opposite()).unwrap() =~= s);
}

/// Every configuration along a legal plan is well formed.
pub proof fn lemma_run_wf(s: Seq<u8>, plan: Seq<Direction>)
    requires
        grid_wf(s),
        run(s, plan) is Some,
    ensures
        grid_wf(run(s, plan).unwrap()),
    decreases plan.len(),
{
    if plan.len() > 0 {
        lemma_slide_wf(s, plan[0]);
        lemma_run_wf(slide(s, plan[0]).unwrap(), plan.drop_first());
    }
}

/// Running `a + b` is running `a` and then `b`.
pub proof fn lemma_run_concat(s: Seq<u8>, a: Seq<Direction>, b: Seq<Direction>)
    ensures
        run(s, a + b) == match run(s, a) {
            Some(t) => run(t, b),
            None => None,
        },
    decreases a.len(),
{
    if a.len() == 0 {
        assert(a + b =~= b);
    } else {
        assert((a + b)[0] == a[0]);
        assert((a + b).drop_first() =~= a.drop_first() + b);
        match slide(s, a[0]) {
            Some(t) => lemma_run_concat(t, a.drop_first(), b),
            None => {},
        }
    }
}

/// One more slide after a legal plan is made from where the plan leads.
pub proof fn lemma_run_push(s: Seq<u8>, plan: Seq<Direction>, d: Direction)
    requires
        run(s, plan) is Some,
    ensures
        run(s, plan.push(d)) == slide(run(s, plan).unwrap(), d),
{
    let one = seq![d];
    assert(plan.push(d) =~= plan + one);
    lemma_run_concat(s, plan, one);
    assert(one[0] == d);
    assert(one.drop_first().len() == 0);
    reveal_with_fuel(run, 2);
}

/// The boards to which some plan leads from `start`.
pub open spec fn reachable(start: Seq<u8>) -> Set<Seq<u8>> {
    Set::new(|s: Seq<u8>| exists|plan: Seq<Direction>| #[trigger] run(start, plan) == Some(s))
}

/// A legal plan can be cut anywhere: its first `i` slides are legal, the rest leads
/// on to the same end, and slide `i` is made from where the first `i` lead.
pub proof fn lemma_run_prefix(s: Seq<u8>, plan: Seq<Direction>, i: int)
    requires
        run(s, plan) is Some,
        0 <= i <= plan.len(),
    ensures
        run(s, plan.take(i)) is Some,
        run(run(s, plan.take(i)).unwrap(), plan.skip(i)) == run(s, plan),
        i < plan.len() ==> slide(run(s, plan.take(i)).unwrap(), plan[i]) is Some && run(
            s,
            plan.take(i + 1),
        ) == slide(run(s, plan.take(i)).unwrap(), plan[i]),
{
    assert(plan =~= plan.take(i) + plan.skip(i));
    lemma_run_concat(s, plan.take(i), plan.skip(i));
    if i < plan.len() {
        let t = run(s, plan.take(i)).unwrap();
        let one = seq![plan[i]];
        assert(plan.take(i + 1) =~= plan.take(i) + one);
        lemma_run_concat(s, plan.take(i), one);
        assert(one[0] == plan[i]);
        assert(one.drop_first().len() == 0);
        reveal_with_fuel(run, 2);
        assert(run(t, one) == slide(t, plan[i]));
        assert(plan =~= plan.take(i + 1) + plan.skip(i + 1));
        lemma_run_concat(s, plan.take(i + 1), plan.skip(i + 1));
    }
}

/// A finite set of keys below `n` has at most `n` members.
pub proof fn lemma_bounded_keys(keys: Set<u64>, n: nat)
    requires
        keys.finite(),
        n <= u64::MAX,
        forall|k: u64| keys.contains(k) ==> k < n,
    ensures
        keys.len() <= n,
    decreases n,
{
    if n == 0 {
        assert(keys =~= Set::<u64>::empty());
    } else {
        let top = (n - 1) as u64;
        lemma_bounded_keys(keys.remove(top), (n - 1) as nat);
    }
}

/// Two grids with cells below 16 that pack alike from `from` on agree from there on.
pub proof fn lemma_pack_injective(a: Seq<u8>, b: Seq<u8>, from: int)
    requires
        a.len() == 9,
        b.len() == 9,
        0 <= from <= 9,
        forall|i: int| 0 <= i < 9 ==> a[i] < 16 && b[i] < 16,
        pack(a, from) == pack(b, from),
    ensures
        forall|i: int| from <= i < 9 ==> a[i] == b[i],
    decreases 9 - from,
{
    if from < 9 {
        let pa = pack(a, from + 1);
        let pb = pack(b, from + 1);
        assert(a[from] + 16 * pa == b[from] + 16 * pb);
        assert(0 <= a[from] < 16 && 0 <= b[from] < 16);
        assert(pa == pb);
        lemma_pack_injective(a, b, from + 1);
    }
}

/// Distinct well-formed grids have distinct keys, all below `KEY_LIMIT`.
pub proof fn lemma_key_injective(a: Seq<u8>, b: Seq<u8>)
    requires
        grid_wf(a),
        grid_wf(b),
    ensures
        grid_key(a) == grid_key(b) <==> a == b,
        grid_key(a) < KEY_LIMIT,
        grid_key(a) == pack(a, 0),
{
    reveal_with_fuel(pack, 10);
    assert(0 <= pack(a, 0) < KEY_LIMIT);
    assert(0 <= pack(b, 0) < KEY_LIMIT);
    if grid_key(a) == grid_key(b) {
        lemma_pack_injective(a, b, 0);
        assert(a =~= b);
    }
}

/// A configuration of the puzzle. Immutable: every slide yields a new board.
#[derive(Clone, Copy, Debug, PartialEq, Eq, Hash)]
pub struct Board {
    cells: [u8; 9],
    blank: usize,
}

impl View for Board {
    type V = Seq<u8>;

    closed spec fn view(&self) -> Seq<u8> {
        self.cells@
    }
}

impl Board {
    /// The cached position of the blank.
    pub closed spec fn blank_index(&self) -> int {
        self.blank as int
    }

    /// The cells form a well-formed grid and the cached blank position is right.
    pub open spec fn wf(&self) -> bool {
        &&& grid_wf(self@)
        &&& self.blank_index() == blank_of(self@)
    }

    /// The solved configuration.
    pub fn goal() -> (b: Board)
        ensures
            b.wf(),
            b@ == goal_grid(),
    {
        let b = Board { cells: [1, 2, 3, 4, 5, 6, 7, 8, 0], blank: 8 };
        proof {
            assert(b@ =~= goal_grid());
            assert(grid_wf(goal_grid()));
            lemma_blank_unique(goal_grid(), 8);
        }
        b
    }

    /// Well-formed boards are determined by their cells.
    pub proof fn lemma_view_determines(self, other: Board)
        requires
            self.wf(),
            other.wf(),
            self@ == other@,
        ensures
            self == other,
    {
        assert(self.cells =~= other.cells);
    }

    /// Whether `cells` is a grid that `new` accepts.
    pub fn is_valid_grid(cells: &[[u8; 3]; 3]) -> (ok: bool)
        ensures
            ok == grid_wf(flatten(*cells)),
    {
        let ghost s = flatten(*cells);
        let mut seen: [bool; 9] = [false; 9];
        let mut i: usize = 0;
        while i < 9
            invariant
                0 <= i <= 9,
                s == flatten(*cells),
                forall|j: int| 0 <= j < i ==> s[j] < 9,
                forall|j: int, l: int| 0 <= j < l < i ==> s[j] != s[l],
                forall|v: int| 0 <= v < 9 ==> (seen[v] <==> exists|j: int| 0 <= j < i && s[j] == v),
            decreases 9 - i,
        {
            let v = cells[i / 3][i % 3];
            assert(v == s[i as int]);
            if v >= 9 {
                return false;
            }
            if seen[v as usize] {
                let ghost j = choose|j: int| 0 <= j < i && s[j] == v;
                assert(s[j] == s[i as int]);
                return false;
            }
            seen[v as usize] = true;
            assert forall|w: int| 0 <= w < 9 implies (seen[w] <==> exists|j: int|
                0 <= j < i + 1 && s[j] == w) by {
                if w == v {
                    assert(s[i as int] == w);
                } else if seen[w] {
                    let j = choose|j: int| 0 <= j < i && s[j] == w;
                    assert(0 <= j < i + 1 && s[j] == w);
                }
            }
            i += 1;
        }
        seen[0]
    }

    /// Builds the board whose cell in row `r`, column `c` is `cells[r][c]`.
    pub fn new(cells: [[u8; 3]; 3]) -> (b: Board)
        requires
            grid_wf(flatten(cells)),
        ensures
            b.wf(),
            b@ == flatten(cells),
    {
        let flat: [u8; 9] = [
            cells[0][0],
            cells[0][1],
            cells[0][2],
            cells[1][0],
            cells[1][1],
            cells[1][2],
            cells[2][0],
            cells[2][1],
            cells[2][2],
        ];
        assert(flat@ =~= flatten(cells));
        let ghost z = blank_of(flat@);
        let mut blank: usize = 0;
        while flat[blank] != 0
            invariant
                0 <= blank <= z < 9,
                flat@[z] == 0,
            decreases 9 - blank,
        {
            blank += 1;
        }
        proof {
            lemma_blank_unique(flat@, blank as int);
        }
        Board { cells: flat, blank }
    }

    /// The tile in row `row`, column `col`; `0` for the blank.
    pub fn value_at(&self, row: usize, col: usize) -> (v: u8)
        requires
            row < 3,
            col < 3,
        ensures
            v == self@[3 * row + col],
    {
        self.cells[3 * row + col]
    }

    /// Slides the blank in `direction`. `None` when the blank is on the edge that
    /// the slide would cross; the board itself is never changed.
    pub fn apply(&self, direction: Direction) -> (r: Option<Board>)
        requires
            self.wf(),
        ensures
            match r {
                Some(b) => b.wf() && slide(self@, direction) == Some(b@),
                None => slide(self@, direction) is None,
            },
    {
        let b = self.blank;
        assert(0 <= b < 9 && self@[b as int] == 0);
        let target: Option<usize> = match direction {
            Direction::Up => if b >= 3 { Some(b - 3) } else { None },
            Direction::Down => if b < 6 { Some(b + 3) } else { None },
            Direction::Left => if b % 3 != 0 { Some(b - 1) } else { None },
            Direction::Right => if b % 3 != 2 { Some(b + 1) } else { None },
        };
        match target {
            None => None,
            Some(t) => {
                assert(neighbour(b as int, direction) == Some(t as int));
                let mut cells = self.cells;
                cells[b] = self.cells[t];
                cells[t] = 0;
                let next = Board { cells, blank: t };
                proof {
                    assert(next@ =~= slide(self@, direction).unwrap());
                    lemma_slide_wf(self@, direction);
                }
                Some(next)
            },
        }
    }

    /// Whether every slide of `plan` is legal when the plan is played from this board.
    pub fn is_valid_plan(&self, plan: &[Direction]) -> (ok: bool)
        requires
            self.wf(),
        ensures
            ok == run(self@, plan@) is Some,
    {
        let mut current = *self;
        let mut i: usize = 0;
        assert(plan@.skip(0) =~= plan@);
        while i < plan.len()
            invariant
                0 <= i <= plan.len(),
                current.wf(),
                run(self@, plan@) == run(current@, plan@.skip(i as int)),
            decreases plan.len() - i,
        {
            let ghost rest = plan@.skip(i as int);
            assert(rest[0] == plan@[i as int]);
            assert(rest.drop_first() =~= plan@.skip(i + 1));
            match current.apply(plan[i]) {
                Some(next) => {
                    current = next;
                },
                None => {
                    return false;
                },
            }
            i += 1;
        }
        assert(plan@.skip(i as int).len() == 0);
        true
    }

    /// The integer under which the board is filed in hash tables.
    pub fn key(&self) -> (k: u64)
        requires
            self.wf(),
        ensures
            k == grid_key(self@),
            k < KEY_LIMIT,
    {
        proof {
            reveal_with_fuel(pack, 10);
        }
        let c = &self.cells;
        let k: u64 = c[0] as u64 + 16 * (c[1] as u64 + 16 * (c[2] as u64 + 16 * (c[3] as u64 + 16
            * (c[4] as u64 + 16 * (c[5] as u64 + 16 * (c[6] as u64 + 16 * (c[7] as u64 + 16
            * (c[8] as u64))))))));
        k
    }
}

} // verus!
