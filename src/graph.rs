use vstd::prelude::*;
use vstd::string::StringExecFns;
use crate::probabilities::{Propabilities, SCALE};

verus! {

/// Largest vertex-count exponent: a graph on `2^n` vertices has `4^n` cells,
/// and their count must fit a 32-bit `usize`.
pub const MAX_EXPONENT: u32 = 15;

pub open spec fn pow2(n: nat) -> nat
    decreases n,
{
    if n == 0 {
        1
    } else {
        2 * pow2((n - 1) as nat)
    }
}

/// `s` is a power of two.
pub open spec fn is_pow2(s: nat) -> bool
    decreases s,
{
    if s <= 1 {
        s == 1
    } else {
        s % 2 == 0 && is_pow2(s / 2)
    }
}

pub proof fn lemma_pow2_mono(i: nat, j: nat)
    requires
        i <= j,
    ensures
        1 <= pow2(i) <= pow2(j),
    decreases j,
{
    if j > i {
        lemma_pow2_mono(i, (j - 1) as nat);
    } else if j > 0 {
        lemma_pow2_mono(0, (j - 1) as nat);
    }
}

pub proof fn lemma_side_bound(n: nat)
    requires
        n <= MAX_EXPONENT,
    ensures
        1 <= pow2(n) <= 32768,
{
    lemma_pow2_mono(n, 15);
    reveal_with_fuel(pow2, 16);
}

pub proof fn lemma_pow2_is_pow2(i: nat)
    ensures
        is_pow2(pow2(i)),
    decreases i,
{
    if i > 0 {
        lemma_pow2_is_pow2((i - 1) as nat);
        lemma_pow2_mono(0, (i - 1) as nat);
        assert(pow2(i) / 2 == pow2((i - 1) as nat));
    }
}

/// Cell `(row, col)` lies in the square region of side `size` whose top-left
/// cell is `(start_y, start_x)`; with `ignore_b` only on or below the
/// region's own diagonal.
pub open spec fn in_reach(start_x: int, start_y: int, size: int, ignore_b: bool, row: int, col: int) -> bool {
    start_y <= row < start_y + size && start_x <= col < start_x + size && (ignore_b ==> col - start_x <= row
        - start_y)
}

/// Top-left corner of quadrant `q` of a region: 0 top-left, 1 top-right,
/// 2 bottom-left, 3 bottom-right.
pub open spec fn quarter_x(start_x: int, half: int, q: int) -> int {
    if q % 2 == 1 {
        start_x + half
    } else {
        start_x
    }
}

pub open spec fn quarter_y(start_y: int, half: int, q: int) -> int {
    if q > 1 {
        start_y + half
    } else {
        start_y
    }
}

/// Number of `true` entries of a row.
pub open spec fn row_count(s: Seq<bool>) -> nat
    decreases s.len(),
{
    if s.len() == 0 {
        0
    } else {
        row_count(s.drop_last()) + if s.last() {
            1nat
        } else {
            0
        }
    }
}

/// Number of `true` cells of a matrix.
pub open spec fn mat_count(m: Seq<Seq<bool>>) -> nat
    decreases m.len(),
{
    if m.len() == 0 {
        0
    } else {
        mat_count(m.drop_last()) + row_count(m.last())
    }
}

/// How many cells may hold an edge in a graph on `side` vertices: the cells
/// off the diagonal, half of them when undirected, and the diagonal too
/// when self connections are allowed.
pub open spec fn fillable_count(side: nat, directed: bool, self_connections_allowed: bool) -> nat {
    let base = (side * side - side) as nat;
    let half = if directed {
        base
    } else {
        base / 2
    };
    if self_connections_allowed {
        half + side
    } else {
        half
    }
}

pub proof fn lemma_row_count_bound(s: Seq<bool>)
    ensures
        row_count(s) <= s.len(),
    decreases s.len(),
{
    if s.len() > 0 {
        lemma_row_count_bound(s.drop_last());
    }
}

pub proof fn lemma_row_count_set(s: Seq<bool>, c: int)
    requires
        0 <= c < s.len(),
        !s[c],
    ensures
        row_count(s.update(c, true)) == row_count(s) + 1,
    decreases s.len(),
{
    let t = s.update(c, true);
    if c == s.len() - 1 {
        assert(t.drop_last() =~= s.drop_last());
    } else {
        lemma_row_count_set(s.drop_last(), c);
        assert(t.drop_last() =~= s.drop_last().update(c, true));
    }
}

pub proof fn lemma_mat_count_set(m: Seq<Seq<bool>>, r: int, c: int)
    requires
        0 <= r < m.len(),
        0 <= c < m[r].len(),
        !m[r][c],
    ensures
        mat_count(m.update(r, m[r].update(c, true))) == mat_count(m) + 1,
    decreases m.len(),
{
    let t = m.update(r, m[r].update(c, true));
    if r == m.len() - 1 {
        assert(t.drop_last() =~= m.drop_last());
        lemma_row_count_set(m[r], c);
    } else {
        lemma_mat_count_set(m.drop_last(), r, c);
        assert(t.drop_last() =~= m.drop_last().update(r, m[r].update(c, true)));
    }
}

/// Row `v` of the matrix made symmetric by reading every cell above the
/// diagonal from its mirror below it.
pub open spec fn sym_row(m: Seq<Seq<bool>>, v: int) -> Seq<bool> {
    Seq::new(m.len(), |x: int| if x <= v { m[v][x] } else { m[x][v] })
}

/// `"1 "` for an edge, `"0 "` for none, for each cell of a row.
pub open spec fn row_text(s: Seq<bool>) -> Seq<char>
    decreases s.len(),
{
    if s.len() == 0 {
        Seq::empty()
    } else {
        row_text(s.drop_last()) + if s.last() {
            seq!['1', ' ']
        } else {
            seq!['0', ' ']
        }
    }
}

/// One line per row of the matrix, each ended by a newline.
pub open spec fn mat_text(m: Seq<Seq<bool>>) -> Seq<char>
    decreases m.len(),
{
    if m.len() == 0 {
        Seq::empty()
    } else {
        mat_text(m.drop_last()) + row_text(m.last()) + seq!['\n']
    }
}

/// Summary of a graph. The density is the fraction
/// `density_num / density_den`; `density_den` is zero for a graph on one
/// vertex without self connections, which can hold no edge.
pub struct GraphStats {
    pub density_num: usize,
    pub density_den: usize,
    pub edges: usize,
    pub vertices: usize,
    pub degrees: Vec<u32>,
}

/// An adjacency matrix on `2^n` vertices: `connections[row][col]` is an edge
/// from `row` to `col`. An undirected graph keeps each edge once, on or below
/// the diagonal.
pub struct Graph {
    pub directed: bool,
    pub self_connections_allowed: bool,
    pub connections: Vec<Vec<bool>>,
    pub n: u32,
    pub propabilities: Propabilities,
    /// Target density, counted in parts of `SCALE`.
    pub dest_density: u64,
}

impl Graph {
    pub open spec fn side(&self) -> nat {
        pow2(self.n as nat)
    }

    pub open spec fn mat(&self) -> Seq<Seq<bool>> {
        self.connections@.map_values(|r: Vec<bool>| r@)
    }

    pub open spec fn cell(&self, row: int, col: int) -> bool {
        self.mat()[row][col]
    }

    /// Whether a cell may hold an edge: off the diagonal unless self
    /// connections are allowed, and on or below it when undirected.
    pub open spec fn fillable(&self, row: int, col: int) -> bool {
        0 <= row < self.side() && 0 <= col < self.side() && (self.self_connections_allowed || row
            != col) && (self.directed || col <= row)
    }

    pub open spec fn wf(&self) -> bool {
        &&& self.n <= MAX_EXPONENT
        &&& self.propabilities.wf()
        &&& self.dest_density <= SCALE
        &&& self.mat().len() == self.side()
        &&& forall|r: int| 0 <= r < self.side() ==> (#[trigger] self.mat()[r]).len() == self.side()
        &&& forall|r: int, c: int|
            0 <= r < self.side() && 0 <= c < self.side() && #[trigger] self.cell(r, c)
                ==> self.fillable(r, c)
    }

    /// Number of edges held.
    pub open spec fn edge_count(&self) -> nat {
        mat_count(self.mat())
    }

    /// Number of edges that a fill aims at: the fraction `dest_density` of
    /// the fillable cells, rounded down.
    pub open spec fn target_edges(&self) -> nat {
        fillable_count(self.side(), self.directed, self.self_connections_allowed) * self.dest_density as nat
            / SCALE as nat
    }

    /// Every fillable cell holds an edge.
    pub open spec fn full(&self) -> bool {
        forall|r: int, c: int| #[trigger] self.fillable(r, c) ==> self.cell(r, c)
    }

    /// No edge of `before` is gone from `self`.
    pub open spec fn keeps(&self, before: &Graph) -> bool {
        forall|r: int, c: int|
            0 <= r < before.side() && 0 <= c < before.side() && #[trigger] before.cell(r, c) ==> self.cell(r, c)
    }

    /// The cells that count towards the degree of vertex `v`: its row when
    /// directed, else its row and column folded onto the lower triangle.
    pub open spec fn degree_row(&self, v: int) -> Seq<bool> {
        if self.directed {
            self.mat()[v]
        } else {
            sym_row(self.mat(), v)
        }
    }

    /// Out-degree of `v` when directed; number of incident edges otherwise.
    pub open spec fn degree(&self, v: int) -> nat {
        row_count(self.degree_row(v))
    }

    /// Density as numerator and denominator: edges over `v^2`, `v(v-1)`
    /// without self connections, and twice the edges over `v(v+1)` or
    /// `v(v-1)` when undirected, for `v` vertices.
    pub open spec fn density_parts(&self) -> (nat, nat) {
        let v = self.side();
        let e = self.edge_count();
        if self.directed {
            if self.self_connections_allowed {
                (e, v * v)
            } else {
                (e, (v * (v - 1)) as nat)
            }
        } else {
            if self.self_connections_allowed {
                (2 * e, v * (v + 1))
            } else {
                (2 * e, (v * (v - 1)) as nat)
            }
        }
    }

    /// The settings that no placement changes.
    pub open spec fn same_settings(&self, other: &Graph) -> bool {
        &&& self.directed == other.directed
        &&& self.self_connections_allowed == other.self_connections_allowed
        &&& self.n == other.n
        &&& self.propabilities == other.propabilities
        &&& self.dest_density == other.dest_density
    }

    /// Every fillable cell of the region already holds an edge.
    pub open spec fn filled_in(&self, start_x: int, start_y: int, size: int, ignore_b: bool) -> bool {
        forall|r: int, c: int|
            in_reach(start_x, start_y, size, ignore_b, r, c) && self.fillable(r, c) ==> #[trigger] self.cell(r, c)
    }

    /// `self` is `before` with the one free cell `(row, col)` set.
    pub open spec fn sets_one(&self, before: &Graph, row: int, col: int) -> bool {
        &&& before.fillable(row, col)
        &&& !before.cell(row, col)
        &&& self.mat() == before.mat().update(row, before.mat()[row].update(col, true))
    }

    /// An empty graph on `2^n` vertices.
    pub fn new(
        directed: bool,
        self_connections_allowed: bool,
        n: u32,
        propabilities: Propabilities,
        dest_density: u64,
    ) -> (g: Graph)
        requires
            n <= MAX_EXPONENT,
            propabilities.wf(),
            dest_density <= SCALE,
        ensures
            g.wf(),
            g.directed == directed,
            g.self_connections_allowed == self_connections_allowed,
            g.n == n,
            g.propabilities == propabilities,
            g.dest_density == dest_density,
            forall|r: int, c: int| 0 <= r < g.side() && 0 <= c < g.side() ==> !#[trigger] g.cell(r, c),
    {
        let mut side: usize = 1;
        let mut i: u32 = 0;
        while i < n
            invariant
                i <= n <= MAX_EXPONENT,
                side == pow2(i as nat),
            decreases n - i,
        {
            proof {
                lemma_pow2_mono(i as nat, 14);
                reveal_with_fuel(pow2, 15);
            }
            side = side * 2;
            i = i + 1;
        }
        let mut connections: Vec<Vec<bool>> = Vec::new();
        while connections.len() < side
            invariant
                connections.len() <= side,
                forall|r: int| 0 <= r < connections.len() ==> (#[trigger] connections@[r]@) =~= Seq::new(side as nat, |c: int| false),
            decreases side - connections.len(),
        {
            let mut row: Vec<bool> = Vec::new();
            while row.len() < side
                invariant
                    row.len() <= side,
                    forall|c: int| 0 <= c < row.len() ==> !#[trigger] row@[c],
                decreases side - row.len(),
            {
                row.push(false);
            }
            assert(row@ =~= Seq::new(side as nat, |c: int| false));
            connections.push(row);
        }
        let g = Graph { directed, self_connections_allowed, connections, n, propabilities, dest_density };
        assert(forall|r: int| 0 <= r < g.side() ==> #[trigger] g.mat()[r] == g.connections@[r]@);
        g
    }

    /// Whether cell `(row, col)` holds an edge.
    pub fn get(&self, row: usize, col: usize) -> (b: bool)
        requires
            self.wf(),
            row < self.side(),
            col < self.side(),
        ensures
            b == self.cell(row as int, col as int),
    {
        assert(self.mat()[row as int] == self.connections@[row as int]@);
        self.connections[row][col]
    }

    /// Whether cell `(row, col)` may hold an edge in this graph.
    pub fn is_fillable(&self, row: usize, col: usize) -> (b: bool)
        requires
            self.wf(),
            row < self.side(),
            col < self.side(),
        ensures
            b == self.fillable(row as int, col as int),
    {
        (self.self_connections_allowed || row != col) && (self.directed || col <= row)
    }

    /// Sets the free fillable cell `(row, col)`.
    pub fn set(&mut self, row: usize, col: usize)
        requires
            old(self).wf(),
            old(self).fillable(row as int, col as int),
            !old(self).cell(row as int, col as int),
        ensures
            final(self).wf(),
            final(self).same_settings(old(self)),
            final(self).sets_one(old(self), row as int, col as int),
            final(self).edge_count() == old(self).edge_count() + 1,
    {
        assert(self.mat()[row as int] == self.connections@[row as int]@);
        self.connections[row].set(col, true);
        proof {
            let r = row as int;
            let c = col as int;
            assert(self.mat() =~= old(self).mat().update(r, old(self).mat()[r].update(c, true)));
            assert(forall|i: int| 0 <= i < self.side() ==> #[trigger] self.mat()[i].len() == old(self).mat()[i].len());
            assert(forall|i: int, j: int| 0 <= i < self.side() && 0 <= j < self.side() && #[trigger] self.cell(i, j)
                ==> (old(self).cell(i, j) || (i == r && j == c)));
            lemma_mat_count_set(old(self).mat(), r, c);
        }
    }

    /// Counts the edges, the density and the degree of every vertex.
    pub fn get_stats(&self) -> (st: GraphStats)
        requires
            self.wf(),
        ensures
            st.edges == self.edge_count(),
            st.vertices == self.side(),
            (st.density_num as nat, st.density_den as nat) == self.density_parts(),
            st.degrees@.len() == self.side(),
            forall|v: int| 0 <= v < self.side() ==> #[trigger] st.degrees@[v] == self.degree(v),
    {
        let side = self.connections.len();
        proof {
            lemma_side_bound(self.n as nat);
        }
        let ghost m = self.mat();
        let mut edges: usize = 0;
        let mut degrees: Vec<u32> = Vec::new();
        let mut y: usize = 0;
        while y < side
            invariant
                self.wf(),
                m == self.mat(),
                side == self.side(),
                side <= 32768,
                y <= side,
                edges == mat_count(m.subrange(0, y as int)),
                edges <= y * side,
                degrees@.len() == y,
                forall|v: int| 0 <= v < y ==> #[trigger] degrees@[v] == self.degree(v),
            decreases side - y,
        {
            let mut cnt: usize = 0;
            let mut deg: u32 = 0;
            let mut x: usize = 0;
            assert(m[y as int] == self.connections@[y as int]@);
            while x < side
                invariant
                    self.wf(),
                    m == self.mat(),
                    side == self.side(),
                    side <= 32768,
                    y < side,
                    x <= side,
                    m[y as int] == self.connections@[y as int]@,
                    cnt == row_count(m[y as int].subrange(0, x as int)),
                    deg == row_count(self.degree_row(y as int).subrange(0, x as int)),
                    cnt <= x,
                    deg <= x,
                decreases side - x,
            {
                let here = self.connections[y][x];
                if here {
                    cnt = cnt + 1;
                }
                let counted = if self.directed || x <= y {
                    here
                } else {
                    assert(m[x as int] == self.connections@[x as int]@);
                    self.connections[x][y]
                };
                if counted {
                    deg = deg + 1;
                }
                proof {
                    assert(m[y as int].subrange(0, x + 1).drop_last() =~= m[y as int].subrange(0, x as int));
                    assert(self.degree_row(y as int).subrange(0, x + 1).drop_last() =~= self.degree_row(
                        y as int,
                    ).subrange(0, x as int));
                }
                x = x + 1;
            }
            proof {
                assert(m[y as int].subrange(0, side as int) =~= m[y as int]);
                assert(self.degree_row(y as int).subrange(0, side as int) =~= self.degree_row(y as int));
                assert(m.subrange(0, y + 1).drop_last() =~= m.subrange(0, y as int));
                assert(edges + cnt <= (y + 1) * side) by (nonlinear_arith)
                    requires
                        edges <= y * side,
                        cnt <= side,
                ;
                assert((y + 1) * side <= side * side) by (nonlinear_arith)
                    requires
                        y < side,
                ;
                assert(side * side <= 32768 * 32768) by (nonlinear_arith)
                    requires
                        side <= 32768,
                ;
            }
            edges = edges + cnt;
            degrees.push(deg);
            y = y + 1;
        }
        proof {
            assert(m.subrange(0, side as int) =~= m);
            assert(side * (side + 1) <= 32768 * 32769) by (nonlinear_arith)
                requires
                    side <= 32768,
            ;
            assert(edges <= side * side);
            assert(side * side <= 32768 * 32768) by (nonlinear_arith)
                requires
                    side <= 32768,
            ;
            assert(side * (side - 1) <= side * side) by (nonlinear_arith)
                requires
                    side >= 1,
            ;
        }
        let (density_num, density_den) = if self.directed {
            if self.self_connections_allowed {
                (edges, side * side)
            } else {
                (edges, side * (side - 1))
            }
        } else {
            if self.self_connections_allowed {
                (2 * edges, side * (side + 1))
            } else {
                (2 * edges, side * (side - 1))
            }
        };
        GraphStats { density_num, density_den, edges, vertices: side, degrees }
    }

    /// The matrix as text: one line per row, `"1 "` for an edge and `"0 "`
    /// for none.
    pub fn to_string(&self) -> (t: String)
        requires
            self.wf(),
        ensures
            t@ == mat_text(self.mat()),
    {
        let side = self.connections.len();
        let ghost m = self.mat();
        let mut t = String::new();
        let mut y: usize = 0;
        while y < side
            invariant
                self.wf(),
                m == self.mat(),
                side == self.side(),
                y <= side,
                t@ == mat_text(m.subrange(0, y as int)),
            decreases side - y,
        {
            let ghost before = t@;
            assert(m[y as int] == self.connections@[y as int]@);
            let mut x: usize = 0;
            while x < side
                invariant
                    self.wf(),
                    m == self.mat(),
                    side == self.side(),
                    y < side,
                    x <= side,
                    m[y as int] == self.connections@[y as int]@,
                    t@ == before + row_text(m[y as int].subrange(0, x as int)),
                decreases side - x,
            {
                proof {
                    reveal_strlit("1 ");
                    reveal_strlit("0 ");
                    assert(m[y as int].subrange(0, x + 1).drop_last() =~= m[y as int].subrange(0, x as int));
                }
                if self.connections[y][x] {
                    t.append("1 ");
                } else {
                    t.append("0 ");
                }
                proof {
                    let s = m[y as int].subrange(0, x + 1);
                    assert(row_text(s) == row_text(s.drop_last()) + (if s.last() {
                        seq!['1', ' ']
                    } else {
                        seq!['0', ' ']
                    }));
                    assert(t@ =~= before + row_text(s));
                }
                x = x + 1;
            }
            proof {
                reveal_strlit("\n");
                assert(m[y as int].subrange(0, side as int) =~= m[y as int]);
                assert(m.subrange(0, y + 1).drop_last() =~= m.subrange(0, y as int));
            }
            t.append("\n");
            proof {
                assert(t@ =~= mat_text(m.subrange(0, y + 1)));
            }
            y = y + 1;
        }
        proof {
            assert(m.subrange(0, side as int) =~= m);
        }
        t
    }

    /// Places one edge anywhere in the matrix: sets one free fillable cell
    /// and returns `true`, or returns `false`, with nothing changed, when the
    /// graph is full.
    pub fn poke(&mut self) -> (found: bool)
        requires
            old(self).wf(),
        ensures
            final(self).wf(),
            final(self).same_settings(old(self)),
            found ==> exists|r: int, c: int| #[trigger] final(self).sets_one(old(self), r, c),
            found ==> final(self).edge_count() == old(self).edge_count() + 1,
            found ==> final(self).keeps(old(self)),
            !found ==> final(self).mat() == old(self).mat(),
            !found <==> old(self).full(),
    {
        let size = self.connections.len();
        proof {
            lemma_pow2_is_pow2(self.n as nat);
        }
        let found = self.poke_range(0, 0, size, !self.directed);
        proof {
            if found {
                let (r, c) = choose|r: int, c: int|
                    in_reach(0, 0, size as int, !self.directed, r, c) && #[trigger] self.sets_one(old(self), r, c);
                assert(!old(self).full()) by {
                    assert(old(self).fillable(r, c));
                }
            } else {
                assert forall|r: int, c: int| #[trigger] old(self).fillable(r, c) implies old(self).cell(r, c) by {
                    assert(in_reach(0, 0, size as int, !self.directed, r, c));
                }
            }
        }
        found
    }

    /// Fills the graph towards its target density: places edges one at a
    /// time until `target_edges` of them have been placed or no free
    /// fillable cell is left. Returns how many were placed.
    pub fn fill(&mut self) -> (filled: usize)
        requires
            old(self).wf(),
        ensures
            final(self).wf(),
            final(self).same_settings(old(self)),
            final(self).keeps(old(self)),
            filled <= old(self).target_edges(),
            filled == old(self).target_edges() || final(self).full(),
            final(self).edge_count() == old(self).edge_count() + filled,
    {
        let side = self.connections.len();
        proof {
            lemma_side_bound(self.n as nat);
            assert(side * side <= 32768 * 32768) by (nonlinear_arith)
                requires
                    side <= 32768,
            ;
            assert(side <= side * side) by (nonlinear_arith)
                requires
                    side >= 1,
            ;
        }
        let mut total_fillable: u64 = (side * side - side) as u64;
        if !self.directed {
            total_fillable = total_fillable / 2;
        }
        if self.self_connections_allowed {
            total_fillable = total_fillable + side as u64;
        }
        let density = self.dest_density;
        proof {
            assert(total_fillable <= 32768 * 32768 + 32768);
            assert(total_fillable * density <= (32768 * 32768 + 32768) * SCALE) by (nonlinear_arith)
                requires
                    total_fillable <= 32768 * 32768 + 32768,
                    density <= SCALE,
            ;
            assert(total_fillable * density / SCALE as int <= total_fillable) by (nonlinear_arith)
                requires
                    density <= SCALE,
            ;
        }
        let to_fill = ((total_fillable * density) / SCALE) as usize;
        let mut filled: usize = 0;
        while filled < to_fill
            invariant
                self.wf(),
                self.same_settings(old(self)),
                self.keeps(old(self)),
                to_fill == old(self).target_edges(),
                filled <= to_fill,
                self.edge_count() == old(self).edge_count() + filled,
            decreases to_fill - filled,
        {
            let ghost before = *self;
            if !self.poke() {
                proof {
                    assert forall|r: int, c: int| #[trigger] self.fillable(r, c) implies self.cell(r, c) by {
                        assert(before.fillable(r, c));
                    }
                }
                return filled;
            }
            proof {
                assert forall|r: int, c: int|
                    0 <= r < old(self).side() && 0 <= c < old(self).side() && #[trigger] old(self).cell(r, c)
                        implies self.cell(r, c) by {
                    assert(before.cell(r, c));
                }
            }
            filled = filled + 1;
        }
        filled
    }

    /// Places one edge in the square region of side `size` whose top-left
    /// cell is `(start_y, start_x)` (row, column), by descending into
    /// quadrants drawn at random until a single cell is reached. A quadrant
    /// that holds no free cell is left for another one not tried yet. With
    /// `ignore_b` the top-right quadrant is never entered: a draw of it goes
    /// to the bottom-left one, and the restriction holds on in the quadrants
    /// that straddle the diagonal.
    ///
    /// Sets exactly one free fillable cell of the region and returns `true`,
    /// or returns `false`, with nothing changed, when every fillable cell of
    /// the region is set already. A cell that is not fillable is never set.
    pub fn poke_range(&mut self, start_x: usize, start_y: usize, size: usize, ignore_b: bool) -> (found: bool)
        requires
            old(self).wf(),
            is_pow2(size as nat),
            start_x + size <= old(self).side(),
            start_y + size <= old(self).side(),
        ensures
            final(self).wf(),
            final(self).same_settings(old(self)),
            final(self).keeps(old(self)),
            final(self).edge_count() == old(self).edge_count() + if found {
                1nat
            } else {
                0
            },
            found ==> exists|r: int, c: int|
                in_reach(start_x as int, start_y as int, size as int, ignore_b, r, c)
                    && #[trigger] final(self).sets_one(old(self), r, c),
            !found ==> final(self).mat() == old(self).mat(),
            !found <==> old(self).filled_in(start_x as int, start_y as int, size as int, ignore_b),
        decreases size,
    {
        if size == 1 {
            if !self.self_connections_allowed && start_x == start_y {
                return false;
            }
            if !self.directed && start_x > start_y {
                return false;
            }
            assert(self.mat()[start_y as int] == self.connections@[start_y as int]@);
            if self.connections[start_y][start_x] {
                return false;
            }
            self.connections[start_y].set(start_x, true);
            proof {
                let r = start_y as int;
                let c = start_x as int;
                assert(self.mat() =~= old(self).mat().update(r, old(self).mat()[r].update(c, true)));
                assert(self.sets_one(old(self), r, c));
                assert(forall|i: int| 0 <= i < self.side() ==> #[trigger] self.mat()[i].len() == old(self).mat()[i].len());
                assert(forall|i: int, j: int| 0 <= i < self.side() && 0 <= j < self.side() && #[trigger] self.cell(i, j)
                    ==> (old(self).cell(i, j) || (i == r && j == c)));
                lemma_mat_count_set(old(self).mat(), r, c);
                assert forall|i: int, j: int|
                    0 <= i < old(self).side() && 0 <= j < old(self).side() && #[trigger] old(self).cell(i, j)
                        implies self.cell(i, j) by {
                    if i == r {
                        assert(self.mat()[i] == old(self).mat()[i].update(c, true));
                    } else {
                        assert(self.mat()[i] == old(self).mat()[i]);
                    }
                }
            }
            return true;
        }
        proof {
            assert(size % 2 == 0 && is_pow2((size / 2) as nat));
            lemma_side_bound(self.n as nat);
        }
        let half = size / 2;
        let mut searched = [false, ignore_b, false, false];
        loop
            invariant
                self.wf(),
                self.same_settings(old(self)),
                self.mat() == old(self).mat(),
                self.side() <= 32768,
                size > 1,
                size == 2 * half,
                is_pow2(half as nat),
                start_x + size <= old(self).side(),
                start_y + size <= old(self).side(),
                ignore_b ==> searched@[1],
                forall|q: int|
                    0 <= q < 4 && #[trigger] searched@[q] && !(ignore_b && q == 1) ==> self.filled_in(
                        quarter_x(start_x as int, half as int, q),
                        quarter_y(start_y as int, half as int, q),
                        half as int,
                        ignore_b && q != 2,
                    ),
            decreases
                (if searched@[0] { 0int } else { 1 }) + (if searched@[1] { 0int } else { 1 }) + (if searched@[2] { 0int } else { 1 })
                    + (if searched@[3] { 0int } else { 1 }),
        {
            if searched[0] && searched[1] && searched[2] && searched[3] {
                proof {
                    assert forall|r: int, c: int|
                        in_reach(start_x as int, start_y as int, size as int, ignore_b, r, c) && self.fillable(r, c)
                            implies #[trigger] self.cell(r, c) by {
                        let qr: int = if r >= start_y + half { 1 } else { 0 };
                        let qc: int = if c >= start_x + half { 1 } else { 0 };
                        let q = 2 * qr + qc;
                        assert(searched@[q]);
                        assert(in_reach(
                            quarter_x(start_x as int, half as int, q),
                            quarter_y(start_y as int, half as int, q),
                            half as int,
                            ignore_b && q != 2,
                            r,
                            c,
                        ));
                    }
                    assert forall|r: int, c: int|
                        in_reach(start_x as int, start_y as int, size as int, ignore_b, r, c) && old(self).fillable(r, c)
                            implies #[trigger] old(self).cell(r, c) by {
                        assert(self.cell(r, c));
                    }
                }
                return false;
            }
            let q = self.propabilities.next_quarter(searched, ignore_b);
            let ghost prev = searched;
            searched = [
                searched[0] || q == 0,
                searched[1] || q == 1,
                searched[2] || q == 2,
                searched[3] || q == 3,
            ];
            let sub_x = if q % 2 == 1 { start_x + half } else { start_x };
            let sub_y = if q > 1 { start_y + half } else { start_y };
            let sub_ignore = ignore_b && q != 2;
            let ghost before = *self;
            if self.poke_range(sub_x, sub_y, half, sub_ignore) {
                proof {
                    let (r, c) = choose|r: int, c: int|
                        in_reach(sub_x as int, sub_y as int, half as int, sub_ignore, r, c)
                            && #[trigger] self.sets_one(&before, r, c);
                    assert(in_reach(start_x as int, start_y as int, size as int, ignore_b, r, c));
                    assert(self.sets_one(old(self), r, c));
                    assert forall|i: int, j: int|
                        0 <= i < old(self).side() && 0 <= j < old(self).side() && #[trigger] old(self).cell(i, j)
                            implies self.cell(i, j) by {
                        assert(before.cell(i, j));
                    }
                }
                return true;
            }
            proof {
                assert(sub_x == quarter_x(start_x as int, half as int, q as int));
                assert(sub_y == quarter_y(start_y as int, half as int, q as int));
                assert forall|q2: int|
                    0 <= q2 < 4 && #[trigger] searched@[q2] && !(ignore_b && q2 == 1) implies self.filled_in(
                        quarter_x(start_x as int, half as int, q2),
                        quarter_y(start_y as int, half as int, q2),
                        half as int,
                        ignore_b && q2 != 2,
                    ) by {
                    assert forall|r: int, c: int|
                        in_reach(
                            quarter_x(start_x as int, half as int, q2),
                            quarter_y(start_y as int, half as int, q2),
                            half as int,
                            ignore_b && q2 != 2,
                            r,
                            c,
                        ) && self.fillable(r, c) implies #[trigger] self.cell(r, c) by {
                        if q2 != q {
                            assert(prev@[q2]);
                        }
                        assert(before.cell(r, c));
                    }
                }
            }
        }
    }
}

/// Without self connections no vertex is ever joined to itself: every
/// well-formed graph, and so every graph that a fill leaves, has an empty
/// diagonal.
pub proof fn lemma_diagonal_empty(g: Graph)
    requires
        g.wf(),
        !g.self_connections_allowed,
    ensures
        forall|i: int| 0 <= i < g.side() ==> !#[trigger] g.cell(i, i),
{
}

/// In an undirected graph one stored edge between two distinct vertices adds
/// one to the degree of each of them, and leaves the other degrees as they
/// were.
pub proof fn lemma_undirected_edge_degrees(before: Graph, after: Graph, r: int, c: int)
    requires
        before.wf(),
        !before.directed,
        after.same_settings(&before),
        after.sets_one(&before, r, c),
        r != c,
    ensures
        after.degree(r) == before.degree(r) + 1,
        after.degree(c) == before.degree(c) + 1,
        forall|v: int| 0 <= v < before.side() && v != r && v != c ==> #[trigger] after.degree(v) == before.degree(v),
{
    let m = before.mat();
    let m2 = after.mat();
    assert(c < r);
    assert(m2[r] == m[r].update(c, true));
    assert(sym_row(m2, r) =~= sym_row(m, r).update(c, true));
    lemma_row_count_set(sym_row(m, r), c);
    assert(sym_row(m2, c) =~= sym_row(m, c).update(r, true));
    lemma_row_count_set(sym_row(m, c), r);
    assert forall|v: int| 0 <= v < before.side() && v != r && v != c implies #[trigger] after.degree(v)
        == before.degree(v) by {
        assert(sym_row(m2, v) =~= sym_row(m, v));
    }
}

/// Fillable cells of row `r` of a graph, as a row mask.
pub open spec fn fillable_row(side: nat, directed: bool, self_connections_allowed: bool, r: int) -> Seq<bool> {
    Seq::new(
        side,
        |c: int| (self_connections_allowed || r != c) && (directed || c <= r),
    )
}

/// Number of fillable cells in the first `k` rows.
pub open spec fn fillable_in_rows(side: nat, directed: bool, self_connections_allowed: bool, k: int) -> nat
    decreases k,
{
    if k <= 0 {
        0
    } else {
        fillable_in_rows(side, directed, self_connections_allowed, k - 1) + row_count(
            fillable_row(side, directed, self_connections_allowed, k - 1),
        )
    }
}

proof fn lemma_row_count_mask(len: nat, hi: int, b: bool, r: int)
    requires
        0 <= r < hi,
    ensures
        row_count(Seq::new(len, |c: int| c < hi && (b || c != r))) == (if len < hi { len as int } else { hi })
            - (if !b && r < len { 1int } else { 0 }),
    decreases len,
{
    let s = Seq::new(len, |c: int| c < hi && (b || c != r));
    if len > 0 {
        lemma_row_count_mask((len - 1) as nat, hi, b, r);
        assert(s.drop_last() =~= Seq::new((len - 1) as nat, |c: int| c < hi && (b || c != r)));
    }
}

proof fn lemma_row_count_sub(s: Seq<bool>, t: Seq<bool>, i: int)
    requires
        s.len() == t.len(),
        forall|j: int| 0 <= j < s.len() && #[trigger] s[j] ==> t[j],
    ensures
        row_count(s) <= row_count(t),
        0 <= i < s.len() && t[i] && !s[i] ==> row_count(s) < row_count(t),
    decreases s.len(),
{
    if s.len() > 0 {
        lemma_row_count_sub(s.drop_last(), t.drop_last(), i);
    }
}

proof fn lemma_fillable_row_count(side: nat, directed: bool, self_connections_allowed: bool, r: int)
    requires
        0 <= r < side,
    ensures
        row_count(fillable_row(side, directed, self_connections_allowed, r)) == (if directed {
            side as int
        } else {
            r + 1
        }) - (if self_connections_allowed { 0int } else { 1 }),
{
    let hi: int = if directed { side as int } else { r + 1 };
    lemma_row_count_mask(side, hi, self_connections_allowed, r);
    assert(fillable_row(side, directed, self_connections_allowed, r) =~= Seq::new(
        side,
        |c: int| c < hi && (self_connections_allowed || c != r),
    ));
}

proof fn lemma_fillable_in_rows(side: nat, directed: bool, self_connections_allowed: bool, k: int)
    requires
        0 <= k <= side,
    ensures
        2 * fillable_in_rows(side, directed, self_connections_allowed, k) == (if directed {
            2 * k * side
        } else {
            k * (k + 1)
        }) - (if self_connections_allowed { 0int } else { 2 * k }),
    decreases k,
{
    if k > 0 {
        lemma_fillable_in_rows(side, directed, self_connections_allowed, k - 1);
        lemma_fillable_row_count(side, directed, self_connections_allowed, k - 1);
        assert(k * (k + 1) == (k - 1) * k + 2 * k) by (nonlinear_arith);
        assert(2 * k * side == 2 * (k - 1) * side + 2 * side) by (nonlinear_arith);
    }
}

proof fn lemma_fillable_total(side: nat, directed: bool, self_connections_allowed: bool)
    ensures
        fillable_in_rows(side, directed, self_connections_allowed, side as int) == fillable_count(
            side,
            directed,
            self_connections_allowed,
        ),
{
    lemma_fillable_in_rows(side, directed, self_connections_allowed, side as int);
    assert(side * side >= side) by (nonlinear_arith);
    assert(side * (side + 1) == (side * side - side) + 2 * side) by (nonlinear_arith);
    assert(2 * side * side == 2 * (side * side)) by (nonlinear_arith);
}

proof fn lemma_count_below_fillable(g: Graph, k: int, r: int, c: int)
    requires
        g.wf(),
        0 <= k <= g.side(),
    ensures
        mat_count(g.mat().subrange(0, k)) <= fillable_in_rows(
            g.side(),
            g.directed,
            g.self_connections_allowed,
            k,
        ),
        0 <= r < k && g.fillable(r, c) && !g.cell(r, c) ==> mat_count(g.mat().subrange(0, k)) < fillable_in_rows(
            g.side(),
            g.directed,
            g.self_connections_allowed,
            k,
        ),
    decreases k,
{
    if k > 0 {
        lemma_count_below_fillable(g, k - 1, r, c);
        let m = g.mat();
        assert(m.subrange(0, k).drop_last() =~= m.subrange(0, k - 1));
        let f = fillable_row(g.side(), g.directed, g.self_connections_allowed, k - 1);
        assert forall|j: int| 0 <= j < m[k - 1].len() && #[trigger] m[k - 1][j] implies f[j] by {
            assert(g.cell(k - 1, j));
        }
        lemma_row_count_sub(m[k - 1], f, c);
    }
}

/// A graph that holds as many edges as it has fillable cells is full.
pub proof fn lemma_count_full(g: Graph)
    requires
        g.wf(),
        g.edge_count() >= fillable_count(g.side(), g.directed, g.self_connections_allowed),
    ensures
        g.full(),
{
    lemma_fillable_total(g.side(), g.directed, g.self_connections_allowed);
    assert(g.mat().subrange(0, g.side() as int) =~= g.mat());
    assert forall|r: int, c: int| #[trigger] g.fillable(r, c) implies g.cell(r, c) by {
        lemma_count_below_fillable(g, g.side() as int, r, c);
    }
}

/// A fill at full density ends with every fillable cell set, whatever
/// edges the graph held before.
pub proof fn lemma_full_density_fills(before: Graph, after: Graph, filled: nat)
    requires
        before.wf(),
        after.wf(),
        after.same_settings(&before),
        before.dest_density == SCALE,
        after.edge_count() == before.edge_count() + filled,
        filled == before.target_edges() || after.full(),
    ensures
        after.full(),
{
    if !after.full() {
        assert(before.target_edges() == fillable_count(before.side(), before.directed, before.self_connections_allowed));
        lemma_count_full(after);
    }
}

} // verus!
