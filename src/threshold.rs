use vstd::prelude::*;

verus! {

/// Largest side a threshold map may have.
pub const MAX_MAP_SIZE: usize = 256;

/// Why a list of rows is not a threshold map.
#[derive(Clone, Copy, Debug, PartialEq, Eq, Structural)]
pub enum ConfigError {
    /// The map has no rows.
    Empty,
    /// The map has more rows than `MAX_MAP_SIZE`.
    TooLarge,
    /// Some row's length differs from the number of rows.
    NotSquare,
    /// Some value is not below the number of cells.
    OutOfRange,
    /// Some value appears twice.
    Duplicate,
}

/// An N×N matrix holding every integer of `0..N²` exactly once, stored row by
/// row: the value for tile position `(x mod N, y mod N)` is `cells[x * N + y]`.
pub struct ThresholdMap {
    size: usize,
    cells: Vec<usize>,
}

pub open spec fn rows_square(rows: Seq<Vec<usize>>) -> bool {
    forall|i: int| 0 <= i < rows.len() ==> (#[trigger] rows[i])@.len() == rows.len()
}

/// Every value of the rows, row by row.
pub open spec fn flatten(rows: Seq<Vec<usize>>) -> Seq<usize>
    decreases rows.len(),
{
    if rows.len() == 0 {
        Seq::empty()
    } else {
        flatten(rows.drop_last()) + rows.last()@
    }
}

/// Each value is below `cells.len()` and no value appears twice.
pub open spec fn is_ranking(cells: Seq<usize>) -> bool {
    &&& forall|i: int| 0 <= i < cells.len() ==> (#[trigger] cells[i]) < cells.len()
    &&& forall|i: int, j: int|
        0 <= i < cells.len() && 0 <= j < cells.len() && i != j ==> cells[i] != cells[j]
}

/// The outcome of building a map from its rows.
pub open spec fn map_from_rows(rows: Seq<Vec<usize>>) -> Result<Seq<usize>, ConfigError> {
    if rows.len() == 0 {
        Err(ConfigError::Empty)
    } else if rows.len() > MAX_MAP_SIZE {
        Err(ConfigError::TooLarge)
    } else if !rows_square(rows) {
        Err(ConfigError::NotSquare)
    } else if exists|i: int|
        0 <= i < flatten(rows).len() && #[trigger] flatten(rows)[i] >= flatten(rows).len() {
        Err(ConfigError::OutOfRange)
    } else if !is_ranking(flatten(rows)) {
        Err(ConfigError::Duplicate)
    } else {
        Ok(flatten(rows))
    }
}

proof fn lemma_flatten_len(rows: Seq<Vec<usize>>, n: int)
    requires
        forall|i: int| 0 <= i < rows.len() ==> (#[trigger] rows[i])@.len() == n,
    ensures
        flatten(rows).len() == rows.len() * n,
    decreases rows.len(),
{
    if rows.len() > 0 {
        assert(forall|i: int|
            0 <= i < rows.drop_last().len() ==> (#[trigger] rows.drop_last()[i]) == rows[i]);
        lemma_flatten_len(rows.drop_last(), n);
        assert(rows.len() * n == (rows.len() - 1) * n + n) by (nonlinear_arith);
    }
}

impl ThresholdMap {
    pub closed spec fn side(&self) -> nat {
        self.size as nat
    }

    /// The values row by row.
    pub closed spec fn cells(&self) -> Seq<usize> {
        self.cells@
    }

    pub open spec fn wf(&self) -> bool {
        &&& 1 <= self.side() <= MAX_MAP_SIZE
        &&& self.cells().len() == self.side() * self.side()
        &&& is_ranking(self.cells())
    }

    /// The rank selected at pixel `(x, y)`.
    pub open spec fn rank_at(&self, x: int, y: int) -> int {
        self.cells()[(x % self.side() as int) * self.side() as int + (y % self.side() as int)] as int
    }

    pub fn size(&self) -> (r: usize)
        ensures
            r == self.side(),
    {
        self.size
    }

    /// Builds a map from its rows, provided it is square and its
    /// values are exactly `0..N²`.
    pub fn new(rows: &Vec<Vec<usize>>) -> (r: Result<ThresholdMap, ConfigError>)
        ensures
            match (r, map_from_rows(rows@)) {
                (Ok(m), Ok(cells)) => m.wf() && m.side() == rows@.len() && m.cells() == cells,
                (Err(e), Err(f)) => e == f,
                _ => false,
            },
    {
        let n = rows.len();
        if n == 0 {
            return Err(ConfigError::Empty);
        }
        if n > MAX_MAP_SIZE {
            return Err(ConfigError::TooLarge);
        }
        let mut i: usize = 0;
        while i < n
            invariant
                n == rows@.len(),
                1 <= n <= MAX_MAP_SIZE,
                i <= n,
                forall|j: int| 0 <= j < i ==> (#[trigger] rows@[j])@.len() == n,
            decreases n - i,
        {
            if rows[i].len() != n {
                assert(!rows_square(rows@)) by {
                    assert(rows@[i as int]@.len() != rows@.len());
                }
                return Err(ConfigError::NotSquare);
            }
            i = i + 1;
        }
        proof {
            lemma_flatten_len(rows@, n as int);
        }
        assert(n * n <= MAX_MAP_SIZE * MAX_MAP_SIZE) by (nonlinear_arith)
            requires
                n <= MAX_MAP_SIZE,
        ;
        let total = n * n;
        let mut cells: Vec<usize> = Vec::new();
        let mut r: usize = 0;
        while r < n
            invariant
                n == rows@.len(),
                r <= n,
                rows_square(rows@),
                cells@ == flatten(rows@.take(r as int)),
            decreases n - r,
        {
            let row = &rows[r];
            let mut c: usize = 0;
            let ghost before = cells@;
            while c < n
                invariant
                    n == rows@.len(),
                    r < n,
                    row@.len() == n,
                    row == rows@[r as int],
                    c <= n,
                    cells@ == before + row@.take(c as int),
                decreases n - c,
            {
                cells.push(row[c]);
                c = c + 1;
                assert(cells@ == before + row@.take(c as int));
            }
            assert(row@.take(n as int) == row@);
            assert(rows@.take(r + 1).drop_last() == rows@.take(r as int));
            r = r + 1;
        }
        assert(rows@.take(n as int) == rows@);
        let mut seen: Vec<bool> = Vec::new();
        let mut k: usize = 0;
        while k < total
            invariant
                seen@.len() == k,
                k <= total,
                forall|j: int| 0 <= j < k ==> !(#[trigger] seen@[j]),
            decreases total - k,
        {
            seen.push(false);
            k = k + 1;
        }
        let mut i: usize = 0;
        while i < total
            invariant
                n == rows@.len(),
                1 <= n <= MAX_MAP_SIZE,
                rows_square(rows@),
                cells@ == flatten(rows@),
                cells@.len() == total,
                seen@.len() == total,
                i <= total,
                forall|j: int| 0 <= j < i ==> (#[trigger] cells@[j]) < total,
                forall|v: int|
                    0 <= v < total ==> (#[trigger] seen@[v] <==> exists|j: int|
                        0 <= j < i && cells@[j] == v),
                forall|j1: int, j2: int|
                    0 <= j1 < i && 0 <= j2 < i && j1 != j2 ==> cells@[j1] != cells@[j2],
            decreases total - i,
        {
            let v = cells[i];
            if v >= total {
                assert(exists|q: int| 0 <= q < flatten(rows@).len() && #[trigger] flatten(rows@)[q] >= flatten(rows@).len()) by {
                    assert(flatten(rows@)[i as int] >= flatten(rows@).len());
                }
                return Err(ConfigError::OutOfRange);
            }
            if seen[v] {
                // Duplicates are reported only once every value is known to be in range.
                let mut j: usize = i + 1;
                while j < total
                    invariant
                        n == rows@.len(),
                        1 <= n <= MAX_MAP_SIZE,
                        rows_square(rows@),
                        cells@ == flatten(rows@),
                        cells@.len() == total,
                        i < j <= total,
                        forall|q: int| 0 <= q < j ==> (#[trigger] cells@[q]) < total,
                    decreases total - j,
                {
                    if cells[j] >= total {
                        assert(flatten(rows@)[j as int] >= flatten(rows@).len());
                        return Err(ConfigError::OutOfRange);
                    }
                    j = j + 1;
                }
                let ghost w = choose|j: int| 0 <= j < i && cells@[j] == v;
                assert(cells@[w] == cells@[i as int]);
                assert(!is_ranking(flatten(rows@)));
                assert(!exists|q: int|
                    0 <= q < flatten(rows@).len() && #[trigger] flatten(rows@)[q] >= flatten(rows@).len());
                return Err(ConfigError::Duplicate);
            }
            seen.set(v, true);
            i = i + 1;
        }
        assert(!exists|q: int|
            0 <= q < flatten(rows@).len() && #[trigger] flatten(rows@)[q] >= flatten(rows@).len());
        Ok(ThresholdMap { size: n, cells })
    }

    /// The 2×2 map `[[0, 2], [3, 1]]`.
    pub fn default_map() -> (r: ThresholdMap)
        ensures
            r.wf(),
            r.side() == 2,
            r.cells() == seq![0usize, 2, 3, 1],
    {
        let cells: Vec<usize> = vec![0, 2, 3, 1];
        let r = ThresholdMap { size: 2, cells };
        assert(r.cells() == seq![0usize, 2, 3, 1]);
        r
    }

    /// The rank selected at pixel `(x, y)`: the value at `(x mod N, y mod N)`.
    pub fn index(&self, x: usize, y: usize) -> (r: usize)
        requires
            self.wf(),
        ensures
            r as int == self.rank_at(x as int, y as int),
            r < self.side() * self.side(),
    {
        let n = self.size;
        let xi = x % n;
        let yi = y % n;
        proof {
            assert(xi * n + yi < n * n && n * n <= MAX_MAP_SIZE * MAX_MAP_SIZE) by (nonlinear_arith)
                requires
                    xi < n,
                    yi < n,
                    n <= MAX_MAP_SIZE,
            ;
        }
        self.cells[xi * n + yi]
    }
}

/// For a well-formed N×N map, the rank selected at every pixel lies in `0..N²`.
pub proof fn lemma_rank_in_range(m: ThresholdMap, x: int, y: int)
    requires
        m.wf(),
        0 <= x,
        0 <= y,
    ensures
        0 <= m.rank_at(x, y) < m.side() * m.side(),
{
    let n = m.side() as int;
    let xi = x % n;
    let yi = y % n;
    assert(0 <= xi * n + yi < n * n) by (nonlinear_arith)
        requires
            0 <= xi < n,
            0 <= yi < n,
    ;
}

} // verus!
