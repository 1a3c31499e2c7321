//! Wind on a grid, level by level. Speeds, places and heights are the bit
//! patterns of the floating-point values that the sampling code works on.
use vstd::prelude::*;

verus! {

/// The grid that every level shares.
#[derive(Debug, Clone, Copy, PartialEq, Eq, Structural)]
pub struct WindHeader {
    pub nx: usize,
    pub ny: usize,
    pub lo1: u64,
    pub la1: u64,
    pub lo2: u64,
    pub la2: u64,
    pub dx: u64,
    pub dy: u64,
}

/// Wind at one height: eastward and northward speed, row by row.
#[derive(Debug)]
pub struct Level {
    pub pressure_hpa: u64,
    pub altitude_m: u64,
    pub u_data: Vec<Vec<u64>>,
    pub v_data: Vec<Vec<u64>>,
}

#[derive(Debug)]
pub struct WindField {
    pub header: WindHeader,
    pub levels: Vec<Level>,
}

/// The values of a grid.
pub open spec fn grid_of(g: Seq<Vec<u64>>) -> Seq<Seq<u64>> {
    g.map_values(|row: Vec<u64>| row@)
}

/// The mathematical content of a `Level`.
#[verifier::ext_equal]
pub struct LevelModel {
    pub pressure_hpa: u64,
    pub altitude_m: u64,
    pub u_data: Seq<Seq<u64>>,
    pub v_data: Seq<Seq<u64>>,
}

impl View for Level {
    type V = LevelModel;

    open spec fn view(&self) -> LevelModel {
        LevelModel {
            pressure_hpa: self.pressure_hpa,
            altitude_m: self.altitude_m,
            u_data: grid_of(self.u_data@),
            v_data: grid_of(self.v_data@),
        }
    }
}

/// The mathematical content of a `WindField`.
#[verifier::ext_equal]
pub struct FieldModel {
    pub header: WindHeader,
    pub levels: Seq<LevelModel>,
}

impl View for WindField {
    type V = FieldModel;

    open spec fn view(&self) -> FieldModel {
        FieldModel { header: self.header, levels: self.levels@.map_values(|l: Level| l@) }
    }
}

/// Calm everywhere: one level, one cell that spans the globe.
pub open spec fn calm() -> FieldModel {
    FieldModel {
        header: WindHeader {
            nx: 1,
            ny: 1,
            lo1: 0xc066_8000_0000_0000,
            la1: 0x4056_8000_0000_0000,
            lo2: 0x4066_8000_0000_0000,
            la2: 0xc056_8000_0000_0000,
            dx: 0x4076_8000_0000_0000,
            dy: 0x4066_8000_0000_0000,
        },
        levels: seq![
            LevelModel {
                pressure_hpa: 0x407f_4000_0000_0000,
                altitude_m: 0x40d1_9400_0000_0000,
                u_data: seq![seq![0u64]],
                v_data: seq![seq![0u64]],
            },
        ],
    }
}

fn still() -> (r: Vec<Vec<u64>>)
    ensures
        grid_of(r@) == seq![seq![0u64]],
{
    let mut row: Vec<u64> = Vec::new();
    row.push(0);
    let mut r: Vec<Vec<u64>> = Vec::new();
    r.push(row);
    assert(r@[0]@ =~= seq![0u64]);
    assert(grid_of(r@) =~= seq![seq![0u64]]);
    r
}

impl WindField {
    /// No wind at all, for want of a field.
    pub fn zero() -> (f: WindField)
        ensures
            f@ == calm(),
    {
        let level = Level {
            // 500 hPa, at 18000 m.
            pressure_hpa: 0x407f_4000_0000_0000,
            altitude_m: 0x40d1_9400_0000_0000,
            u_data: still(),
            v_data: still(),
        };
        let mut levels: Vec<Level> = Vec::new();
        levels.push(level);
        let f = WindField {
            header: WindHeader {
                nx: 1,
                ny: 1,
                // -180 to 180 degrees east, 90 to -90 degrees north.
                lo1: 0xc066_8000_0000_0000,
                la1: 0x4056_8000_0000_0000,
                lo2: 0x4066_8000_0000_0000,
                la2: 0xc056_8000_0000_0000,
                dx: 0x4076_8000_0000_0000,
                dy: 0x4066_8000_0000_0000,
            },
            levels,
        };
        assert(f@.levels =~= calm().levels);
        f
    }
}

/// The four grid points around a place.
#[derive(Debug, Clone, Copy, PartialEq, Eq, Structural)]
pub struct Corners {
    pub row0: usize,
    pub col0: usize,
    pub row1: usize,
    pub col1: usize,
}

/// The first of the two lines, out of `n`, that a place lies between which is
/// `at` whole steps from the first line: the nearest pair, where it lies
/// beyond them all.
pub open spec fn first_line(at: i64, n: nat) -> nat {
    if at <= 0 || n < 2 {
        0
    } else if at > n - 2 {
        (n - 2) as nat
    } else {
        at as nat
    }
}

/// The second of them: the first itself, if there is no other.
pub open spec fn second_line(at: i64, n: nat) -> nat {
    if first_line(at, n) + 1 < n {
        first_line(at, n) + 1
    } else {
        (n - 1) as nat
    }
}

fn lines(at: i64, n: usize) -> (r: (usize, usize))
    requires
        n > 0,
    ensures
        r.0 == first_line(at, n as nat),
        r.1 == second_line(at, n as nat),
        r.0 < n,
        r.1 < n,
{
    let first: usize = if at <= 0 || n < 2 {
        0
    } else if (at as u64) > (n - 2) as u64 {
        n - 2
    } else {
        at as usize
    };
    let second: usize = if first + 1 < n {
        first + 1
    } else {
        n - 1
    };
    (first, second)
}

impl WindHeader {
    /// The grid points around a place that lies `col` whole columns from the
    /// first and `row` whole rows from the top.
    pub fn corners(&self, col: i64, row: i64) -> (c: Corners)
        requires
            self.nx > 0,
            self.ny > 0,
        ensures
            c.col0 == first_line(col, self.nx as nat),
            c.col1 == second_line(col, self.nx as nat),
            c.row0 == first_line(row, self.ny as nat),
            c.row1 == second_line(row, self.ny as nat),
            c.col0 < self.nx && c.col1 < self.nx && c.row0 < self.ny && c.row1 < self.ny,
    {
        let (col0, col1) = lines(col, self.nx);
        let (row0, row1) = lines(row, self.ny);
        Corners { row0, col0, row1, col1 }
    }
}

/// How a level lies to a height.
#[derive(Debug, Clone, Copy, PartialEq, Eq, Structural)]
pub struct Standing {
    /// The level is no higher.
    pub at_most: bool,
    /// The level is no lower.
    pub at_least: bool,
}

/// Whether the height lies between the level at `i` and the one above it.
pub open spec fn spans(levels: Seq<Standing>, i: int) -> bool {
    0 <= i < levels.len() - 1 && levels[i].at_most && levels[i + 1].at_least
}

/// Which two levels a height is blended from: the lowest twice at or below it,
/// the highest twice at or above it, else the first two that it lies between.
/// Levels out of order may have no such two: then it is the outermost.
pub fn levels_around(levels: &Vec<Standing>) -> (r: Option<(usize, usize)>)
    ensures
        levels@.len() == 0 <==> r is None,
        levels@.len() > 0 ==> {
            let (lower, upper) = r->Some_0;
            let last = levels@.len() - 1;
            if levels@[0].at_least {
                lower == 0 && upper == 0
            } else if levels@[last].at_most {
                lower == last && upper == last
            } else {
                ||| spans(levels@, lower as int) && upper == lower + 1 && forall|j: int|
                    0 <= j < lower ==> !#[trigger] spans(levels@, j)
                ||| lower == 0 && upper == last && forall|j: int| !#[trigger] spans(levels@, j)
            }
        },
{
    if levels.len() == 0 {
        return None;
    }
    let last: usize = levels.len() - 1;
    if levels[0].at_least {
        return Some((0, 0));
    }
    if levels[last].at_most {
        return Some((last, last));
    }
    let mut i: usize = 0;
    while i < last
        invariant
            i <= last,
            last == levels@.len() - 1,
            !levels@[0].at_least,
            !levels@[last as int].at_most,
            forall|j: int| 0 <= j < i ==> !#[trigger] spans(levels@, j),
        decreases last - i,
    {
        if levels[i].at_most && levels[i + 1].at_least {
            assert(spans(levels@, i as int));
            return Some((i, i + 1));
        }
        i += 1;
    }
    Some((0, last))
}

/// A place lies between its two lines: they are neighbours, wherever there are two,
/// and no other pair is nearer to it.
pub proof fn a_place_lies_between_its_lines(at: i64, n: nat)
    requires
        n >= 1,
    ensures
        ({
            let (a, b) = (first_line(at, n), second_line(at, n));
            &&& a <= b < n
            &&& n == 1 ==> a == 0 && b == 0
            &&& n >= 2 ==> b == a + 1
            &&& n >= 2 && 0 <= at <= n - 2 ==> a == at
            &&& n >= 2 && at < 0 ==> a == 0
            &&& n >= 2 && at > n - 2 ==> b == n - 1
        }),
{
}

} // verus!
