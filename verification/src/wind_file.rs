//! The layout of a stored wind field: a version mark, the grid's header, then
//! each level's values, all little-endian.
use vstd::bytes::*;
use vstd::prelude::*;
use vstd::slice::slice_subrange;

use crate::wind_field;
use crate::wind_field::{FieldModel, Level, LevelModel, WindField, WindHeader};

verus! {

/// What can be wrong with a stored field.
#[derive(Debug, Clone, Copy, PartialEq, Eq, Structural)]
pub enum FieldFault {
    /// A grid's shape is not the header's.
    Shape,
    /// The mark of this layout is not there.
    Mark,
    /// The bytes end too early.
    Short,
}

/// The mark of this layout.
pub open spec fn mark() -> Seq<u8> {
    seq![0x5a, 0x4d, 0x57, 0x49, 0x4e, 0x44, 0x30, 0x31]
}

/// The number in the four bytes from `at`.
pub open spec fn u32_at(b: Seq<u8>, at: int) -> u32 {
    spec_u32_from_le_bytes(b.subrange(at, at + 4))
}

/// The number in the eight bytes from `at`.
pub open spec fn u64_at(b: Seq<u8>, at: int) -> u64 {
    spec_u64_from_le_bytes(b.subrange(at, at + 8))
}

/// Bytes before the first level.
pub open spec fn preface_size() -> int {
    68
}

/// Bytes of one grid.
pub open spec fn grid_size(nx: int, ny: int) -> int {
    8 * (nx * ny)
}

/// Bytes of one level.
pub open spec fn level_size(nx: int, ny: int) -> int {
    16 + 2 * grid_size(nx, ny)
}

/// Where level `l` begins.
pub open spec fn level_start(nx: int, ny: int, l: int) -> int {
    preface_size() + l * level_size(nx, ny)
}

/// Whether a grid's values stand from `at` on, row by row.
pub open spec fn holds_grid(b: Seq<u8>, at: int, nx: int, g: Seq<Seq<u64>>) -> bool {
    forall|r: int, c: int|
        0 <= r < g.len() && 0 <= c < nx ==> #[trigger] g[r][c] == u64_at(
            b,
            at + 8 * (r * nx + c),
        )
}

/// Whether a grid has so many columns and rows.
pub open spec fn shaped(g: Seq<Seq<u64>>, nx: int, ny: int) -> bool {
    &&& g.len() == ny
    &&& forall|r: int| 0 <= r < g.len() ==> (#[trigger] g[r]).len() == nx
}

/// Whether a level's grids have the header's shape.
pub open spec fn level_shaped(l: LevelModel, nx: int, ny: int) -> bool {
    shaped(l.u_data, nx, ny) && shaped(l.v_data, nx, ny)
}

/// Whether every level has the header's shape.
pub open spec fn well_shaped(f: FieldModel) -> bool {
    forall|l: int|
        0 <= l < f.levels.len() ==> level_shaped(
            #[trigger] f.levels[l],
            f.header.nx as int,
            f.header.ny as int,
        )
}

/// Whether a level stands from `at` on.
pub open spec fn holds_level(b: Seq<u8>, at: int, nx: int, ny: int, l: LevelModel) -> bool {
    &&& l.pressure_hpa == u64_at(b, at)
    &&& l.altitude_m == u64_at(b, at + 8)
    &&& holds_grid(b, at + 16, nx, l.u_data)
    &&& holds_grid(b, at + 16 + grid_size(nx, ny), nx, l.v_data)
}

/// Whether the preface states this header and this many levels. Sizes are
/// kept to 32 bits.
pub open spec fn holds_preface(b: Seq<u8>, h: WindHeader, levels: nat) -> bool {
    &&& b.len() >= preface_size()
    &&& b.subrange(0, 8) == mark()
    &&& u32_at(b, 8) == h.nx as int % 0x1_0000_0000
    &&& u32_at(b, 12) == h.ny as int % 0x1_0000_0000
    &&& u64_at(b, 16) == h.lo1
    &&& u64_at(b, 24) == h.la1
    &&& u64_at(b, 32) == h.lo2
    &&& u64_at(b, 40) == h.la2
    &&& u64_at(b, 48) == h.dx
    &&& u64_at(b, 56) == h.dy
    &&& u32_at(b, 64) == levels as int % 0x1_0000_0000
}

/// Whether bytes lay out a field.
pub open spec fn lays_out(b: Seq<u8>, f: FieldModel) -> bool {
    let nx = f.header.nx as int;
    let ny = f.header.ny as int;
    &&& holds_preface(b, f.header, f.levels.len())
    &&& b.len() >= level_start(nx, ny, f.levels.len() as int)
    &&& forall|l: int|
        0 <= l < f.levels.len() ==> holds_level(
            b,
            level_start(nx, ny, l),
            nx,
            ny,
            #[trigger] f.levels[l],
        )
}

/// Whether a field's sizes fit the layout.
pub open spec fn storable(f: FieldModel) -> bool {
    &&& well_shaped(f)
    &&& f.header.nx <= u32::MAX
    &&& f.header.ny <= u32::MAX
    &&& f.levels.len() <= u32::MAX
}

/// Bytes lay out one field at most: what is read is what was written, down to
/// the last bit.
pub proof fn what_is_read_is_what_was_written(b: Seq<u8>, f: FieldModel, g: FieldModel)
    requires
        lays_out(b, f),
        lays_out(b, g),
        storable(f),
        storable(g),
    ensures
        f == g,
{
    assert(f.header == g.header);
    assert(f.levels.len() == g.levels.len());
    let nx = f.header.nx as int;
    let ny = f.header.ny as int;
    assert forall|l: int| 0 <= l < f.levels.len() implies f.levels[l] == g.levels[l] by {
        let at = level_start(nx, ny, l);
        let a = f.levels[l];
        let c = g.levels[l];
        assert(holds_level(b, at, nx, ny, a));
        assert(holds_level(b, at, nx, ny, c));
        assert(level_shaped(a, nx, ny) && level_shaped(c, nx, ny));
        lemma_same_grid(b, at + 16, nx, ny, a.u_data, c.u_data);
        lemma_same_grid(b, at + 16 + grid_size(nx, ny), nx, ny, a.v_data, c.v_data);
        assert(a =~= c);
    }
    assert(f.levels =~= g.levels);
    assert(f =~= g);
}

proof fn lemma_same_grid(
    b: Seq<u8>,
    at: int,
    nx: int,
    ny: int,
    g: Seq<Seq<u64>>,
    h: Seq<Seq<u64>>,
)
    requires
        holds_grid(b, at, nx, g),
        holds_grid(b, at, nx, h),
        shaped(g, nx, ny),
        shaped(h, nx, ny),
    ensures
        g == h,
{
    assert forall|r: int| 0 <= r < g.len() implies g[r] == h[r] by {
        assert(g[r].len() == h[r].len());
        assert forall|c: int| 0 <= c < nx implies g[r][c] == h[r][c] by {}
        assert(g[r] =~= h[r]);
    }
    assert(g =~= h);
}


/// Whether one sequence of bytes begins another.
spec fn begins(a: Seq<u8>, b: Seq<u8>) -> bool {
    a.len() <= b.len() && b.subrange(0, a.len() as int) == a
}

proof fn lemma_reads_stay(a: Seq<u8>, b: Seq<u8>)
    requires
        begins(a, b),
    ensures
        forall|at: int|
            0 <= at && at + 4 <= a.len() ==> #[trigger] u32_at(b, at) == u32_at(a, at),
        forall|at: int|
            0 <= at && at + 8 <= a.len() ==> #[trigger] u64_at(b, at) == u64_at(a, at),
{
    assert forall|at: int| 0 <= at && at + 4 <= a.len() implies #[trigger] u32_at(b, at) == u32_at(
        a,
        at,
    ) by {
        assert(b.subrange(0, a.len() as int).subrange(at, at + 4) =~= b.subrange(at, at + 4));
    }
    assert forall|at: int| 0 <= at && at + 8 <= a.len() implies #[trigger] u64_at(b, at) == u64_at(
        a,
        at,
    ) by {
        assert(b.subrange(0, a.len() as int).subrange(at, at + 8) =~= b.subrange(at, at + 8));
    }
}

proof fn lemma_begins_on(a: Seq<u8>, b: Seq<u8>, c: Seq<u8>)
    requires
        begins(a, b),
        begins(b, c),
    ensures
        begins(a, c),
{
    assert(c.subrange(0, a.len() as int) =~= b.subrange(0, a.len() as int));
}

fn put_bytes(out: &mut Vec<u8>, bytes: &Vec<u8>)
    ensures
        final(out)@ == old(out)@ + bytes@,
{
    out.extend_from_slice(bytes.as_slice());
    assert(out@ =~= old(out)@ + bytes@);
}

fn put_u32(out: &mut Vec<u8>, v: u32)
    ensures
        final(out)@.len() == old(out)@.len() + 4,
        begins(old(out)@, final(out)@),
        u32_at(final(out)@, old(out)@.len() as int) == v,
{
    let ghost before = out@;
    let bytes: Vec<u8> = u32_to_le_bytes(v);
    put_bytes(out, &bytes);
    proof {
        lemma_auto_spec_u32_to_from_le_bytes();
        assert(out@.subrange(before.len() as int, before.len() as int + 4) =~= bytes@);
        assert(out@.subrange(0, before.len() as int) =~= before);
    }
}

fn put_u64(out: &mut Vec<u8>, v: u64)
    ensures
        final(out)@.len() == old(out)@.len() + 8,
        begins(old(out)@, final(out)@),
        u64_at(final(out)@, old(out)@.len() as int) == v,
{
    let ghost before = out@;
    let bytes: Vec<u8> = u64_to_le_bytes(v);
    put_bytes(out, &bytes);
    proof {
        lemma_auto_spec_u64_to_from_le_bytes();
        assert(out@.subrange(before.len() as int, before.len() as int + 8) =~= bytes@);
        assert(out@.subrange(0, before.len() as int) =~= before);
    }
}

proof fn lemma_next_row(r: int, nx: int)
    ensures
        r * nx + nx == (r + 1) * nx,
{
    assert(r * nx + nx == (r + 1) * nx) by (nonlinear_arith);
}

/// A cell of an earlier row ends before a later row begins.
proof fn lemma_earlier_row(r: int, c: int, nx: int, later: int)
    requires
        0 <= c < nx,
        0 <= r < later,
    ensures
        0 <= r * nx + c,
        r * nx + c + 1 <= later * nx,
{
    assert(0 <= r * nx + c && r * nx + c + 1 <= later * nx) by (nonlinear_arith)
        requires
            0 <= c < nx,
            0 <= r < later,
    ;
}

fn put_grid(out: &mut Vec<u8>, grid: &Vec<Vec<u64>>, nx: usize, ny: usize)
    requires
        shaped(wind_field::grid_of(grid@), nx as int, ny as int),
    ensures
        final(out)@.len() == old(out)@.len() + grid_size(nx as int, ny as int),
        begins(old(out)@, final(out)@),
        holds_grid(
            final(out)@,
            old(out)@.len() as int,
            nx as int,
            wind_field::grid_of(grid@),
        ),
{
    let ghost start = out@;
    let ghost at = out@.len() as int;
    let ghost g = wind_field::grid_of(grid@);
    let ghost n = nx as int;
    assert(start.subrange(0, at) =~= start);
    assert(0 * n == 0) by (nonlinear_arith);
    let mut r: usize = 0;
    while r < ny
        invariant
            r <= ny,
            n == nx,
            g == wind_field::grid_of(grid@),
            grid@.len() == ny,
            shaped(g, n, ny as int),
            at == start.len(),
            begins(start, out@),
            out@.len() == at + 8 * (r * n),
            forall|i: int, c: int|
                0 <= i < r && 0 <= c < n ==> #[trigger] g[i][c] == u64_at(
                    out@,
                    at + 8 * (i * n + c),
                ),
        decreases ny - r,
    {
        let ghost here = r as int;
        assert(g[here].len() == n && g[here] == grid@[here]@);
        let mut c: usize = 0;
        while c < nx
            invariant
                c <= nx,
                r < ny,
                here == r,
                n == nx,
                g == wind_field::grid_of(grid@),
                grid@.len() == ny,
                shaped(g, n, ny as int),
                g[here] == grid@[here]@,
                g[here].len() == n,
                at == start.len(),
                begins(start, out@),
                out@.len() == at + 8 * (here * n + c),
                0 <= here * n,
                forall|i: int, k: int|
                    0 <= i < here && 0 <= k < n ==> #[trigger] g[i][k] == u64_at(
                        out@,
                        at + 8 * (i * n + k),
                    ),
                forall|k: int|
                    0 <= k < c ==> #[trigger] g[here][k] == u64_at(
                        out@,
                        at + 8 * (here * n + k),
                    ),
            decreases nx - c,
        {
            let ghost before = out@;
            put_u64(out, grid[r][c]);
            proof {
                lemma_reads_stay(before, out@);
                lemma_begins_on(start, before, out@);
                assert forall|i: int, k: int| 0 <= i < here && 0 <= k < n implies #[trigger] g[i][k]
                    == u64_at(out@, at + 8 * (i * n + k)) by {
                    lemma_earlier_row(i, k, n, here);
                    assert(u64_at(before, at + 8 * (i * n + k)) == g[i][k]);
                }
                assert forall|k: int| 0 <= k < c + 1 implies #[trigger] g[here][k] == u64_at(
                    out@,
                    at + 8 * (here * n + k),
                ) by {
                    if k < c {
                        assert(u64_at(before, at + 8 * (here * n + k)) == g[here][k]);
                    }
                }
            }
            c += 1;
        }
        proof {
            lemma_next_row(here, n);
            assert forall|i: int, k: int| 0 <= i < r + 1 && 0 <= k < n implies #[trigger] g[i][k]
                == u64_at(out@, at + 8 * (i * n + k)) by {
                if i == here {
                    assert(g[here][k] == u64_at(out@, at + 8 * (here * n + k)));
                }
            }
            assert(0 <= (here + 1) * n) by (nonlinear_arith)
                requires
                    here >= 0,
                    n >= 0,
            ;
        }
        r += 1;
    }
    proof {
        assert(ny * n == n * ny) by (nonlinear_arith);
    }
}

fn grid_fits(grid: &Vec<Vec<u64>>, nx: usize, ny: usize) -> (r: bool)
    ensures
        r == shaped(wind_field::grid_of(grid@), nx as int, ny as int),
{
    let ghost g = wind_field::grid_of(grid@);
    if grid.len() != ny {
        return false;
    }
    let mut i: usize = 0;
    while i < grid.len()
        invariant
            i <= grid@.len(),
            g == wind_field::grid_of(grid@),
            forall|r: int| 0 <= r < i ==> (#[trigger] g[r]).len() == nx,
        decreases grid@.len() - i,
    {
        assert(g[i as int] == grid@[i as int]@);
        if grid[i].len() != nx {
            return false;
        }
        i += 1;
    }
    true
}

/// The low half of a size.
fn low_half(n: usize) -> (r: u32)
    ensures
        r == n as int % 0x1_0000_0000,
{
    ((n as u64) % 0x1_0000_0000) as u32
}

fn put_preface(h: &WindHeader, levels: usize) -> (out: Vec<u8>)
    ensures
        out@.len() == preface_size(),
        holds_preface(out@, *h, levels as nat),
{
    let mut out: Vec<u8> = Vec::new();
    out.push(0x5a);
    out.push(0x4d);
    out.push(0x57);
    out.push(0x49);
    out.push(0x4e);
    out.push(0x44);
    out.push(0x30);
    out.push(0x31);
    let ghost b0 = out@;
    assert(b0 =~= mark());
    put_u32(&mut out, low_half(h.nx));
    let ghost b1 = out@;
    put_u32(&mut out, low_half(h.ny));
    let ghost b2 = out@;
    put_u64(&mut out, h.lo1);
    let ghost b3 = out@;
    put_u64(&mut out, h.la1);
    let ghost b4 = out@;
    put_u64(&mut out, h.lo2);
    let ghost b5 = out@;
    put_u64(&mut out, h.la2);
    let ghost b6 = out@;
    put_u64(&mut out, h.dx);
    let ghost b7 = out@;
    put_u64(&mut out, h.dy);
    let ghost b8 = out@;
    put_u32(&mut out, low_half(levels));
    proof {
        lemma_reads_stay(b8, out@);
        lemma_begins_on(b7, b8, out@);
        lemma_reads_stay(b7, out@);
        lemma_begins_on(b6, b7, out@);
        lemma_reads_stay(b6, out@);
        lemma_begins_on(b5, b6, out@);
        lemma_reads_stay(b5, out@);
        lemma_begins_on(b4, b5, out@);
        lemma_reads_stay(b4, out@);
        lemma_begins_on(b3, b4, out@);
        lemma_reads_stay(b3, out@);
        lemma_begins_on(b2, b3, out@);
        lemma_reads_stay(b2, out@);
        lemma_begins_on(b1, b2, out@);
        lemma_reads_stay(b1, out@);
        lemma_begins_on(b0, b1, out@);
        assert(u32_at(out@, 8) == u32_at(b1, 8));
        assert(u32_at(out@, 12) == u32_at(b2, 12));
        assert(u64_at(out@, 16) == u64_at(b3, 16));
        assert(u64_at(out@, 24) == u64_at(b4, 24));
        assert(u64_at(out@, 32) == u64_at(b5, 32));
        assert(u64_at(out@, 40) == u64_at(b6, 40));
        assert(u64_at(out@, 48) == u64_at(b7, 48));
        assert(u64_at(out@, 56) == u64_at(b8, 56));
    }
    out
}

proof fn lemma_sizes(nx: int, ny: int)
    requires
        0 <= nx,
        0 <= ny,
    ensures
        grid_size(nx, ny) >= 0,
        forall|l: int| #[trigger]
            level_start(nx, ny, l + 1) == level_start(nx, ny, l) + level_size(nx, ny),
        forall|l: int, m: int|
            #![trigger level_start(nx, ny, l), level_start(nx, ny, m)]
            0 <= l <= m ==> level_start(nx, ny, l) <= level_start(nx, ny, m),
        level_start(nx, ny, 0) == preface_size(),
{
    let size = level_size(nx, ny);
    assert(nx * ny >= 0) by (nonlinear_arith)
        requires
            nx >= 0,
            ny >= 0,
    ;
    assert forall|l: int| #[trigger] level_start(nx, ny, l + 1) == level_start(nx, ny, l)
        + level_size(nx, ny) by {
        assert((l + 1) * size == l * size + size) by (nonlinear_arith);
    }
    assert forall|l: int, m: int|
        #![trigger level_start(nx, ny, l), level_start(nx, ny, m)]
        0 <= l <= m implies level_start(nx, ny, l) <= level_start(nx, ny, m) by {
        assert(l * size <= m * size) by (nonlinear_arith)
            requires
                0 <= l <= m,
                size >= 0,
        ;
    }
    assert(0 * size == 0);
}

proof fn lemma_grid_stays(a: Seq<u8>, b: Seq<u8>, at: int, nx: int, ny: int, g: Seq<Seq<u64>>)
    requires
        begins(a, b),
        0 <= at,
        0 <= nx,
        shaped(g, nx, ny),
        at + grid_size(nx, ny) <= a.len(),
        holds_grid(a, at, nx, g),
    ensures
        holds_grid(b, at, nx, g),
{
    lemma_reads_stay(a, b);
    assert forall|r: int, c: int| 0 <= r < g.len() && 0 <= c < nx implies #[trigger] g[r][c]
        == u64_at(b, at + 8 * (r * nx + c)) by {
        lemma_earlier_row(r, c, nx, ny);
        assert(ny * nx == nx * ny) by (nonlinear_arith);
        assert(u64_at(a, at + 8 * (r * nx + c)) == g[r][c]);
    }
}

proof fn lemma_level_stays(a: Seq<u8>, b: Seq<u8>, at: int, nx: int, ny: int, l: LevelModel)
    requires
        begins(a, b),
        0 <= at,
        0 <= nx,
        0 <= ny,
        level_shaped(l, nx, ny),
        at + level_size(nx, ny) <= a.len(),
        holds_level(a, at, nx, ny, l),
    ensures
        holds_level(b, at, nx, ny, l),
{
    lemma_sizes(nx, ny);
    lemma_reads_stay(a, b);
    lemma_grid_stays(a, b, at + 16, nx, ny, l.u_data);
    lemma_grid_stays(a, b, at + 16 + grid_size(nx, ny), nx, ny, l.v_data);
}

proof fn lemma_preface_stays(a: Seq<u8>, b: Seq<u8>, h: WindHeader, levels: nat)
    requires
        begins(a, b),
        holds_preface(a, h, levels),
    ensures
        holds_preface(b, h, levels),
{
    lemma_reads_stay(a, b);
    assert(b.subrange(0, a.len() as int).subrange(0, 8) =~= b.subrange(0, 8));
}

fn put_level(out: &mut Vec<u8>, level: &Level, nx: usize, ny: usize)
    requires
        level_shaped(level@, nx as int, ny as int),
    ensures
        final(out)@.len() == old(out)@.len() + level_size(nx as int, ny as int),
        begins(old(out)@, final(out)@),
        holds_level(final(out)@, old(out)@.len() as int, nx as int, ny as int, level@),
{
    let ghost at = out@.len() as int;
    let ghost b0 = out@;
    put_u64(out, level.pressure_hpa);
    let ghost b1 = out@;
    put_u64(out, level.altitude_m);
    let ghost b2 = out@;
    put_grid(out, &level.u_data, nx, ny);
    let ghost b3 = out@;
    put_grid(out, &level.v_data, nx, ny);
    proof {
        lemma_sizes(nx as int, ny as int);
        lemma_begins_on(b2, b3, out@);
        lemma_begins_on(b1, b2, out@);
        lemma_begins_on(b0, b1, out@);
        lemma_reads_stay(b1, out@);
        lemma_reads_stay(b2, out@);
        lemma_grid_stays(b3, out@, at + 16, nx as int, ny as int, level@.u_data);
        assert(u64_at(out@, at) == u64_at(b1, at));
        assert(u64_at(out@, at + 8) == u64_at(b2, at + 8));
    }
}

/// The bytes of a field. A field whose grids do not have the header's shape
/// has none.
pub fn write_field(f: &WindField) -> (r: Result<Vec<u8>, FieldFault>)
    ensures
        match r {
            Ok(b) => well_shaped(f@) && lays_out(b@, f@) && b@.len() == level_start(
                f.header.nx as int,
                f.header.ny as int,
                f.levels@.len() as int,
            ),
            Err(e) => e == FieldFault::Shape && !well_shaped(f@),
        },
{
    let nx: usize = f.header.nx;
    let ny: usize = f.header.ny;
    let n: usize = f.levels.len();
    let mut out: Vec<u8> = put_preface(&f.header, n);
    proof {
        lemma_sizes(nx as int, ny as int);
    }
    let mut l: usize = 0;
    while l < n
        invariant
            l <= n,
            n == f.levels@.len(),
            nx == f.header.nx,
            ny == f.header.ny,
            holds_preface(out@, f.header, n as nat),
            out@.len() == level_start(nx as int, ny as int, l as int),
            forall|i: int|
                0 <= i < l ==> {
                    &&& level_shaped(#[trigger] f@.levels[i], nx as int, ny as int)
                    &&& holds_level(
                        out@,
                        level_start(nx as int, ny as int, i),
                        nx as int,
                        ny as int,
                        f@.levels[i],
                    )
                },
        decreases n - l,
    {
        assert(f@.levels[l as int] == f.levels@[l as int]@);
        let level: &Level = &f.levels[l];
        if !grid_fits(&level.u_data, nx, ny) || !grid_fits(&level.v_data, nx, ny) {
            assert(!level_shaped(f@.levels[l as int], nx as int, ny as int));
            return Err(FieldFault::Shape);
        }
        let ghost before = out@;
        put_level(&mut out, level, nx, ny);
        proof {
            lemma_sizes(nx as int, ny as int);
            lemma_preface_stays(before, out@, f.header, n as nat);
            assert forall|i: int| 0 <= i < l + 1 implies {
                &&& level_shaped(#[trigger] f@.levels[i], nx as int, ny as int)
                &&& holds_level(
                    out@,
                    level_start(nx as int, ny as int, i),
                    nx as int,
                    ny as int,
                    f@.levels[i],
                )
            } by {
                if i < l {
                    assert(level_start(nx as int, ny as int, i + 1) <= level_start(
                        nx as int,
                        ny as int,
                        l as int,
                    ));
                    lemma_level_stays(
                        before,
                        out@,
                        level_start(nx as int, ny as int, i),
                        nx as int,
                        ny as int,
                        f@.levels[i],
                    );
                }
            }
            assert(level_start(nx as int, ny as int, l + 1) == level_start(
                nx as int,
                ny as int,
                l as int,
            ) + level_size(nx as int, ny as int));
        }
        l += 1;
    }
    Ok(out)
}

fn get_u32(b: &Vec<u8>, at: usize) -> (r: Option<u32>)
    requires
        at <= b@.len(),
    ensures
        match r {
            Some(v) => at + 4 <= b@.len() && v == u32_at(b@, at as int),
            None => at + 4 > b@.len(),
        },
{
    if b.len() - at < 4 {
        return None;
    }
    Some(u32_from_le_bytes(slice_subrange(b.as_slice(), at, at + 4)))
}

fn get_u64(b: &Vec<u8>, at: usize) -> (r: Option<u64>)
    requires
        at <= b@.len(),
    ensures
        match r {
            Some(v) => at + 8 <= b@.len() && v == u64_at(b@, at as int),
            None => at + 8 > b@.len(),
        },
{
    if b.len() - at < 8 {
        return None;
    }
    Some(u64_from_le_bytes(slice_subrange(b.as_slice(), at, at + 8)))
}

fn get_row(b: &Vec<u8>, at: usize, nx: usize) -> (r: Option<Vec<u64>>)
    requires
        at <= b@.len(),
    ensures
        match r {
            Some(row) => at + 8 * nx <= b@.len() && row@.len() == nx && forall|c: int|
                0 <= c < nx ==> #[trigger] row@[c] == u64_at(b@, at + 8 * c),
            None => at + 8 * nx > b@.len(),
        },
{
    let len: usize = b.len();
    let mut row: Vec<u64> = Vec::new();
    let mut pos: usize = at;
    while row.len() < nx
        invariant
            len == b@.len(),
            row@.len() <= nx,
            pos == at + 8 * row@.len(),
            pos <= b@.len(),
            forall|c: int| 0 <= c < row@.len() ==> #[trigger] row@[c] == u64_at(b@, at + 8 * c),
        decreases nx - row@.len(),
    {
        match get_u64(b, pos) {
            Some(v) => {
                row.push(v);
                pos += 8;
            },
            None => {
                return None;
            },
        }
    }
    Some(row)
}

fn get_grid(b: &Vec<u8>, at: usize, nx: usize, ny: usize) -> (r: Option<Vec<Vec<u64>>>)
    requires
        at <= b@.len(),
    ensures
        match r {
            Some(grid) => at + grid_size(nx as int, ny as int) <= b@.len() && shaped(
                wind_field::grid_of(grid@),
                nx as int,
                ny as int,
            ) && holds_grid(b@, at as int, nx as int, wind_field::grid_of(grid@)),
            None => at + grid_size(nx as int, ny as int) > b@.len(),
        },
{
    let ghost n = nx as int;
    let len: usize = b.len();
    let mut grid: Vec<Vec<u64>> = Vec::new();
    let mut pos: usize = at;
    assert(0 * n == 0);
    while grid.len() < ny
        invariant
            len == b@.len(),
            n == nx,
            grid@.len() <= ny,
            pos == at + 8 * (grid@.len() * n),
            pos <= b@.len(),
            forall|r: int| 0 <= r < grid@.len() ==> (#[trigger] grid@[r])@.len() == n,
            forall|r: int, c: int|
                0 <= r < grid@.len() && 0 <= c < n ==> #[trigger] grid@[r]@[c] == u64_at(
                    b@,
                    at + 8 * (r * n + c),
                ),
        decreases ny - grid@.len(),
    {
        let ghost r = grid@.len() as int;
        proof {
            lemma_next_row(r, n);
            assert((r + 1) * n <= ny * n) by (nonlinear_arith)
                requires
                    r + 1 <= ny,
                    n >= 0,
            ;
            assert(ny * n == n * ny) by (nonlinear_arith);
        }
        match get_row(b, pos, nx) {
            Some(row) => {
                let ghost before = grid@;
                let step: usize = nx * 8;
                pos = pos + step;
                grid.push(row);
                assert forall|i: int, c: int| 0 <= i < grid@.len() && 0 <= c < n implies #[trigger] grid@[i]@[c]
                    == u64_at(b@, at + 8 * (i * n + c)) by {
                    if i < r {
                        assert(before[i]@[c] == u64_at(b@, at + 8 * (i * n + c)));
                    } else {
                        assert(row@[c] == u64_at(b@, at + 8 * (r * n) + 8 * c));
                    }
                }
            },
            None => {
                return None;
            },
        }
    }
    proof {
        let g = wind_field::grid_of(grid@);
        assert(ny * n == n * ny) by (nonlinear_arith);
        assert forall|r: int, c: int| 0 <= r < g.len() && 0 <= c < n implies #[trigger] g[r][c]
            == u64_at(b@, at + 8 * (r * n + c)) by {
            assert(grid@[r]@[c] == u64_at(b@, at + 8 * (r * n + c)));
        }
    }
    Some(grid)
}

fn get_level(b: &Vec<u8>, at: usize, nx: usize, ny: usize) -> (r: Option<Level>)
    requires
        at <= b@.len(),
    ensures
        match r {
            Some(l) => at + level_size(nx as int, ny as int) <= b@.len() && level_shaped(
                l@,
                nx as int,
                ny as int,
            ) && holds_level(b@, at as int, nx as int, ny as int, l@),
            None => at + level_size(nx as int, ny as int) > b@.len(),
        },
{
    proof {
        lemma_sizes(nx as int, ny as int);
    }
    let len: usize = b.len();
    let pressure_hpa: u64 = match get_u64(b, at) {
        Some(v) => v,
        None => {
            return None;
        },
    };
    let altitude_m: u64 = match get_u64(b, at + 8) {
        Some(v) => v,
        None => {
            return None;
        },
    };
    let u_data: Vec<Vec<u64>> = match get_grid(b, at + 16, nx, ny) {
        Some(g) => g,
        None => {
            return None;
        },
    };
    assert(at + 16 + 8 * (nx * ny) <= len);
    let step: usize = 8 * (nx * ny);
    let v_data: Vec<Vec<u64>> = match get_grid(b, at + 16 + step, nx, ny) {
        Some(g) => g,
        None => {
            return None;
        },
    };
    Some(Level { pressure_hpa, altitude_m, u_data, v_data })
}

/// Whether bytes long enough to carry the mark do not.
pub open spec fn mismarked(b: Seq<u8>) -> bool {
    b.len() >= 8 && b.subrange(0, 8) != mark()
}

/// Whether bytes end before the field they announce does.
pub open spec fn cut_short(b: Seq<u8>) -> bool {
    ||| b.len() < preface_size()
    ||| b.len() < level_start(u32_at(b, 8) as int, u32_at(b, 12) as int, u32_at(b, 64) as int)
}

/// The field that bytes lay out. What follows it is not looked at.
pub fn read_field(b: &Vec<u8>) -> (r: Result<WindField, FieldFault>)
    ensures
        match r {
            Ok(f) => !mismarked(b@) && !cut_short(b@) && lays_out(b@, f@) && storable(f@),
            Err(FieldFault::Mark) => mismarked(b@),
            Err(FieldFault::Short) => !mismarked(b@) && cut_short(b@),
            Err(FieldFault::Shape) => false,
        },
{
    if b.len() < 8 {
        return Err(FieldFault::Short);
    }
    let found: &[u8] = slice_subrange(b.as_slice(), 0, 8);
    let marked: bool = found[0] == 0x5a && found[1] == 0x4d && found[2] == 0x57 && found[3] == 0x49
        && found[4] == 0x4e && found[5] == 0x44 && found[6] == 0x30 && found[7] == 0x31;
    if !marked {
        return Err(FieldFault::Mark);
    }
    assert(b@.subrange(0, 8) =~= mark());
    if b.len() < 68 {
        return Err(FieldFault::Short);
    }
    let nx: usize = number_at(b, 8);
    let ny: usize = number_at(b, 12);
    let n: usize = number_at(b, 64);
    let header = WindHeader {
        nx,
        ny,
        lo1: value_at(b, 16),
        la1: value_at(b, 24),
        lo2: value_at(b, 32),
        la2: value_at(b, 40),
        dx: value_at(b, 48),
        dy: value_at(b, 56),
    };
    proof {
        lemma_sizes(nx as int, ny as int);
    }
    let len: usize = b.len();
    let mut levels: Vec<Level> = Vec::new();
    let mut pos: usize = 68;
    while levels.len() < n
        invariant
            len == b@.len(),
            levels@.len() <= n,
            nx == u32_at(b@, 8),
            ny == u32_at(b@, 12),
            n == u32_at(b@, 64),
            !mismarked(b@),
            pos <= b@.len(),
            pos == level_start(nx as int, ny as int, levels@.len() as int),
            forall|l: int|
                0 <= l < levels@.len() ==> {
                    &&& level_shaped((#[trigger] levels@[l])@, nx as int, ny as int)
                    &&& holds_level(
                        b@,
                        level_start(nx as int, ny as int, l),
                        nx as int,
                        ny as int,
                        levels@[l]@,
                    )
                },
        decreases n - levels@.len(),
    {
        proof {
            lemma_sizes(nx as int, ny as int);
            let l = levels@.len() as int;
            assert(level_start(nx as int, ny as int, l + 1) == level_start(
                nx as int,
                ny as int,
                l,
            ) + level_size(nx as int, ny as int));
            assert(level_start(nx as int, ny as int, l + 1) <= level_start(
                nx as int,
                ny as int,
                n as int,
            ));
        }
        match get_level(b, pos, nx, ny) {
            Some(level) => {
                assert(pos + 16 + 2 * (8 * (nx * ny)) <= len);
                let step: usize = 16 + 2 * (8 * (nx * ny));
                pos = pos + step;
                levels.push(level);
            },
            None => {
                return Err(FieldFault::Short);
            },
        }
    }
    let f = WindField { header, levels };
    proof {
        assert forall|l: int| 0 <= l < f@.levels.len() implies level_shaped(
            #[trigger] f@.levels[l],
            nx as int,
            ny as int,
        ) && holds_level(
            b@,
            level_start(nx as int, ny as int, l),
            nx as int,
            ny as int,
            f@.levels[l],
        ) by {
            assert(f@.levels[l] == f.levels@[l]@);
        }
    }
    Ok(f)
}

fn number_at(b: &Vec<u8>, at: usize) -> (r: usize)
    requires
        at + 4 <= b@.len(),
    ensures
        r == u32_at(b@, at as int),
{
    match get_u32(b, at) {
        Some(v) => v as usize,
        None => 0,
    }
}

fn value_at(b: &Vec<u8>, at: usize) -> (r: u64)
    requires
        at + 8 <= b@.len(),
    ensures
        r == u64_at(b@, at as int),
{
    match get_u64(b, at) {
        Some(v) => v,
        None => 0,
    }
}
} // verus!
