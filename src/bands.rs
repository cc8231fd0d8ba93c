//! Scanline bands: an image's rows shared among workers, and the output of
//! the workers joined back into one image.
use vstd::prelude::*;
use vstd::set_lib::{lemma_int_range, lemma_subset_equality, set_int_range};

verus! {

/// First scanline of band `k` when `height` scanlines go to `workers` bands.
pub open spec fn band_start(height: nat, workers: nat, k: nat) -> nat {
    k * (height / workers)
}

/// One past the last scanline of band `k`; the last band also takes the
/// rows left over when `height` is not a multiple of `workers`.
pub open spec fn band_end(height: nat, workers: nat, k: nat) -> nat {
    if k + 1 == workers {
        height
    } else {
        (k + 1) * (height / workers)
    }
}

/// The scanline range `(start, end)` of band `k`.
pub fn band_range(height: u32, workers: u32, k: u32) -> (r: (u32, u32))
    requires
        workers > 0,
        k < workers,
    ensures
        r.0 == band_start(height as nat, workers as nat, k as nat),
        r.1 == band_end(height as nat, workers as nat, k as nat),
{
    let per = height / workers;
    proof {
        assert(k * per <= workers * per) by (nonlinear_arith)
            requires k < workers;
        assert((k + 1) * per <= workers * per) by (nonlinear_arith)
            requires k < workers;
        assert(workers * per <= height) by (nonlinear_arith)
            requires per == height / workers, workers > 0;
        assert(workers * per + height % workers == height) by (nonlinear_arith)
            requires per == height / workers, workers > 0;
    }
    let remainder = if k == workers - 1 { height % workers } else { 0 };
    let start = k * per;
    let end = (k + 1) * per + remainder;
    (start, end)
}

/// The bands of one image lie side by side and cover all of its rows: the
/// first starts at row 0, each ends where the next one starts, and the last
/// ends at `height`.
pub proof fn lemma_bands_tile(height: nat, workers: nat)
    requires
        workers > 0,
    ensures
        band_start(height, workers, 0) == 0,
        band_end(height, workers, (workers - 1) as nat) == height,
        forall|k: nat| k + 1 < workers ==> #[trigger] band_end(height, workers, k)
            == band_start(height, workers, k + 1),
        forall|k: nat| k < workers ==> #[trigger] band_start(height, workers, k)
            <= band_end(height, workers, k),
{
    assert forall|k: nat| k < workers implies #[trigger] band_start(height, workers, k)
        <= band_end(height, workers, k) by {
        let per = height / workers;
        assert(k * per <= (k + 1) * per) by (nonlinear_arith);
        assert((k + 1) * per <= workers * per) by (nonlinear_arith)
            requires k < workers;
        assert(workers * per <= height) by (nonlinear_arith)
            requires per == height / workers, workers > 0;
    }
}

/// What rendering scanlines `lo..hi` top row first gives, where `rows[j]` is
/// what scanline `j` renders to: row `hi - 1` first, row `lo` last.
pub open spec fn scan_down<T>(rows: Seq<Seq<T>>, lo: int, hi: int) -> Seq<T>
    decreases hi - lo,
{
    if hi <= lo {
        Seq::empty()
    } else {
        rows[hi - 1] + scan_down(rows, lo, hi - 1)
    }
}

/// The image that band buffers make when put one after the other, the band
/// of the highest index first (it holds the top rows).
pub open spec fn stack_bands<T>(bufs: Seq<Seq<T>>) -> Seq<T>
    decreases bufs.len(),
{
    if bufs.len() == 0 {
        Seq::empty()
    } else {
        bufs.last() + stack_bands(bufs.drop_last())
    }
}

/// What each band renders when scanline `j` renders to `rows[j]`.
pub open spec fn band_outputs<T>(rows: Seq<Seq<T>>, workers: nat) -> Seq<Seq<T>> {
    Seq::new(
        workers,
        |k: int|
            scan_down(
                rows,
                band_start(rows.len(), workers, k as nat) as int,
                band_end(rows.len(), workers, k as nat) as int,
            ),
    )
}

proof fn lemma_scan_down_split<T>(rows: Seq<Seq<T>>, lo: int, mid: int, hi: int)
    requires
        lo <= mid <= hi,
    ensures
        scan_down(rows, lo, hi) == scan_down(rows, mid, hi) + scan_down(rows, lo, mid),
    decreases hi - mid,
{
    if hi == mid {
        assert(scan_down(rows, mid, hi) == Seq::<T>::empty());
        assert(Seq::<T>::empty() + scan_down(rows, lo, mid) =~= scan_down(rows, lo, mid));
    } else {
        lemma_scan_down_split(rows, lo, mid, hi - 1);
        assert(scan_down(rows, lo, hi) =~= scan_down(rows, mid, hi) + scan_down(rows, lo, mid));
    }
}

proof fn lemma_stack_prefix<T>(rows: Seq<Seq<T>>, workers: nat, n: nat)
    requires
        workers > 0,
        n <= workers,
    ensures
        stack_bands(band_outputs(rows, workers).take(n as int)) == scan_down(
            rows,
            0,
            if n == 0 { 0 } else { band_end(rows.len(), workers, (n - 1) as nat) as int },
        ),
    decreases n,
{
    lemma_bands_tile(rows.len(), workers);
    let bufs = band_outputs(rows, workers);
    if n == 0 {
        assert(bufs.take(0).len() == 0);
    } else {
        let k = (n - 1) as nat;
        lemma_stack_prefix(rows, workers, k);
        assert(bufs.take(n as int).drop_last() =~= bufs.take(k as int));
        let lo = if k == 0 { 0 } else { band_end(rows.len(), workers, (k - 1) as nat) as int };
        if k > 0 {
            assert(band_end(rows.len(), workers, (k - 1) as nat) == band_start(
                rows.len(),
                workers,
                k,
            ));
        }
        assert(lo == band_start(rows.len(), workers, k) as int);
        lemma_scan_down_split(rows, 0, lo, band_end(rows.len(), workers, k) as int);
    }
}

/// Splitting an image's scanlines into bands, rendering each band on its own
/// and stacking the bands gives the same pixels as rendering every scanline,
/// top row first, in one pass.
pub proof fn lemma_banded_render_matches<T>(rows: Seq<Seq<T>>, workers: nat)
    requires
        workers > 0,
    ensures
        stack_bands(band_outputs(rows, workers)) == scan_down(rows, 0, rows.len() as int),
{
    lemma_stack_prefix(rows, workers, workers);
    lemma_bands_tile(rows.len(), workers);
    assert(band_outputs(rows, workers).take(workers as int) =~= band_outputs(rows, workers));
}

/// The band indices that the workers handed back are those of `0..n`, each
/// once, where `n` is the number of buffers.
pub open spec fn band_indices_valid<T>(parts: Seq<(Vec<T>, u32)>) -> bool {
    &&& forall|i: int| 0 <= i < parts.len() ==> (#[trigger] parts[i]).1 < parts.len()
    &&& forall|i: int, j: int|
        0 <= i < j < parts.len() ==> (#[trigger] parts[i]).1 != (#[trigger] parts[j]).1
}

/// Where in `parts` the buffer of band `k` stands.
pub open spec fn part_of_band<T>(parts: Seq<(Vec<T>, u32)>, k: int) -> int {
    choose|i: int| 0 <= i < parts.len() && parts[i].1 == k
}

/// The buffers of `parts` in band order.
pub open spec fn buffers_by_band<T>(parts: Seq<(Vec<T>, u32)>) -> Seq<Seq<T>> {
    Seq::new(parts.len(), |k: int| parts[part_of_band(parts, k)].0@)
}

spec fn band_present<T>(parts: Seq<(Vec<T>, u32)>, k: int) -> bool {
    exists|i: int| 0 <= i < parts.len() && #[trigger] parts[i].1 == k
}

/// With valid indices every band of `0..n` has a buffer.
proof fn lemma_every_band_present<T>(parts: Seq<(Vec<T>, u32)>)
    requires
        band_indices_valid(parts),
    ensures
        forall|k: int| 0 <= k < parts.len() ==> #[trigger] band_present(parts, k),
{
    let n = parts.len() as int;
    let idx = Seq::new(parts.len(), |i: int| parts[i].1 as int);
    assert(idx.no_duplicates()) by {
        assert forall|i: int, j: int| 0 <= i < idx.len() && 0 <= j < idx.len() && i != j implies idx[i]
            != idx[j] by {
            if i < j {
                assert(parts[i].1 != parts[j].1);
            } else {
                assert(parts[j].1 != parts[i].1);
            }
        }
    }
    idx.unique_seq_to_set();
    lemma_int_range(0, n);
    assert(idx.to_set().subset_of(set_int_range(0, n))) by {
        assert forall|b: int| idx.to_set().contains(b) implies set_int_range(0, n).contains(b) by {
            let i = choose|i: int| 0 <= i < idx.len() && idx[i] == b;
            assert(parts[i].1 < n);
        }
    }
    vstd::set_lib::lemma_len_subset(idx.to_set(), set_int_range(0, n));
    lemma_subset_equality(idx.to_set(), set_int_range(0, n));
    assert forall|k: int| 0 <= k < n implies #[trigger] band_present(parts, k) by {
        assert(set_int_range(0, n).contains(k));
        assert(idx.to_set().contains(k));
        let i = choose|i: int| 0 <= i < idx.len() && idx[i] == k;
        assert(parts[i].1 == k);
    }
}

/// Joins the buffers that the workers handed back, each with its band index,
/// in whatever order they finished, into the whole image, top rows first.
/// Gives `None` when the indices are not those of `0..n`, each once.
pub fn assemble_bands<T>(parts: Vec<(Vec<T>, u32)>) -> (r: Option<Vec<T>>)
    ensures
        r.is_some() <==> band_indices_valid(parts@),
        r matches Some(img) ==> img@ == stack_bands(buffers_by_band(parts@)),
{
    let n = parts.len();
    let ghost orig = parts@;
    let mut seen: Vec<bool> = Vec::new();
    let mut b: usize = 0;
    while b < n
        invariant
            b <= n,
            seen@.len() == b,
            forall|c: int| 0 <= c < b ==> !seen@[c],
        decreases n - b,
    {
        seen.push(false);
        b += 1;
    }
    let mut i: usize = 0;
    while i < n
        invariant
            n == orig.len(),
            parts@ == orig,
            seen@.len() == n,
            i <= n,
            forall|j: int| 0 <= j < i ==> (#[trigger] orig[j]).1 < n,
            forall|j: int, l: int|
                0 <= j < l < i ==> (#[trigger] orig[j]).1 != (#[trigger] orig[l]).1,
            forall|c: int|
                0 <= c < n ==> (seen@[c] <==> exists|j: int| 0 <= j < i && #[trigger] orig[j].1 == c),
        decreases n - i,
    {
        let k = parts[i].1;
        if k as usize >= n {
            assert(!band_indices_valid(orig)) by {
                assert(orig[i as int].1 >= orig.len());
            }
            return None;
        }
        if seen[k as usize] {
            assert(!band_indices_valid(orig)) by {
                let j = choose|j: int| 0 <= j < i && #[trigger] orig[j].1 == k as int;
                assert(orig[j].1 == orig[i as int].1);
            }
            return None;
        }
        seen.set(k as usize, true);
        assert forall|c: int| 0 <= c < n implies (seen@[c] <==> exists|j: int|
            0 <= j < i + 1 && #[trigger] orig[j].1 == c) by {
            if c == k {
                assert(orig[i as int].1 == c);
            }
        }
        i += 1;
    }
    assert(band_indices_valid(orig));
    proof {
        lemma_every_band_present(orig);
    }
    let ghost bufs = buffers_by_band(orig);
    let mut slots: Vec<Option<Vec<T>>> = Vec::new();
    let mut b: usize = 0;
    while b < n
        invariant
            b <= n,
            slots@.len() == b,
            forall|c: int| 0 <= c < b ==> slots@[c] is None,
        decreases n - b,
    {
        slots.push(None);
        b += 1;
    }
    let mut parts = parts;
    while parts.len() > 0
        invariant
            n == orig.len(),
            band_indices_valid(orig),
            parts@.len() <= n,
            parts@ == orig.take(parts@.len() as int),
            slots@.len() == n,
            forall|j: int|
                parts@.len() <= j < n ==> slots@[(#[trigger] orig[j]).1 as int] == Some(orig[j].0),
            forall|j: int| 0 <= j < parts@.len() ==> slots@[(#[trigger] orig[j]).1 as int] is None,
        decreases parts@.len(),
    {
        let m = parts.len() - 1;
        let (buf, k) = parts.remove(m);
        assert(orig[m as int] == (buf, k));
        slots.set(k as usize, Some(buf));
        assert forall|j: int| 0 <= j < m implies slots@[(#[trigger] orig[j]).1 as int] is None by {
            assert(orig[j].1 != orig[m as int].1);
        }
        assert forall|j: int| m <= j < n implies slots@[(#[trigger] orig[j]).1 as int] == Some(
            orig[j].0,
        ) by {
            if j != m {
                assert(orig[m as int].1 != orig[j].1);
            }
        }
        assert(parts@ =~= orig.take(m as int));
    }
    assert forall|c: int| 0 <= c < n implies slots@[c] == Some(orig[part_of_band(orig, c)].0) by {
        assert(band_present(orig, c));
        let j = part_of_band(orig, c);
        assert(orig[j].1 == c);
    }
    let mut img: Vec<T> = Vec::new();
    assert(bufs.take(n as int) =~= bufs);
    assert(img@ + stack_bands(bufs) =~= stack_bands(bufs));
    while slots.len() > 0
        invariant
            slots@.len() <= n,
            bufs.len() == n,
            bufs == buffers_by_band(orig),
            forall|c: int|
                0 <= c < slots@.len() ==> #[trigger] slots@[c] == Some(
                    orig[part_of_band(orig, c)].0,
                ),
            img@ + stack_bands(bufs.take(slots@.len() as int)) == stack_bands(bufs),
        decreases slots@.len(),
    {
        let m = slots.len() - 1;
        let ghost before = img@;
        let slot = slots.remove(m);
        assert(bufs.take(m + 1).drop_last() =~= bufs.take(m as int));
        match slot {
            Some(mut v) => {
                img.append(&mut v);
            },
            None => {},
        }
        assert(img@ + stack_bands(bufs.take(m as int)) =~= before + stack_bands(
            bufs.take(m + 1),
        ));
    }
    assert(bufs.take(0) =~= Seq::<Seq<T>>::empty());
    assert(img@ =~= img@ + stack_bands(bufs.take(0)));
    Some(img)
}

} // verus!
