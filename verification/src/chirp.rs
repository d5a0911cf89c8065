//! The integer side of the Bluestein kernels of exact-length transforms:
//! which chirp phase each table entry takes, which input element each
//! workspace position reads, and which workspace element each output bin
//! or sample comes from. Windows of the workspace hold `m` elements each.
//!
//! An `n`-point DFT becomes a convolution of length `m` with the chirp
//! `w[k] = exp(sign i pi k^2 / n)`. The phase is kept exact by reducing
//! `k^2` modulo `2n` in integers before it turns into an angle.
use vstd::prelude::*;

verus! {

/// One entry of the chirp tables.
#[derive(Debug, Clone, Copy, PartialEq, Eq, Structural)]
pub enum ChirpEntry {
    /// Angle `pi * square / n` (signed by the direction): the convolution
    /// kernel entry takes its conjugate, and, when `in_table`, the chirp
    /// table entry of the same index takes it as is.
    Phase { square: u64, in_table: bool },
    /// Outside both chirp windows: the kernel entry is zero.
    Zero,
}

/// The index whose square sets kernel entry `k`: `k` itself in the first
/// `n` entries, `m - k` in the wrapped-around tail.
pub open spec fn chirp_index(k: nat, n: nat, m: nat) -> nat {
    if k < n { k } else { (m - k) as nat }
}

pub open spec fn chirp_entry_spec(k: nat, n: nat, m: nat) -> ChirpEntry {
    let j = chirp_index(k, n, m);
    if j < n {
        ChirpEntry::Phase { square: ((j * j) % (2 * n)) as u64, in_table: k < n }
    } else {
        ChirpEntry::Zero
    }
}

/// One thread of the chirp construction: entry `k` of the `m`-point
/// convolution kernel (and of the `n`-point chirp table when `k < n`).
pub fn make_chirp(k: usize, n: usize, m: usize) -> (r: Option<ChirpEntry>)
    requires
        n > 0,
        n as nat * n as nat <= u64::MAX,
        2 * n <= u64::MAX,
    ensures
        r == (if k >= m { None } else { Some(chirp_entry_spec(k as nat, n as nat, m as nat)) }),
{
    if k >= m {
        return None;
    }
    let j = if k < n { k } else { m - k };
    if j < n {
        proof {
            assert(j as nat * j as nat <= n as nat * n as nat) by (nonlinear_arith)
                requires
                    j < n,
            ;
        }
        let square = (j as u64 * j as u64) % (2u64 * n as u64);
        Some(ChirpEntry::Phase { square, in_table: k < n })
    } else {
        Some(ChirpEntry::Zero)
    }
}

/// The kernel is symmetric: entry `j` and entry `m - j` take the same phase
/// for `0 < j < n`, provided `m >= 2n - 1` (as the convolution length is).
pub proof fn lemma_chirp_symmetric(j: nat, n: nat, m: nat)
    requires
        0 < j < n,
        m >= 2 * n - 1,
    ensures
        chirp_entry_spec((m - j) as nat, n, m) matches ChirpEntry::Phase { square, in_table }
            && !in_table && chirp_entry_spec(j, n, m) == (ChirpEntry::Phase { square, in_table: true }),
{
}

/// The reduced square differs from `j^2` by a multiple of `2n`, so the
/// angle `pi square / n` equals `pi j^2 / n` up to whole turns.
pub proof fn lemma_chirp_phase_exact(j: nat, n: nat)
    requires
        n > 0,
    ensures
        j * j == ((j * j) / (2 * n)) * (2 * n) + (j * j) % (2 * n),
{
    vstd::arithmetic::div_mod::lemma_fundamental_div_mod((j * j) as int, (2 * n) as int);
    let q = (j * j) / (2 * n);
}

/// What the chirp construction writes for every entry `k < m`: the
/// `n`-point chirp table is written at exactly the indices `k < n`, index 0
/// included, with the phase `k^2 mod 2n`; the convolution kernel holds the
/// chirp at distance `k` for `k < n`, at distance `m - k` in the
/// wrapped-around tail where `m - k < n`, and zero everywhere else.
pub proof fn lemma_chirp_entries(k: nat, n: nat, m: nat)
    requires
        n > 0,
        k < m,
        n * n <= u64::MAX,
    ensures
        k < n ==> chirp_entry_spec(k, n, m) == (ChirpEntry::Phase { square: ((k * k) % (2 * n)) as u64, in_table: true }),
        n <= k && m - k < n ==> chirp_entry_spec(k, n, m) == (ChirpEntry::Phase {
            square: ((((m - k) as nat) * ((m - k) as nat)) % (2 * n)) as u64,
            in_table: false,
        }),
        n <= k && m - k >= n ==> chirp_entry_spec(k, n, m) == ChirpEntry::Zero,
        (chirp_entry_spec(k, n, m) matches ChirpEntry::Phase { in_table, .. } && in_table) <==> k < n,
        chirp_entry_spec(k, n, m) matches ChirpEntry::Phase { square, .. } ==> square < 2 * n,
{
    if chirp_entry_spec(k, n, m) matches ChirpEntry::Phase { .. } {
        let j = chirp_index(k, n, m);
        vstd::arithmetic::div_mod::lemma_mod_bound((j * j) as int, (2 * n) as int);
    }
}

/// What one thread of the forward chirp multiply reads: the workspace
/// position `pos` holds entry `k` of row `batch`, the chirped sample `k`
/// when `sample` is `Some(k)`, zero otherwise.
#[derive(Debug, Clone, Copy, PartialEq, Eq, Structural)]
pub struct ForwardChirpTask {
    pub batch: usize,
    pub k: usize,
    pub sample: Option<usize>,
}

/// One thread of the forward chirp multiply over `total = rows * m`
/// positions, reading the first `used` samples of each row.
pub fn prepare_forward(pos: usize, total: usize, used: usize, n: usize, m: usize) -> (r: Option<ForwardChirpTask>)
    requires
        m > 0,
    ensures
        r == (if pos >= total {
            None
        } else {
            let k = pos as nat % m as nat;
            Some(ForwardChirpTask {
                batch: (pos as nat / m as nat) as usize,
                k: k as usize,
                sample: if k < n && k < used { Some(k as usize) } else { None },
            })
        }),
        r matches Some(t) ==> t.batch * m + t.k == pos && t.k < m,
        r matches Some(t) ==> (t.sample matches Some(i) ==> i == t.k && i < n && i < used),
        r matches Some(t) ==> (t.k < n && t.k < used ==> t.sample is Some),
{
    proof {
        if pos < total {
            vstd::arithmetic::div_mod::lemma_fundamental_div_mod(pos as int, m as int);
            assert((pos / m) * m == m * (pos / m)) by (nonlinear_arith);
        }
    }
    if pos >= total {
        return None;
    }
    let k = pos % m;
    Some(ForwardChirpTask { batch: pos / m, k, sample: if k < n && k < used { Some(k) } else { None } })
}

/// How the imaginary part of a spectrum bin enters the inverse.
#[derive(Debug, Clone, Copy, PartialEq, Eq, Structural)]
pub enum ImagRead {
    /// DC, and Nyquist for even `n`, are real-only: the stored imaginary
    /// part is never read (it may hold anything, NaN included).
    Zero,
    /// The bin as stored.
    Plain,
    /// The conjugate: bins above `n / 2` mirror those below.
    Negated,
}

/// The spectrum bin that a workspace entry reads, and how.
#[derive(Debug, Clone, Copy, PartialEq, Eq, Structural)]
pub struct BinRead {
    pub bin: usize,
    pub imag: ImagRead,
}

pub open spec fn inverse_read_spec(k: nat, n: nat, used: nat) -> Option<BinRead> {
    let bin = if k <= n / 2 { k } else { (n - k) as nat };
    if k < n && bin < used {
        Some(BinRead {
            bin: bin as usize,
            imag: if bin == 0 || (n % 2 == 0 && bin == n / 2) {
                ImagRead::Zero
            } else if k <= n / 2 {
                ImagRead::Plain
            } else {
                ImagRead::Negated
            },
        })
    } else {
        None
    }
}

/// What one thread of the inverse chirp multiply reads.
#[derive(Debug, Clone, Copy, PartialEq, Eq, Structural)]
pub struct InverseChirpTask {
    pub batch: usize,
    pub k: usize,
    pub read: Option<BinRead>,
}

/// One thread of the inverse chirp multiply over `total = rows * m`
/// positions: entry `k < n` reads bin `k` or its mirror `n - k` (when it is
/// among the first `used` bins), other entries are zero.
pub fn prepare_inverse(pos: usize, total: usize, used: usize, n: usize, m: usize) -> (r: Option<InverseChirpTask>)
    requires
        m > 0,
    ensures
        r == (if pos >= total {
            None
        } else {
            let k = pos as nat % m as nat;
            Some(InverseChirpTask {
                batch: (pos as nat / m as nat) as usize,
                k: k as usize,
                read: inverse_read_spec(k, n as nat, used as nat),
            })
        }),
{
    if pos >= total {
        return None;
    }
    let k = pos % m;
    let mut read: Option<BinRead> = None;
    if k < n {
        let bin = if k <= n / 2 { k } else { n - k };
        if bin < used {
            let imag = if bin == 0 || (n % 2 == 0 && bin == n / 2) {
                ImagRead::Zero
            } else if k <= n / 2 {
                ImagRead::Plain
            } else {
                ImagRead::Negated
            };
            read = Some(BinRead { bin, imag });
        }
    }
    Some(InverseChirpTask { batch: pos / m, k, read })
}

/// The inverse reads a Hermitian spectrum: entries `k` and `n - k` read the
/// same bin, one as stored and the other conjugated (or both real-only).
pub proof fn lemma_inverse_hermitian(k: nat, n: nat, used: nat)
    requires
        0 < k < n,
    ensures
        inverse_read_spec(k, n, used) matches Some(a) ==> inverse_read_spec((n - k) as nat, n, used) matches Some(b)
            && a.bin == b.bin && (a.imag == ImagRead::Zero <==> b.imag == ImagRead::Zero)
            && (a.imag == ImagRead::Plain <==> b.imag == ImagRead::Negated),
{
}

/// What the inverse chirp multiply reads: entry `k < n` reads bin `k` for
/// `k <= n/2` and the mirror bin `n - k` conjugated above, each only when
/// it is among the first `used` bins, so every bin read lies in the half
/// spectrum and below `used`; DC and (for even `n`) Nyquist are read as
/// real-only; entries at or past `n` read nothing.
pub proof fn lemma_inverse_reads(k: nat, n: nat, used: nat)
    requires
        n <= usize::MAX,
    ensures
        k >= n ==> inverse_read_spec(k, n, used) is None,
        inverse_read_spec(k, n, used) matches Some(r) ==> r.bin <= n / 2 && r.bin < used && (r.bin == k || r.bin + k == n),
        k < n && 2 * k <= n && k < used ==> (inverse_read_spec(k, n, used) matches Some(r) && r.bin == k),
        k < n && 2 * k > n && n - k < used ==> (inverse_read_spec(k, n, used) matches Some(r) && r.bin == n - k
            && r.imag == ImagRead::Negated),
        inverse_read_spec(k, n, used) matches Some(r) ==> (r.imag == ImagRead::Zero <==> (r.bin == 0 || 2 * r.bin == n)),
        k < n && 0 < k && 2 * k < n && k < used ==> (inverse_read_spec(k, n, used) matches Some(r) && r.imag
            == ImagRead::Plain),
{
}

/// One thread of the spectrum multiply over `total = rows * m` positions:
/// position `pos` multiplies by kernel entry `pos % m`.
pub fn multiply_spectrum(pos: usize, total: usize, m: usize) -> (r: Option<usize>)
    requires
        m > 0,
    ensures
        r == (if pos >= total { None } else { Some((pos as nat % m as nat) as usize) }),
        r matches Some(k) ==> k < m && (pos - k) % (m as int) == 0,
{
    proof {
        if pos < total {
            vstd::arithmetic::div_mod::lemma_fundamental_div_mod(pos as int, m as int);
            vstd::arithmetic::div_mod::lemma_mod_multiples_basic((pos / m) as int, m as int);
            assert((pos / m) * m == m * (pos / m)) by (nonlinear_arith);
        }
    }
    if pos >= total {
        return None;
    }
    Some(pos % m)
}

/// What one thread of a finishing pass does: output `k` of row `batch`
/// comes from workspace element `source`, chirped by table entry `k` and
/// scaled by `1/m` (and by `1/n` on the inverse); `real_only` marks the
/// forward's DC and even-length Nyquist bins, whose imaginary part is zero.
#[derive(Debug, Clone, Copy, PartialEq, Eq, Structural)]
pub struct FinishTask {
    pub batch: usize,
    pub k: usize,
    pub source: usize,
    pub real_only: bool,
}

/// One thread of the forward finish over `total = rows * (n / 2 + 1)` bins.
pub fn finish_forward(pos: usize, total: usize, n: usize, m: usize) -> (r: Option<FinishTask>)
    requires
        n / 2 + 1 <= m,
        total as nat % (n as nat / 2 + 1) == 0,
        total as nat / (n as nat / 2 + 1) * m as nat <= usize::MAX,
    ensures
        r == (if pos >= total {
            None
        } else {
            let bins = n as nat / 2 + 1;
            let batch = pos as nat / bins;
            let k = pos as nat % bins;
            Some(FinishTask {
                batch: batch as usize,
                k: k as usize,
                source: (batch * m + k) as usize,
                real_only: k == 0 || (n % 2 == 0 && k == n / 2),
            })
        }),
        r matches Some(t) ==> t.batch * (n as nat / 2 + 1) + t.k == pos && t.k <= n / 2,
        r matches Some(t) ==> t.source as nat / m as nat == t.batch && t.source as nat % m as nat == t.k,
        r matches Some(t) ==> (t.real_only <==> (t.k == 0 || 2 * t.k == n)),
{
    if pos >= total {
        return None;
    }
    let bins = n / 2 + 1;
    let batch = pos / bins;
    let k = pos % bins;
    proof {
        lemma_source_fits(pos as nat, total as nat, bins as nat, m as nat);
        vstd::arithmetic::div_mod::lemma_fundamental_div_mod(pos as int, bins as int);
        assert((pos / bins) * bins == bins * (pos / bins)) by (nonlinear_arith);
        lemma_source_row(batch as nat, k as nat, m as nat);
    }
    Some(FinishTask {
        batch,
        k,
        source: batch * m + k,
        real_only: k == 0 || (n % 2 == 0 && k == n / 2),
    })
}

/// A row's source stays inside the workspace of the rows below `total`.
proof fn lemma_source_fits(pos: nat, total: nat, width: nat, m: nat)
    requires
        width > 0,
        width <= m,
        pos < total,
        total % width == 0,
        total / width * m <= usize::MAX,
    ensures
        (pos / width) * m + pos % width <= usize::MAX,
        pos % width < width,
{
    vstd::arithmetic::div_mod::lemma_fundamental_div_mod(pos as int, width as int);
    vstd::arithmetic::div_mod::lemma_fundamental_div_mod(total as int, width as int);
    let b = pos / width;
    let t = total / width;
    assert(b < t) by (nonlinear_arith)
        requires
            pos == width * b + pos % width,
            total == width * t,
            pos < total,
            pos % width >= 0,
            width > 0,
    ;
    assert(b * m + m <= t * m) by (nonlinear_arith)
        requires
            b + 1 <= t,
    ;
}

/// Workspace element `batch * m + k` (with `k < m`) is column `k` of row
/// `batch`.
proof fn lemma_source_row(batch: nat, k: nat, m: nat)
    requires
        k < m,
    ensures
        (batch * m + k) / m == batch,
        (batch * m + k) % m == k,
{
    vstd::arithmetic::div_mod::lemma_fundamental_div_mod_converse((batch * m + k) as int, m as int, batch as int, k as int);
}

/// One thread of the inverse finish over `total = rows * n` samples.
pub fn finish_inverse(pos: usize, total: usize, n: usize, m: usize) -> (r: Option<FinishTask>)
    requires
        0 < n <= m,
        total as nat % n as nat == 0,
        total as nat / n as nat * m as nat <= usize::MAX,
    ensures
        r == (if pos >= total {
            None
        } else {
            let batch = pos as nat / n as nat;
            let k = pos as nat % n as nat;
            Some(FinishTask { batch: batch as usize, k: k as usize, source: (batch * m + k) as usize, real_only: false })
        }),
        r matches Some(t) ==> t.batch * n + t.k == pos && t.k < n && !t.real_only,
        r matches Some(t) ==> t.source as nat / m as nat == t.batch && t.source as nat % m as nat == t.k,
{
    if pos >= total {
        return None;
    }
    let batch = pos / n;
    let k = pos % n;
    proof {
        lemma_source_fits(pos as nat, total as nat, n as nat, m as nat);
        vstd::arithmetic::div_mod::lemma_fundamental_div_mod(pos as int, n as int);
        assert((pos / n) * n == n * (pos / n)) by (nonlinear_arith);
        lemma_source_row(batch as nat, k as nat, m as nat);
    }
    Some(FinishTask { batch, k, source: batch * m + k, real_only: false })
}

/// One thread of a one-point transform for row `batch` of `rows`: whether it
/// copies element 0 of its row (`Some(true)`) or writes zero
/// (`Some(false)`, when nothing is used).
pub fn scalar_transform(batch: usize, rows: usize, used: usize) -> (r: Option<bool>)
    ensures
        r == (if batch >= rows { None::<bool> } else { Some(used != 0) }),
{
    if batch >= rows {
        return None;
    }
    Some(used != 0)
}

} // verus!
