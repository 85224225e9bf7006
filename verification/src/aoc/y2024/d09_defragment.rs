use crate::lgl::parse;
use vstd::prelude::*;
use vstd::string::StringSliceAdditionalSpecFns;

verus! {

// ---------------------------------------------------------------------------
// The disk map: a string of digits. Even sectors are files, odd sectors free space;
// the digit is the sector's length in blocks. File `k` is sector `2k`.

/// The length written by one byte of the disk map (0 for a non-digit).
pub open spec fn digit_len(c: u8) -> nat {
    if 48 <= c <= 57 {
        (c - 48) as nat
    } else {
        0
    }
}

pub open spec fn sec_len(s: Seq<u8>, i: int) -> nat {
    digit_len(s[i])
}

/// Block position of the start of sector `k`.
pub open spec fn start(s: Seq<u8>, k: int) -> nat
    decreases k,
{
    if k <= 0 {
        0
    } else {
        start(s, k - 1) + sec_len(s, k - 1)
    }
}

/// Number of file blocks in the sectors before `k`.
pub open spec fn nfile_before(s: Seq<u8>, k: int) -> nat
    decreases k,
{
    if k <= 0 {
        0
    } else {
        nfile_before(s, k - 1) + if (k - 1) % 2 == 0 {
            sec_len(s, k - 1)
        } else {
            0
        }
    }
}

/// Number of free blocks in the sectors before `k`.
pub open spec fn nfree_before(s: Seq<u8>, k: int) -> nat
    decreases k,
{
    if k <= 0 {
        0
    } else {
        nfree_before(s, k - 1) + if (k - 1) % 2 == 1 {
            sec_len(s, k - 1)
        } else {
            0
        }
    }
}

/// The blocks of sector `i`: the file id for a file, `None` for free space.
pub open spec fn chunk(s: Seq<u8>, i: int) -> Seq<Option<nat>> {
    Seq::new(sec_len(s, i), |b: int| if i % 2 == 0 { Some((i / 2) as nat) } else { None })
}

/// The blocks of the first `k` sectors.
pub open spec fn blocks(s: Seq<u8>, k: int) -> Seq<Option<nat>>
    decreases k,
{
    if k <= 0 {
        seq![]
    } else {
        blocks(s, k - 1) + chunk(s, k - 1)
    }
}

/// The file ids of the file blocks of the first `k` sectors, in disk order.
pub open spec fn file_ids(s: Seq<u8>, k: int) -> Seq<nat>
    decreases k,
{
    if k <= 0 {
        seq![]
    } else {
        file_ids(s, k - 1) + if (k - 1) % 2 == 0 {
            Seq::new(sec_len(s, k - 1), |b: int| ((k - 1) / 2) as nat)
        } else {
            seq![]
        }
    }
}

/// The whole disk, block by block.
pub open spec fn disk(s: Seq<u8>) -> Seq<Option<nat>> {
    blocks(s, s.len() as int)
}

/// Number of file blocks on the disk.
pub open spec fn n_file_blocks(s: Seq<u8>) -> nat {
    nfile_before(s, s.len() as int)
}

/// Number of free blocks before position `p`.
pub open spec fn free_count(d: Seq<Option<nat>>, p: int) -> nat
    decreases p,
{
    if p <= 0 {
        0
    } else {
        free_count(d, p - 1) + if d[p - 1] is None {
            1nat
        } else {
            0
        }
    }
}

/// The file id at position `p < n_file_blocks` once blocks have been moved one at a time
/// from the end of the disk into the leftmost free block: a file block stays where it is,
/// and the `k`-th free block receives the `k`-th file block counted from the end.
pub open spec fn compacted(s: Seq<u8>, p: int) -> nat {
    match disk(s)[p] {
        Some(id) => id,
        None => file_ids(s, s.len() as int)[n_file_blocks(s) - 1 - free_count(disk(s), p)],
    }
}

/// Sum of position times file id over the first `n` blocks of the compacted disk.
pub open spec fn compact_checksum(s: Seq<u8>, n: int) -> int
    decreases n,
{
    if n <= 0 {
        0
    } else {
        compact_checksum(s, n - 1) + (n - 1) * compacted(s, n - 1)
    }
}

/// Sum of the positions `begin .. begin + len`.
pub open spec fn pos_sum(begin: int, len: int) -> int
    decreases len,
{
    if len <= 0 {
        0
    } else {
        pos_sum(begin, len - 1) + begin + len - 1
    }
}

/// Every byte is a digit, except perhaps a final byte at an odd index (a line end after a
/// free sector, which is never read).
pub open spec fn valid_disk(s: Seq<u8>) -> bool {
    forall|i: int|
        0 <= i < s.len() ==> (48 <= #[trigger] s[i] <= 57 || (i == s.len() - 1 && i % 2 == 1))
}

// ---------------------------------------------------------------------------
// Lemmas about the disk layout

proof fn lemma_pos_sum(begin: int, len: int)
    requires
        len >= 0,
    ensures
        2 * pos_sum(begin, len) == len * (2 * begin + len - 1),
    decreases len,
{
    if len > 0 {
        let a = len - 1;
        lemma_pos_sum(begin, a);
        assert(pos_sum(begin, len) == pos_sum(begin, a) + begin + a);
        assert(len * (2 * begin + len - 1) == a * (2 * begin + a - 1) + 2 * (begin + a))
            by (nonlinear_arith)
            requires
                len == a + 1,
        ;
    } else {
        assert(len * (2 * begin + len - 1) == 0) by (nonlinear_arith)
            requires
                len == 0,
        ;
    }
}

proof fn lemma_start_split(s: Seq<u8>, k: int)
    requires
        k >= 0,
    ensures
        start(s, k) == nfile_before(s, k) + nfree_before(s, k),
    decreases k,
{
    if k > 0 {
        lemma_start_split(s, k - 1);
    }
}

proof fn lemma_nfile_mono(s: Seq<u8>, i: int, k: int)
    requires
        0 <= i <= k,
    ensures
        nfile_before(s, i) <= nfile_before(s, k),
        start(s, i) <= start(s, k),
    decreases k,
{
    if i < k {
        lemma_nfile_mono(s, i, k - 1);
    }
}

proof fn lemma_blocks_len(s: Seq<u8>, k: int)
    requires
        k >= 0,
    ensures
        blocks(s, k).len() == start(s, k),
        file_ids(s, k).len() == nfile_before(s, k),
    decreases k,
{
    if k > 0 {
        lemma_blocks_len(s, k - 1);
    }
}

/// Block `b` of sector `i` sits at position `start(i) + b`.
proof fn lemma_blocks_at(s: Seq<u8>, k: int, i: int, b: int)
    requires
        0 <= i < k,
        0 <= b < sec_len(s, i),
    ensures
        blocks(s, k)[start(s, i) + b] == chunk(s, i)[b],
    decreases k,
{
    lemma_blocks_len(s, k - 1);
    if i < k - 1 {
        lemma_blocks_at(s, k - 1, i, b);
        lemma_nfile_mono(s, i + 1, k - 1);
    }
}

/// Block `b` of file sector `i` is the `nfile_before(i) + b`-th file block.
proof fn lemma_file_ids_at(s: Seq<u8>, k: int, i: int, b: int)
    requires
        0 <= i < k,
        i % 2 == 0,
        0 <= b < sec_len(s, i),
    ensures
        file_ids(s, k)[nfile_before(s, i) + b] == (i / 2) as nat,
    decreases k,
{
    lemma_blocks_len(s, k - 1);
    if i < k - 1 {
        lemma_file_ids_at(s, k - 1, i, b);
        lemma_nfile_mono(s, i + 1, k - 1);
    }
}

/// The free blocks before block `b` of sector `i`.
proof fn lemma_free_count(s: Seq<u8>, i: int, b: int)
    requires
        0 <= i < s.len(),
        0 <= b <= sec_len(s, i),
    ensures
        free_count(disk(s), start(s, i) + b) == nfree_before(s, i) + if i % 2 == 1 {
            b
        } else {
            0
        },
    decreases i, b,
{
    if b > 0 {
        lemma_free_count(s, i, b - 1);
        lemma_blocks_at(s, s.len() as int, i, b - 1);
    } else if i > 0 {
        lemma_free_count(s, i - 1, sec_len(s, i - 1) as int);
    }
}

proof fn lemma_checksum_mono(s: Seq<u8>, n: int, m: int)
    requires
        0 <= n <= m,
    ensures
        0 <= compact_checksum(s, n) <= compact_checksum(s, m),
    decreases m,
{
    if m > 0 {
        if n < m {
            lemma_checksum_mono(s, n, m - 1);
        } else {
            lemma_checksum_mono(s, m - 1, m - 1);
        }
        assert((m - 1) * compacted(s, m - 1) >= 0) by (nonlinear_arith)
            requires
                m >= 1,
        ;
    }
}

/// Blocks `bx .. bx + c` that all hold id `v` add `v` times the sum of their positions.
proof fn lemma_checksum_run(s: Seq<u8>, bx: int, c: int, v: nat)
    requires
        0 <= bx,
        0 <= c,
        forall|p: int| bx <= p < bx + c ==> #[trigger] compacted(s, p) == v,
    ensures
        compact_checksum(s, bx + c) == compact_checksum(s, bx) + v * pos_sum(bx, c),
    decreases c,
{
    if c > 0 {
        lemma_checksum_run(s, bx, c - 1, v);
        assert(compacted(s, bx + c - 1) == v);
        assert(v * pos_sum(bx, c) == v * pos_sum(bx, c - 1) + (bx + c - 1) * v) by (nonlinear_arith)
            requires
                pos_sum(bx, c) == pos_sum(bx, c - 1) + bx + c - 1,
        ;
    }
}

// ---------------------------------------------------------------------------
// Sectors

/// Whether the sector holds a file.
pub fn is_file(sector_id: usize) -> (b: bool)
    ensures
        b == (sector_id % 2 == 0),
{
    sector_id % 2 == 0
}

/// The id of the file in an even sector.
pub fn get_file_id(sector_id: usize) -> (id: usize)
    requires
        sector_id % 2 == 0,
    ensures
        id == sector_id / 2,
{
    sector_id / 2
}

/// The length given by a digit of the disk map.
pub fn get_sector_len(c: u8) -> (len: usize)
    requires
        48 <= c <= 57,
    ensures
        len == digit_len(c),
{
    (c - 48) as usize
}

/// Checksum of file `file_id` on the blocks `begin .. begin + len`.
pub fn partial_checksum(file_id: usize, begin: usize, len: usize) -> (r: usize)
    requires
        2 * begin + len <= usize::MAX,
        len * (2 * begin + len - 1) <= usize::MAX,
        len * (2 * begin + len - 1) * file_id <= usize::MAX,
    ensures
        r == file_id * pos_sum(begin as int, len as int),
{
    let end = (begin + len).saturating_sub(1);
    let avg2 = begin + end;
    proof {
        lemma_pos_sum(begin as int, len as int);
        if len == 0 {
            assert(len * avg2 == 0);
        } else {
            assert(avg2 == 2 * begin + len - 1);
        }
        assert(len * avg2 * file_id == 2 * (file_id * pos_sum(begin as int, len as int)))
            by (nonlinear_arith)
            requires
                len * avg2 == 2 * pos_sum(begin as int, len as int),
        ;
    }
    (len * avg2 * file_id) / 2
}

// ---------------------------------------------------------------------------
// Block-by-block compaction

/// The state of the two-ended scan of `part1`. The head has consumed sectors before `hs`
/// and `hb` blocks of sector `hs`, having written `bx` blocks; the tail has consumed the
/// sectors after `tx = len - ts - 1` and `tb` blocks of the file sector `tx`.
pub open spec fn scan_state(s: Seq<u8>, hs: int, hb: int, bx: int, ts: int, tb: int) -> bool {
    let nn = s.len() as int;
    let ff = n_file_blocks(s) as int;
    let tx = nn - ts - 1;
    let tail = ff - nfile_before(s, tx + 1);
    &&& 0 <= hs
    &&& 0 <= hb
    &&& 0 <= ts
    &&& 0 <= tb
    &&& tx >= -2
    &&& (tx >= 0 ==> tx % 2 == 0)
    &&& hs <= tx + 2
    &&& bx <= ff
    &&& hs > tx ==> bx == ff
    &&& hs <= tx ==> {
        &&& bx == start(s, hs) + hb
        &&& (hs % 2 == 0 ==> hb == 0)
        &&& hb <= sec_len(s, hs)
        &&& tb <= sec_len(s, tx)
        &&& free_count(disk(s), bx) == tb + tail
        &&& bx == nfile_before(s, hs) + tb + tail
    }
}

proof fn lemma_scan_start(s: Seq<u8>, ts: int)
    requires
        ts == (if 0 < s.len() && (s.len() - 1) % 2 == 0 {
            0int
        } else {
            1
        }),
    ensures
        scan_state(s, 0, 0, 0, ts, 0),
{
    let nn = s.len() as int;
    if nn > 0 {
        assert(nfile_before(s, nn) == nfile_before(s, nn - 1) + if (nn - 1) % 2 == 0 {
            sec_len(s, nn - 1)
        } else {
            0
        });
    }
}

/// The head consumes what is left of the file sector it stands on.
proof fn lemma_scan_file(s: Seq<u8>, hs: int, hb: int, bx: int, ts: int, tb: int, c: int)
    requires
        scan_state(s, hs, hb, bx, ts, tb),
        hs <= s.len() - ts - 1,
        hs % 2 == 0,
        c == (if hs == s.len() - ts - 1 {
            sec_len(s, hs) - tb
        } else {
            sec_len(s, hs) as int
        }),
    ensures
        c >= 0,
        bx + c <= n_file_blocks(s),
        forall|p: int| bx <= p < bx + c ==> #[trigger] compacted(s, p) == (hs / 2) as nat,
        scan_state(s, hs + 1, hb, bx + c, ts, tb),
{
    let nn = s.len() as int;
    let tx = nn - ts - 1;
    lemma_nfile_mono(s, hs, tx);
    lemma_nfile_mono(s, tx + 1, nn);
    lemma_start_split(s, hs);
    lemma_start_split(s, hs + 1);
    assert(nfile_before(s, tx + 1) == nfile_before(s, tx) + sec_len(s, tx));
    assert(nfile_before(s, hs + 1) == nfile_before(s, hs) + sec_len(s, hs));
    if hs < tx {
        lemma_nfile_mono(s, hs + 1, tx);
        lemma_free_count(s, hs, sec_len(s, hs) as int);
    }
    assert forall|p: int| bx <= p < bx + c implies #[trigger] compacted(s, p) == (hs / 2) as nat by {
        lemma_blocks_at(s, nn, hs, p - bx);
    }
}

/// The head fills free blocks of its sector with blocks taken from the tail file.
proof fn lemma_scan_free(s: Seq<u8>, hs: int, hb: int, bx: int, ts: int, tb: int, c: int)
    requires
        scan_state(s, hs, hb, bx, ts, tb),
        hs <= s.len() - ts - 1,
        hs % 2 == 1,
        c == (if sec_len(s, s.len() - ts - 1) - tb < sec_len(s, hs) - hb {
            sec_len(s, s.len() - ts - 1) - tb
        } else {
            sec_len(s, hs) - hb
        }),
    ensures
        c >= 0,
        hs < s.len() - ts - 1,
        ts + 2 < s.len(),
        bx + c <= n_file_blocks(s),
        forall|p: int|
            bx <= p < bx + c ==> #[trigger] compacted(s, p) == ((s.len() - ts - 1) / 2) as nat,
        ({
            let tb1 = tb + c;
            let hb1 = hb + c;
            let tail_done = tb1 == sec_len(s, s.len() - ts - 1);
            let head_done = hb1 == sec_len(s, hs);
            scan_state(
                s,
                if head_done {
                    hs + 1
                } else {
                    hs
                },
                if head_done {
                    0
                } else {
                    hb1
                },
                bx + c,
                if tail_done {
                    ts + 2
                } else {
                    ts
                },
                if tail_done {
                    0
                } else {
                    tb1
                },
            )
        }),
{
    let nn = s.len() as int;
    let ff = n_file_blocks(s) as int;
    let tx = nn - ts - 1;
    let tail = ff - nfile_before(s, tx + 1);
    lemma_nfile_mono(s, hs, tx);
    lemma_nfile_mono(s, tx + 1, nn);
    lemma_nfile_mono(s, hs + 1, tx);
    lemma_start_split(s, hs);
    lemma_start_split(s, hs + 1);
    lemma_blocks_len(s, nn);
    assert(nfile_before(s, tx + 1) == nfile_before(s, tx) + sec_len(s, tx));
    assert(nfile_before(s, hs + 1) == nfile_before(s, hs));
    assert(nfile_before(s, tx) == nfile_before(s, tx - 1));
    lemma_free_count(s, hs, hb);
    lemma_free_count(s, hs, hb + c);
    assert forall|p: int| bx <= p < bx + c implies #[trigger] compacted(s, p) == (tx / 2) as nat by {
        lemma_blocks_at(s, nn, hs, hb + p - bx);
        lemma_free_count(s, hs, hb + p - bx);
        lemma_file_ids_at(s, nn, tx, sec_len(s, tx) - tb - 1 - (p - bx));
    }
}

/// A run of `c` blocks of file `v` written at `bx`: the checksum grows by `v` times the sum of
/// the run's positions, and every intermediate value fits.
proof fn lemma_scan_run(s: Seq<u8>, bx: int, c: int, v: nat)
    requires
        0 <= bx,
        0 <= c,
        bx + c <= n_file_blocks(s),
        n_file_blocks(s) * n_file_blocks(s) <= usize::MAX,
        2 * compact_checksum(s, n_file_blocks(s) as int) <= usize::MAX,
        forall|p: int| bx <= p < bx + c ==> #[trigger] compacted(s, p) == v,
    ensures
        compact_checksum(s, bx + c) == compact_checksum(s, bx) + v * pos_sum(bx, c),
        compact_checksum(s, bx + c) <= compact_checksum(s, n_file_blocks(s) as int),
        2 * bx + c <= usize::MAX,
        c * (2 * bx + c - 1) <= usize::MAX,
        c * (2 * bx + c - 1) * v <= usize::MAX,
{
    let ff = n_file_blocks(s) as int;
    lemma_checksum_run(s, bx, c, v);
    lemma_checksum_mono(s, bx + c, ff);
    lemma_checksum_mono(s, 0, bx);
    lemma_pos_sum(bx, c);
    assert(c * (2 * bx + c - 1) <= ff * ff) by (nonlinear_arith)
        requires
            0 <= bx,
            0 <= c,
            bx + c <= ff,
    ;
    if ff >= 2 {
        assert(2 * ff <= ff * ff) by (nonlinear_arith)
            requires
                ff >= 2,
        ;
    }
    assert(c * (2 * bx + c - 1) * v <= usize::MAX) by (nonlinear_arith)
        requires
            c * (2 * bx + c - 1) == 2 * pos_sum(bx, c),
            v * pos_sum(bx, c) <= compact_checksum(s, ff),
            2 * compact_checksum(s, ff) <= usize::MAX,
            v >= 0,
    ;
}

/// Checksum of the disk after moving file blocks one at a time from the end of the disk
/// into the leftmost free block, until no free block is left of a file block.
pub fn part1(input: &str) -> (checksum: usize)
    requires
        valid_disk(input.spec_bytes()),
        input.spec_bytes().len() < usize::MAX,
        n_file_blocks(input.spec_bytes()) * n_file_blocks(input.spec_bytes()) <= usize::MAX,
        2 * compact_checksum(input.spec_bytes(), n_file_blocks(input.spec_bytes()) as int)
            <= usize::MAX,
    ensures
        checksum == compact_checksum(input.spec_bytes(), n_file_blocks(input.spec_bytes()) as int),
{
    let sectors = input.as_bytes();
    let ghost s = sectors@;
    let n_sec = sectors.len();
    let mut checksum: usize = 0;
    let mut head_sec_consumed: usize = 0;
    let mut head_blk_consumed: usize = 0;
    let mut head_bx: usize = 0;
    let mut tail_sec_consumed: usize = if 0 < n_sec && is_file(n_sec - 1) {
        0
    } else {
        1
    };
    let mut tail_blk_consumed: usize = 0;
    proof {
        lemma_scan_start(s, tail_sec_consumed as int);
    }
    while head_sec_consumed + tail_sec_consumed < n_sec
        invariant
            s == sectors@,
            n_sec == s.len(),
            n_sec < usize::MAX,
            valid_disk(s),
            n_file_blocks(s) * n_file_blocks(s) <= usize::MAX,
            2 * compact_checksum(s, n_file_blocks(s) as int) <= usize::MAX,
            scan_state(
                s,
                head_sec_consumed as int,
                head_blk_consumed as int,
                head_bx as int,
                tail_sec_consumed as int,
                tail_blk_consumed as int,
            ),
            checksum == compact_checksum(s, head_bx as int),
        decreases n_sec + 1 - head_sec_consumed - tail_sec_consumed,
    {
        let head_sx = head_sec_consumed;
        let head_sec_len = get_sector_len(sectors[head_sx]);
        let tail_sx = n_sec - tail_sec_consumed - 1;
        let tail_sec_len = get_sector_len(sectors[tail_sx]);
        if is_file(head_sx) {
            let consumed_len = if head_sx == tail_sx {
                head_sec_len - tail_blk_consumed
            } else {
                head_sec_len
            };
            proof {
                lemma_scan_file(
                    s,
                    head_sx as int,
                    head_blk_consumed as int,
                    head_bx as int,
                    tail_sec_consumed as int,
                    tail_blk_consumed as int,
                    consumed_len as int,
                );
                lemma_scan_run(s, head_bx as int, consumed_len as int, (head_sx / 2) as nat);
            }
            checksum += partial_checksum(get_file_id(head_sx), head_bx, consumed_len);
            head_bx += consumed_len;
            head_sec_consumed += 1;
        } else {
            let tail_sec_data_rem = tail_sec_len - tail_blk_consumed;
            let head_space = head_sec_len - head_blk_consumed;
            let consumed_len = if tail_sec_data_rem < head_space {
                tail_sec_data_rem
            } else {
                head_space
            };
            proof {
                lemma_scan_free(
                    s,
                    head_sx as int,
                    head_blk_consumed as int,
                    head_bx as int,
                    tail_sec_consumed as int,
                    tail_blk_consumed as int,
                    consumed_len as int,
                );
                lemma_scan_run(s, head_bx as int, consumed_len as int, (tail_sx / 2) as nat);
            }
            checksum += partial_checksum(get_file_id(tail_sx), head_bx, consumed_len);
            head_bx += consumed_len;
            tail_blk_consumed += consumed_len;
            head_blk_consumed += consumed_len;
            if tail_blk_consumed == tail_sec_len {
                tail_sec_consumed += 2;
                tail_blk_consumed = 0;
            }
            if head_blk_consumed == head_sec_len {
                head_sec_consumed += 1;
                head_blk_consumed = 0;
            }
        }
    }
    checksum
}

// ---------------------------------------------------------------------------
// Whole-file compaction

/// A file on the disk: its id and its length in blocks.
#[derive(Clone, Copy, Debug)]
pub struct File {
    pub id: usize,
    pub len: usize,
}

/// A disk: the files keyed by their position, and the free segments as
/// `(length, position)` pairs.
pub struct Fs {
    pub files: Vec<(usize, File)>,
    pub space: Vec<(usize, usize)>,
}

/// A file as `(position, id, length)`.
pub open spec fn fview(f: (usize, File)) -> (int, int, int) {
    (f.0 as int, f.1.id as int, f.1.len as int)
}

pub open spec fn files_view(v: Seq<(usize, File)>) -> Seq<(int, int, int)> {
    v.map_values(|f: (usize, File)| fview(f))
}

/// The free segments as a set of `(length, position)` pairs.
pub open spec fn space_set(v: Seq<(usize, usize)>) -> Set<(int, int)> {
    Set::new(
        |c: (int, int)| exists|i: int| 0 <= i < v.len() && #[trigger] seg_at(v, i) == c,
    )
}

pub open spec fn seg_at(v: Seq<(usize, usize)>, i: int) -> (int, int) {
    (v[i].0 as int, v[i].1 as int)
}

/// Segment `c` is free, long enough for `len` blocks, and left of `pos`.
pub open spec fn candidate(sp: Set<(int, int)>, len: int, pos: int, c: (int, int)) -> bool {
    sp.contains(c) && c.0 >= len && c.1 < pos
}

/// Segment `c` is at least as good a place as `d`: further left, or as far left and longer.
pub open spec fn at_least_as_good(c: (int, int), d: (int, int)) -> bool {
    c.1 < d.1 || (c.1 == d.1 && c.0 >= d.0)
}

pub open spec fn is_best(sp: Set<(int, int)>, len: int, pos: int, c: (int, int)) -> bool {
    &&& candidate(sp, len, pos, c)
    &&& forall|d: (int, int)| #[trigger] candidate(sp, len, pos, d) ==> at_least_as_good(c, d)
}

/// The free segment a file of `len` blocks at `pos` moves to: the leftmost free segment
/// left of `pos` with room for it (the longest of those that start at the same block).
pub open spec fn alloc_choice(sp: Set<(int, int)>, len: int, pos: int) -> Option<(int, int)> {
    if exists|c: (int, int)| is_best(sp, len, pos, c) {
        Some(choose|c: (int, int)| is_best(sp, len, pos, c))
    } else {
        None
    }
}

/// The free segments once `len` blocks are taken from the start of segment `c`.
pub open spec fn alloc_apply(sp: Set<(int, int)>, c: (int, int), len: int) -> Set<(int, int)> {
    if len < c.0 {
        sp.remove(c).insert((c.0 - len, c.1 + len))
    } else {
        sp.remove(c)
    }
}

proof fn lemma_best_unique(sp: Set<(int, int)>, len: int, pos: int, c: (int, int), d: (int, int))
    requires
        is_best(sp, len, pos, c),
        is_best(sp, len, pos, d),
    ensures
        c == d,
{
    assert(at_least_as_good(c, d));
    assert(at_least_as_good(d, c));
}

/// Index of the segment `c` in `v`, if it is there.
fn find_seg(v: &Vec<(usize, usize)>, c: (usize, usize)) -> (r: Option<usize>)
    ensures
        match r {
            Some(i) => i < v@.len() && v@[i as int] == c,
            None => !space_set(v@).contains((c.0 as int, c.1 as int)),
        },
{
    let mut i: usize = 0;
    while i < v.len()
        invariant
            i <= v@.len(),
            forall|j: int| 0 <= j < i ==> #[trigger] seg_at(v@, j) != (c.0 as int, c.1 as int),
        decreases v@.len() - i,
    {
        if v[i].0 == c.0 && v[i].1 == c.1 {
            return Some(i);
        }
        i += 1;
    }
    None
}

/// Add a free segment, unless it is already there.
fn insert_seg(v: &mut Vec<(usize, usize)>, c: (usize, usize))
    requires
        old(v)@.no_duplicates(),
    ensures
        final(v)@.no_duplicates(),
        space_set(final(v)@) == space_set(old(v)@).insert((c.0 as int, c.1 as int)),
{
    match find_seg(v, c) {
        Some(i) => {
            assert(seg_at(v@, i as int) == (c.0 as int, c.1 as int));
            assert(space_set(v@).contains((c.0 as int, c.1 as int)));
            assert(space_set(v@) =~= space_set(v@).insert((c.0 as int, c.1 as int)));
        },
        None => {
            let ghost old_v = v@;
            v.push(c);
            assert(v@.no_duplicates()) by {
                assert forall|i: int, j: int|
                    0 <= i < j < v@.len() implies v@[i] != v@[j] by {
                    if j == old_v.len() {
                        assert(seg_at(old_v, i) != (c.0 as int, c.1 as int));
                    }
                }
            }
            assert forall|d: (int, int)|
                #[trigger] space_set(old_v).insert((c.0 as int, c.1 as int)).contains(
                    d,
                ) implies space_set(v@).contains(d) by {
                if d == (c.0 as int, c.1 as int) {
                    assert(seg_at(v@, old_v.len() as int) == d);
                } else {
                    let i = choose|i: int| 0 <= i < old_v.len() && #[trigger] seg_at(old_v, i) == d;
                    assert(seg_at(v@, i) == d);
                }
            }
            assert forall|d: (int, int)|
                #[trigger] space_set(v@).contains(d) implies space_set(old_v).insert(
                    (c.0 as int, c.1 as int),
                ).contains(d) by {
                let i = choose|i: int| 0 <= i < v@.len() && #[trigger] seg_at(v@, i) == d;
                if i < old_v.len() {
                    assert(seg_at(old_v, i) == d);
                }
            }
            assert(space_set(v@) =~= space_set(old_v).insert((c.0 as int, c.1 as int)));
        },
    }
}

/// Move a file of `len` blocks at `pos` to the leftmost free segment left of `pos` with room
/// for it: return where it goes, and shorten that segment by the blocks taken from its start.
pub fn try_alloc(map: &mut Vec<(usize, usize)>, pos: usize, len: usize) -> (r: Option<usize>)
    requires
        old(map)@.no_duplicates(),
        forall|i: int| 0 <= i < old(map)@.len() ==> #[trigger] old(map)@[i].0 + old(map)@[i].1
            <= usize::MAX,
    ensures
        final(map)@.no_duplicates(),
        match alloc_choice(space_set(old(map)@), len as int, pos as int) {
            Some(c) => r == Some(c.1 as usize) && space_set(final(map)@) == alloc_apply(
                space_set(old(map)@),
                c,
                len as int,
            ),
            None => r is None && final(map)@ == old(map)@,
        },
{
    let ghost sp = space_set(map@);
    let mut found: Option<usize> = None;
    let mut i: usize = 0;
    while i < map.len()
        invariant
            i <= map@.len(),
            sp == space_set(map@),
            match found {
                Some(k) => {
                    &&& k < i
                    &&& candidate(sp, len as int, pos as int, seg_at(map@, k as int))
                    &&& forall|j: int|
                        0 <= j < i && #[trigger] candidate(
                            sp,
                            len as int,
                            pos as int,
                            seg_at(map@, j),
                        ) ==> at_least_as_good(seg_at(map@, k as int), seg_at(map@, j))
                },
                None => forall|j: int|
                    0 <= j < i ==> !#[trigger] candidate(
                        sp,
                        len as int,
                        pos as int,
                        seg_at(map@, j),
                    ),
            },
        decreases map@.len() - i,
    {
        let (l, q) = map[i];
        assert(sp.contains(seg_at(map@, i as int)));
        if l >= len && q < pos {
            match found {
                None => {
                    found = Some(i);
                },
                Some(k) => {
                    let (bl, bq) = map[k];
                    if q < bq || (q == bq && l > bl) {
                        found = Some(i);
                    }
                },
            }
        }
        i += 1;
    }
    match found {
        None => {
            assert(alloc_choice(sp, len as int, pos as int) is None) by {
                if exists|c: (int, int)| is_best(sp, len as int, pos as int, c) {
                    let c = choose|c: (int, int)| is_best(sp, len as int, pos as int, c);
                    let j = choose|j: int| 0 <= j < map@.len() && #[trigger] seg_at(map@, j) == c;
                    assert(candidate(sp, len as int, pos as int, seg_at(map@, j)));
                }
            }
            None
        },
        Some(k) => {
            let ghost c = seg_at(map@, k as int);
            assert(is_best(sp, len as int, pos as int, c)) by {
                assert forall|d: (int, int)| #[trigger]
                    candidate(sp, len as int, pos as int, d) implies at_least_as_good(c, d) by {
                    let j = choose|j: int| 0 <= j < map@.len() && #[trigger] seg_at(map@, j) == d;
                    assert(candidate(sp, len as int, pos as int, seg_at(map@, j)));
                }
            }
            assert(alloc_choice(sp, len as int, pos as int) == Some(c)) by {
                let c2 = choose|c2: (int, int)| is_best(sp, len as int, pos as int, c2);
                lemma_best_unique(sp, len as int, pos as int, c, c2);
            }
            let (found_len, found_pos) = map[k];
            let ghost old_v = map@;
            map.remove(k);
            assert(space_set(map@) =~= sp.remove(c)) by {
                assert forall|d: (int, int)| #[trigger] space_set(map@).contains(d) implies sp.remove(
                    c,
                ).contains(d) by {
                    let j = choose|j: int| 0 <= j < map@.len() && #[trigger] seg_at(map@, j) == d;
                    if j < k {
                        assert(seg_at(old_v, j) == d);
                        assert(old_v[j] != old_v[k as int]);
                    } else {
                        assert(seg_at(old_v, j + 1) == d);
                        assert(old_v[j + 1] != old_v[k as int]);
                    }
                }
                assert forall|d: (int, int)| #[trigger] sp.remove(c).contains(d) implies space_set(
                    map@,
                ).contains(d) by {
                    let j = choose|j: int| 0 <= j < old_v.len() && #[trigger] seg_at(old_v, j) == d;
                    if j < k {
                        assert(seg_at(map@, j) == d);
                    } else {
                        assert(j != k);
                        assert(seg_at(map@, j - 1) == d);
                    }
                }
            }
            assert(map@.no_duplicates()) by {
                assert forall|a: int, b: int| 0 <= a < b < map@.len() implies map@[a] != map@[b] by {
                    let a1 = if a < k { a } else { a + 1 };
                    let b1 = if b < k { b } else { b + 1 };
                    assert(map@[a] == old_v[a1]);
                    assert(map@[b] == old_v[b1]);
                }
            }
            if len < found_len {
                insert_seg(map, (found_len - len, found_pos + len));
            }
            Some(found_pos)
        },
    }
}

// ---------------------------------------------------------------------------
// The disk as files and free segments

/// The files of the first `k` sectors as `(position, id, length)`, by position; a file at the
/// position of the previous one (after empty sectors) replaces it.
pub open spec fn new_files(s: Seq<u8>, k: int) -> Seq<(int, int, int)>
    decreases k,
{
    if k <= 0 {
        seq![]
    } else {
        let prev = new_files(s, k - 1);
        if (k - 1) % 2 == 0 {
            let e = (start(s, k - 1) as int, (k - 1) / 2, sec_len(s, k - 1) as int);
            if prev.len() > 0 && prev.last().0 == e.0 {
                prev.drop_last().push(e)
            } else {
                prev.push(e)
            }
        } else {
            prev
        }
    }
}

/// The free segments of the first `k` sectors, as `(length, position)` pairs.
pub open spec fn new_space(s: Seq<u8>, k: int) -> Set<(int, int)> {
    Set::new(
        |c: (int, int)|
            exists|i: int|
                0 <= i < k && i % 2 == 1 && c == (sec_len(s, i) as int, #[trigger] start(s, i) as int),
    )
}

/// All bytes are digits.
pub open spec fn all_digit_bytes(s: Seq<u8>) -> bool {
    forall|i: int| 0 <= i < s.len() ==> 48 <= #[trigger] s[i] <= 57
}

proof fn lemma_start_step(s: Seq<u8>, i: int, j: int)
    requires
        0 <= i < j,
    ensures
        start(s, i) + sec_len(s, i) <= start(s, j),
{
    lemma_nfile_mono(s, i + 1, j);
}

impl Fs {
    /// Lay out the disk map: files and free segments at consecutive positions.
    pub fn new(sectors: &[u8]) -> (fs: Fs)
        requires
            all_digit_bytes(sectors@),
            start(sectors@, sectors@.len() as int) <= usize::MAX,
        ensures
            files_view(fs.files@) == new_files(sectors@, sectors@.len() as int),
            space_set(fs.space@) == new_space(sectors@, sectors@.len() as int),
            fs.space@.no_duplicates(),
    {
        let ghost s = sectors@;
        let mut space: Vec<(usize, usize)> = Vec::new();
        let mut files: Vec<(usize, File)> = Vec::new();
        let mut pos: usize = 0;
        let mut sector_id: usize = 0;
        proof {
            assert(space_set(space@) =~= new_space(s, 0));
            assert(files_view(files@) =~= new_files(s, 0));
        }
        while sector_id < sectors.len()
            invariant
                s == sectors@,
                all_digit_bytes(s),
                start(s, s.len() as int) <= usize::MAX,
                sector_id <= s.len(),
                pos == start(s, sector_id as int),
                files_view(files@) == new_files(s, sector_id as int),
                space_set(space@) == new_space(s, sector_id as int),
                space@.no_duplicates(),
            decreases s.len() - sector_id,
        {
            let len = get_sector_len(sectors[sector_id]);
            proof {
                lemma_nfile_mono(s, sector_id + 1, s.len() as int);
            }
            let ghost k = sector_id as int;
            if is_file(sector_id) {
                let f = File { id: get_file_id(sector_id), len };
                let n = files.len();
                if n > 0 && files[n - 1].0 == pos {
                    files.set(n - 1, (pos, f));
                } else {
                    files.push((pos, f));
                }
                assert(files_view(files@) =~= new_files(s, k + 1));
                assert(space_set(space@) =~= new_space(s, k + 1)) by {
                    assert forall|c: (int, int)| #[trigger] new_space(s, k + 1).contains(c) implies new_space(
                        s,
                        k,
                    ).contains(c) by {
                        let i = choose|i: int|
                            0 <= i < k + 1 && i % 2 == 1 && c == (
                                sec_len(s, i) as int,
                                #[trigger] start(s, i) as int,
                            );
                        assert(i != k);
                    }
                }
            } else {
                insert_seg(&mut space, (len, pos));
                assert(files_view(files@) =~= new_files(s, k + 1));
                assert(space_set(space@) =~= new_space(s, k + 1)) by {
                    let c0 = (len as int, pos as int);
                    assert forall|c: (int, int)| #[trigger] new_space(s, k + 1).contains(c) implies new_space(
                        s,
                        k,
                    ).insert(c0).contains(c) by {
                        let i = choose|i: int|
                            0 <= i < k + 1 && i % 2 == 1 && c == (
                                sec_len(s, i) as int,
                                #[trigger] start(s, i) as int,
                            );
                    }
                    assert forall|c: (int, int)| #[trigger] new_space(s, k).insert(c0).contains(c) implies new_space(
                        s,
                        k + 1,
                    ).contains(c) by {
                        if c == c0 {
                            assert(c == (sec_len(s, k) as int, start(s, k) as int));
                        } else {
                            let i = choose|i: int|
                                0 <= i < k && i % 2 == 1 && c == (
                                    sec_len(s, i) as int,
                                    #[trigger] start(s, i) as int,
                                );
                        }
                    }
                }
            }
            pos += len;
            sector_id += 1;
        }
        Fs { space, files }
    }
}

// ---------------------------------------------------------------------------
// Moving whole files

/// Files processed from the last one back: each moves to the segment `alloc_choice` picks,
/// or stays where it is. The files in their new places, in the order they were processed.
pub open spec fn defrag_files(files: Seq<(int, int, int)>, sp: Set<(int, int)>) -> Seq<
    (int, int, int),
>
    decreases files.len(),
{
    if files.len() == 0 {
        seq![]
    } else {
        let f = files.last();
        match alloc_choice(sp, f.2, f.0) {
            Some(c) => seq![(c.1, f.1, f.2)] + defrag_files(
                files.drop_last(),
                alloc_apply(sp, c, f.2),
            ),
            None => seq![f] + defrag_files(files.drop_last(), sp),
        }
    }
}

/// The block ranges `[p1, p1 + l1)` and `[p2, p2 + l2)` do not overlap.
pub open spec fn apart(p1: int, l1: int, p2: int, l2: int) -> bool {
    p1 + l1 <= p2 || p2 + l2 <= p1
}

/// Files (non-empty) and free segments lie inside `[0, dsize)` and do not overlap.
pub open spec fn layout(files: Seq<(int, int, int)>, sp: Set<(int, int)>, dsize: int) -> bool {
    &&& forall|i: int|
        0 <= i < files.len() ==> {
            &&& #[trigger] files[i].2 >= 1
            &&& 0 <= files[i].0
            &&& files[i].0 + files[i].2 <= dsize
        }
    &&& forall|i: int, j: int|
        0 <= i < files.len() && 0 <= j < files.len() && i != j ==> apart(
            #[trigger] files[i].0,
            files[i].2,
            #[trigger] files[j].0,
            files[j].2,
        )
    &&& forall|c: (int, int)| #[trigger] sp.contains(c) ==> 0 <= c.0 && 0 <= c.1 && c.1 + c.0 <= dsize
    &&& forall|c: (int, int), i: int|
        #[trigger] sp.contains(c) && 0 <= i < files.len() ==> apart(
            c.1,
            c.0,
            #[trigger] files[i].0,
            files[i].2,
        )
    &&& forall|c: (int, int), d: (int, int)|
        #[trigger] sp.contains(c) && #[trigger] sp.contains(d) && c != d ==> apart(c.1, c.0, d.1, d.0)
}

/// One step of the defragmentation keeps the layout, and the new position of the file is
/// not the position of a file already placed.
proof fn lemma_defrag_step(
    rem: Seq<(int, int, int)>,
    placed: Seq<(int, int, int)>,
    sp: Set<(int, int)>,
    dsize: int,
)
    requires
        rem.len() > 0,
        layout(rem + placed, sp, dsize),
    ensures
        ({
            let f = rem.last();
            match alloc_choice(sp, f.2, f.0) {
                Some(c) => {
                    &&& layout(
                        rem.drop_last() + placed.push((c.1, f.1, f.2)),
                        alloc_apply(sp, c, f.2),
                        dsize,
                    )
                    &&& forall|j: int| 0 <= j < placed.len() ==> #[trigger] placed[j].0 != c.1
                },
                None => {
                    &&& layout(rem.drop_last() + placed.push(f), sp, dsize)
                    &&& forall|j: int| 0 <= j < placed.len() ==> #[trigger] placed[j].0 != f.0
                },
            }
        }),
{
    let all = rem + placed;
    let n = rem.len() - 1;
    let f = rem.last();
    assert(all[n] == f);
    // The file goes to `g`; every other file keeps its place.
    let g = match alloc_choice(sp, f.2, f.0) {
        Some(c) => (c.1, f.1, f.2),
        None => f,
    };
    let sp2 = match alloc_choice(sp, f.2, f.0) {
        Some(c) => alloc_apply(sp, c, f.2),
        None => sp,
    };
    let all2 = rem.drop_last() + placed.push(g);
    // Index `k` of `all2` is index `src(k)` of `all`, except the last one, which is `g`.
    assert forall|k: int| 0 <= k < all2.len() - 1 implies #[trigger] all2[k] == all[if k < n {
        k
    } else {
        k + 1
    }] by {}
    assert(all2[all2.len() - 1] == g);
    if let Some(c) = alloc_choice(sp, f.2, f.0) {
        assert(is_best(sp, f.2, f.0, c));
        assert forall|j: int| 0 <= j < placed.len() implies #[trigger] placed[j].0 != c.1 by {
            assert(all[rem.len() + j] == placed[j]);
        }
        assert forall|d: (int, int)| #[trigger] sp2.contains(d) implies (d == (c.0 - f.2, c.1 + f.2)
            && f.2 < c.0) || (sp.contains(d) && d != c) by {}
        assert forall|k: int| 0 <= k < all2.len() - 1 implies apart(
            g.0,
            g.2,
            #[trigger] all2[k].0,
            all2[k].2,
        ) by {
            let k1 = if k < n {
                k
            } else {
                k + 1
            };
            assert(all2[k] == all[k1]);
        }
        assert forall|d: (int, int), k: int| #[trigger]
            sp2.contains(d) && 0 <= k < all2.len() implies apart(
            d.1,
            d.0,
            #[trigger] all2[k].0,
            all2[k].2,
        ) by {
            if k < all2.len() - 1 {
                let k1 = if k < n {
                    k
                } else {
                    k + 1
                };
                assert(all2[k] == all[k1]);
                if sp.contains(d) && d != c {
                } else {
                    assert(apart(c.1, c.0, all[k1].0, all[k1].2));
                }
            } else {
                if sp.contains(d) && d != c {
                    assert(apart(c.1, c.0, d.1, d.0));
                }
            }
        }
        assert forall|d: (int, int), e: (int, int)| #[trigger]
            sp2.contains(d) && #[trigger] sp2.contains(e) && d != e implies apart(d.1, d.0, e.1, e.0) by {
            if sp.contains(d) && d != c && sp.contains(e) && e != c {
            } else if sp.contains(d) && d != c {
                assert(apart(c.1, c.0, d.1, d.0));
            } else if sp.contains(e) && e != c {
                assert(apart(c.1, c.0, e.1, e.0));
            }
        }
        assert forall|i: int, j: int|
            0 <= i < all2.len() && 0 <= j < all2.len() && i != j implies apart(
            #[trigger] all2[i].0,
            all2[i].2,
            #[trigger] all2[j].0,
            all2[j].2,
        ) by {
            if i < all2.len() - 1 && j < all2.len() - 1 {
                let i1 = if i < n {
                    i
                } else {
                    i + 1
                };
                let j1 = if j < n {
                    j
                } else {
                    j + 1
                };
                assert(all2[i] == all[i1]);
                assert(all2[j] == all[j1]);
            } else if i == all2.len() - 1 {
                assert(apart(g.0, g.2, all2[j].0, all2[j].2));
            } else {
                assert(apart(g.0, g.2, all2[i].0, all2[i].2));
            }
        }
        assert forall|i: int| 0 <= i < all2.len() implies {
            &&& #[trigger] all2[i].2 >= 1
            &&& 0 <= all2[i].0
            &&& all2[i].0 + all2[i].2 <= dsize
        } by {
            if i < all2.len() - 1 {
                let i1 = if i < n {
                    i
                } else {
                    i + 1
                };
                assert(all2[i] == all[i1]);
            }
        }
    } else {
        assert forall|j: int| 0 <= j < placed.len() implies #[trigger] placed[j].0 != f.0 by {
            assert(all[rem.len() + j] == placed[j]);
            assert(apart(all[n].0, all[n].2, all[rem.len() + j].0, all[rem.len() + j].2));
        }
        assert forall|i: int, j: int|
            0 <= i < all2.len() && 0 <= j < all2.len() && i != j implies apart(
            #[trigger] all2[i].0,
            all2[i].2,
            #[trigger] all2[j].0,
            all2[j].2,
        ) by {
            let i1 = if i == all2.len() - 1 {
                n
            } else if i < n {
                i
            } else {
                i + 1
            };
            let j1 = if j == all2.len() - 1 {
                n
            } else if j < n {
                j
            } else {
                j + 1
            };
            assert(all2[i] == all[i1]);
            assert(all2[j] == all[j1]);
        }
        assert forall|d: (int, int), k: int| #[trigger]
            sp2.contains(d) && 0 <= k < all2.len() implies apart(
            d.1,
            d.0,
            #[trigger] all2[k].0,
            all2[k].2,
        ) by {
            let k1 = if k == all2.len() - 1 {
                n
            } else if k < n {
                k
            } else {
                k + 1
            };
            assert(all2[k] == all[k1]);
        }
        assert forall|i: int| 0 <= i < all2.len() implies {
            &&& #[trigger] all2[i].2 >= 1
            &&& 0 <= all2[i].0
            &&& all2[i].0 + all2[i].2 <= dsize
        } by {
            let i1 = if i == all2.len() - 1 {
                n
            } else if i < n {
                i
            } else {
                i + 1
            };
            assert(all2[i] == all[i1]);
        }
    }
}

/// No two files of the sequence share a block.
pub open spec fn files_apart(fs: Seq<(int, int, int)>) -> bool {
    forall|i: int, j: int|
        0 <= i < fs.len() && 0 <= j < fs.len() && i != j ==> apart(
            #[trigger] fs[i].0,
            fs[i].2,
            #[trigger] fs[j].0,
            fs[j].2,
        )
}

/// Defragmenting moves each file as a whole, never right: the `i`-th file placed is the
/// `i`-th from the end before, with the same id and length, at the same or a lower position.
pub proof fn lemma_defrag_moves_left(files: Seq<(int, int, int)>, sp: Set<(int, int)>)
    ensures
        defrag_files(files, sp).len() == files.len(),
        forall|i: int|
            0 <= i < files.len() ==> {
                let o = #[trigger] defrag_files(files, sp)[i];
                let f = files[files.len() - 1 - i];
                o.1 == f.1 && o.2 == f.2 && o.0 <= f.0
            },
    decreases files.len(),
{
    if files.len() > 0 {
        let f = files.last();
        let rest = files.drop_last();
        match alloc_choice(sp, f.2, f.0) {
            Some(c) => {
                let sp2 = alloc_apply(sp, c, f.2);
                lemma_defrag_moves_left(rest, sp2);
                assert(is_best(sp, f.2, f.0, c));
                assert forall|i: int| 0 <= i < files.len() implies {
                    let o = #[trigger] defrag_files(files, sp)[i];
                    let g = files[files.len() - 1 - i];
                    o.1 == g.1 && o.2 == g.2 && o.0 <= g.0
                } by {
                    if i > 0 {
                        assert(defrag_files(files, sp)[i] == defrag_files(rest, sp2)[i - 1]);
                        assert(rest[rest.len() - 1 - (i - 1)] == files[files.len() - 1 - i]);
                    }
                }
            },
            None => {
                lemma_defrag_moves_left(rest, sp);
                assert forall|i: int| 0 <= i < files.len() implies {
                    let o = #[trigger] defrag_files(files, sp)[i];
                    let g = files[files.len() - 1 - i];
                    o.1 == g.1 && o.2 == g.2 && o.0 <= g.0
                } by {
                    if i > 0 {
                        assert(defrag_files(files, sp)[i] == defrag_files(rest, sp)[i - 1]);
                        assert(rest[rest.len() - 1 - (i - 1)] == files[files.len() - 1 - i]);
                    }
                }
            },
        }
    }
}

proof fn lemma_defrag_apart_from(
    rem: Seq<(int, int, int)>,
    placed: Seq<(int, int, int)>,
    sp: Set<(int, int)>,
    dsize: int,
)
    requires
        layout(rem + placed, sp, dsize),
    ensures
        files_apart(placed + defrag_files(rem, sp)),
    decreases rem.len(),
{
    if rem.len() == 0 {
        assert(rem + placed =~= placed);
        assert(placed + defrag_files(rem, sp) =~= placed);
    } else {
        lemma_defrag_step(rem, placed, sp, dsize);
        let f = rem.last();
        match alloc_choice(sp, f.2, f.0) {
            Some(c) => {
                let sp2 = alloc_apply(sp, c, f.2);
                lemma_defrag_apart_from(rem.drop_last(), placed.push((c.1, f.1, f.2)), sp2, dsize);
                assert(placed.push((c.1, f.1, f.2)) + defrag_files(rem.drop_last(), sp2) =~= placed
                    + defrag_files(rem, sp));
            },
            None => {
                lemma_defrag_apart_from(rem.drop_last(), placed.push(f), sp, dsize);
                assert(placed.push(f) + defrag_files(rem.drop_last(), sp) =~= placed + defrag_files(
                    rem,
                    sp,
                ));
            },
        }
    }
}

/// Files laid out apart from each other and from the free segments stay apart after
/// defragmenting.
pub proof fn lemma_defrag_apart(files: Seq<(int, int, int)>, sp: Set<(int, int)>, dsize: int)
    requires
        layout(files, sp, dsize),
    ensures
        files_apart(defrag_files(files, sp)),
{
    let e = Seq::<(int, int, int)>::empty();
    assert(files + e =~= files);
    lemma_defrag_apart_from(files, e, sp, dsize);
    assert(e + defrag_files(files, sp) =~= defrag_files(files, sp));
}

/// Files sorted by strictly increasing position.
pub open spec fn by_position(files: Seq<(int, int, int)>) -> bool {
    forall|i: int, j: int| 0 <= i < j < files.len() ==> #[trigger] files[i].0 < #[trigger] files[j].0
}

/// Sum over the files of id times the sum of the positions they cover.
pub open spec fn files_checksum(files: Seq<(int, int, int)>) -> int
    decreases files.len(),
{
    if files.len() == 0 {
        0
    } else {
        files_checksum(files.drop_last()) + files.last().1 * pos_sum(files.last().0, files.last().2)
    }
}

proof fn lemma_pos_sum_nonneg(begin: int, len: int)
    requires
        begin >= 0,
    ensures
        pos_sum(begin, len) >= 0,
    decreases len,
{
    if len > 0 {
        lemma_pos_sum_nonneg(begin, len - 1);
    }
}

proof fn lemma_files_checksum_prefix(files: Seq<(int, int, int)>, k: int)
    requires
        0 <= k <= files.len(),
        forall|i: int| 0 <= i < files.len() ==> 0 <= #[trigger] files[i].0 && 0 <= files[i].1,
    ensures
        0 <= files_checksum(files.take(k)) <= files_checksum(files),
    decreases files.len(),
{
    if files.len() > 0 {
        let f = files.last();
        lemma_pos_sum_nonneg(f.0, f.2);
        assert(f.1 * pos_sum(f.0, f.2) >= 0) by (nonlinear_arith)
            requires
                f.1 >= 0,
                pos_sum(f.0, f.2) >= 0,
        ;
        let k2 = if k < files.len() {
            k
        } else {
            files.len() - 1
        };
        lemma_files_checksum_prefix(files.drop_last(), k2);
        assert(files.drop_last().take(files.len() - 1) =~= files.drop_last());
        lemma_files_checksum_prefix(files.drop_last(), files.len() - 1);
        if k < files.len() {
            assert(files.drop_last().take(k) =~= files.take(k));
        } else {
            assert(files.take(k) =~= files);
        }
    } else {
        assert(files.take(k) =~= files);
    }
}

impl Fs {
    /// Move each file, from the last one back, to the leftmost free segment left of it with
    /// room for the whole file. The space a file leaves is not given back.
    pub fn defrag(&mut self)
        requires
            by_position(files_view(old(self).files@)),
            layout(files_view(old(self).files@), space_set(old(self).space@), usize::MAX as int),
            old(self).space@.no_duplicates(),
        ensures
            files_view(final(self).files@) == defrag_files(
                files_view(old(self).files@),
                space_set(old(self).space@),
            ),
    {
        let ghost f0 = files_view(self.files@);
        let ghost s0 = space_set(self.space@);
        let mut new_files: Vec<(usize, File)> = Vec::new();
        while self.files.len() > 0
            invariant
                self.space@.no_duplicates(),
                layout(
                    files_view(self.files@) + files_view(new_files@),
                    space_set(self.space@),
                    usize::MAX as int,
                ),
                files_view(new_files@) + defrag_files(
                    files_view(self.files@),
                    space_set(self.space@),
                ) == defrag_files(f0, s0),
            decreases self.files@.len(),
        {
            let ghost rem = files_view(self.files@);
            let ghost placed = files_view(new_files@);
            let ghost sp = space_set(self.space@);
            proof {
                lemma_defrag_step(rem, placed, sp, usize::MAX as int);
                assert forall|i: int| 0 <= i < self.space@.len() implies #[trigger] self.space@[i].0
                    + self.space@[i].1 <= usize::MAX by {
                    assert(sp.contains(seg_at(self.space@, i)));
                }
            }
            let (old_pos, file) = self.files.pop().unwrap();
            proof {
                assert(files_view(self.files@) =~= rem.drop_last());
                assert(fview((old_pos, file)) == rem.last());
            }
            match try_alloc(&mut self.space, old_pos, file.len) {
                Some(new_pos) => {
                    new_files.push((new_pos, file));
                },
                None => {
                    new_files.push((old_pos, file));
                },
            }
            proof {
                assert(files_view(new_files@) =~= placed.push(files_view(new_files@).last()));
                let rest = defrag_files(rem.drop_last(), space_set(self.space@));
                assert(defrag_files(rem, sp) == seq![files_view(new_files@).last()] + rest);
                assert(placed + defrag_files(rem, sp) =~= files_view(new_files@) + rest);
            }
        }
        self.files = new_files;
        proof {
            assert(defrag_files(files_view(self.files@).take(0), space_set(self.space@)) =~= seq![]);
            assert(files_view(self.files@) + seq![] =~= files_view(self.files@));
        }
    }

    /// Sum over the files of id times the sum of the positions they cover.
    pub fn checksum(&self) -> (r: usize)
        requires
            forall|i: int|
                0 <= i < self.files@.len() ==> {
                    let f = #[trigger] fview(self.files@[i]);
                    &&& 2 * f.0 + f.2 <= usize::MAX
                    &&& f.2 * (2 * f.0 + f.2 - 1) <= usize::MAX
                },
            2 * files_checksum(files_view(self.files@)) <= usize::MAX,
        ensures
            r == files_checksum(files_view(self.files@)),
    {
        let ghost v = files_view(self.files@);
        let mut sum: usize = 0;
        let mut i: usize = 0;
        while i < self.files.len()
            invariant
                v == files_view(self.files@),
                i <= v.len(),
                forall|k: int|
                    0 <= k < self.files@.len() ==> {
                        let f = #[trigger] fview(self.files@[k]);
                        &&& 2 * f.0 + f.2 <= usize::MAX
                        &&& f.2 * (2 * f.0 + f.2 - 1) <= usize::MAX
                    },
                2 * files_checksum(v) <= usize::MAX,
                sum == files_checksum(v.take(i as int)),
            decreases v.len() - i,
        {
            let (pos, file) = self.files[i];
            proof {
                assert(fview(self.files@[i as int]) == v[i as int]);
                assert(v.take(i + 1).drop_last() =~= v.take(i as int));
                lemma_files_checksum_prefix(v, i + 1);
                lemma_pos_sum(pos as int, file.len as int);
                let ps = pos_sum(pos as int, file.len as int);
                assert(file.len * (2 * pos + file.len - 1) * file.id <= usize::MAX)
                    by (nonlinear_arith)
                    requires
                        file.len * (2 * pos + file.len - 1) == 2 * ps,
                        sum + file.id * ps <= files_checksum(v),
                        sum >= 0,
                        2 * files_checksum(v) <= usize::MAX,
                ;
            }
            sum += partial_checksum(file.id, pos, file.len);
            i += 1;
        }
        proof {
            assert(v.take(i as int) =~= v);
        }
        sum
    }
}

/// No file sector is empty.
pub open spec fn nonzero_files(s: Seq<u8>) -> bool {
    forall|i: int| 0 <= i < s.len() && i % 2 == 0 ==> #[trigger] sec_len(s, i) >= 1
}

proof fn lemma_new_files_shape(s: Seq<u8>, k: int)
    requires
        nonzero_files(s),
        0 <= k <= s.len(),
    ensures
        new_files(s, k).len() == (k + 1) / 2,
        forall|j: int|
            0 <= j < new_files(s, k).len() ==> #[trigger] new_files(s, k)[j] == (
                start(s, 2 * j) as int,
                j,
                sec_len(s, 2 * j) as int,
            ),
    decreases k,
{
    if k > 0 {
        lemma_new_files_shape(s, k - 1);
        let prev = new_files(s, k - 1);
        if (k - 1) % 2 == 0 && prev.len() > 0 {
            let m = (k - 1) / 2;
            assert(prev.last() == prev[m - 1]);
            lemma_start_step(s, 2 * (m - 1), 2 * m);
            assert(sec_len(s, 2 * (m - 1)) >= 1);
        }
    }
}

proof fn lemma_initial_layout(s: Seq<u8>)
    requires
        nonzero_files(s),
    ensures
        layout(new_files(s, s.len() as int), new_space(s, s.len() as int), start(s, s.len() as int) as int),
        by_position(new_files(s, s.len() as int)),
{
    let nn = s.len() as int;
    let fs = new_files(s, nn);
    let sp = new_space(s, nn);
    let dsize = start(s, nn) as int;
    lemma_new_files_shape(s, nn);
    assert forall|j: int| 0 <= j < fs.len() implies {
        &&& #[trigger] fs[j].2 >= 1
        &&& 0 <= fs[j].0
        &&& fs[j].0 + fs[j].2 <= dsize
    } by {
        assert(sec_len(s, 2 * j) >= 1);
        lemma_nfile_mono(s, 2 * j + 1, nn);
    }
    assert forall|i: int, j: int|
        0 <= i < fs.len() && 0 <= j < fs.len() && i != j implies apart(
        #[trigger] fs[i].0,
        fs[i].2,
        #[trigger] fs[j].0,
        fs[j].2,
    ) by {
        if i < j {
            lemma_start_step(s, 2 * i, 2 * j);
        } else {
            lemma_start_step(s, 2 * j, 2 * i);
        }
    }
    assert forall|i: int, j: int| 0 <= i < j < fs.len() implies #[trigger] fs[i].0
        < #[trigger] fs[j].0 by {
        lemma_start_step(s, 2 * i, 2 * j);
        assert(sec_len(s, 2 * i) >= 1);
    }
    assert forall|c: (int, int)| #[trigger] sp.contains(c) implies 0 <= c.0 && 0 <= c.1 && c.1 + c.0
        <= dsize by {
        let i = choose|i: int|
            0 <= i < nn && i % 2 == 1 && c == (sec_len(s, i) as int, #[trigger] start(s, i) as int);
        lemma_nfile_mono(s, i + 1, nn);
    }
    assert forall|c: (int, int), j: int| #[trigger] sp.contains(c) && 0 <= j < fs.len() implies apart(
        c.1,
        c.0,
        #[trigger] fs[j].0,
        fs[j].2,
    ) by {
        let i = choose|i: int|
            0 <= i < nn && i % 2 == 1 && c == (sec_len(s, i) as int, #[trigger] start(s, i) as int);
        if i < 2 * j {
            lemma_start_step(s, i, 2 * j);
        } else {
            lemma_start_step(s, 2 * j, i);
        }
    }
    assert forall|c: (int, int), d: (int, int)| #[trigger]
        sp.contains(c) && #[trigger] sp.contains(d) && c != d implies apart(c.1, c.0, d.1, d.0) by {
        let i = choose|i: int|
            0 <= i < nn && i % 2 == 1 && c == (sec_len(s, i) as int, #[trigger] start(s, i) as int);
        let i2 = choose|i2: int|
            0 <= i2 < nn && i2 % 2 == 1 && d == (sec_len(s, i2) as int, #[trigger] start(s, i2) as int);
        if i < i2 {
            lemma_start_step(s, i, i2);
        } else if i2 < i {
            lemma_start_step(s, i2, i);
        }
    }
}

/// Every file placed by the defragmentation lies inside the disk.
proof fn lemma_defrag_within(
    rem: Seq<(int, int, int)>,
    placed: Seq<(int, int, int)>,
    sp: Set<(int, int)>,
    dsize: int,
)
    requires
        layout(rem + placed, sp, dsize),
    ensures
        forall|j: int|
            0 <= j < defrag_files(rem, sp).len() ==> {
                let g = #[trigger] defrag_files(rem, sp)[j];
                &&& g.2 >= 1
                &&& 0 <= g.0
                &&& g.0 + g.2 <= dsize
            },
    decreases rem.len(),
{
    if rem.len() > 0 {
        lemma_defrag_step(rem, placed, sp, dsize);
        let f = rem.last();
        let (g, sp2) = match alloc_choice(sp, f.2, f.0) {
            Some(c) => ((c.1, f.1, f.2), alloc_apply(sp, c, f.2)),
            None => (f, sp),
        };
        let all2 = rem.drop_last() + placed.push(g);
        assert(all2[all2.len() - 1] == g);
        lemma_defrag_within(rem.drop_last(), placed.push(g), sp2, dsize);
        assert(rem.drop_last() + placed.push(g) == all2);
        let d = defrag_files(rem, sp);
        assert(d == seq![g] + defrag_files(rem.drop_last(), sp2));
        assert forall|j: int| 0 <= j < d.len() implies {
            let h = #[trigger] d[j];
            &&& h.2 >= 1
            &&& 0 <= h.0
            &&& h.0 + h.2 <= dsize
        } by {
            if j > 0 {
                assert(d[j] == defrag_files(rem.drop_last(), sp2)[j - 1]);
            }
        }
    }
}

/// The trimmed disk map as bytes.
pub open spec fn disk_bytes(input: Seq<char>) -> Seq<u8> {
    parse::trim(input).map_values(|c: char| c as u8)
}

/// The trimmed disk map is all digits.
pub open spec fn digit_map(input: Seq<char>) -> bool {
    forall|i: int| 0 <= i < parse::trim(input).len() ==> parse::is_digit(#[trigger] parse::trim(input)[i])
}

/// The checksum once every file has been moved, from the last one back, to the leftmost
/// free segment with room for it left of its position.
pub open spec fn defrag_checksum(s: Seq<u8>) -> int {
    files_checksum(defrag_files(new_files(s, s.len() as int), new_space(s, s.len() as int)))
}

/// Checksum of the disk after moving whole files, from the last one back, to the leftmost
/// free segment left of them with room for them.
pub fn part2(input: &str) -> (checksum: usize)
    requires
        digit_map(input@),
        nonzero_files(disk_bytes(input@)),
        start(disk_bytes(input@), disk_bytes(input@).len() as int) * start(
            disk_bytes(input@),
            disk_bytes(input@).len() as int,
        ) <= usize::MAX,
        2 * defrag_checksum(disk_bytes(input@)) <= usize::MAX,
    ensures
        checksum == defrag_checksum(disk_bytes(input@)),
{
    let cs = parse::chars_of(input);
    let (lo, hi) = parse::trim_span(&cs, 0, cs.len());
    let ghost t = parse::trim(input@);
    proof {
        assert(cs@.subrange(0, cs@.len() as int) =~= input@);
    }
    let mut sectors: Vec<u8> = Vec::new();
    let mut i = lo;
    while i < hi
        invariant
            lo <= i <= hi <= cs@.len(),
            cs@.subrange(lo as int, hi as int) == t,
            sectors@ == t.take(i - lo).map_values(|c: char| c as u8),
        decreases hi - i,
    {
        sectors.push(cs[i] as u8);
        proof {
            assert(t[i - lo] == cs@[i as int]);
            assert(t.take(i + 1 - lo).map_values(|c: char| c as u8) =~= t.take(i - lo).map_values(
                |c: char| c as u8,
            ).push(cs@[i as int] as u8));
        }
        i += 1;
    }
    let ghost s = sectors@;
    let ghost nn = s.len() as int;
    let ghost dsize = start(s, nn) as int;
    proof {
        assert(t.take(hi - lo) =~= t);
        assert(s == disk_bytes(input@));
        assert forall|k: int| 0 <= k < s.len() implies 48 <= #[trigger] s[k] <= 57 by {
            assert(parse::is_digit(t[k]));
        }
        if dsize >= 1 {
            assert(dsize <= dsize * dsize) by (nonlinear_arith)
                requires
                    dsize >= 1,
            ;
        }
        lemma_initial_layout(s);
    }
    let mut fs = Fs::new(&sectors);
    proof {
        let f0 = files_view(fs.files@);
        let s0 = space_set(fs.space@);
        assert(layout(f0, s0, usize::MAX as int));
        lemma_defrag_within(f0, seq![], s0, dsize);
        assert(f0 + seq![] =~= f0);
    }
    fs.defrag();
    proof {
        let v = files_view(fs.files@);
        assert forall|k: int| 0 <= k < fs.files@.len() implies {
            let f = #[trigger] fview(fs.files@[k]);
            &&& 2 * f.0 + f.2 <= usize::MAX
            &&& f.2 * (2 * f.0 + f.2 - 1) <= usize::MAX
        } by {
            let f = fview(fs.files@[k]);
            assert(f == v[k]);
            assert(f.2 * (2 * f.0 + f.2 - 1) <= dsize * dsize) by (nonlinear_arith)
                requires
                    f.0 >= 0,
                    f.2 >= 1,
                    f.0 + f.2 <= dsize,
            ;
            if dsize >= 2 {
                assert(2 * dsize <= dsize * dsize) by (nonlinear_arith)
                    requires
                        dsize >= 2,
                ;
            }
        }
    }
    fs.checksum()
}

} // verus!
