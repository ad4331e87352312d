//! Disk maps: blocks that belong to numbered files or are free, packed
//! towards the front block by block or file by file.

use vstd::prelude::*;

verus! {

/// The blocks that the first `n` numbers of a dense disk map stand for:
/// the numbers give in turn the length of a file and of the free space
/// behind it, and the files are numbered from nought.
pub open spec fn expanded(dense: Seq<u32>, n: int) -> Seq<Option<usize>>
    decreases n,
{
    if n <= 0 {
        Seq::empty()
    } else {
        expanded(dense, n - 1) + Seq::new(
            dense[n - 1] as nat,
            |j: int|
                if (n - 1) % 2 == 0 {
                    Some(((n - 1) / 2) as usize)
                } else {
                    None
                },
        )
    }
}

/// The blocks that a dense disk map stands for.
pub fn expand(dense: &Vec<u32>) -> (diskmap: Vec<Option<usize>>)
    ensures
        diskmap@ == expanded(dense@, dense@.len() as int),
{
    let mut diskmap: Vec<Option<usize>> = Vec::new();
    let mut i: usize = 0;
    assert(diskmap@ =~= expanded(dense@, 0));
    while i < dense.len()
        invariant
            i <= dense@.len(),
            diskmap@ == expanded(dense@, i as int),
        decreases dense@.len() - i,
    {
        let ghost base = diskmap@;
        let block = if i % 2 == 0 {
            Some(i / 2)
        } else {
            None
        };
        let v = dense[i];
        let mut k: u32 = 0;
        while k < v
            invariant
                k <= v,
                diskmap@ == base + Seq::new(k as nat, |j: int| block),
            decreases v - k,
        {
            let ghost before = diskmap@;
            diskmap.push(block);
            assert(diskmap@ =~= base + Seq::new((k + 1) as nat, |j: int| block));
            k += 1;
        }
        proof {
            assert(Seq::new(v as nat, |j: int| block) =~= Seq::new(
                dense@[i as int] as nat,
                |j: int|
                    if (i as int) % 2 == 0 {
                        Some(((i as int) / 2) as usize)
                    } else {
                        None
                    },
            ));
        }
        i += 1;
    }
    diskmap
}

/// What the block at position `i` adds to the checksum.
pub open spec fn block_value(block: Option<usize>, i: int) -> int {
    match block {
        Some(id) => i * id,
        None => 0,
    }
}

/// The checksum of the first `n` blocks.
pub open spec fn checksum_upto(disk: Seq<Option<usize>>, n: int) -> int
    decreases n,
{
    if n <= 0 {
        0
    } else {
        checksum_upto(disk, n - 1) + block_value(disk[n - 1], n - 1)
    }
}

/// The checksum of the whole disk.
pub open spec fn checksum_of(disk: Seq<Option<usize>>) -> int {
    checksum_upto(disk, disk.len() as int)
}

/// The checksum grows with the blocks counted.
pub proof fn lemma_checksum_grows(disk: Seq<Option<usize>>, m: int, n: int)
    requires
        0 <= m <= n,
    ensures
        0 <= checksum_upto(disk, m) <= checksum_upto(disk, n),
    decreases n,
{
    if n > 0 {
        let id = match disk[n - 1] {
            Some(id) => id as int,
            None => 0,
        };
        assert(0 <= (n - 1) * id) by (nonlinear_arith)
            requires
                0 <= n - 1,
                0 <= id,
        ;
        if m < n {
            lemma_checksum_grows(disk, m, n - 1);
        } else {
            lemma_checksum_grows(disk, m - 1, n - 1);
        }
    }
}

/// The sum, over the blocks that hold a file, of the place times the number of the file.
pub fn checksum(diskmap: &Vec<Option<usize>>) -> (sum: usize)
    requires
        checksum_of(diskmap@) <= usize::MAX,
    ensures
        sum == checksum_of(diskmap@),
{
    let mut sum: usize = 0;
    let mut i: usize = 0;
    while i < diskmap.len()
        invariant
            i <= diskmap@.len(),
            sum == checksum_upto(diskmap@, i as int),
            checksum_of(diskmap@) <= usize::MAX,
        decreases diskmap@.len() - i,
    {
        proof {
            lemma_checksum_grows(diskmap@, i + 1, diskmap@.len() as int);
            lemma_checksum_grows(diskmap@, i as int, i + 1);
        }
        match diskmap[i] {
            Some(id) => {
                sum = sum + i * id;
            },
            None => {},
        }
        i += 1;
    }
    sum
}

/// The `size` blocks from `start` on are all free.
pub open spec fn free_run(disk: Seq<Option<usize>>, start: int, size: int) -> bool {
    &&& 0 <= start
    &&& start + size <= disk.len()
    &&& forall|j: int| start <= j < start + size ==> (#[trigger] disk[j]) is None
}

/// `start` is where the first run of `size` free blocks begins.
pub open spec fn first_free_run(disk: Seq<Option<usize>>, start: int, size: int) -> bool {
    &&& size > 0
    &&& free_run(disk, start, size)
    &&& forall|t: int| 0 <= t < start ==> !#[trigger] free_run(disk, t, size)
}

/// There is no run of `size` free blocks.
pub open spec fn no_free_run(disk: Seq<Option<usize>>, size: int) -> bool {
    size <= 0 || forall|t: int| !#[trigger] free_run(disk, t, size)
}

/// Where the first run of `blocksize` free blocks begins.
pub fn find_space(diskmap: &Vec<Option<usize>>, blocksize: usize) -> (found: Option<usize>)
    ensures
        match found {
            Some(start) => first_free_run(diskmap@, start as int, blocksize as int),
            None => no_free_run(diskmap@, blocksize as int),
        },
{
    if blocksize == 0 {
        return None;
    }
    let ghost disk = diskmap@;
    let mut size: usize = 0;
    let mut i: usize = 0;
    while i < diskmap.len()
        invariant
            i <= disk.len(),
            disk == diskmap@,
            blocksize > 0,
            size < blocksize,
            size <= i,
            forall|j: int| i - size <= j < i ==> (#[trigger] disk[j]) is None,
            i - size > 0 ==> disk[i - size - 1] is Some,
            forall|t: int| t + blocksize <= i ==> !#[trigger] free_run(disk, t, blocksize as int),
        decreases disk.len() - i,
    {
        match diskmap[i] {
            Some(_) => {
                size = 0;
                proof {
                    assert forall|t: int| t + blocksize <= i + 1 implies !#[trigger] free_run(
                        disk,
                        t,
                        blocksize as int,
                    ) by {
                        if t + blocksize == i + 1 && free_run(disk, t, blocksize as int) {
                            assert(disk[i as int] is None);
                        }
                    }
                }
            },
            None => {
                size += 1;
                if size == blocksize {
                    let start = i + 1 - size;
                    proof {
                        assert forall|t: int| 0 <= t < start implies !#[trigger] free_run(
                            disk,
                            t,
                            blocksize as int,
                        ) by {
                            if free_run(disk, t, blocksize as int) {
                                if t + blocksize <= i {
                                } else {
                                    assert(disk[start - 1] is None);
                                }
                            }
                        }
                    }
                    return Some(start);
                }
                proof {
                    assert forall|t: int| t + blocksize <= i + 1 implies !#[trigger] free_run(
                        disk,
                        t,
                        blocksize as int,
                    ) by {
                        if t + blocksize == i + 1 && free_run(disk, t, blocksize as int) {
                            assert(disk[i + 1 - size - 1] is None);
                        }
                    }
                }
            },
        }
        i += 1;
    }
    proof {
        assert forall|t: int| !#[trigger] free_run(disk, t, blocksize as int) by {}
    }
    None
}

/// The blocks from `start` up to `end` all hold what the block before `end`
/// holds, and `start` is the first such position.
pub open spec fn is_run_start(disk: Seq<Option<usize>>, start: int, end: int) -> bool {
    &&& 0 <= start < end <= disk.len()
    &&& forall|j: int| start <= j < end ==> #[trigger] disk[j] == disk[end - 1]
    &&& (start == 0 || disk[start - 1] != disk[end - 1])
}

/// What `find_last_file` reports of the run that ends before `end`: its
/// start and its length, but nothing of a run that begins the disk.
pub open spec fn last_file_report(start: int, end: int) -> (int, int) {
    if start == 0 {
        (0, 0)
    } else {
        (start, end - start)
    }
}

/// The start and the length of the run of equal blocks that ends before
/// `end`; (0, 0) where that run begins the disk, or `end` is 0.
pub fn find_last_file(diskmap: &Vec<Option<usize>>, end: usize) -> (out: (usize, usize))
    requires
        end <= diskmap@.len(),
    ensures
        end == 0 ==> out == (0usize, 0usize),
        end > 0 ==> exists|start: int| #[trigger]
            is_run_start(diskmap@, start, end as int) && (out.0 as int, out.1 as int)
                == last_file_report(start, end as int),
{
    if end == 0 {
        return (0, 0);
    }
    let ghost disk = diskmap@;
    let id = diskmap[end - 1];
    let mut i: usize = end - 1;
    while i > 0
        invariant
            i < end <= disk.len(),
            disk == diskmap@,
            id == disk[end - 1],
            forall|j: int| i <= j < end ==> #[trigger] disk[j] == disk[end - 1],
        decreases i,
    {
        if !same_block(diskmap[i - 1], id) {
            assert(is_run_start(disk, i as int, end as int));
            return (i, end - i);
        }
        i -= 1;
    }
    assert(is_run_start(disk, 0, end as int));
    (0, 0)
}

fn same_block(a: Option<usize>, b: Option<usize>) -> (same: bool)
    ensures
        same == (a == b),
{
    match (a, b) {
        (None, None) => true,
        (Some(x), Some(y)) => x == y,
        _ => false,
    }
}

/// Position `i` is free and no earlier position is.
pub open spec fn first_gap(disk: Seq<Option<usize>>, i: int) -> bool {
    &&& 0 <= i < disk.len()
    &&& disk[i] is None
    &&& forall|j: int| 0 <= j < i ==> (#[trigger] disk[j]) is Some
}

/// Position `i` is used and no later position is.
pub open spec fn last_block(disk: Seq<Option<usize>>, i: int) -> bool {
    &&& 0 <= i < disk.len()
    &&& disk[i] is Some
    &&& forall|j: int| i < j < disk.len() ==> (#[trigger] disk[j]) is None
}

/// The disk after the block at `from` was moved to the free position `to`.
pub open spec fn block_moved(disk: Seq<Option<usize>>, from: int, to: int) -> Seq<Option<usize>> {
    disk.update(to, disk[from]).update(from, None)
}

/// `packed` comes from `disk` by moving, as long as a gap lies before a
/// block, the last block into the first gap; `moves` is how often.
pub open spec fn packs_to(
    disk: Seq<Option<usize>>,
    packed: Seq<Option<usize>>,
    moves: nat,
) -> bool
    decreases moves,
{
    exists|gap: int, block: int| #[trigger]
        first_gap(disk, gap) && #[trigger] last_block(disk, block) && if gap < block {
            moves > 0 && packs_to(block_moved(disk, block, gap), packed, (moves - 1) as nat)
        } else {
            moves == 0 && packed == disk
        }
}

/// The checksum of the disk after its blocks were packed one by one.
pub fn part1(diskmap: Vec<Option<usize>>) -> (sum: usize)
    requires
        exists|i: int| 0 <= i < diskmap@.len() && (#[trigger] diskmap@[i]) is None,
        exists|i: int| 0 <= i < diskmap@.len() && (#[trigger] diskmap@[i]) is Some,
        forall|packed: Seq<Option<usize>>, moves: nat| #[trigger]
            packs_to(diskmap@, packed, moves) ==> checksum_of(packed) <= usize::MAX,
    ensures
        exists|packed: Seq<Option<usize>>, moves: nat| #[trigger]
            packs_to(diskmap@, packed, moves) && sum == checksum_of(packed),
{
    let mut diskmap = diskmap;
    let ghost origin = diskmap@;
    let ghost mut done: nat = 0;
    let mut start: usize = 0;
    let mut end: usize = diskmap.len() - 1;
    loop
        invariant
            diskmap@.len() == origin.len() <= usize::MAX,
            start < diskmap@.len(),
            end < diskmap@.len(),
            forall|j: int| 0 <= j < start ==> (#[trigger] diskmap@[j]) is Some,
            forall|j: int| end < j < diskmap@.len() ==> (#[trigger] diskmap@[j]) is None,
            exists|i: int| start <= i < diskmap@.len() && (#[trigger] diskmap@[i]) is None,
            exists|i: int| 0 <= i <= end && (#[trigger] diskmap@[i]) is Some,
            forall|packed: Seq<Option<usize>>, moves: nat| #[trigger]
                packs_to(diskmap@, packed, moves) ==> packs_to(origin, packed, moves + done),
        ensures
            first_gap(diskmap@, start as int),
            last_block(diskmap@, end as int),
            start >= end,
        decreases
                end - start,
                (if diskmap@[start as int] is None {
                    1int
                } else {
                    0int
                }),
    {
        while diskmap[start].is_some()
            invariant
                start < diskmap@.len() <= usize::MAX,
                forall|j: int| 0 <= j < start ==> (#[trigger] diskmap@[j]) is Some,
                exists|i: int| start <= i < diskmap@.len() && (#[trigger] diskmap@[i]) is None,
            decreases diskmap@.len() - start,
        {
            proof {
                let i = choose|i: int| start <= i < diskmap@.len() && (#[trigger] diskmap@[i]) is None;
                assert(i > start);
            }
            start += 1;
        }
        while diskmap[end].is_none()
            invariant
                end < diskmap@.len(),
                forall|j: int| end < j < diskmap@.len() ==> (#[trigger] diskmap@[j]) is None,
                exists|i: int| 0 <= i <= end && (#[trigger] diskmap@[i]) is Some,
            decreases end,
        {
            proof {
                let i = choose|i: int| 0 <= i <= end && (#[trigger] diskmap@[i]) is Some;
                assert(i < end);
            }
            end -= 1;
        }
        assert(first_gap(diskmap@, start as int));
        assert(last_block(diskmap@, end as int));
        if start >= end {
            break;
        }
        let ghost before = diskmap@;
        let block = diskmap[end];
        diskmap[start] = block;
        diskmap[end] = None;
        proof {
            assert(diskmap@ =~= block_moved(before, end as int, start as int));
            assert(diskmap@[start as int] is Some);
            assert(diskmap@[end as int] is None);
            assert forall|packed: Seq<Option<usize>>, moves: nat| #[trigger]
                packs_to(diskmap@, packed, moves) implies packs_to(origin, packed, moves + done + 1) by {
                lemma_gap_and_block_unique(before, start as int, end as int);
                assert(packs_to(before, packed, moves + 1));
            }
            done = done + 1;
        }
    }
    proof {
        lemma_gap_and_block_unique(diskmap@, start as int, end as int);
        assert(packs_to(diskmap@, diskmap@, 0));
        assert(packs_to(origin, diskmap@, done));
    }
    checksum(&diskmap)
}

/// A disk has one first gap and one last block.
pub proof fn lemma_gap_and_block_unique(disk: Seq<Option<usize>>, gap: int, block: int)
    requires
        first_gap(disk, gap),
        last_block(disk, block),
    ensures
        forall|g: int, b: int| #[trigger]
            first_gap(disk, g) && #[trigger] last_block(disk, b) ==> g == gap && b == block,
{
    assert forall|g: int, b: int| #[trigger]
        first_gap(disk, g) && #[trigger] last_block(disk, b) implies g == gap && b == block by {
        if g < gap {
            assert(disk[g] is Some);
        }
        if gap < g {
            assert(disk[gap] is Some);
        }
        if b < block {
            assert(disk[block] is None);
        }
        if block < b {
            assert(disk[b] is None);
        }
    }
}

/// Where the run of equal blocks that ends before `end` begins, searched
/// downwards from `i`.
pub open spec fn run_start_from(disk: Seq<Option<usize>>, i: int, end: int) -> int
    decreases i,
{
    if i <= 0 {
        0
    } else if disk[i - 1] == disk[end - 1] {
        run_start_from(disk, i - 1, end)
    } else {
        i
    }
}

/// Where the run of equal blocks that ends before `end` begins.
pub open spec fn run_start(disk: Seq<Option<usize>>, end: int) -> int {
    run_start_from(disk, end - 1, end)
}

/// The run of equal blocks before `end`, followed backwards from `i`, begins where a
/// run begins.
pub proof fn lemma_run_start_from(disk: Seq<Option<usize>>, i: int, end: int)
    requires
        0 <= i < end <= disk.len(),
        forall|j: int| i <= j < end ==> #[trigger] disk[j] == disk[end - 1],
    ensures
        is_run_start(disk, run_start_from(disk, i, end), end),
    decreases i,
{
    if i > 0 && disk[i - 1] == disk[end - 1] {
        lemma_run_start_from(disk, i - 1, end);
    }
}

/// The run that ends before `end` has one start.
pub proof fn lemma_run_start_unique(disk: Seq<Option<usize>>, start: int, end: int)
    requires
        is_run_start(disk, start, end),
    ensures
        start == run_start(disk, end),
{
    lemma_run_start_from(disk, end - 1, end);
    let other = run_start(disk, end);
    if start < other {
        assert(disk[other - 1] == disk[end - 1]);
    }
    if other < start {
        assert(disk[start - 1] == disk[end - 1]);
    }
}

/// Where the first run of `size` free blocks begins, or `or` if there is no
/// such run.
pub open spec fn first_space_or(disk: Seq<Option<usize>>, size: int, or: int) -> int {
    if exists|start: int| first_free_run(disk, start, size) {
        choose|start: int| first_free_run(disk, start, size)
    } else {
        or
    }
}

/// Only one place is the first that begins a free run of the size.
pub proof fn lemma_first_free_run_unique(disk: Seq<Option<usize>>, a: int, b: int, size: int)
    requires
        first_free_run(disk, a, size),
        first_free_run(disk, b, size),
    ensures
        a == b,
{
    if a < b {
        assert(!free_run(disk, a, size));
    }
    if b < a {
        assert(!free_run(disk, b, size));
    }
}

/// The disk after the `size` blocks from `from` on were freed and then the
/// `size` blocks from `to` on were given what stood at `from`.
pub open spec fn relocated(disk: Seq<Option<usize>>, from: int, size: int, to: int) -> Seq<
    Option<usize>,
> {
    Seq::new(
        disk.len(),
        |j: int|
            if to <= j < to + size {
                disk[from]
            } else if from <= j < from + size {
                None
            } else {
                disk[j]
            },
    )
}

/// The disk after one file was tried: the run that ends before `end` goes
/// to the first free run of its length, if that lies before it.
pub open spec fn file_tried(disk: Seq<Option<usize>>, end: int) -> Seq<Option<usize>> {
    let report = last_file_report(run_start(disk, end), end);
    let spot = first_space_or(disk, report.1, end);
    if spot < report.0 {
        relocated(disk, report.0, report.1, spot)
    } else {
        disk
    }
}

/// The disk after every run of equal blocks before `end` was tried, last
/// run first.
pub open spec fn defragmented(disk: Seq<Option<usize>>, end: int) -> Seq<Option<usize>>
    decreases end,
{
    if end <= 0 || end > disk.len() {
        disk
    } else {
        let start = last_file_report(run_start(disk, end), end).0;
        if 0 <= start < end {
            defragmented(file_tried(disk, end), start)
        } else {
            disk
        }
    }
}

/// The checksum of the disk after its files were packed whole, last file
/// first, each into the first free run that holds it and lies before it.
pub fn part2(diskmap: Vec<Option<usize>>) -> (sum: usize)
    requires
        checksum_of(defragmented(diskmap@, diskmap@.len() as int)) <= usize::MAX,
    ensures
        sum == checksum_of(defragmented(diskmap@, diskmap@.len() as int)),
{
    let mut diskmap = diskmap;
    let ghost origin = diskmap@;
    let mut end: usize = diskmap.len();
    while end > 0
        invariant
            end <= diskmap@.len() <= usize::MAX,
            diskmap@.len() == origin.len(),
            defragmented(diskmap@, end as int) == defragmented(origin, origin.len() as int),
        decreases end,
    {
        let ghost before = diskmap@;
        let (laststart, lastsize) = find_last_file(&diskmap, end);
        proof {
            let start = choose|start: int| #[trigger]
                is_run_start(before, start, end as int) && (laststart as int, lastsize as int)
                    == last_file_report(start, end as int);
            lemma_run_start_unique(before, start, end as int);
        }
        let spot = match find_space(&diskmap, lastsize) {
            Some(spot) => {
                proof {
                    let chosen = first_space_or(before, lastsize as int, end as int);
                    lemma_first_free_run_unique(before, spot as int, chosen, lastsize as int);
                }
                spot
            },
            None => {
                proof {
                    if exists|start: int| first_free_run(before, start, lastsize as int) {
                        let start = choose|start: int| first_free_run(before, start, lastsize as int);
                        assert(free_run(before, start, lastsize as int));
                    }
                }
                end
            },
        };
        assert(spot == first_space_or(before, lastsize as int, end as int));
        if spot < laststart {
            assert(first_free_run(before, spot as int, lastsize as int));
            let id = diskmap[laststart];
            let mut i: usize = 0;
            while i < lastsize
                invariant
                    i <= lastsize,
                    laststart + lastsize <= diskmap@.len() <= usize::MAX,
                    diskmap@.len() == before.len(),
                    forall|j: int|
                        0 <= j < diskmap@.len() ==> #[trigger] diskmap@[j] == if laststart <= j
                            < laststart + i {
                            None
                        } else {
                            before[j]
                        },
                decreases lastsize - i,
            {
                diskmap[laststart + i] = None;
                i += 1;
            }
            let ghost cleared = diskmap@;
            let mut i: usize = 0;
            while i < lastsize
                invariant
                    i <= lastsize,
                    spot + lastsize <= diskmap@.len() <= usize::MAX,
                    diskmap@.len() == before.len(),
                    forall|j: int|
                        0 <= j < diskmap@.len() ==> #[trigger] diskmap@[j] == if spot <= j < spot + i {
                            id
                        } else {
                            cleared[j]
                        },
                decreases lastsize - i,
            {
                diskmap[spot + i] = id;
                i += 1;
            }
            assert(diskmap@ =~= relocated(before, laststart as int, lastsize as int, spot as int));
        }
        assert(diskmap@ == file_tried(before, end as int));
        end = laststart;
    }
    checksum(&diskmap)
}

} // verus!
