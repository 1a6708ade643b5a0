//! Byte-range repartitioning of file groups.
//!
//! A scan reads groups of files; each group is read sequentially by one
//! execution partition, and groups are read concurrently. When the input
//! is a few large files, rebalancing splits their byte ranges into more,
//! evenly sized groups so that more partitions can work at once.
//!
//! The walk is modelled by [`spec_split_all`], which cuts every file into
//! consecutive indexed pieces, and [`spec_group_pieces`], which regroups
//! the pieces by partition index; [`FileScanConfig::repartition_file_groups`]
//! is proved to produce exactly that grouping, and
//! [`lemma_repartition_lossless`] states that the pieces tile the input:
//! no byte is dropped or duplicated.

use vstd::prelude::*;

use crate::bytes::clone_bytes;
use crate::config::FileScanConfig;

verus! {

/// A half-open byte interval `[start, end)` of one file.
#[derive(Clone, Copy, PartialEq, Eq, Structural)]
pub struct FileRange {
    pub start: u64,
    pub end: u64,
}

/// A reference to one input file: its location, its byte size, and the
/// byte range assigned to this entry (`None` means the whole file).
pub struct PartitionedFile {
    pub path: Vec<u8>,
    pub size: u64,
    pub range: Option<FileRange>,
}

/// Mathematical model of a [`PartitionedFile`].
#[verifier::ext_equal]
pub struct PartitionedFileV {
    pub path: Seq<u8>,
    pub size: u64,
    pub range: Option<FileRange>,
}

impl View for PartitionedFile {
    type V = PartitionedFileV;

    open spec fn view(&self) -> PartitionedFileV {
        PartitionedFileV { path: self.path@, size: self.size, range: self.range }
    }
}

impl PartitionedFile {
    /// A file entry covering the whole file.
    pub fn new(path: Vec<u8>, size: u64) -> (r: PartitionedFile)
        ensures
            r@ == (PartitionedFileV { path: path@, size: size, range: None }),
    {
        PartitionedFile { path, size, range: None }
    }
}

impl Clone for PartitionedFile {
    fn clone(&self) -> (res: Self)
        ensures
            res@ == self@,
    {
        PartitionedFile { path: clone_bytes(&self.path), size: self.size, range: self.range }
    }
}

/// Model of a sequence of file groups.
pub open spec fn spec_file_groups_view(groups: Seq<Vec<PartitionedFile>>) -> Seq<
    Seq<PartitionedFileV>,
> {
    groups.map_values(|g: Vec<PartitionedFile>| g@.map_values(|f: PartitionedFile| f@))
}


/// Model of a flat file list.
pub open spec fn spec_files_view(files: Seq<PartitionedFile>) -> Seq<PartitionedFileV> {
    files.map_values(|f: PartitionedFile| f@)
}

/// A piece of `f`: the same file, assigned the byte range `[start, end)`.
pub open spec fn spec_piece(f: PartitionedFileV, start: int, end: int) -> PartitionedFileV
    recommends
        0 <= start <= end <= f.size,
{
    PartitionedFileV {
        path: f.path,
        size: f.size,
        range: Some(FileRange { start: start as u64, end: end as u64 }),
    }
}

/// Sum of the byte sizes of `files`.
pub open spec fn spec_total_size(files: Seq<PartitionedFileV>) -> int
    decreases files.len(),
{
    if files.len() == 0 {
        0
    } else {
        files[0].size + spec_total_size(files.skip(1))
    }
}

/// A total size is never negative.
pub proof fn lemma_total_size_nonneg(files: Seq<PartitionedFileV>)
    ensures
        spec_total_size(files) >= 0,
    decreases files.len(),
{
    if files.len() > 0 {
        lemma_total_size_nonneg(files.skip(1));
    }
}

/// Extending a prefix by one file adds that file's size to its total.
pub proof fn lemma_total_size_take_step(files: Seq<PartitionedFileV>, i: int)
    requires
        0 <= i < files.len(),
    ensures
        spec_total_size(files.take(i + 1)) == spec_total_size(files.take(i)) + files[i].size,
    decreases i,
{
    if i == 0 {
        assert(files.take(1)[0] == files[0]);
        assert(files.take(1).skip(1) =~= Seq::<PartitionedFileV>::empty());
        assert(files.take(0) =~= Seq::<PartitionedFileV>::empty());
    } else {
        lemma_total_size_take_step(files.skip(1), i - 1);
        assert(files.take(i + 1)[0] == files[0]);
        assert(files.take(i + 1).skip(1) =~= files.skip(1).take(i));
        assert(files.take(i)[0] == files[0]);
        assert(files.take(i).skip(1) =~= files.skip(1).take(i - 1));
        assert(files.skip(1)[i - 1] == files[i]);
    }
}

/// A prefix's total never exceeds the whole total.
pub proof fn lemma_total_size_prefix_le(files: Seq<PartitionedFileV>, i: int)
    requires
        0 <= i <= files.len(),
    ensures
        spec_total_size(files.take(i)) <= spec_total_size(files),
    decreases files.len() - i,
{
    if i == files.len() {
        assert(files.take(i) =~= files);
    } else {
        lemma_total_size_take_step(files, i);
        lemma_total_size_prefix_le(files, i + 1);
    }
}

/// Whether some file already carries a byte range.
pub open spec fn spec_has_ranges(files: Seq<PartitionedFileV>) -> bool {
    exists|i: int| 0 <= i < files.len() && (#[trigger] files[i]).range is Some
}

/// The nominal size of one output partition: the total split over the
/// target count, rounded up.
pub open spec fn spec_target_partition_size(total: int, target_partitions: int) -> int
    recommends
        target_partitions >= 1,
{
    (total + target_partitions - 1) / target_partitions
}

/// The pieces cut from `f` starting at `pos`, with the walk standing at
/// partition `idx` filled to `fill` bytes: each piece extends to the
/// partition's remaining capacity or the end of the file, whichever comes
/// first; reaching the capacity advances the partition. Returns the
/// indexed pieces and the final `(idx, fill)`.
pub open spec fn spec_split_file(
    f: PartitionedFileV,
    pos: int,
    idx: int,
    fill: int,
    target: int,
) -> (Seq<(int, PartitionedFileV)>, int, int)
    decreases f.size - pos,
    when 0 <= fill < target
{
    if pos < 0 || pos >= f.size {
        (Seq::empty(), idx, fill)
    } else {
        let end = if f.size - pos <= target - fill {
            f.size as int
        } else {
            pos + (target - fill)
        };
        let rollover = fill + (end - pos) >= target;
        let idx2 = if rollover {
            idx + 1
        } else {
            idx
        };
        let fill2 = if rollover {
            0
        } else {
            fill + (end - pos)
        };
        let rest = spec_split_file(f, end, idx2, fill2, target);
        (seq![(idx, spec_piece(f, pos, end))] + rest.0, rest.1, rest.2)
    }
}

/// The pieces cut from all of `files` in order, threading the `(idx,
/// fill)` state across file boundaries: partitions are filled to capacity
/// before advancing, not aligned to file boundaries.
pub open spec fn spec_split_all(
    files: Seq<PartitionedFileV>,
    idx: int,
    fill: int,
    target: int,
) -> (Seq<(int, PartitionedFileV)>, int, int)
    decreases files.len(),
{
    if files.len() == 0 {
        (Seq::empty(), idx, fill)
    } else {
        let first = spec_split_file(files[0], 0, idx, fill, target);
        let rest = spec_split_all(files.skip(1), first.1, first.2, target);
        (first.0 + rest.0, rest.1, rest.2)
    }
}

/// The indexed pieces still to come when the walk stands inside file
/// `file_i` at byte `pos`, with partition state `(idx, fill)`.
pub open spec fn spec_split_from(
    files: Seq<PartitionedFileV>,
    file_i: int,
    pos: int,
    idx: int,
    fill: int,
    target: int,
) -> (Seq<(int, PartitionedFileV)>, int, int)
    recommends
        0 <= file_i < files.len(),
{
    let rf = spec_split_file(files[file_i], pos, idx, fill, target);
    let ra = spec_split_all(files.skip(file_i + 1), rf.1, rf.2, target);
    (rf.0 + ra.0, ra.1, ra.2)
}


/// The file piece of an indexed piece.
pub open spec fn spec_piece_file() -> spec_fn((int, PartitionedFileV)) -> PartitionedFileV {
    |q: (int, PartitionedFileV)| q.1
}

/// Whether an indexed piece belongs to partition `g`.
pub open spec fn spec_in_partition(g: int) -> spec_fn((int, PartitionedFileV)) -> bool {
    |q: (int, PartitionedFileV)| q.0 == g
}

/// Number of output partitions a piece sequence spans: one past the last
/// piece's partition index.
pub open spec fn spec_num_groups(ps: Seq<(int, PartitionedFileV)>) -> int {
    if ps.len() == 0 {
        0
    } else {
        ps.last().0 + 1
    }
}

/// The pieces regrouped by partition index, ascending.
pub open spec fn spec_group_pieces(ps: Seq<(int, PartitionedFileV)>) -> Seq<
    Seq<PartitionedFileV>,
> {
    Seq::new(
        spec_num_groups(ps) as nat,
        |g: int| ps.filter(spec_in_partition(g)).map_values(spec_piece_file()),
    )
}

/// The rebalanced groups for a flat file list and a target partition
/// size: the walk's pieces, grouped by partition index.
pub open spec fn spec_repartitioned(files: Seq<PartitionedFileV>, target: int) -> Seq<
    Seq<PartitionedFileV>,
> {
    spec_group_pieces(spec_split_all(files, 0, 0, target).0)
}

/// All the files of all the groups, in order.
pub fn flatten_file_groups(file_groups: &Vec<Vec<PartitionedFile>>) -> (r: Vec<PartitionedFile>)
    ensures
        spec_files_view(r@) == spec_file_groups_view(file_groups@).flatten(),
{
    let ghost fgv = spec_file_groups_view(file_groups@);
    let mut r: Vec<PartitionedFile> = Vec::new();
    proof {
        assert(fgv.take(0) =~= Seq::<Seq<PartitionedFileV>>::empty());
        assert(Seq::<Seq<PartitionedFileV>>::empty().flatten() =~= Seq::<
            PartitionedFileV,
        >::empty());
        assert(spec_files_view(r@) =~= fgv.take(0).flatten());
    }
    let mut g: usize = 0;
    while g < file_groups.len()
        invariant
            g <= file_groups@.len(),
            fgv == spec_file_groups_view(file_groups@),
            spec_files_view(r@) == fgv.take(g as int).flatten(),
        decreases file_groups.len() - g,
    {
        let grp = &file_groups[g];
        proof {
            assert(fgv[g as int] == grp@.map_values(|f: PartitionedFile| f@));
        }
        let mut k: usize = 0;
        while k < grp.len()
            invariant
                k <= grp@.len(),
                g < file_groups@.len(),
                grp == &file_groups[g as int],
                fgv == spec_file_groups_view(file_groups@),
                fgv[g as int] == grp@.map_values(|f: PartitionedFile| f@),
                spec_files_view(r@) == fgv.take(g as int).flatten() + fgv[g as int].take(k as int),
            decreases grp.len() - k,
        {
            let ghost r0 = r@;
            r.push(grp[k].clone());
            k = k + 1;
            proof {
                let a = fgv.take(g as int).flatten();
                let ki = k as int;
                assert(r@ == r0.push(r@[r@.len() - 1]));
                assert(r@[r@.len() - 1]@ == grp@[ki - 1]@);
                assert(fgv[g as int][ki - 1] == grp@[ki - 1]@);
                assert(spec_files_view(r0) == a + fgv[g as int].take(ki - 1));
                assert(spec_files_view(r0).len() == r0.len());
                assert(fgv[g as int].len() == grp@.len());
                assert(fgv[g as int].take(ki - 1).len() == ki - 1);
                assert(r0.len() == a.len() + ki - 1);
                assert forall|j: int|
                    0 <= j < a.len() + ki implies spec_files_view(r@)[j] == (a + fgv[
                    g as int
                ].take(ki))[j] by {
                    assert(spec_files_view(r@)[j] == r@[j]@);
                    if j < r0.len() {
                        assert(r@[j] == r0[j]);
                        assert(spec_files_view(r0)[j] == r0[j]@);
                        let x = j - a.len();
                        if j < a.len() {
                            assert((a + fgv[g as int].take(ki - 1))[j] == a[j]);
                            assert((a + fgv[g as int].take(ki))[j] == a[j]);
                        } else {
                            assert(0 <= x < ki - 1);
                            assert((a + fgv[g as int].take(ki - 1))[j] == fgv[g as int].take(
                                ki - 1,
                            )[x]);
                            assert(fgv[g as int].take(ki - 1)[x] == fgv[g as int][x]);
                            assert((a + fgv[g as int].take(ki))[j] == fgv[g as int].take(ki)[x]);
                            assert(fgv[g as int].take(ki)[x] == fgv[g as int][x]);
                        }
                    } else {
                        assert(j == a.len() + ki - 1);
                        assert((a + fgv[g as int].take(ki))[j] == fgv[g as int].take(ki)[ki - 1]);
                        assert(fgv[g as int].take(ki)[ki - 1] == fgv[g as int][ki - 1]);
                    }
                }
                assert(spec_files_view(r@) =~= a + fgv[g as int].take(ki));
            }
        }
        g = g + 1;
        proof {
            assert(fgv.take(g as int).drop_last() =~= fgv.take(g as int - 1));
            assert(fgv.take(g as int) =~= fgv.take(g as int - 1).push(fgv[g as int - 1]));
            fgv.take(g as int - 1).lemma_flatten_push(fgv[g as int - 1]);
            assert(fgv[g as int - 1].take(fgv[g as int - 1].len() as int) =~= fgv[g as int - 1]);
        }
    }
    proof {
        assert(fgv.take(fgv.len() as int) =~= fgv);
    }
    r
}

/// Whether any file of `files` already carries a byte range.
pub fn has_any_range(files: &Vec<PartitionedFile>) -> (r: bool)
    ensures
        r == spec_has_ranges(spec_files_view(files@)),
{
    let ghost fv = spec_files_view(files@);
    let mut i: usize = 0;
    while i < files.len()
        invariant
            i <= files@.len(),
            fv == spec_files_view(files@),
            forall|j: int| 0 <= j < i ==> !((#[trigger] fv[j]).range is Some),
        decreases files.len() - i,
    {
        if files[i].range.is_some() {
            proof {
                assert(fv[i as int].range is Some);
            }
            return true;
        }
        i = i + 1;
    }
    false
}

/// The summed byte size of `files`.
pub fn total_file_size(files: &Vec<PartitionedFile>) -> (r: u64)
    requires
        spec_total_size(spec_files_view(files@)) <= u64::MAX,
    ensures
        r as int == spec_total_size(spec_files_view(files@)),
{
    let ghost fv = spec_files_view(files@);
    proof {
        assert(fv.take(0) =~= Seq::<PartitionedFileV>::empty());
    }
    let mut acc: u64 = 0;
    let mut i: usize = 0;
    while i < files.len()
        invariant
            i <= files@.len(),
            fv == spec_files_view(files@),
            spec_total_size(fv) <= u64::MAX,
            acc as int == spec_total_size(fv.take(i as int)),
        decreases files.len() - i,
    {
        proof {
            lemma_total_size_take_step(fv, i as int);
            lemma_total_size_prefix_le(fv, i as int + 1);
            lemma_total_size_nonneg(fv.take(i as int));
            assert(fv[i as int].size == files@[i as int].size);
        }
        acc = acc + files[i].size;
        i = i + 1;
    }
    proof {
        assert(fv.take(fv.len() as int) =~= fv);
    }
    acc
}


/// Rounding up is one more than rounding down, except on exact multiples.
pub proof fn lemma_ceil_div(total: int, tp: int)
    requires
        total >= 0,
        tp >= 1,
    ensures
        spec_target_partition_size(total, tp) == total / tp + (if total % tp == 0 {
            0int
        } else {
            1int
        }),
        0 <= spec_target_partition_size(total, tp),
        total >= 1 ==> 1 <= spec_target_partition_size(total, tp) <= total,
{
    let q = total / tp;
    let r = total % tp;
    vstd::arithmetic::div_mod::lemma_fundamental_div_mod(total, tp);
    vstd::arithmetic::div_mod::lemma_mod_bound(total, tp);
    assert(q >= 0) by (nonlinear_arith)
        requires
            tp >= 1,
            0 <= r < tp,
            total >= 0,
            total == tp * q + r,
    ;
    if r == 0 {
        vstd::arithmetic::div_mod::lemma_fundamental_div_mod_converse(total + tp - 1, tp, q, tp - 1);
        if total >= 1 {
            assert(1 <= q <= total) by (nonlinear_arith)
                requires
                    tp >= 1,
                    q >= 0,
                    total == tp * q,
                    total >= 1,
            ;
        }
    } else {
        assert(total + tp - 1 == (q + 1) * tp + (r - 1)) by (nonlinear_arith)
            requires
                total == tp * q + r,
        ;
        vstd::arithmetic::div_mod::lemma_fundamental_div_mod_converse(
            total + tp - 1,
            tp,
            q + 1,
            r - 1,
        );
        assert(q + 1 <= total) by (nonlinear_arith)
            requires
                tp >= 1,
                q >= 0,
                r >= 1,
                total == tp * q + r,
        ;
    }
}

/// A sequence with no piece in partition `g` filters to nothing.
pub proof fn lemma_filter_no_match(ps: Seq<(int, PartitionedFileV)>, g: int)
    requires
        forall|q: int| 0 <= q < ps.len() ==> (#[trigger] ps[q]).0 != g,
    ensures
        ps.filter(spec_in_partition(g)) == Seq::<(int, PartitionedFileV)>::empty(),
    decreases ps.len(),
{
    reveal(Seq::filter);
    if ps.len() == 0 {
        assert(ps.filter(spec_in_partition(g)) =~= Seq::<(int, PartitionedFileV)>::empty());
    } else {
        assert forall|q: int| 0 <= q < ps.drop_last().len() implies (#[trigger] ps.drop_last()[
            q
        ]).0 != g by {
            assert(ps.drop_last()[q] == ps[q]);
        }
        lemma_filter_no_match(ps.drop_last(), g);
        assert(ps[ps.len() - 1].0 != g);
        assert(spec_in_partition(g)(ps.last()) == (ps.last().0 == g));
        assert(ps.filter(spec_in_partition(g)) == ps.drop_last().filter(spec_in_partition(g)));
    }
}

/// Filtering a single piece keeps it exactly when it is in partition `g`.
pub proof fn lemma_filter_singleton(x: (int, PartitionedFileV), g: int)
    ensures
        seq![x].filter(spec_in_partition(g)) == (if x.0 == g {
            seq![x]
        } else {
            Seq::<(int, PartitionedFileV)>::empty()
        }),
{
    reveal(Seq::filter);
    let single = seq![x];
    let empty = Seq::<(int, PartitionedFileV)>::empty();
    assert(single.drop_last() =~= empty);
    assert(empty.filter(spec_in_partition(g)) == empty);
    assert(single.last() == x);
    assert(spec_in_partition(g)(x) == (x.0 == g));
    if x.0 == g {
        assert(single.filter(spec_in_partition(g)) == empty.filter(spec_in_partition(g)).push(x));
        assert(empty.push(x) =~= seq![x]);
    } else {
        assert(single.filter(spec_in_partition(g)) == empty.filter(spec_in_partition(g)));
    }
}

/// Appending a piece for the current or the next partition extends the
/// grouped view by appending to the last group or opening a new one.
#[verifier::rlimit(60)]
pub proof fn lemma_group_pieces_push(ps: Seq<(int, PartitionedFileV)>, x: (int, PartitionedFileV))
    requires
        forall|q: int| 0 <= q < ps.len() ==> 0 <= (#[trigger] ps[q]).0 < spec_num_groups(ps),
        x.0 == spec_num_groups(ps) || x.0 == spec_num_groups(ps) - 1,
        x.0 >= 0,
    ensures
        spec_num_groups(ps.push(x)) == x.0 + 1,
        forall|q: int|
            0 <= q < ps.push(x).len() ==> 0 <= (#[trigger] ps.push(x)[q]).0 < spec_num_groups(
                ps.push(x),
            ),
        x.0 == spec_num_groups(ps) ==> spec_group_pieces(ps.push(x)) == spec_group_pieces(
            ps,
        ).push(seq![x.1]),
        x.0 == spec_num_groups(ps) - 1 ==> spec_group_pieces(ps.push(x)) == spec_group_pieces(
            ps,
        ).update(x.0, spec_group_pieces(ps)[x.0].push(x.1)),
{
    reveal(Seq::filter);
    let psx = ps.push(x);
    let num = spec_num_groups(ps);
    let numx = spec_num_groups(psx);
    assert(psx.last() == x);
    assert(numx == x.0 + 1);
    assert forall|q: int| 0 <= q < psx.len() implies 0 <= (#[trigger] psx[q]).0 < numx by {
        if q < ps.len() {
            assert(psx[q] == ps[q]);
        }
    }
    assert(psx =~= ps + seq![x]);
    assert forall|g: int| 0 <= g < numx implies psx.filter(spec_in_partition(g)) == (if g == x.0 {
        ps.filter(spec_in_partition(g)).push(x)
    } else {
        ps.filter(spec_in_partition(g))
    }) by {
        Seq::filter_distributes_over_add(ps, seq![x], spec_in_partition(g));
        lemma_filter_singleton(x, g);
        if g == x.0 {
            assert(ps.filter(spec_in_partition(g)) + seq![x] =~= ps.filter(
                spec_in_partition(g),
            ).push(x));
        } else {
            assert(ps.filter(spec_in_partition(g)) + Seq::<(int, PartitionedFileV)>::empty()
                =~= ps.filter(spec_in_partition(g)));
        }
    }
    if x.0 == num {
        // The new piece opens partition `num`; no earlier piece is in it.
        assert forall|q: int| 0 <= q < ps.len() implies (#[trigger] ps[q]).0 != x.0 by {}
        lemma_filter_no_match(ps, x.0);
        assert forall|g: int|
            0 <= g < numx implies #[trigger] spec_group_pieces(psx)[g] == spec_group_pieces(
            ps,
        ).push(seq![x.1])[g] by {
            if g < num {
                assert(psx.filter(spec_in_partition(g)) == ps.filter(spec_in_partition(g)));
                assert(spec_group_pieces(ps).push(seq![x.1])[g] == spec_group_pieces(ps)[g]);
            } else {
                assert(g == x.0);
                assert(psx.filter(spec_in_partition(g)) == ps.filter(spec_in_partition(g)).push(
                    x,
                ));
                assert(ps.filter(spec_in_partition(g)) == Seq::<(int, PartitionedFileV)>::empty());
                assert(psx.filter(spec_in_partition(g)) =~= seq![x]);
                assert(seq![x].map_values(spec_piece_file()) =~= seq![x.1]);
            }
        }
        assert(spec_group_pieces(psx) =~= spec_group_pieces(ps).push(seq![x.1]));
    } else {
        assert(x.0 == num - 1);
        assert forall|g: int|
            0 <= g < numx implies #[trigger] spec_group_pieces(psx)[g] == spec_group_pieces(
            ps,
        ).update(x.0, spec_group_pieces(ps)[x.0].push(x.1))[g] by {
            if g == x.0 {
                assert(psx.filter(spec_in_partition(g)) == ps.filter(spec_in_partition(g)).push(
                    x,
                ));
                assert(ps.filter(spec_in_partition(g)).push(x).map_values(spec_piece_file())
                    =~= ps.filter(spec_in_partition(g)).map_values(spec_piece_file()).push(x.1));
            } else {
                assert(psx.filter(spec_in_partition(g)) == ps.filter(spec_in_partition(g)));
            }
        }
        assert(spec_group_pieces(psx) =~= spec_group_pieces(ps).update(
            x.0,
            spec_group_pieces(ps)[x.0].push(x.1),
        ));
    }
}


impl FileScanConfig {
    /// Repartition all input files into `target_partitions` groups of
    /// even byte ranges, when the total size reaches
    /// `repartition_file_min_size`.
    ///
    /// Redistribution applies only when every file is read whole: when
    /// any input already carries a byte range, or the total size is below
    /// the threshold or zero, no change is signalled. Otherwise the files
    /// are walked in order and greedily sliced into consecutive ranges
    /// that fill each partition up to the rounded-up target size before
    /// the next partition begins; a file may be split across partitions
    /// and a partition may hold pieces of several files, with the final
    /// partition absorbing the remainder. The byte ranges only assign
    /// bytes; splitting on record boundaries is the reader's concern.
    pub fn repartition_file_groups(
        file_groups: Vec<Vec<PartitionedFile>>,
        target_partitions: usize,
        repartition_file_min_size: usize,
    ) -> (r: Option<Vec<Vec<PartitionedFile>>>)
        requires
            target_partitions >= 1,
            spec_total_size(spec_file_groups_view(file_groups@).flatten()) <= usize::MAX,
        ensures
            ({
                let filesv = spec_file_groups_view(file_groups@).flatten();
                let total = spec_total_size(filesv);
                &&& (r is None <==> (spec_has_ranges(filesv) || total < repartition_file_min_size
                    || total == 0))
                &&& (r matches Some(groups) ==> spec_file_groups_view(groups@)
                    == spec_repartitioned(
                    filesv,
                    spec_target_partition_size(total, target_partitions as int),
                ))
                &&& (r matches Some(groups) ==> spec_tiles(
                    filesv,
                    spec_file_groups_view(groups@).flatten(),
                ))
            }),
    {
        let flattened = flatten_file_groups(&file_groups);
        let ghost filesv = spec_files_view(flattened@);
        proof {
            lemma_total_size_nonneg(filesv);
        }
        if has_any_range(&flattened) {
            return None;
        }
        let total = total_file_size(&flattened);
        if total < repartition_file_min_size as u64 || total == 0 {
            return None;
        }

        let tpu = target_partitions as u64;
        let ghost tp = target_partitions as int;
        proof {
            lemma_ceil_div(total as int, tp);
        }
        let t = total / tpu + (if total % tpu == 0 { 0 } else { 1 });
        let ghost ti = t as int;
        proof {
            assert(ti == spec_target_partition_size(total as int, tp));
            assert(1 <= ti <= total as int);
        }

        let mut groups: Vec<Vec<PartitionedFile>> = Vec::new();
        let mut idx: usize = 0;
        let mut fill: u64 = 0;
        let ghost mut ps: Seq<(int, PartitionedFileV)> = Seq::empty();
        let mut fi: usize = 0;
        proof {
            assert(filesv.skip(0) =~= filesv);
            assert(ps + spec_split_all(filesv, 0, 0, ti).0 =~= spec_split_all(filesv, 0, 0, ti).0);
            assert(spec_file_groups_view(groups@) =~= spec_group_pieces(ps));
            assert(filesv.take(0) =~= Seq::<PartitionedFileV>::empty());
        }
        while fi < flattened.len()
            invariant
                fi <= flattened@.len(),
                filesv == spec_files_view(flattened@),
                ti == t as int,
                1 <= ti <= total as int,
                total as int == spec_total_size(filesv),
                total as int <= usize::MAX,
                (fill as int) < ti,
                spec_split_all(filesv, 0, 0, ti).0 == ps + spec_split_all(
                    filesv.skip(fi as int),
                    idx as int,
                    fill as int,
                    ti,
                ).0,
                spec_split_all(filesv, 0, 0, ti).1 == spec_split_all(
                    filesv.skip(fi as int),
                    idx as int,
                    fill as int,
                    ti,
                ).1,
                spec_split_all(filesv, 0, 0, ti).2 == spec_split_all(
                    filesv.skip(fi as int),
                    idx as int,
                    fill as int,
                    ti,
                ).2,
                (idx as int) * ti + fill as int == spec_total_size(filesv.take(fi as int)),
                spec_file_groups_view(groups@) == spec_group_pieces(ps),
                groups@.len() == spec_num_groups(ps),
                forall|q: int|
                    0 <= q < ps.len() ==> 0 <= (#[trigger] ps[q]).0 < spec_num_groups(ps),
                (if fill > 0 {
                    idx as int == spec_num_groups(ps) - 1
                } else {
                    idx as int == spec_num_groups(ps)
                }),
            decreases flattened.len() - fi,
        {
            let size = flattened[fi].size;
            proof {
                assert(filesv[fi as int] == flattened@[fi as int]@);
                assert(filesv.skip(fi as int)[0] == filesv[fi as int]);
                assert(filesv.skip(fi as int).skip(1) =~= filesv.skip(fi as int + 1));
                lemma_total_size_take_step(filesv, fi as int);
                lemma_total_size_prefix_le(filesv, fi as int + 1);
                lemma_total_size_nonneg(filesv.take(fi as int));
            }
            let mut pos: u64 = 0;
            while pos < size
                invariant
                    pos <= size,
                    fi < flattened@.len(),
                    size == filesv[fi as int].size,
                    filesv == spec_files_view(flattened@),
                    ti == t as int,
                    1 <= ti <= total as int,
                    total as int == spec_total_size(filesv),
                    total as int <= usize::MAX,
                    (fill as int) < ti,
                    spec_split_all(filesv, 0, 0, ti).0 == ps + spec_split_from(
                        filesv,
                        fi as int,
                        pos as int,
                        idx as int,
                        fill as int,
                        ti,
                    ).0,
                    spec_split_all(filesv, 0, 0, ti).1 == spec_split_from(
                        filesv,
                        fi as int,
                        pos as int,
                        idx as int,
                        fill as int,
                        ti,
                    ).1,
                    spec_split_all(filesv, 0, 0, ti).2 == spec_split_from(
                        filesv,
                        fi as int,
                        pos as int,
                        idx as int,
                        fill as int,
                        ti,
                    ).2,
                    (idx as int) * ti + fill as int == spec_total_size(filesv.take(fi as int))
                        + pos as int,
                    spec_total_size(filesv.take(fi as int)) + size <= total as int,
                    spec_total_size(filesv.take(fi as int)) >= 0,
                    spec_file_groups_view(groups@) == spec_group_pieces(ps),
                    groups@.len() == spec_num_groups(ps),
                    forall|q: int|
                        0 <= q < ps.len() ==> 0 <= (#[trigger] ps[q]).0 < spec_num_groups(ps),
                    (if fill > 0 {
                        idx as int == spec_num_groups(ps) - 1
                    } else {
                        idx as int == spec_num_groups(ps)
                    }),
                decreases size - pos,
            {
                let cap = t - fill;
                let range_end = if size - pos <= cap {
                    size
                } else {
                    pos + cap
                };
                let piece_len = range_end - pos;
                let piece = PartitionedFile {
                    path: clone_bytes(&flattened[fi].path),
                    size,
                    range: Some(FileRange { start: pos, end: range_end }),
                };
                let ghost x = (idx as int, spec_piece(filesv[fi as int], pos as int, range_end as int));
                proof {
                    assert(flattened@[fi as int]@.path == filesv[fi as int].path);
                    assert(piece@ == x.1);
                    lemma_group_pieces_push(ps, x);
                }
                let ghost groups0 = groups@;
                if fill == 0 {
                    let mut ng: Vec<PartitionedFile> = Vec::new();
                    ng.push(piece);
                    groups.push(ng);
                    proof {
                        assert(ng@.map_values(|f: PartitionedFile| f@) =~= seq![x.1]);
                        assert forall|g: int|
                            0 <= g < groups@.len() implies #[trigger] spec_file_groups_view(
                            groups@,
                        )[g] == spec_group_pieces(ps.push(x))[g] by {
                            if g < groups0.len() {
                                assert(groups@[g] == groups0[g]);
                                assert(spec_file_groups_view(groups0)[g] == spec_group_pieces(
                                    ps,
                                )[g]);
                                assert(spec_group_pieces(ps.push(x))[g] == spec_group_pieces(
                                    ps,
                                ).push(seq![x.1])[g]);
                            } else {
                                assert(groups@[g] == ng);
                            }
                        }
                        assert(spec_file_groups_view(groups@) =~= spec_group_pieces(ps.push(x)));
                    }
                } else {
                    let last = match groups.pop() {
                        Some(l) => l,
                        None => vstd::pervasive::unreached(),
                    };
                    let ghost last0 = last@;
                    let mut last = last;
                    last.push(piece);
                    groups.push(last);
                    proof {
                        assert(groups0.drop_last() =~= groups@.drop_last());
                        assert(groups@ =~= groups0.drop_last().push(groups@[groups@.len() - 1]));
                        assert(last@ == last0.push(piece));
                        assert(last0 == groups0[idx as int]@);
                        assert forall|g: int|
                            0 <= g < groups@.len() implies #[trigger] spec_file_groups_view(
                            groups@,
                        )[g] == spec_group_pieces(ps.push(x))[g] by {
                            assert(spec_group_pieces(ps.push(x)) == spec_group_pieces(ps).update(
                                x.0,
                                spec_group_pieces(ps)[x.0].push(x.1),
                            ));
                            if g < groups@.len() - 1 {
                                assert(groups@[g] == groups0[g]);
                                assert(spec_file_groups_view(groups0)[g] == spec_group_pieces(
                                    ps,
                                )[g]);
                            } else {
                                assert(g == idx as int);
                                assert(groups@[g]@.map_values(|f: PartitionedFile| f@)
                                    =~= groups0[g]@.map_values(|f: PartitionedFile| f@).push(
                                    x.1,
                                ));
                                assert(spec_file_groups_view(groups0)[g] == spec_group_pieces(
                                    ps,
                                )[g]);
                            }
                        }
                        assert(spec_file_groups_view(groups@) =~= spec_group_pieces(ps.push(x)));
                    }
                }
                proof {
                    ps = ps.push(x);
                }
                // Advance the partition when it is filled to capacity.
                let rolled = fill + piece_len >= t;
                proof {
                    // Unfold one step of the walk at `pos`.
                    let sf = spec_split_file(
                        filesv[fi as int],
                        pos as int,
                        idx as int,
                        fill as int,
                        ti,
                    );
                    let endi = range_end as int;
                    assert(sf == (
                        seq![(idx as int, spec_piece(filesv[fi as int], pos as int, endi))]
                            + spec_split_file(
                            filesv[fi as int],
                            endi,
                            if rolled { idx as int + 1 } else { idx as int },
                            if rolled { 0int } else { fill as int + piece_len as int },
                            ti,
                        ).0,
                        spec_split_file(
                            filesv[fi as int],
                            endi,
                            if rolled { idx as int + 1 } else { idx as int },
                            if rolled { 0int } else { fill as int + piece_len as int },
                            ti,
                        ).1,
                        spec_split_file(
                            filesv[fi as int],
                            endi,
                            if rolled { idx as int + 1 } else { idx as int },
                            if rolled { 0int } else { fill as int + piece_len as int },
                            ti,
                        ).2,
                    ));
                    assert(ps + spec_split_from(
                        filesv,
                        fi as int,
                        endi,
                        if rolled { idx as int + 1 } else { idx as int },
                        if rolled { 0int } else { fill as int + piece_len as int },
                        ti,
                    ).0 =~= (ps.drop_last() + spec_split_from(
                        filesv,
                        fi as int,
                        pos as int,
                        idx as int,
                        fill as int,
                        ti,
                    ).0));
                    // Partition indices stay within the machine range.
                    if rolled {
                        assert((idx as int + 1) <= (idx as int + 1) * ti) by (nonlinear_arith)
                            requires
                                ti >= 1,
                                idx as int >= 0,
                        ;
                        assert((idx as int + 1) * ti == (idx as int) * ti + ti)
                            by (nonlinear_arith);
                        assert(piece_len as int == ti - fill as int);
                        assert((idx as int + 1) * ti + 0 == spec_total_size(
                            filesv.take(fi as int),
                        ) + range_end as int);
                        assert((idx as int + 1) <= total as int);
                    } else {
                        assert((idx as int) * ti + (fill as int + piece_len as int)
                            == spec_total_size(filesv.take(fi as int)) + range_end as int);
                    }
                }
                if rolled {
                    idx = idx + 1;
                    fill = 0;
                } else {
                    fill = fill + piece_len;
                }
                pos = range_end;
            }
            proof {
                assert(pos == size);
                assert(spec_split_file(filesv[fi as int], pos as int, idx as int, fill as int, ti)
                    == (Seq::<(int, PartitionedFileV)>::empty(), idx as int, fill as int));
                assert(ps + spec_split_all(
                    filesv.skip(fi as int + 1),
                    idx as int,
                    fill as int,
                    ti,
                ).0 =~= ps + spec_split_from(
                    filesv,
                    fi as int,
                    pos as int,
                    idx as int,
                    fill as int,
                    ti,
                ).0);
                lemma_total_size_take_step(filesv, fi as int);
            }
            fi = fi + 1;
        }
        proof {
            assert(filesv.skip(filesv.len() as int) =~= Seq::<PartitionedFileV>::empty());
            assert(ps + spec_split_all(
                filesv.skip(fi as int),
                idx as int,
                fill as int,
                ti,
            ).0 =~= ps);
            assert(ps == spec_split_all(filesv, 0, 0, ti).0);
            assert(spec_file_groups_view(file_groups@).flatten() == filesv);
            lemma_repartition_lossless(filesv, ti);
        }
        Some(groups)
    }
}


/// The pieces `ps` cover `[pos, f.size)` of file `f` contiguously: each
/// piece is `f` with a non-empty range, ranges abut, the first starts at
/// `pos` and the last ends at the file's size.
pub open spec fn spec_covers(f: PartitionedFileV, pos: int, ps: Seq<PartitionedFileV>) -> bool
    decreases ps.len(),
{
    if ps.len() == 0 {
        pos >= f.size
    } else {
        &&& ps[0].path == f.path
        &&& ps[0].size == f.size
        &&& ps[0].range matches Some(r) && r.start == pos && pos < r.end <= f.size
            && spec_covers(f, r.end as int, ps.skip(1))
    }
}

/// The pieces tile the files: they split into consecutive runs, one per
/// file in order, each covering its file's whole byte range exactly once.
pub open spec fn spec_tiles(
    files: Seq<PartitionedFileV>,
    pieces: Seq<PartitionedFileV>,
) -> bool
    decreases files.len(),
{
    if files.len() == 0 {
        pieces.len() == 0
    } else {
        exists|k: int|
            0 <= k <= pieces.len() && spec_covers(files[0], 0, #[trigger] pieces.take(k))
                && spec_tiles(files.skip(1), pieces.skip(k))
    }
}

/// The walk's pieces for one file cover `[pos, size)` exactly, and leave
/// the partition fill strictly below the target.
pub proof fn lemma_split_file_covers(f: PartitionedFileV, pos: int, idx: int, fill: int, t: int)
    requires
        0 <= pos,
        0 <= fill < t,
    ensures
        spec_covers(f, pos, spec_split_file(f, pos, idx, fill, t).0.map_values(spec_piece_file())),
        0 <= spec_split_file(f, pos, idx, fill, t).2 < t,
    decreases f.size - pos,
{
    let r = spec_split_file(f, pos, idx, fill, t);
    if pos < f.size {
        let end = if f.size - pos <= t - fill {
            f.size as int
        } else {
            pos + (t - fill)
        };
        let rollover = fill + (end - pos) >= t;
        let idx2 = if rollover {
            idx + 1
        } else {
            idx
        };
        let fill2 = if rollover {
            0int
        } else {
            fill + (end - pos)
        };
        lemma_split_file_covers(f, end, idx2, fill2, t);
        let rest = spec_split_file(f, end, idx2, fill2, t);
        let x = (idx, spec_piece(f, pos, end));
        assert(r.0 == seq![x] + rest.0);
        let mapped = r.0.map_values(spec_piece_file());
        assert(mapped =~= seq![x.1] + rest.0.map_values(spec_piece_file()));
        assert(mapped[0] == x.1);
        assert(mapped.skip(1) =~= rest.0.map_values(spec_piece_file()));
        assert(x.1.range matches Some(rg) && rg.start == pos && rg.end == end);
        assert(spec_covers(f, pos, mapped));
    }
}

/// The walk's pieces for a file list tile the files.
pub proof fn lemma_split_all_tiles(files: Seq<PartitionedFileV>, idx: int, fill: int, t: int)
    requires
        0 <= fill < t,
    ensures
        spec_tiles(files, spec_split_all(files, idx, fill, t).0.map_values(spec_piece_file())),
    decreases files.len(),
{
    if files.len() > 0 {
        let first = spec_split_file(files[0], 0, idx, fill, t);
        lemma_split_file_covers(files[0], 0, idx, fill, t);
        lemma_split_all_tiles(files.skip(1), first.1, first.2, t);
        let rest = spec_split_all(files.skip(1), first.1, first.2, t);
        let pieces = spec_split_all(files, idx, fill, t).0.map_values(spec_piece_file());
        let k = first.0.len() as int;
        assert(pieces =~= first.0.map_values(spec_piece_file()) + rest.0.map_values(
            spec_piece_file(),
        ));
        assert(pieces.take(k) =~= first.0.map_values(spec_piece_file()));
        assert(pieces.skip(k) =~= rest.0.map_values(spec_piece_file()));
        assert(0 <= k <= pieces.len() && spec_covers(files[0], 0, pieces.take(k)) && spec_tiles(
            files.skip(1),
            pieces.skip(k),
        ));
    }
}

/// The partition index of the last piece of a run ending in state
/// `(idx2, fill2)`: the current partition while it has content, else the
/// one just closed.
pub open spec fn spec_run_last(idx2: int, fill2: int) -> int {
    if fill2 > 0 {
        idx2
    } else {
        idx2 - 1
    }
}

/// The indexed pieces form a run from state `(idx, fill)` to state
/// `(idx2, fill2)`: indices start at `idx`, never decrease, never step by
/// more than one, and end at the run's last partition.
pub open spec fn spec_run_ok(
    ps: Seq<(int, PartitionedFileV)>,
    idx: int,
    fill: int,
    idx2: int,
    fill2: int,
) -> bool {
    &&& forall|q: int|
        0 <= q < ps.len() ==> idx <= (#[trigger] ps[q]).0 <= spec_run_last(idx2, fill2)
    &&& forall|q: int|
        0 < q < ps.len() ==> ps[q - 1].0 <= (#[trigger] ps[q]).0 <= ps[q - 1].0 + 1
    &&& if ps.len() == 0 {
        idx2 == idx && fill2 == fill
    } else {
        ps[0].0 == idx && ps.last().0 == spec_run_last(idx2, fill2)
    }
}

/// Within a run, indices never decrease.
pub proof fn lemma_run_mono(
    ps: Seq<(int, PartitionedFileV)>,
    idx: int,
    fill: int,
    idx2: int,
    fill2: int,
    q1: int,
    q2: int,
)
    requires
        spec_run_ok(ps, idx, fill, idx2, fill2),
        0 <= q1 <= q2 < ps.len(),
    ensures
        ps[q1].0 <= ps[q2].0,
    decreases q2 - q1,
{
    if q1 < q2 {
        lemma_run_mono(ps, idx, fill, idx2, fill2, q1, q2 - 1);
        assert(ps[q2 - 1].0 <= ps[q2].0);
    }
}

/// Two consecutive runs compose into one.
#[verifier::spinoff_prover]
pub proof fn lemma_run_ok_concat(
    a: Seq<(int, PartitionedFileV)>,
    b: Seq<(int, PartitionedFileV)>,
    i0: int,
    f0: int,
    i1: int,
    f1: int,
    i2: int,
    f2: int,
)
    requires
        spec_run_ok(a, i0, f0, i1, f1),
        spec_run_ok(b, i1, f1, i2, f2),
        i1 >= i0,
    ensures
        spec_run_ok(a + b, i0, f0, i2, f2),
{
    let c = a + b;
    if b.len() == 0 {
        assert(c =~= a);
    } else if a.len() == 0 {
        assert(c =~= b);
        assert forall|q: int|
            0 <= q < c.len() implies i0 <= (#[trigger] c[q]).0 <= spec_run_last(i2, f2) by {
            assert(i0 == i1 && i1 <= c[q].0);
        }
    } else {
        // Boundary: the first run's last index meets the second's first.
        assert(a.last().0 == spec_run_last(i1, f1));
        assert(b[0].0 == i1);
        assert(spec_run_last(i1, f1) <= i1 <= spec_run_last(i1, f1) + 1);
        lemma_run_mono(b, i1, f1, i2, f2, 0, b.len() - 1);
        assert(b.last().0 == spec_run_last(i2, f2));
        assert(i1 <= spec_run_last(i2, f2));
        assert forall|q: int|
            0 <= q < c.len() implies i0 <= (#[trigger] c[q]).0 <= spec_run_last(i2, f2) by {
            if q < a.len() {
                assert(c[q] == a[q]);
                assert(a[q].0 <= spec_run_last(i1, f1));
            } else {
                assert(c[q] == b[q - a.len()]);
                assert(i1 <= b[q - a.len()].0);
            }
        }
        assert forall|q: int|
            0 < q < c.len() implies c[q - 1].0 <= (#[trigger] c[q]).0 <= c[q - 1].0 + 1 by {
            if q < a.len() {
                assert(c[q] == a[q] && c[q - 1] == a[q - 1]);
            } else if q > a.len() {
                assert(c[q] == b[q - a.len()] && c[q - 1] == b[q - 1 - a.len()]);
            } else {
                assert(c[q] == b[0] && c[q - 1] == a.last());
            }
        }
        assert(c[0] == a[0]);
        assert(c.last() == b.last());
    }
}

/// The walk over one file produces a run from its entry state to its
/// exit state.
#[verifier::spinoff_prover]
#[verifier::rlimit(60)]
pub proof fn lemma_split_file_chain(f: PartitionedFileV, pos: int, idx: int, fill: int, t: int)
    requires
        0 <= pos,
        0 <= fill < t,
        0 <= idx,
    ensures
        spec_run_ok(
            spec_split_file(f, pos, idx, fill, t).0,
            idx,
            fill,
            spec_split_file(f, pos, idx, fill, t).1,
            spec_split_file(f, pos, idx, fill, t).2,
        ),
        spec_split_file(f, pos, idx, fill, t).1 >= idx,
        0 <= spec_split_file(f, pos, idx, fill, t).2 < t,
    decreases f.size - pos,
{
    let r = spec_split_file(f, pos, idx, fill, t);
    if pos < f.size {
        let end = if f.size - pos <= t - fill {
            f.size as int
        } else {
            pos + (t - fill)
        };
        let rollover = fill + (end - pos) >= t;
        let idx2 = if rollover {
            idx + 1
        } else {
            idx
        };
        let fill2 = if rollover {
            0int
        } else {
            fill + (end - pos)
        };
        lemma_split_file_chain(f, end, idx2, fill2, t);
        let rest = spec_split_file(f, end, idx2, fill2, t);
        let x = (idx, spec_piece(f, pos, end));
        assert(seq![x].last() == x);
        assert(spec_run_ok(seq![x], idx, fill, idx2, fill2));
        lemma_run_ok_concat(seq![x], rest.0, idx, fill, idx2, fill2, rest.1, rest.2);
        assert(r.0 == seq![x] + rest.0);
    }
}

/// The walk over a file list produces a run from its entry state to its
/// exit state.
#[verifier::spinoff_prover]
#[verifier::rlimit(60)]
pub proof fn lemma_split_all_chain(files: Seq<PartitionedFileV>, idx: int, fill: int, t: int)
    requires
        0 <= fill < t,
        0 <= idx,
    ensures
        spec_run_ok(
            spec_split_all(files, idx, fill, t).0,
            idx,
            fill,
            spec_split_all(files, idx, fill, t).1,
            spec_split_all(files, idx, fill, t).2,
        ),
        spec_split_all(files, idx, fill, t).1 >= idx,
        0 <= spec_split_all(files, idx, fill, t).2 < t,
    decreases files.len(),
{
    if files.len() > 0 {
        let first = spec_split_file(files[0], 0, idx, fill, t);
        lemma_split_file_chain(files[0], 0, idx, fill, t);
        lemma_split_all_chain(files.skip(1), first.1, first.2, t);
        let rest = spec_split_all(files.skip(1), first.1, first.2, t);
        lemma_run_ok_concat(
            first.0,
            rest.0,
            idx,
            fill,
            first.1,
            first.2,
            rest.1,
            rest.2,
        );
    }
}

/// Regrouping pieces by partition index and flattening the groups gives
/// back the pieces, when the indices run from zero without gaps.
#[verifier::spinoff_prover]
#[verifier::rlimit(60)]
pub proof fn lemma_group_flatten(ps: Seq<(int, PartitionedFileV)>, idx2: int, fill2: int)
    requires
        spec_run_ok(ps, 0, 0, idx2, fill2),
    ensures
        spec_group_pieces(ps).flatten() == ps.map_values(spec_piece_file()),
    decreases ps.len(),
{
    if ps.len() == 0 {
        assert(spec_group_pieces(ps) =~= Seq::<Seq<PartitionedFileV>>::empty());
        assert(Seq::<Seq<PartitionedFileV>>::empty().flatten() =~= Seq::<
            PartitionedFileV,
        >::empty());
        assert(ps.map_values(spec_piece_file()) =~= Seq::<PartitionedFileV>::empty());
    } else {
        let ps0 = ps.drop_last();
        let x = ps.last();
        let num0 = spec_num_groups(ps0);
        let last0 = if ps0.len() == 0 {
            0int
        } else {
            ps0.last().0
        };
        // The shorter walk is itself a run, ending at its own last index.
        assert forall|q: int|
            0 <= q < ps0.len() implies 0 <= (#[trigger] ps0[q]).0 <= spec_run_last(last0, 1) by {
            assert(ps0[q] == ps[q]);
            lemma_run_mono(ps, 0, 0, idx2, fill2, q, ps.len() - 2);
            assert(ps0.last() == ps[ps.len() - 2]);
        }
        assert forall|q: int|
            0 < q < ps0.len() implies ps0[q - 1].0 <= (#[trigger] ps0[q]).0 <= ps0[q - 1].0
                + 1 by {
            assert(ps0[q] == ps[q] && ps0[q - 1] == ps[q - 1]);
        }
        if ps0.len() > 0 {
            assert(ps0[0] == ps[0]);
            assert(spec_run_ok(ps0, 0, 0, last0, 1));
        } else {
            assert(spec_run_ok(ps0, 0, 0, 0, 0));
        }
        lemma_group_flatten(ps0, if ps0.len() > 0 { last0 } else { 0int }, if ps0.len() > 0 { 1int } else { 0int });
        // The appended piece extends the last group or opens the next.
        assert forall|q: int| 0 <= q < ps0.len() implies 0 <= (#[trigger] ps0[q]).0 < num0 by {
            assert(ps0[q].0 <= spec_run_last(last0, 1));
        }
        if ps0.len() == 0 {
            assert(x == ps[0]);
            assert(x.0 == 0 && num0 == 0);
        } else {
            assert(x.0 <= ps[ps.len() - 2].0 + 1);
            lemma_run_mono(ps, 0, 0, idx2, fill2, ps.len() - 2, ps.len() - 1);
            assert(num0 == ps0.last().0 + 1);
        }
        lemma_group_pieces_push(ps0, x);
        assert(ps =~= ps0.push(x));
        let gp0 = spec_group_pieces(ps0);
        if x.0 == num0 {
            assert(spec_group_pieces(ps) == gp0.push(seq![x.1]));
            gp0.lemma_flatten_push(seq![x.1]);
            assert(spec_group_pieces(ps).flatten() == gp0.flatten() + seq![x.1]);
            assert(ps0.map_values(spec_piece_file()) + seq![x.1] =~= ps.map_values(
                spec_piece_file(),
            ));
        } else {
            assert(x.0 == num0 - 1);
            let updated = gp0.update(x.0, gp0[x.0].push(x.1));
            assert(spec_group_pieces(ps) == updated);
            assert(updated =~= gp0.drop_last().push(gp0[x.0].push(x.1)));
            assert(gp0 =~= gp0.drop_last().push(gp0[x.0]));
            gp0.drop_last().lemma_flatten_push(gp0[x.0].push(x.1));
            gp0.drop_last().lemma_flatten_push(gp0[x.0]);
            assert(spec_group_pieces(ps).flatten() == gp0.drop_last().flatten() + gp0[x.0].push(
                x.1,
            ));
            assert(gp0.flatten() == gp0.drop_last().flatten() + gp0[x.0]);
            assert(gp0.drop_last().flatten() + gp0[x.0].push(x.1) =~= (gp0.drop_last().flatten()
                + gp0[x.0]).push(x.1));
            assert(ps0.map_values(spec_piece_file()).push(x.1) =~= ps.map_values(
                spec_piece_file(),
            ));
        }
    }
}

/// Repartitioning is lossless: flattening the rebalanced groups yields
/// the walk's pieces in order, and those pieces tile the input files —
/// every byte of every input file is covered by exactly one output
/// range, and no other byte is.
pub proof fn lemma_repartition_lossless(files: Seq<PartitionedFileV>, target: int)
    requires
        target >= 1,
    ensures
        spec_repartitioned(files, target).flatten() == spec_split_all(
            files,
            0,
            0,
            target,
        ).0.map_values(spec_piece_file()),
        spec_tiles(files, spec_repartitioned(files, target).flatten()),
{
    let r = spec_split_all(files, 0, 0, target);
    lemma_split_all_tiles(files, 0, 0, target);
    lemma_split_all_chain(files, 0, 0, target);
    lemma_group_flatten(r.0, r.1, r.2);
}

} // verus!
