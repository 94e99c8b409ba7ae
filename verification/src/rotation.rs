//! Rotation of the per-container log files: size accounting, the file
//! operations of one rotation, and what they do to the files.
use vstd::prelude::*;

verus! {

/// The size accounting of the log file being written.
pub struct LogFileSize {
    pub size: u64,
    pub max: u64,
    pub keep: u32,
}

impl LogFileSize {
    /// The accounting of a file opened with `size` bytes already in it.
    pub fn open(size: u64, max: u64, keep: u32) -> (r: LogFileSize)
        ensures
            r.size == size,
            r.max == max,
            r.keep == keep,
    {
        LogFileSize { size, max, keep }
    }

    /// Records a line of `line_bytes` bytes and its newline; tells whether the
    /// file must now be rotated (a limit is set and has been reached).
    pub fn record_line(&mut self, line_bytes: usize) -> (rotate: bool)
        requires
            old(self).size + line_bytes + 1 <= u64::MAX,
        ensures
            final(self).size == old(self).size + line_bytes + 1,
            final(self).max == old(self).max,
            final(self).keep == old(self).keep,
            rotate == (final(self).max > 0 && final(self).size >= final(self).max),
    {
        self.size = self.size + line_bytes as u64 + 1;
        self.max > 0 && self.size >= self.max
    }

    /// The file was rotated: the new one is empty.
    pub fn rotated(&mut self)
        ensures
            final(self).size == 0,
            final(self).max == old(self).max,
            final(self).keep == old(self).keep,
    {
        self.size = 0;
    }
}

/// One file operation of a rotation; file `0` is the live log, file `i > 0`
/// the `i`-th rotated copy.
#[derive(PartialEq, Eq, Structural, Clone, Copy, Debug)]
pub enum RotateStep {
    /// Empty the live log in place.
    Truncate,
    /// Delete rotated copy `i` (ignoring a missing file).
    Remove(u32),
    /// Rename file `from` to `to` (ignoring a missing file).
    Rename(u32, u32),
}

/// The operations of a rotation that keeps `keep` rotated copies: with none
/// kept the live log is emptied; otherwise the oldest copy is deleted, each
/// copy moves one place older, and the live log becomes copy 1.
pub open spec fn rotation_plan(keep: u32) -> Seq<RotateStep> {
    if keep == 0 {
        seq![RotateStep::Truncate]
    } else {
        Seq::new(
            keep as nat + 1,
            |k: int|
                if k == 0 {
                    RotateStep::Remove(keep)
                } else {
                    RotateStep::Rename((keep - k) as u32, (keep - k + 1) as u32)
                },
        )
    }
}

/// The file operations that rotate a log keeping `keep` copies.
pub fn rotation_steps(keep: u32) -> (r: Vec<RotateStep>)
    ensures
        r@ == rotation_plan(keep),
{
    let mut out: Vec<RotateStep> = Vec::new();
    if keep == 0 {
        out.push(RotateStep::Truncate);
        assert(out@ =~= rotation_plan(keep));
        return out;
    }
    out.push(RotateStep::Remove(keep));
    let mut i = keep - 1;
    while i > 0
        invariant
            0 <= i < keep,
            out@.len() == keep - i,
            forall|k: int| 0 <= k < out@.len() ==> #[trigger] out@[k] == rotation_plan(keep)[k],
        decreases i,
    {
        out.push(RotateStep::Rename(i, i + 1));
        i = i - 1;
    }
    out.push(RotateStep::Rename(0, 1));
    assert(out@ =~= rotation_plan(keep));
    out
}

/// The files after one rotation step; `files` maps each existing file's
/// number to its contents, `empty` is the contents of an emptied file.
pub open spec fn apply_step<F>(files: Map<u32, F>, step: RotateStep, empty: F) -> Map<u32, F> {
    match step {
        RotateStep::Truncate => if files.dom().contains(0) {
            files.insert(0, empty)
        } else {
            files
        },
        RotateStep::Remove(i) => files.remove(i),
        RotateStep::Rename(a, b) => if files.dom().contains(a) {
            files.remove(a).insert(b, files[a])
        } else {
            files
        },
    }
}

/// The files after the steps `steps`, applied in order.
pub open spec fn apply_steps<F>(files: Map<u32, F>, steps: Seq<RotateStep>, empty: F) -> Map<
    u32,
    F,
>
    decreases steps.len(),
{
    if steps.len() == 0 {
        files
    } else {
        apply_step(apply_steps(files, steps.drop_last(), empty), steps.last(), empty)
    }
}

/// What the first `k` steps of a rotation keeping `keep > 0` copies leave:
/// files above `keep` untouched, `keep - k + 1` gone, the ones above it shifted
/// up by one, the ones below it untouched.
pub open spec fn partly_rotated<F>(files: Map<u32, F>, after: Map<u32, F>, keep: u32, k: int) -> bool {
    let gap = keep - k + 1;
    forall|i: u32|
        {
            &&& (i > keep || i < gap) ==> (#[trigger] after.dom().contains(i) == files.dom().contains(
                i,
            ) && (files.dom().contains(i) ==> after[i] == files[i]))
            &&& i == gap ==> !after.dom().contains(i)
            &&& (gap < i <= keep) ==> (after.dom().contains(i) == files.dom().contains(
                (i - 1) as u32,
            ) && (files.dom().contains((i - 1) as u32) ==> after[i] == files[(i - 1) as u32]))
        }
}

#[verifier::spinoff_prover]
proof fn lemma_rotation_prefix<F>(files: Map<u32, F>, keep: u32, k: int, empty: F)
    requires
        keep > 0,
        1 <= k <= keep + 1,
    ensures
        partly_rotated(files, apply_steps(files, rotation_plan(keep).take(k), empty), keep, k),
    decreases k,
{
    let plan = rotation_plan(keep);
    let steps = plan.take(k);
    if k == 1 {
        assert(steps.drop_last() =~= Seq::<RotateStep>::empty());
        assert(apply_steps(files, steps.drop_last(), empty) == files);
        assert(steps.last() == RotateStep::Remove(keep));
        let after = apply_steps(files, steps, empty);
        assert(after == files.remove(keep));
        assert forall|i: u32| #![trigger after.dom().contains(i)]
            {
                &&& (i > keep || i < keep - k + 1) ==> (after.dom().contains(i)
                    == files.dom().contains(i) && (files.dom().contains(i) ==> after[i]
                    == files[i]))
                &&& i == keep - k + 1 ==> !after.dom().contains(i)
                &&& (keep - k + 1 < i <= keep) ==> (after.dom().contains(i)
                    == files.dom().contains((i - 1) as u32) && (files.dom().contains(
                    (i - 1) as u32,
                ) ==> after[i] == files[(i - 1) as u32]))
            } by {}
        assert(partly_rotated(files, after, keep, k));
    } else {
        lemma_rotation_prefix(files, keep, k - 1, empty);
        assert(steps.drop_last() =~= plan.take(k - 1));
        let prev = apply_steps(files, plan.take(k - 1), empty);
        let j = (keep - (k - 1)) as u32;
        assert(steps.last() == RotateStep::Rename(j, (j + 1) as u32));
        let after = apply_steps(files, steps, empty);
        assert(after == apply_step(prev, RotateStep::Rename(j, (j + 1) as u32), empty));
        assert(partly_rotated(files, prev, keep, k - 1));
        assert(prev.dom().contains(j) == files.dom().contains(j));
        assert(files.dom().contains(j) ==> prev[j] == files[j]);
        assert(!prev.dom().contains((j + 1) as u32));
        assert forall|i: u32| #![trigger after.dom().contains(i)]
            {
                &&& (i > keep || i < keep - k + 1) ==> (after.dom().contains(i)
                    == files.dom().contains(i) && (files.dom().contains(i) ==> after[i]
                    == files[i]))
                &&& i == keep - k + 1 ==> !after.dom().contains(i)
                &&& (keep - k + 1 < i <= keep) ==> (after.dom().contains(i)
                    == files.dom().contains((i - 1) as u32) && (files.dom().contains(
                    (i - 1) as u32,
                ) ==> after[i] == files[(i - 1) as u32]))
            } by {
            assert(prev.dom().contains(i) == prev.dom().contains(i));
            if i != j && i != j + 1 {
                if prev.dom().contains(j) {
                    assert(after.dom().contains(i) == prev.dom().contains(i));
                    assert(prev.dom().contains(i) ==> after[i] == prev[i]);
                } else {
                    assert(after == prev);
                }
            }
        }
        assert(partly_rotated(files, after, keep, k));
    }
}

/// A rotation that keeps `keep > 0` copies, applied to any set of files, moves
/// the live log to copy 1 and each copy `i < keep` to copy `i + 1`, drops copy
/// `keep`, and leaves copies numbered above `keep` alone; with `keep == 0` it
/// only empties the live log.
pub proof fn law_rotation_shifts_copies<F>(files: Map<u32, F>, keep: u32, empty: F)
    ensures
        ({
            let after = apply_steps(files, rotation_plan(keep), empty);
            if keep == 0 {
                after == (if files.dom().contains(0) {
                    files.insert(0, empty)
                } else {
                    files
                })
            } else {
                &&& !after.dom().contains(0)
                &&& forall|i: u32|
                    1 <= i <= keep ==> (#[trigger] after.dom().contains(i) == files.dom().contains(
                        (i - 1) as u32,
                    ) && (files.dom().contains((i - 1) as u32) ==> after[i] == files[(i
                        - 1) as u32]))
                &&& forall|i: u32|
                    i > keep ==> (#[trigger] after.dom().contains(i) == files.dom().contains(i) && (
                    files.dom().contains(i) ==> after[i] == files[i]))
            }
        }),
{
    let plan = rotation_plan(keep);
    if keep == 0 {
        assert(plan.drop_last() =~= Seq::<RotateStep>::empty());
        assert(apply_steps(files, plan.drop_last(), empty) == files);
    } else {
        lemma_rotation_prefix(files, keep, keep + 1, empty);
        assert(plan.take(keep + 1) =~= plan);
        let after = apply_steps(files, plan, empty);
        assert(partly_rotated(files, after, keep, keep + 1));
        assert(!after.dom().contains(0u32));
        assert forall|i: u32| 1 <= i <= keep implies (#[trigger] after.dom().contains(i)
            == files.dom().contains((i - 1) as u32) && (files.dom().contains((i - 1) as u32)
            ==> after[i] == files[(i - 1) as u32])) by {}
        assert forall|i: u32| i > keep implies (#[trigger] after.dom().contains(i)
            == files.dom().contains(i) && (files.dom().contains(i) ==> after[i] == files[i])) by {}
    }
}

} // verus!
