//! The organizer and the reconciler. Both work over a [`FileList`]; the
//! organizer computes, for every entry, the destination path and what is to
//! be done with it, and the reconciler decides which destination files are
//! stale. Carrying the decisions out against the filesystem is the caller's
//! part.
use vstd::prelude::*;
use vstd::string::*;
use vstd::pervasive::VecAdditionalExecFns;

use crate::paths::contains_sidecar;
use crate::paths::contains_sidecar_exec;
use crate::paths::dated_file_entry;
use crate::paths::dated_file_target;
use crate::paths::file_name;
use crate::paths::is_file_like;
use crate::paths::name_of;
use crate::paths::replace_first;
use crate::paths::splice_safe;
use crate::paths::lemma_transform_dated_file;
use crate::paths::to_uppercase_str;
use crate::paths::transform_path;
use crate::paths::transform_spec;
use crate::paths::upper_of;

verus! {

/// The list of files for organizing: an ordered sequence of paths rooted at
/// one directory, the root itself first. Taken as an argument by
/// [`organize`] and [`lean`].
pub struct FileList {
    list: Vec<String>,
}

impl View for FileList {
    type V = Seq<Seq<char>>;

    closed spec fn view(&self) -> Seq<Seq<char>> {
        self.list.deep_view()
    }
}

impl FileList {
    /// A list holding the given paths, in order.
    pub fn from_paths(paths: Vec<String>) -> (r: FileList)
        ensures
            r@ == paths.deep_view(),
    {
        FileList { list: paths }
    }

    /// How many paths the list holds.
    pub fn len(&self) -> (n: usize)
        ensures
            n == self@.len(),
    {
        self.list.len()
    }

    /// The paths themselves, in order.
    pub fn paths(&self) -> (r: &Vec<String>)
        ensures
            r.deep_view() == self@,
    {
        &self.list
    }
}

/// One entry's part of the organize plan: where the entry came from, where
/// it goes, and how it is classified.
pub struct OrganizeStep {
    /// The path the entry had in the source tree: what a copy reads.
    pub from: String,
    /// The computed destination path: what is created or written.
    pub to: String,
    /// File-like entries are to be copied; directory-like ones are to be
    /// created as directories together with their missing ancestors.
    pub file_like: bool,
    /// The destination path contains `.aae`: a phone-generated edit-metadata
    /// sidecar file, reported to the operator.
    pub sidecar: bool,
}

/// The organize plan: one step per entry of the source list, in order, and
/// the overwrite policy the steps are to be carried out under.
pub struct OrganizePlan {
    pub steps: Vec<OrganizeStep>,
    pub override_present: bool,
}

/// The step computed for `entry`: destination path, classification, and the
/// sidecar report, all per the path transform.
pub open spec fn step_ok(
    step: OrganizeStep,
    entry: Seq<char>,
    source: Seq<char>,
    destination: Seq<char>,
) -> bool {
    &&& step.from@ == entry
    &&& step.to@ == transform_spec(entry, source, destination)
    &&& step.file_like == is_file_like(entry, source, destination)
    &&& step.sidecar == contains_sidecar(transform_spec(entry, source, destination))
}

/// The copy policy: a file is copied unless the destination already holds it
/// and overriding is off — skip existing, never silently overwrite.
pub open spec fn should_copy_spec(override_present: bool, present_at_destination: bool) -> bool {
    override_present || !present_at_destination
}

/// Whether a file-like step is to be copied, given whether its destination
/// already exists.
pub fn should_copy(override_present: bool, present_at_destination: bool) -> (b: bool)
    ensures
        b == should_copy_spec(override_present, present_at_destination),
{
    override_present || !present_at_destination
}

/// Computes the plan that organizes the source tree under the destination:
/// one step per entry, rewriting the list's own paths to their destination
/// form as it goes. The caller carries the steps out in order: it creates
/// the directory-like destinations, copies the file-like ones per
/// [`should_copy`], and reports the sidecar paths.
pub fn organize(
    file_list: &mut FileList,
    override_present: bool,
    source: &str,
    destination: &str,
) -> (plan: OrganizePlan)
    requires
        forall|i: int|
            0 <= i < old(file_list)@.len() ==> splice_safe(
                replace_first(old(file_list)@[i], source@, destination@),
                destination@.len() as int,
            ),
    ensures
        final(file_list)@.len() == old(file_list)@.len(),
        forall|i: int|
            0 <= i < old(file_list)@.len() ==> final(file_list)@[i] == transform_spec(
                old(file_list)@[i],
                source@,
                destination@,
            ),
        plan.override_present == override_present,
        plan.steps@.len() == old(file_list)@.len(),
        forall|i: int|
            0 <= i < old(file_list)@.len() ==> step_ok(
                #[trigger] plan.steps@[i],
                old(file_list)@[i],
                source@,
                destination@,
            ),
{
    let n = file_list.list.len();
    let mut steps: Vec<OrganizeStep> = Vec::new();
    let mut i: usize = 0;
    while i < n
        invariant
            0 <= i <= n,
            n == file_list.list@.len(),
            file_list@.len() == old(file_list)@.len(),
            n == old(file_list)@.len(),
            forall|j: int| i <= j < n ==> file_list@[j] == old(file_list)@[j],
            forall|j: int|
                0 <= j < n ==> splice_safe(
                    replace_first(old(file_list)@[j], source@, destination@),
                    destination@.len() as int,
                ),
            forall|j: int|
                0 <= j < i ==> file_list@[j] == transform_spec(
                    old(file_list)@[j],
                    source@,
                    destination@,
                ),
            steps@.len() == i,
            forall|j: int|
                0 <= j < i ==> step_ok(
                    #[trigger] steps@[j],
                    old(file_list)@[j],
                    source@,
                    destination@,
                ),
        decreases n - i,
    {
        let entry = file_list.list[i].clone();
        proof {
            assert(entry@ == file_list@[i as int]);
        }
        let (to, file_like) = transform_path(entry.as_str(), source, destination);
        let sidecar = contains_sidecar_exec(to.as_str());
        let ghost prev = file_list@;
        file_list.list.set(i, to.clone());
        proof {
            assert(forall|j: int| 0 <= j < n && j != i ==> file_list@[j] == prev[j]);
            assert(file_list@[i as int] == to@);
        }
        steps.push(OrganizeStep { from: entry, to, file_like, sidecar });
        proof {
            assert forall|j: int| 0 <= j < i implies file_list@[j] == transform_spec(
                old(file_list)@[j],
                source@,
                destination@,
            ) by {
                assert(file_list@[j] == prev[j]);
                assert(prev[j] == transform_spec(old(file_list)@[j], source@, destination@));
            }
        }
        i = i + 1;
    }
    OrganizePlan { steps, override_present }
}

/// A source file following the backup convention gets exactly one step of
/// the plan, a copy to the canonical destination: for the entry
/// `SOURCE/YYYYMMff/NAME.EXT` the step is file-like and its destination is
/// `DESTINATION/YYYY/MM/NAME.ext`, the extension lowercased. `step_ok` is
/// what [`organize`] ensures of the step at the entry's position.
pub proof fn lemma_dated_file_step(
    step: OrganizeStep,
    source: Seq<char>,
    destination: Seq<char>,
    seg: Seq<char>,
    stem: Seq<char>,
    ext: Seq<char>,
)
    requires
        step_ok(step, dated_file_entry(source, seg, stem, ext), source, destination),
        seg.len() == 8,
        ext.len() > 0,
        forall|i: int| 0 <= i < ext.len() ==> ext[i] != '.' && ext[i] != '/',
    ensures
        step.to@ == dated_file_target(destination, seg, stem, ext),
        step.file_like,
{
    lemma_transform_dated_file(source, destination, seg, stem, ext);
}

/// The effect of carrying one plan step out on the destination tree, viewed
/// as a map from file path to content: a file-like step writes the source
/// content at its destination unless the destination already holds the file
/// and overriding is off; a directory-like step changes no file.
pub open spec fn step_outcome<A>(
    step: OrganizeStep,
    override_present: bool,
    dest: Map<Seq<char>, A>,
    source_content: Map<Seq<char>, A>,
) -> Map<Seq<char>, A> {
    if step.file_like && should_copy_spec(override_present, dest.dom().contains(step.to@)) {
        dest.insert(step.to@, source_content[step.from@])
    } else {
        dest
    }
}

/// The effect of carrying a whole plan out, step by step, in order.
pub open spec fn plan_outcome<A>(
    steps: Seq<OrganizeStep>,
    override_present: bool,
    dest: Map<Seq<char>, A>,
    source_content: Map<Seq<char>, A>,
) -> Map<Seq<char>, A>
    decreases steps.len(),
{
    if steps.len() == 0 {
        dest
    } else {
        plan_outcome(
            steps.skip(1),
            override_present,
            step_outcome(steps[0], override_present, dest, source_content),
            source_content,
        )
    }
}

/// Carrying a plan out never removes a file from the destination.
proof fn lemma_plan_outcome_keeps<A>(
    steps: Seq<OrganizeStep>,
    override_present: bool,
    dest: Map<Seq<char>, A>,
    source_content: Map<Seq<char>, A>,
    p: Seq<char>,
)
    requires
        dest.dom().contains(p),
    ensures
        plan_outcome(steps, override_present, dest, source_content).dom().contains(p),
    decreases steps.len(),
{
    if steps.len() > 0 {
        lemma_plan_outcome_keeps(
            steps.skip(1),
            override_present,
            step_outcome(steps[0], override_present, dest, source_content),
            source_content,
            p,
        );
    }
}

/// After a plan is carried out, every file-like destination it names is
/// present.
proof fn lemma_plan_outcome_covers<A>(
    steps: Seq<OrganizeStep>,
    override_present: bool,
    dest: Map<Seq<char>, A>,
    source_content: Map<Seq<char>, A>,
    i: int,
)
    requires
        0 <= i < steps.len(),
        steps[i].file_like,
    ensures
        plan_outcome(steps, override_present, dest, source_content).dom().contains(steps[i].to@),
    decreases steps.len(),
{
    let after = step_outcome(steps[0], override_present, dest, source_content);
    if i == 0 {
        lemma_plan_outcome_keeps(
            steps.skip(1),
            override_present,
            after,
            source_content,
            steps[0].to@,
        );
    } else {
        assert(steps.skip(1)[i - 1] == steps[i]);
        lemma_plan_outcome_covers(steps.skip(1), override_present, after, source_content, i - 1);
    }
}

/// A plan whose file-like destinations are all present already changes
/// nothing when overriding is off.
proof fn lemma_plan_outcome_skips_present<A>(
    steps: Seq<OrganizeStep>,
    dest: Map<Seq<char>, A>,
    source_content: Map<Seq<char>, A>,
)
    requires
        forall|i: int|
            0 <= i < steps.len() && (#[trigger] steps[i]).file_like ==> dest.dom().contains(
                steps[i].to@,
            ),
    ensures
        plan_outcome(steps, false, dest, source_content) == dest,
    decreases steps.len(),
{
    if steps.len() > 0 {
        assert(steps[0].file_like ==> dest.dom().contains(steps[0].to@));
        assert(step_outcome(steps[0], false, dest, source_content) == dest);
        assert(forall|i: int|
            0 <= i < steps.skip(1).len() && (#[trigger] steps.skip(1)[i]).file_like
                ==> dest.dom().contains(steps.skip(1)[i].to@)) by {
            assert(forall|i: int|
                0 <= i < steps.skip(1).len() ==> #[trigger] steps.skip(1)[i] == steps[i + 1]);
        }
        lemma_plan_outcome_skips_present(steps.skip(1), dest, source_content);
    }
}

/// Idempotence of organizing: with overriding off, carrying the same plan
/// out a second time leaves the destination tree as the first run left it —
/// every file the plan would write is already there, so every copy is
/// skipped.
pub proof fn lemma_organize_idempotent<A>(
    steps: Seq<OrganizeStep>,
    dest: Map<Seq<char>, A>,
    source_content: Map<Seq<char>, A>,
)
    ensures
        plan_outcome(
            steps,
            false,
            plan_outcome(steps, false, dest, source_content),
            source_content,
        ) == plan_outcome(steps, false, dest, source_content),
{
    let once = plan_outcome(steps, false, dest, source_content);
    assert forall|i: int| 0 <= i < steps.len() && (#[trigger] steps[i]).file_like
        implies once.dom().contains(steps[i].to@) by {
        lemma_plan_outcome_covers(steps, false, dest, source_content, i);
    }
    lemma_plan_outcome_skips_present(steps, once, source_content);
}

/// Override semantics: a file-like step whose destination already holds a
/// file replaces it with the source file's current content when overriding
/// is on, and leaves it untouched when overriding is off.
pub proof fn lemma_override_semantics<A>(
    step: OrganizeStep,
    dest: Map<Seq<char>, A>,
    source_content: Map<Seq<char>, A>,
)
    requires
        step.file_like,
        dest.dom().contains(step.to@),
    ensures
        step_outcome(step, true, dest, source_content) == dest.insert(
            step.to@,
            source_content[step.from@],
        ),
        step_outcome(step, false, dest, source_content) == dest,
{
}

/// The reconciliation failed: the aligned position ran past the end of the
/// source list, so no source entry stands against the destination entry.
#[derive(Debug)]
pub enum LeanError {
    SourceListExhausted,
}

impl LeanError {
    /// The error, in words.
    pub fn message(&self) -> (r: String)
        ensures
            r@ == "Source list exhausted before the destination list"@,
    {
        String::from_str("Source list exhausted before the destination list")
    }
}

/// The reconciliation, from destination position `i` on with `off` deletions
/// made so far: a destination entry whose file name differs (after
/// uppercasing) from the source entry at the aligned position is deleted,
/// and the alignment advances past it; nothing stands against a destination
/// entry once the source list is exhausted.
pub open spec fn lean_from(
    dst: Seq<Seq<char>>,
    src: Seq<Seq<char>>,
    i: int,
    off: int,
) -> Option<Seq<Seq<char>>>
    decreases dst.len() - i,
{
    if i < 0 || i >= dst.len() {
        Some(Seq::empty())
    } else if !(0 <= i - off < src.len()) {
        None
    } else if upper_of(name_of(src[i - off])) != upper_of(name_of(dst[i])) {
        match lean_from(dst, src, i + 1, off + 1) {
            None => None,
            Some(rest) => Some(seq![dst[i]] + rest),
        }
    } else {
        lean_from(dst, src, i + 1, off)
    }
}

/// The destination entries the reconciliation deletes, in order, or nothing
/// when the source list runs out before the destination list.
pub open spec fn lean_spec(dst: Seq<Seq<char>>, src: Seq<Seq<char>>) -> Option<Seq<Seq<char>>> {
    lean_from(dst, src, 0, 0)
}

/// Compares the two lists positionally and returns the destination paths to
/// be deleted as stale, in list order. Both lists must already be filtered
/// to files only, ordered as the organizer paired them; the caller deletes
/// the returned paths from disk.
pub fn lean(destination: &FileList, source: &FileList) -> (r: Result<Vec<String>, LeanError>)
    ensures
        match r {
            Ok(deleted) => lean_spec(destination@, source@) == Some(deleted.deep_view()),
            Err(e) => lean_spec(destination@, source@) is None && e == LeanError::SourceListExhausted,
        },
{
    let dlen = destination.list.len();
    let slen = source.list.len();
    let mut deleted: Vec<String> = Vec::new();
    let mut index: usize = 0;
    let mut offset: usize = 0;
    while index < dlen
        invariant
            0 <= offset <= index <= dlen,
            dlen == destination@.len(),
            slen == source@.len(),
            lean_spec(destination@, source@) == match lean_from(
                destination@,
                source@,
                index as int,
                offset as int,
            ) {
                None => None::<Seq<Seq<char>>>,
                Some(rest) => Some(deleted.deep_view() + rest),
            },
        decreases dlen - index,
    {
        if index - offset >= slen {
            return Err(LeanError::SourceListExhausted);
        }
        let source_name = file_name(source.list[index - offset].as_str());
        let destination_name = file_name(destination.list[index].as_str());
        let source_upper = to_uppercase_str(source_name.as_str());
        let destination_upper = to_uppercase_str(destination_name.as_str());
        if !(source_upper == destination_upper) {
            let ghost before = deleted.deep_view();
            deleted.push(destination.list[index].clone());
            proof {
                assert(deleted.deep_view() =~= before + seq![destination@[index as int]]);
                assert forall|rest: Seq<Seq<char>>|
                    before + (seq![destination@[index as int]] + rest) == deleted.deep_view()
                        + rest by {
                    assert(before + (seq![destination@[index as int]] + rest) =~= deleted.deep_view()
                        + rest);
                }
            }
            offset = offset + 1;
        }
        index = index + 1;
    }
    Ok(deleted)
}

/// Matching positions from `i` on leave the reconciliation empty-handed.
proof fn lemma_lean_from_matching(dst: Seq<Seq<char>>, src: Seq<Seq<char>>, i: int)
    requires
        0 <= i,
        dst.len() <= src.len(),
        forall|j: int|
            0 <= j < dst.len() ==> upper_of(name_of(#[trigger] src[j])) == upper_of(
                name_of(dst[j]),
            ),
    ensures
        lean_from(dst, src, i, 0) == Some(Seq::<Seq<char>>::empty()),
    decreases dst.len() - i,
{
    if i < dst.len() {
        lemma_lean_from_matching(dst, src, i + 1);
    }
}

/// Aligned, matching lists are left untouched: when every destination file
/// name matches the source file name at the same position, case
/// insensitively, the reconciliation deletes nothing.
pub proof fn lemma_lean_matching(dst: Seq<Seq<char>>, src: Seq<Seq<char>>)
    requires
        dst.len() <= src.len(),
        forall|j: int|
            0 <= j < dst.len() ==> upper_of(name_of(#[trigger] src[j])) == upper_of(
                name_of(dst[j]),
            ),
    ensures
        lean_spec(dst, src) == Some(Seq::<Seq<char>>::empty()),
{
    lemma_lean_from_matching(dst, src, 0);
}

} // verus!
