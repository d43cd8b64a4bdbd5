//! Keeping track of commits that a rebase rewrites.

use vstd::prelude::*;
use vstd::map::*;
use vstd::string::StringSliceAdditionalSpecFns;
use crate::bytes::{append_hex, append_text, copy_bytes, hex};
use crate::object::ObjectId;

verus! {

/// One step of a rebase.
#[derive(Debug, PartialEq, Eq)]
pub enum RebaseStep {
    /// Put the commit on top of what came before, with a new message if one
    /// is given.
    Pick { commit_id: ObjectId, new_message: Option<Vec<u8>> },
    /// Fold the commit into the commit of the step before.
    SquashIntoPreceding { commit_id: ObjectId, new_message: Option<Vec<u8>> },
    /// Point the reference of this name at the commit of the step before.
    Reference(Vec<u8>),
}

/// A `RebaseStep` as plain values.
pub enum RebaseStepView {
    Pick { commit_id: ObjectId, new_message: Option<Seq<u8>> },
    SquashIntoPreceding { commit_id: ObjectId, new_message: Option<Seq<u8>> },
    Reference(Seq<u8>),
}

/// The message as plain values.
pub open spec fn message_view(message: Option<Vec<u8>>) -> Option<Seq<u8>> {
    match message {
        Some(message) => Some(message@),
        None => None,
    }
}

impl View for RebaseStep {
    type V = RebaseStepView;

    open spec fn view(&self) -> RebaseStepView {
        match self {
            RebaseStep::Pick { commit_id, new_message } => RebaseStepView::Pick {
                commit_id: *commit_id,
                new_message: message_view(*new_message),
            },
            RebaseStep::SquashIntoPreceding {
                commit_id,
                new_message,
            } => RebaseStepView::SquashIntoPreceding {
                commit_id: *commit_id,
                new_message: message_view(*new_message),
            },
            RebaseStep::Reference(name) => RebaseStepView::Reference(name@),
        }
    }
}

impl RebaseStep {
    /// The commit that the step works on; a step that sets a reference has
    /// none.
    pub fn commit_id(&self) -> (r: Option<ObjectId>)
        ensures
            r == self@.commit_id(),
    {
        match self {
            RebaseStep::Pick { commit_id, .. } => Some(*commit_id),
            RebaseStep::SquashIntoPreceding { commit_id, .. } => Some(*commit_id),
            RebaseStep::Reference(_) => None,
        }
    }
}

impl RebaseStepView {
    /// The commit that the step works on.
    pub open spec fn commit_id(self) -> Option<ObjectId> {
        match self {
            RebaseStepView::Pick { commit_id, .. } => Some(commit_id),
            RebaseStepView::SquashIntoPreceding { commit_id, .. } => Some(commit_id),
            RebaseStepView::Reference(_) => None,
        }
    }

    /// The step picks the commit `target`.
    pub open spec fn picks(self, target: ObjectId) -> bool {
        self matches RebaseStepView::Pick { commit_id, .. } && commit_id == target
    }

    /// The step, picking `replacement` where it picked `target`.
    pub open spec fn retargeted(self, target: ObjectId, replacement: ObjectId) -> RebaseStepView {
        match self {
            RebaseStepView::Pick { commit_id, new_message } => if commit_id == target {
                RebaseStepView::Pick { commit_id: replacement, new_message }
            } else {
                self
            },
            _ => self,
        }
    }
}

/// The steps as plain values.
pub open spec fn step_views(steps: Seq<RebaseStep>) -> Seq<RebaseStepView> {
    steps.map_values(|step: RebaseStep| step@)
}

/// Some step of `steps` picks the commit `target`.
pub open spec fn some_step_picks(steps: Seq<RebaseStepView>, target: ObjectId) -> bool {
    exists|i: int| 0 <= i < steps.len() && (#[trigger] steps[i]).picks(target)
}

/// No step picks the commit that was to be replaced.
#[derive(Clone, Copy, Debug, PartialEq, Eq)]
pub struct StepNotFound {
    /// The commit that no step picks.
    pub target_commit_id: ObjectId,
    /// The commit that was to take its place.
    pub replacement_commit_id: ObjectId,
}

impl StepNotFound {
    /// The error in words; it names both commits.
    pub fn message(&self) -> (r: Vec<u8>)
        ensures
            r@ == "Failed to replace pick step ".spec_bytes() + hex(self.target_commit_id.bytes@)
                + " with ".spec_bytes() + hex(self.replacement_commit_id.bytes@),
    {
        let mut out: Vec<u8> = Vec::new();
        append_text(&mut out, "Failed to replace pick step ");
        append_hex(&mut out, self.target_commit_id.bytes.as_slice());
        append_text(&mut out, " with ");
        append_hex(&mut out, self.replacement_commit_id.bytes.as_slice());
        assert(out@ =~= "Failed to replace pick step ".spec_bytes() + hex(
            self.target_commit_id.bytes@,
        ) + " with ".spec_bytes() + hex(self.replacement_commit_id.bytes@));
        out
    }
}

/// Makes every step that picks `target_commit_id` pick
/// `replacement_commit_id` instead. All other steps stay as they are, and so
/// does the message of a step that is changed.
///
/// The call fails where no step picks `target_commit_id`; the steps are then
/// unchanged, and the error names both commits.
pub fn replace_pick_with_commit(
    steps: &mut Vec<RebaseStep>,
    target_commit_id: ObjectId,
    replacement_commit_id: ObjectId,
) -> (r: Result<(), StepNotFound>)
    ensures
        step_views(final(steps)@) == step_views(old(steps)@).map_values(
            |step: RebaseStepView| step.retargeted(target_commit_id, replacement_commit_id),
        ),
        r is Ok <==> some_step_picks(step_views(old(steps)@), target_commit_id),
        r matches Err(e) ==> e == (StepNotFound { target_commit_id, replacement_commit_id }),
{
    let ghost before = step_views(steps@);
    let ghost retarget = |step: RebaseStepView|
        step.retargeted(target_commit_id, replacement_commit_id);
    let mut found = false;
    let mut i: usize = 0;
    while i < steps.len()
        invariant
            i <= steps.len(),
            before == step_views(old(steps)@),
            retarget == |step: RebaseStepView|
                step.retargeted(target_commit_id, replacement_commit_id),
            steps@.len() == before.len(),
            forall|k: int| 0 <= k < i ==> (#[trigger] steps@[k])@ == retarget(before[k]),
            forall|k: int| i <= k < steps@.len() ==> (#[trigger] steps@[k])@ == before[k],
            found <==> exists|k: int| 0 <= k < i && (#[trigger] before[k]).picks(target_commit_id),
        decreases steps.len() - i,
    {
        let replaced = match &steps[i] {
            RebaseStep::Pick { commit_id, new_message } => {
                if *commit_id == target_commit_id {
                    Some(
                        RebaseStep::Pick {
                            commit_id: replacement_commit_id,
                            new_message: match new_message {
                                Some(message) => Some(copy_bytes(message)),
                                None => None,
                            },
                        },
                    )
                } else {
                    None
                }
            },
            _ => None,
        };
        proof {
            assert(before[i as int] == steps@[i as int]@);
        }
        if let Some(step) = replaced {
            steps.set(i, step);
            found = true;
        }
        i += 1;
    }
    assert(step_views(steps@) =~= before.map_values(retarget));
    if found {
        Ok(())
    } else {
        proof {
            assert forall|k: int| 0 <= k < before.len() implies steps@[k]@ == old(steps)@[k]@ by {
                assert(!before[k].picks(target_commit_id));
            }
        }
        Err(StepNotFound { target_commit_id, replacement_commit_id })
    }
}

/// What a rebase brought about.
#[derive(Debug, PartialEq, Eq)]
pub struct RebaseOutput {
    /// For each commit that the rebase went over: the base it was put on, if
    /// any, the commit as it was, and the commit as it is now.
    pub commit_mapping: Vec<(Option<ObjectId>, ObjectId, ObjectId)>,
}

/// The map that holds each pair of `pairs` whose two commits differ, a later
/// pair taking the place of an earlier one for the same commit.
pub open spec fn with_changes(map: Map<ObjectId, ObjectId>, pairs: Seq<(ObjectId, ObjectId)>)
    -> Map<ObjectId, ObjectId>
    decreases pairs.len(),
{
    if pairs.len() == 0 {
        map
    } else {
        let front = with_changes(map, pairs.drop_last());
        let (old, new) = pairs.last();
        if old != new {
            front.insert(old, new)
        } else {
            front
        }
    }
}

/// The commit as it was and the commit as it is now, of each entry.
pub open spec fn rewritten(engine: Seq<(Option<ObjectId>, ObjectId, ObjectId)>) -> Seq<
    (ObjectId, ObjectId),
> {
    engine.map_values(|entry: (Option<ObjectId>, ObjectId, ObjectId)| (entry.1, entry.2))
}

/// The commits that changed, by what the rebase reports and what the caller
/// overrides: the report first, the overrides on top of it.
pub open spec fn spec_rebase_mapping(
    engine: Seq<(Option<ObjectId>, ObjectId, ObjectId)>,
    overrides: Seq<(ObjectId, ObjectId)>,
) -> Map<ObjectId, ObjectId> {
    with_changes(with_changes(Map::empty(), rewritten(engine)), overrides)
}

/// What the last pair of `pairs` that changes `commit` turns it into.
pub open spec fn last_change_of(pairs: Seq<(ObjectId, ObjectId)>, commit: ObjectId) -> Option<
    ObjectId,
>
    decreases pairs.len(),
{
    if pairs.len() == 0 {
        None
    } else {
        let (old, new) = pairs.last();
        if old == commit && new != commit {
            Some(new)
        } else {
            last_change_of(pairs.drop_last(), commit)
        }
    }
}

/// The map from each commit that changed to what it became. No commit is
/// mapped to itself.
#[derive(Debug)]
pub struct CommitMapping {
    entries: Vec<(ObjectId, ObjectId)>,
}

/// The map that holds the pairs, a later pair taking the place of an earlier
/// one for the same commit.
pub open spec fn map_of(pairs: Seq<(ObjectId, ObjectId)>) -> Map<ObjectId, ObjectId>
    decreases pairs.len(),
{
    if pairs.len() == 0 {
        Map::empty()
    } else {
        map_of(pairs.drop_last()).insert(pairs.last().0, pairs.last().1)
    }
}

/// No commit is the first of two pairs.
pub open spec fn distinct_keys(pairs: Seq<(ObjectId, ObjectId)>) -> bool {
    forall|i: int, j: int|
        0 <= i < j < pairs.len() ==> (#[trigger] pairs[i]).0 != (#[trigger] pairs[j]).0
}

/// Pairs with distinct first commits make a map with one entry for each pair.
proof fn lemma_map_of(pairs: Seq<(ObjectId, ObjectId)>)
    requires
        distinct_keys(pairs),
    ensures
        map_of(pairs).dom().finite(),
        map_of(pairs).dom().len() == pairs.len(),
        forall|i: int|
            0 <= i < pairs.len() ==> map_of(pairs).dom().contains((#[trigger] pairs[i]).0)
                && map_of(pairs)[pairs[i].0] == pairs[i].1,
        forall|key: ObjectId|
            map_of(pairs).dom().contains(key) ==> exists|i: int|
                0 <= i < pairs.len() && (#[trigger] pairs[i]).0 == key,
    decreases pairs.len(),
{
    if pairs.len() > 0 {
        let front = pairs.drop_last();
        lemma_map_of(front);
        let last = pairs.last();
        assert(!map_of(front).dom().contains(last.0)) by {
            if map_of(front).dom().contains(last.0) {
                let i = choose|i: int| 0 <= i < front.len() && (#[trigger] front[i]).0 == last.0;
                assert(pairs[i].0 == pairs[pairs.len() - 1].0);
            }
        }
        assert forall|i: int| 0 <= i < pairs.len() implies map_of(pairs).dom().contains(
            (#[trigger] pairs[i]).0,
        ) && map_of(pairs)[pairs[i].0] == pairs[i].1 by {
            if i < front.len() {
                assert(front[i] == pairs[i]);
                assert(pairs[i].0 != pairs[pairs.len() - 1].0);
            }
        }
        assert forall|key: ObjectId| map_of(pairs).dom().contains(key) implies exists|i: int|
            0 <= i < pairs.len() && (#[trigger] pairs[i]).0 == key by {
            if key == last.0 {
                assert(pairs[pairs.len() - 1].0 == key);
            } else {
                let i = choose|i: int| 0 <= i < front.len() && (#[trigger] front[i]).0 == key;
                assert(pairs[i].0 == key);
            }
        }
    }
}

impl View for CommitMapping {
    type V = Map<ObjectId, ObjectId>;

    closed spec fn view(&self) -> Map<ObjectId, ObjectId> {
        map_of(self.entries@)
    }
}

impl CommitMapping {
    #[verifier::type_invariant]
    spec fn well_formed(self) -> bool {
        &&& distinct_keys(self.entries@)
        &&& forall|i: int|
            0 <= i < self.entries@.len() ==> (#[trigger] self.entries@[i]).0
                != self.entries@[i].1
    }

    /// A mapping without entries.
    pub fn new() -> (r: CommitMapping)
        ensures
            r@ == Map::<ObjectId, ObjectId>::empty(),
    {
        CommitMapping { entries: Vec::new() }
    }

    /// The place of the entry for `commit`, or the number of entries where
    /// there is none.
    fn find(&self, commit: &ObjectId) -> (at: usize)
        ensures
            at <= self.entries@.len(),
            at < self.entries@.len() ==> self.entries@[at as int].0 == *commit,
            at == self.entries@.len() ==> !self@.dom().contains(*commit),
    {
        proof {
            use_type_invariant(self);
            lemma_map_of(self.entries@);
        }
        let mut at: usize = 0;
        while at < self.entries.len()
            invariant
                at <= self.entries@.len(),
                forall|k: int| 0 <= k < at ==> (#[trigger] self.entries@[k]).0 != *commit,
            decreases self.entries.len() - at,
        {
            if self.entries[at].0 == *commit {
                return at;
            }
            at += 1;
        }
        at
    }

    /// The mapping that also records that `was` became `now`, in place of
    /// what was recorded for `was` before. A commit that became itself has
    /// not changed: nothing is recorded for it, and the mapping stays as it is.
    pub fn record(self, was: ObjectId, now: ObjectId) -> (r: CommitMapping)
        ensures
            r@ == if was != now {
                self@.insert(was, now)
            } else {
                self@
            },
    {
        if was == now {
            return self;
        }
        proof {
            use_type_invariant(&self);
            lemma_map_of(self.entries@);
        }
        let at = self.find(&was);
        let ghost before = self.entries@;
        let CommitMapping { mut entries } = self;
        if at < entries.len() {
            entries.set(at, (was, now));
        } else {
            entries.push((was, now));
        }
        proof {
            let after = entries@;
            assert(distinct_keys(after)) by {
                assert forall|i: int, j: int| 0 <= i < j < after.len() implies (
                #[trigger] after[i]).0 != (#[trigger] after[j]).0 by {
                    if j < before.len() {
                        assert(before[i].0 != before[j].0);
                    } else {
                        assert(before[i].0 != was);
                    }
                }
            }
            lemma_map_of(after);
            let target = map_of(before).insert(was, now);
            assert_maps_equal!(map_of(after), target, key => {
                if target.dom().contains(key) {
                    if key == was {
                        if at < before.len() {
                            assert(after[at as int].0 == was);
                        } else {
                            assert(after[after.len() - 1].0 == was);
                        }
                    } else {
                        let i = choose|i: int|
                            0 <= i < before.len() && (#[trigger] before[i]).0 == key;
                        assert(after[i] == before[i]);
                    }
                }
                if map_of(after).dom().contains(key) {
                    let i = choose|i: int| 0 <= i < after.len() && (#[trigger] after[i]).0 == key;
                    if key != was {
                        assert(before[i] == after[i]);
                    }
                }
            });
        }
        CommitMapping { entries }
    }

    /// What `commit` became, if it changed. It never became itself.
    pub fn get(&self, commit: &ObjectId) -> (r: Option<ObjectId>)
        ensures
            r == if self@.dom().contains(*commit) {
                Some(self@[*commit])
            } else {
                None
            },
            r != Some(*commit),
    {
        proof {
            use_type_invariant(self);
            lemma_map_of(self.entries@);
        }
        let at = self.find(commit);
        if at < self.entries.len() {
            Some(self.entries[at].1)
        } else {
            None
        }
    }

    /// The number of commits that changed.
    pub fn len(&self) -> (r: usize)
        ensures
            self@.dom().finite(),
            r == self@.dom().len(),
    {
        proof {
            use_type_invariant(self);
            lemma_map_of(self.entries@);
        }
        self.entries.len()
    }

    /// Whether no commit changed.
    pub fn is_empty(&self) -> (r: bool)
        ensures
            r == (self@ == Map::<ObjectId, ObjectId>::empty()),
    {
        proof {
            use_type_invariant(self);
            lemma_map_of(self.entries@);
            if self.entries@.len() > 0 {
                assert(self@.dom().contains(self.entries@[0].0));
            } else {
                assert(self@ =~= Map::<ObjectId, ObjectId>::empty());
            }
        }
        self.entries.len() == 0
    }

    /// The commits that changed, each with what it became, each once.
    pub fn pairs(&self) -> (r: Vec<(ObjectId, ObjectId)>)
        ensures
            distinct_keys(r@),
            map_of(r@) == self@,
            r@.len() == self@.dom().len(),
            forall|i: int| 0 <= i < r@.len() ==> (#[trigger] r@[i]).0 != r@[i].1,
    {
        proof {
            use_type_invariant(self);
            lemma_map_of(self.entries@);
        }
        let mut out: Vec<(ObjectId, ObjectId)> = Vec::new();
        let mut i: usize = 0;
        while i < self.entries.len()
            invariant
                i <= self.entries@.len(),
                out@ == self.entries@.take(i as int),
            decreases self.entries.len() - i,
        {
            out.push(self.entries[i]);
            assert(self.entries@.take(i + 1) =~= self.entries@.take(i as int).push(
                self.entries@[i as int],
            ));
            i += 1;
        }
        assert(self.entries@.take(self.entries@.len() as int) =~= self.entries@);
        out
    }
}

/// A map made by `with_changes` maps no commit to itself, if the map it
/// started from did not.
pub proof fn lemma_with_changes_has_no_identity(
    map: Map<ObjectId, ObjectId>,
    pairs: Seq<(ObjectId, ObjectId)>,
)
    requires
        forall|commit: ObjectId| map.dom().contains(commit) ==> #[trigger] map[commit] != commit,
    ensures
        forall|commit: ObjectId|
            with_changes(map, pairs).dom().contains(commit) ==> #[trigger] with_changes(
                map,
                pairs,
            )[commit] != commit,
    decreases pairs.len(),
{
    if pairs.len() > 0 {
        lemma_with_changes_has_no_identity(map, pairs.drop_last());
        let front = with_changes(map, pairs.drop_last());
        let all = with_changes(map, pairs);
        assert forall|commit: ObjectId| all.dom().contains(commit) implies #[trigger] all[commit]
            != commit by {
            if commit != pairs.last().0 {
                assert(front.dom().contains(commit));
                assert(all[commit] == front[commit]);
            }
        }
    }
}

/// The mapping holds no commit that is mapped to itself, whatever the rebase
/// reports and whatever the caller overrides.
pub proof fn lemma_rebase_mapping_has_no_identity(
    engine: Seq<(Option<ObjectId>, ObjectId, ObjectId)>,
    overrides: Seq<(ObjectId, ObjectId)>,
)
    ensures
        forall|commit: ObjectId|
            spec_rebase_mapping(engine, overrides).dom().contains(commit)
                ==> #[trigger] spec_rebase_mapping(engine, overrides)[commit] != commit,
{
    lemma_with_changes_has_no_identity(Map::empty(), rewritten(engine));
    lemma_with_changes_has_no_identity(
        with_changes(Map::empty(), rewritten(engine)),
        overrides,
    );
}

/// What a map made by `with_changes` holds for a commit: what the last pair
/// that changes the commit says, else what the map held before.
pub proof fn lemma_with_changes_lookup(
    map: Map<ObjectId, ObjectId>,
    pairs: Seq<(ObjectId, ObjectId)>,
    commit: ObjectId,
)
    ensures
        match last_change_of(pairs, commit) {
            Some(new) => with_changes(map, pairs).dom().contains(commit) && with_changes(
                map,
                pairs,
            )[commit] == new,
            None => with_changes(map, pairs).dom().contains(commit) == map.dom().contains(commit)
                && (map.dom().contains(commit) ==> with_changes(map, pairs)[commit]
                == map[commit]),
        },
    decreases pairs.len(),
{
    if pairs.len() > 0 {
        lemma_with_changes_lookup(map, pairs.drop_last(), commit);
    }
}

/// The mapping holds, for a commit, what the last override that changes it
/// says; where no override changes it, what the last entry of the report that
/// changes it says; else nothing.
pub proof fn lemma_overrides_take_precedence(
    engine: Seq<(Option<ObjectId>, ObjectId, ObjectId)>,
    overrides: Seq<(ObjectId, ObjectId)>,
    commit: ObjectId,
)
    ensures
        match last_change_of(overrides, commit) {
            Some(new) => spec_rebase_mapping(engine, overrides).dom().contains(commit)
                && spec_rebase_mapping(engine, overrides)[commit] == new,
            None => match last_change_of(rewritten(engine), commit) {
                Some(new) => spec_rebase_mapping(engine, overrides).dom().contains(commit)
                    && spec_rebase_mapping(engine, overrides)[commit] == new,
                None => !spec_rebase_mapping(engine, overrides).dom().contains(commit),
            },
        },
{
    lemma_with_changes_lookup(Map::empty(), rewritten(engine), commit);
    lemma_with_changes_lookup(with_changes(Map::empty(), rewritten(engine)), overrides, commit);
}

/// Returns the commits that a rebase changed, each with what it became.
///
/// An entry of the report counts where the commit as it was differs from the
/// commit as it is now; so does an override, whose first commit is the one as
/// it was. The overrides are laid over the report: for a commit named by
/// both, the override stands. No commit is mapped to itself.
pub fn rebase_mapping_with_overrides(
    rebase_output: &RebaseOutput,
    overrides: Vec<(ObjectId, ObjectId)>,
) -> (mapping: CommitMapping)
    ensures
        mapping@ == spec_rebase_mapping(rebase_output.commit_mapping@, overrides@),
        forall|commit: ObjectId|
            mapping@.dom().contains(commit) ==> #[trigger] mapping@[commit] != commit,
{
    let ghost engine = rewritten(rebase_output.commit_mapping@);
    let mut mapping = CommitMapping::new();
    let mut i: usize = 0;
    assert(engine.take(0) =~= Seq::<(ObjectId, ObjectId)>::empty());
    while i < rebase_output.commit_mapping.len()
        invariant
            i <= rebase_output.commit_mapping.len(),
            engine == rewritten(rebase_output.commit_mapping@),
            mapping@ == with_changes(Map::empty(), engine.take(i as int)),
        decreases rebase_output.commit_mapping.len() - i,
    {
        let (_, was, now) = rebase_output.commit_mapping[i];
        proof {
            assert(engine.take(i + 1).drop_last() =~= engine.take(i as int));
            assert(engine.take(i + 1).last() == (was, now));
        }
        mapping = mapping.record(was, now);
        i += 1;
    }
    assert(engine.take(engine.len() as int) =~= engine);
    let ghost reported = mapping@;
    assert(reported == with_changes(Map::empty(), engine));
    let mut j: usize = 0;
    assert(overrides@.take(0) =~= Seq::<(ObjectId, ObjectId)>::empty());
    while j < overrides.len()
        invariant
            j <= overrides.len(),
            reported == with_changes(Map::empty(), rewritten(rebase_output.commit_mapping@)),
            mapping@ == with_changes(reported, overrides@.take(j as int)),
        decreases overrides.len() - j,
    {
        let (was, now) = overrides[j];
        proof {
            assert(overrides@.take(j + 1).drop_last() =~= overrides@.take(j as int));
            assert(overrides@.take(j + 1).last() == (was, now));
        }
        mapping = mapping.record(was, now);
        j += 1;
    }
    proof {
        assert(overrides@.take(overrides@.len() as int) =~= overrides@);
        assert(mapping@ == spec_rebase_mapping(rebase_output.commit_mapping@, overrides@));
        lemma_rebase_mapping_has_no_identity(rebase_output.commit_mapping@, overrides@);
    }
    mapping
}

} // verus!
