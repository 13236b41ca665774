//! Keeping the database's indexes in step with an index script.
//!
//! The database holds a tracker node with the SHA-256 sum of the script that
//! its indexes were last built from.  When the tracker for the current script
//! is there, nothing is done.  Otherwise all indexes and constraints and the
//! old tracker are dropped, the script's statements are run in one
//! transaction, and a tracker for the current script is created.
//!
//! The database work is the caller's: [`IndexUpdate`] decides, step by step,
//! which query to send next, and the caller reports how it went.  Any failure
//! of the database ends the update with that failure.

use vstd::prelude::*;

use crate::queries::CypherQuery;
use crate::shasum::{get_str_shasum, push_char, spec_shasum};

verus! {

/// Looks for the tracker of the script with the given sum.
pub const CHECK_TRACKER_QUERY: &'static str = "MATCH (metaNode:DbIndexTracker {shaSum: $currentSum}) RETURN metaNode.shaSum AS sum LIMIT 1";

/// Uses `apoc.schema.assert` to drop all indexes and constraints.
pub const DROP_SCHEMA_QUERY: &'static str = "CALL apoc.schema.assert({},{},true) YIELD label, key RETURN *";

/// Deletes every tracker.
pub const DROP_TRACKER_QUERY: &'static str = "MATCH (metaNode:DbIndexTracker) DETACH DELETE metaNode RETURN *";

/// Creates the tracker of the script with the given sum.
pub const CREATE_TRACKER_QUERY: &'static str = "CREATE (metaNode:DbIndexTracker {shaSum: $currentSum}) RETURN metaNode";

/// The name of the parameter that holds the script's sum.
pub const SUM_PARAM: &'static str = "currentSum";

/// The pieces of a text between the separators: the text up to the first
/// separator, then between each separator and the next, then after the last
/// one.  There is always at least one piece.
pub open spec fn split_on(s: Seq<char>, sep: char) -> Seq<Seq<char>>
    decreases s.len(),
{
    if s.len() == 0 {
        seq![Seq::empty()]
    } else {
        let pieces = split_on(s.drop_last(), sep);
        if s.last() == sep {
            pieces.push(Seq::empty())
        } else {
            pieces.update(pieces.len() - 1, pieces.last().push(s.last()))
        }
    }
}

/// The pieces written out with the separator between each two.
pub open spec fn join_with(pieces: Seq<Seq<char>>, sep: char) -> Seq<char>
    decreases pieces.len(),
{
    if pieces.len() == 0 {
        Seq::empty()
    } else if pieces.len() == 1 {
        pieces[0]
    } else {
        join_with(pieces.drop_last(), sep).push(sep) + pieces.last()
    }
}

/// The statements of an index script: the pieces between its semicolons,
/// the empty ones included.
pub fn index_statements(index_script: &str) -> (statements: Vec<String>)
    ensures
        statements@.map_values(|s: String| s@) == split_on(index_script@, ';'),
{
    let mut statements: Vec<String> = Vec::new();
    let mut current = String::new();
    let ghost text = index_script@;
    assert(text.take(0) =~= Seq::<char>::empty());
    for c in it: index_script.chars()
        invariant
            it.seq() == text,
            statements@.map_values(|s: String| s@).push(current@) == split_on(text.take(it.index() as int), ';'),
    {
        let ghost k = it.index() as int;
        let ghost before = statements@.map_values(|s: String| s@).push(current@);
        assert(text.take(k + 1).drop_last() =~= text.take(k));
        assert(text.take(k + 1).last() == c);
        if c == ';' {
            let finished = current;
            current = String::new();
            statements.push(finished);
            assert(statements@.map_values(|s: String| s@).push(current@) =~= before.push(Seq::empty()));
        } else {
            push_char(&mut current, c);
            assert(statements@.map_values(|s: String| s@).push(current@) =~= before.update(
                before.len() - 1,
                before.last().push(c),
            ));
        }
    }
    assert(text.take(text.len() as int) =~= text);
    statements.push(current);
    statements
}

/// Where an index update stands.
#[derive(Clone, Copy, Debug, PartialEq, Eq, Structural)]
pub enum IndexStage {
    /// Waiting to hear whether the tracker of the script is there.
    Checking,
    /// Waiting for the indexes and constraints to be dropped.
    DroppingSchema,
    /// Waiting for the old tracker to be deleted.
    DroppingTracker,
    /// Waiting for the script's statements to be run.
    Reindexing,
    /// Waiting for the new tracker to be created.
    Recording,
    /// Nothing more to do.
    Finished,
    /// Stopped by a failure of the database.
    Aborted,
}

/// What the caller reports after doing the action it was given.
#[derive(Clone, Copy, Debug, PartialEq, Eq, Structural)]
pub enum IndexEvent {
    /// The check returned a row: the tracker of the script is there.
    TrackerFound,
    /// The check returned no row.
    TrackerMissing,
    /// The action was carried out.
    Completed,
    /// The action failed (the database, or reading the check's row, gave an
    /// error).
    Failed,
}

/// What the caller is to do next.
#[derive(Clone, Debug, PartialEq)]
pub enum IndexAction {
    /// Execute the query and report whether it returned a row.
    Check(CypherQuery<String>),
    /// Run the query.
    Run(CypherQuery<String>),
    /// Start a transaction, run each statement in it in order, and commit.
    RunInTransaction(Vec<String>),
    /// The indexes are up to date.
    Done,
    /// Stop and report the failure that was met.
    Abort,
}

/// An update of the indexes to a script.
#[derive(Clone, Debug, PartialEq)]
pub struct IndexUpdate {
    /// The SHA-256 sum of the script, in hexadecimal.
    pub sum: String,
    /// The statements of the script.
    pub statements: Vec<String>,
    /// Where the update stands.
    pub stage: IndexStage,
}

/// Whether a query has the given text and, as its only parameter, the
/// script's sum.
pub open spec fn is_sum_query(q: CypherQuery<String>, text: Seq<char>, sum: Seq<char>) -> bool {
    &&& q.text@ == text
    &&& q.params@.len() == 1
    &&& q.params@[0].0@ == SUM_PARAM@
    &&& q.params@[0].1@ == sum
}

/// Whether a query has the given text and no parameters.
pub open spec fn is_plain_query(q: CypherQuery<String>, text: Seq<char>) -> bool {
    q.text@ == text && q.params@.len() == 0
}

/// Whether an event is one that the stage waits for.
pub open spec fn awaits(stage: IndexStage, event: IndexEvent) -> bool {
    match stage {
        IndexStage::Checking => event != IndexEvent::Completed,
        IndexStage::Finished => false,
        IndexStage::Aborted => false,
        _ => event == IndexEvent::Completed || event == IndexEvent::Failed,
    }
}

/// The stage that follows an event.
pub open spec fn next_stage(stage: IndexStage, event: IndexEvent) -> IndexStage {
    if event == IndexEvent::Failed {
        IndexStage::Aborted
    } else {
        match stage {
        IndexStage::Checking => if event == IndexEvent::TrackerFound {
            IndexStage::Finished
        } else {
            IndexStage::DroppingSchema
        },
        IndexStage::DroppingSchema => IndexStage::DroppingTracker,
        IndexStage::DroppingTracker => IndexStage::Reindexing,
        IndexStage::Reindexing => IndexStage::Recording,
        _ => IndexStage::Finished,
        }
    }
}

/// Whether an action is the one that a stage calls for.
pub open spec fn action_for(stage: IndexStage, action: IndexAction, sum: Seq<char>, statements: Seq<String>) -> bool {
    match stage {
        IndexStage::Checking => action matches IndexAction::Check(q) && is_sum_query(q, CHECK_TRACKER_QUERY@, sum),
        IndexStage::DroppingSchema => action matches IndexAction::Run(q) && is_plain_query(q, DROP_SCHEMA_QUERY@),
        IndexStage::DroppingTracker => action matches IndexAction::Run(q) && is_plain_query(q, DROP_TRACKER_QUERY@),
        IndexStage::Reindexing => action matches IndexAction::RunInTransaction(s) && s@ == statements,
        IndexStage::Recording => action matches IndexAction::Run(q) && is_sum_query(q, CREATE_TRACKER_QUERY@, sum),
        IndexStage::Finished => action is Done,
        IndexStage::Aborted => action is Abort,
    }
}

fn sum_query(text: &str, sum: &String) -> (q: CypherQuery<String>)
    ensures
        is_sum_query(q, text@, sum@),
{
    let q = CypherQuery::new(String::from_str(text));
    let q = q.param(String::from_str(SUM_PARAM), sum.clone());
    assert(q.params@[0].0@ == SUM_PARAM@);
    q
}

fn plain_query(text: &str) -> (q: CypherQuery<String>)
    ensures
        is_plain_query(q, text@),
{
    CypherQuery::new(String::from_str(text))
}

impl IndexUpdate {
    /// Starts an update to the given script: its sum is taken, and the first
    /// action is to check for the tracker with that sum.
    pub fn start(index_script: &str) -> (res: (IndexUpdate, IndexAction))
        ensures
            res.0.sum@ == spec_shasum(index_script),
            res.0.statements@.map_values(|s: String| s@) == split_on(index_script@, ';'),
            res.0.stage == IndexStage::Checking,
            action_for(IndexStage::Checking, res.1, res.0.sum@, res.0.statements@),
    {
        let sum = get_str_shasum(index_script);
        let statements = index_statements(index_script);
        let action = IndexAction::Check(sum_query(CHECK_TRACKER_QUERY, &sum));
        (IndexUpdate { sum, statements, stage: IndexStage::Checking }, action)
    }

    /// Whether the update waits for the given event in its current stage.
    pub fn awaits(&self, event: IndexEvent) -> (b: bool)
        ensures
            b == awaits(self.stage, event),
    {
        match self.stage {
            IndexStage::Checking => event != IndexEvent::Completed,
            IndexStage::Finished => false,
            IndexStage::Aborted => false,
            _ => event == IndexEvent::Completed || event == IndexEvent::Failed,
        }
    }

    /// Takes in how the last action went and gives the next one.
    pub fn step(&mut self, event: IndexEvent) -> (action: IndexAction)
        requires
            awaits(old(self).stage, event),
        ensures
            final(self).sum == old(self).sum,
            final(self).statements == old(self).statements,
            final(self).stage == next_stage(old(self).stage, event),
            action_for(final(self).stage, action, final(self).sum@, final(self).statements@),
    {
        if event == IndexEvent::Failed {
            self.stage = IndexStage::Aborted;
            return IndexAction::Abort;
        }
        match self.stage {
            IndexStage::Checking => {
                if event == IndexEvent::TrackerFound {
                    self.stage = IndexStage::Finished;
                    IndexAction::Done
                } else {
                    self.stage = IndexStage::DroppingSchema;
                    IndexAction::Run(plain_query(DROP_SCHEMA_QUERY))
                }
            },
            IndexStage::DroppingSchema => {
                self.stage = IndexStage::DroppingTracker;
                IndexAction::Run(plain_query(DROP_TRACKER_QUERY))
            },
            IndexStage::DroppingTracker => {
                self.stage = IndexStage::Reindexing;
                IndexAction::RunInTransaction(copy_statements(&self.statements))
            },
            IndexStage::Reindexing => {
                self.stage = IndexStage::Recording;
                IndexAction::Run(sum_query(CREATE_TRACKER_QUERY, &self.sum))
            },
            _ => {
                self.stage = IndexStage::Finished;
                IndexAction::Done
            },
        }
    }
}

fn copy_statements(statements: &Vec<String>) -> (copy: Vec<String>)
    ensures
        copy@ == statements@,
{
    let mut copy: Vec<String> = Vec::new();
    for k in 0..statements.len()
        invariant
            copy@ == statements@.take(k as int),
    {
        copy.push(statements[k].clone());
        assert(copy@ =~= statements@.take(k + 1));
    }
    assert(statements@.take(statements@.len() as int) =~= statements@);
    copy
}


/// The stage reached after the events, in order; `None` when some event is
/// not one that its stage waits for.
pub open spec fn stage_after(stage: IndexStage, events: Seq<IndexEvent>) -> Option<IndexStage>
    decreases events.len(),
{
    if events.len() == 0 {
        Some(stage)
    } else if !awaits(stage, events[0]) {
        None
    } else {
        stage_after(next_stage(stage, events[0]), events.drop_first())
    }
}

proof fn lemma_aborted_stays(events: Seq<IndexEvent>)
    ensures
        stage_after(IndexStage::Aborted, events) is Some ==> events.len() == 0,
{
}

/// A failure ends an update at once and can end it at any step: every stage
/// that still has work waits for a failure, and an update stops in the
/// aborted stage exactly when its last event is a failure.
pub proof fn lemma_failure_aborts(stage: IndexStage, events: Seq<IndexEvent>)
    requires
        stage != IndexStage::Finished,
        stage != IndexStage::Aborted,
    ensures
        awaits(stage, IndexEvent::Failed),
        next_stage(stage, IndexEvent::Failed) == IndexStage::Aborted,
        stage_after(stage, events) == Some(IndexStage::Aborted) ==> events.len() > 0 && events.last() == IndexEvent::Failed,
    decreases events.len(),
{
    if events.len() > 0 && stage_after(stage, events) == Some(IndexStage::Aborted) {
        let rest = events.drop_first();
        if events[0] == IndexEvent::Failed {
            lemma_aborted_stays(rest);
            assert(events =~= seq![IndexEvent::Failed]);
        } else {
            let next = next_stage(stage, events[0]);
            if next == IndexStage::Finished {
                lemma_finished_stays(rest);
            } else {
                lemma_failure_aborts(next, rest);
                assert(events.last() == rest.last());
            }
        }
    }
}

proof fn lemma_finished_stays(events: Seq<IndexEvent>)
    ensures
        stage_after(IndexStage::Finished, events) is Some ==> events.len() == 0,
{
}

/// An update runs one of two ways: when the tracker of the script is found it
/// is done at once; otherwise it drops the schema, drops the old tracker,
/// runs the script and records the new tracker, in that order, and is done.
pub proof fn lemma_update_runs(events: Seq<IndexEvent>)
    requires
        stage_after(IndexStage::Checking, events) == Some(IndexStage::Finished),
    ensures
        events == seq![IndexEvent::TrackerFound] || events == seq![
            IndexEvent::TrackerMissing,
            IndexEvent::Completed,
            IndexEvent::Completed,
            IndexEvent::Completed,
            IndexEvent::Completed,
        ],
{
    assert(events.len() > 0);
    let e1 = events.drop_first();
    lemma_aborted_stays(e1);
    if events[0] == IndexEvent::TrackerFound {
        lemma_finished_stays(e1);
        assert(events =~= seq![IndexEvent::TrackerFound]);
    } else {
        assert(stage_after(IndexStage::DroppingSchema, e1) == Some(IndexStage::Finished));
        let e2 = e1.drop_first();
        lemma_aborted_stays(e2);
        assert(stage_after(IndexStage::DroppingTracker, e2) == Some(IndexStage::Finished));
        let e3 = e2.drop_first();
        lemma_aborted_stays(e3);
        assert(stage_after(IndexStage::Reindexing, e3) == Some(IndexStage::Finished));
        let e4 = e3.drop_first();
        lemma_aborted_stays(e4);
        assert(stage_after(IndexStage::Recording, e4) == Some(IndexStage::Finished));
        let e5 = e4.drop_first();
        lemma_aborted_stays(e5);
        assert(stage_after(IndexStage::Finished, e5) == Some(IndexStage::Finished));
        lemma_finished_stays(e5);
        assert(events =~= seq![
            IndexEvent::TrackerMissing,
            IndexEvent::Completed,
            IndexEvent::Completed,
            IndexEvent::Completed,
            IndexEvent::Completed,
        ]);
    }
}

/// The tracker that an update records is the one its check looks for: both
/// queries carry the SHA-256 sum of the script, so a later update to the same
/// script finds it.
pub proof fn lemma_recorded_tracker_is_checked(
    index_script: &str,
    update: IndexUpdate,
    check: IndexAction,
    record: IndexAction,
)
    requires
        update.sum@ == spec_shasum(index_script),
        action_for(IndexStage::Checking, check, update.sum@, update.statements@),
        action_for(IndexStage::Recording, record, update.sum@, update.statements@),
    ensures
        check matches IndexAction::Check(q) && q.params@[0].1@ == spec_shasum(index_script),
        record matches IndexAction::Run(q) && q.params@[0].1@ == spec_shasum(index_script),
        check matches IndexAction::Check(q1) && record matches IndexAction::Run(q2)
            && q1.params@[0].0@ == q2.params@[0].0@ && q1.params@[0].1@ == q2.params@[0].1@,
{
}

/// Splitting a script at its semicolons loses nothing: the pieces joined
/// with semicolons give back the script, and no piece holds a semicolon.
pub proof fn lemma_split_join(s: Seq<char>, sep: char)
    ensures
        split_on(s, sep).len() >= 1,
        join_with(split_on(s, sep), sep) == s,
        forall|i: int| 0 <= i < split_on(s, sep).len() ==> !(#[trigger] split_on(s, sep)[i]).contains(sep),
    decreases s.len(),
{
    if s.len() > 0 {
        let t = s.drop_last();
        let c = s.last();
        lemma_split_join(t, sep);
        let p = split_on(t, sep);
        assert(t.push(c) =~= s);
        if c == sep {
            let q = p.push(Seq::<char>::empty());
            assert(q.drop_last() =~= p);
            assert(join_with(q, sep) =~= join_with(p, sep).push(sep) + Seq::<char>::empty());
            assert forall|i: int| 0 <= i < q.len() implies !(#[trigger] q[i]).contains(sep) by {
                if i < p.len() {
                    assert(q[i] == p[i]);
                }
            }
        } else {
            let q = p.update(p.len() - 1, p.last().push(c));
            if p.len() == 1 {
                assert(join_with(q, sep) == q[0]);
                assert(q[0] =~= s);
            } else {
                assert(q.drop_last() =~= p.drop_last());
                assert(join_with(q, sep) == join_with(p.drop_last(), sep).push(sep) + p.last().push(c));
                assert(join_with(p, sep) == join_with(p.drop_last(), sep).push(sep) + p.last());
                assert(join_with(q, sep) =~= join_with(p, sep).push(c));
            }
            assert forall|i: int| 0 <= i < q.len() implies !(#[trigger] q[i]).contains(sep) by {
                if i < p.len() - 1 {
                    assert(q[i] == p[i]);
                } else {
                    assert(!p[i].contains(sep));
                    if q[i].contains(sep) {
                        let k = choose|k: int| 0 <= k < q[i].len() && q[i][k] == sep;
                        if k < p[i].len() {
                            assert(p[i][k] == sep);
                        }
                    }
                }
            }
        }
    }
}

} // verus!
