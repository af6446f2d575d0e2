//! The log of editing sessions and landed commits that `git-ai stats-delta` keeps, and the
//! decisions it takes for each commit it indexes.
//!
//! Entries carry commit statistics of type `S` and times of type `T`, which the library
//! only moves around.

use vstd::prelude::*;
use vstd::string::*;

use crate::text::{extend_chars, from_chars, str_eq, to_chars};

verus! {

/// One entry of the stats delta log, keyed by the commit its working log is based on.
#[derive(Debug, Clone)]
pub enum StatsDeltaLogEntry<S, T> {
    /// A working log is being edited on top of this commit.
    Editing { working_log_base_sha: String, first_seen: T, last_seen: T },
    /// A commit landed on top of a working log without git-ai's post-commit step.
    LandedCommitHueristic { working_log_base_sha: String, stats: S, processed_at: T },
    /// A commit with git-ai authorship landed on top of this parent.
    LandedGitAIPostCommit { working_log_base_sha: String, commit_sha: String, stats: S, processed_at: T },
}

impl<S, T> StatsDeltaLogEntry<S, T> {
    /// The commit whose working log the entry is about.
    pub open spec fn base(&self) -> Seq<char> {
        match self {
            StatsDeltaLogEntry::Editing { working_log_base_sha, .. } => working_log_base_sha@,
            StatsDeltaLogEntry::LandedCommitHueristic { working_log_base_sha, .. } => working_log_base_sha@,
            StatsDeltaLogEntry::LandedGitAIPostCommit { working_log_base_sha, .. } => working_log_base_sha@,
        }
    }

    /// The commit whose working log the entry is about.
    pub fn working_log_base_sha(&self) -> (r: &str)
        ensures
            r@ == self.base(),
    {
        match self {
            StatsDeltaLogEntry::Editing { working_log_base_sha, .. } => working_log_base_sha.as_str(),
            StatsDeltaLogEntry::LandedCommitHueristic { working_log_base_sha, .. } => working_log_base_sha.as_str(),
            StatsDeltaLogEntry::LandedGitAIPostCommit { working_log_base_sha, .. } => working_log_base_sha.as_str(),
        }
    }

    /// The entry seen again at time `now`: an editing entry takes `now` as its last sighting;
    /// other entries stay as they are.
    pub fn touch(self, now: T) -> (r: Self)
        ensures
            r == (match self {
                StatsDeltaLogEntry::Editing { working_log_base_sha, first_seen, .. } => StatsDeltaLogEntry::Editing {
                    working_log_base_sha,
                    first_seen,
                    last_seen: now,
                },
                other => other,
            }),
    {
        match self {
            StatsDeltaLogEntry::Editing { working_log_base_sha, first_seen, .. } => StatsDeltaLogEntry::Editing {
                working_log_base_sha,
                first_seen,
                last_seen: now,
            },
            other => other,
        }
    }
}

/// The stored form of a stats delta log.
pub struct StatsDeltaLogData<S, T> {
    pub last_indexed_commit: Option<String>,
    pub last_indexed_timestamp: Option<T>,
    pub log: Vec<StatsDeltaLogEntry<S, T>>,
}

/// The stats delta log: the commit indexed last, when, and the entries.
pub struct StatsDeltaLog<S, T> {
    pub last_indexed_commit: Option<String>,
    pub last_indexed_timestamp: Option<T>,
    pub entries: Vec<StatsDeltaLogEntry<S, T>>,
}

/// The position of the first entry of `es` about commit `sha`, if any.
pub open spec fn position_of<S, T>(es: Seq<StatsDeltaLogEntry<S, T>>, sha: Seq<char>) -> Option<int>
    decreases es.len(),
{
    if es.len() == 0 {
        None
    } else {
        match position_of(es.drop_last(), sha) {
            Some(k) => Some(k),
            None => if es.last().base() == sha {
                Some(es.len() - 1)
            } else {
                None
            },
        }
    }
}

/// A position that `position_of` gives holds an entry about the commit, and no entry
/// before it is.
pub proof fn lemma_position_of<S, T>(es: Seq<StatsDeltaLogEntry<S, T>>, sha: Seq<char>)
    ensures
        position_of(es, sha) matches Some(k) ==> 0 <= k < es.len() && es[k].base() == sha && forall|j: int|
            0 <= j < k ==> (#[trigger] es[j]).base() != sha,
        position_of(es, sha) is None ==> forall|j: int| 0 <= j < es.len() ==> (#[trigger] es[j]).base() != sha,
    decreases es.len(),
{
    if es.len() > 0 {
        lemma_position_of(es.drop_last(), sha);
        assert forall|j: int| 0 <= j < es.len() - 1 implies es[j] == es.drop_last()[j] by {}
    }
}

impl<S, T: Copy> StatsDeltaLog<S, T> {
    /// An empty log that has indexed nothing.
    pub fn empty() -> (r: Self)
        ensures
            r.last_indexed_commit is None,
            r.last_indexed_timestamp is None,
            r.entries@ == Seq::<StatsDeltaLogEntry<S, T>>::empty(),
    {
        StatsDeltaLog { last_indexed_commit: None, last_indexed_timestamp: None, entries: Vec::new() }
    }

    /// The log as stored.
    pub fn from_data(data: StatsDeltaLogData<S, T>) -> (r: Self)
        ensures
            r.last_indexed_commit == data.last_indexed_commit,
            r.last_indexed_timestamp == data.last_indexed_timestamp,
            r.entries == data.log,
    {
        StatsDeltaLog {
            last_indexed_commit: data.last_indexed_commit,
            last_indexed_timestamp: data.last_indexed_timestamp,
            entries: data.log,
        }
    }

    /// The log in its stored form.
    pub fn into_data(self) -> (r: StatsDeltaLogData<S, T>)
        ensures
            r.last_indexed_commit == self.last_indexed_commit,
            r.last_indexed_timestamp == self.last_indexed_timestamp,
            r.log == self.entries,
    {
        StatsDeltaLogData {
            last_indexed_commit: self.last_indexed_commit,
            last_indexed_timestamp: self.last_indexed_timestamp,
            log: self.entries,
        }
    }

    /// The commit indexed last.
    pub fn last_indexed_commit(&self) -> (r: Option<&str>)
        ensures
            r is Some <==> self.last_indexed_commit is Some,
            r matches Some(x) ==> x@ == self.last_indexed_commit->Some_0@,
    {
        match &self.last_indexed_commit {
            Some(s) => Some(s.as_str()),
            None => None,
        }
    }

    /// When the last commit was indexed.
    pub fn last_indexed_timestamp(&self) -> (r: Option<T>)
        ensures
            r == self.last_indexed_timestamp,
    {
        self.last_indexed_timestamp
    }

    /// Records `commit_sha` as the commit indexed last, at time `timestamp`.
    pub fn set_last_indexed_commit_at(&mut self, commit_sha: String, timestamp: T)
        ensures
            final(self).last_indexed_commit == Some(commit_sha),
            final(self).last_indexed_timestamp == Some(timestamp),
            final(self).entries == old(self).entries,
    {
        self.last_indexed_commit = Some(commit_sha);
        self.last_indexed_timestamp = Some(timestamp);
    }

    /// Records `commit_sha` as the commit indexed last, at the current time `now`.
    pub fn set_last_indexed_commit(&mut self, commit_sha: String, now: T)
        ensures
            final(self).last_indexed_commit == Some(commit_sha),
            final(self).last_indexed_timestamp == Some(now),
            final(self).entries == old(self).entries,
    {
        self.set_last_indexed_commit_at(commit_sha, now);
    }

    /// All entries.
    pub fn entries(&self) -> (r: &[StatsDeltaLogEntry<S, T>])
        ensures
            r@ == self.entries@,
    {
        self.entries.as_slice()
    }

    /// The entries, to change in place.
    pub fn entries_mut(&mut self) -> (r: &mut Vec<StatsDeltaLogEntry<S, T>>)
        ensures
            *r == old(self).entries,
            final(self).entries == *final(r),
            final(self).last_indexed_commit == old(self).last_indexed_commit,
            final(self).last_indexed_timestamp == old(self).last_indexed_timestamp,
    {
        &mut self.entries
    }

    /// The first entry about commit `working_log_base_sha`, to change in place.
    pub fn find_by_sha_mut(&mut self, working_log_base_sha: &str) -> (r: Option<&mut StatsDeltaLogEntry<S, T>>)
        ensures
            r is Some <==> position_of(old(self).entries@, working_log_base_sha@) is Some,
            r matches Some(e) ==> ({
                let k = position_of(old(self).entries@, working_log_base_sha@)->Some_0;
                &&& *e == old(self).entries@[k]
                &&& final(self).entries@ == old(self).entries@.update(k, *final(e))
            }),
            r is None ==> final(self).entries@ == old(self).entries@,
            final(self).last_indexed_commit == old(self).last_indexed_commit,
            final(self).last_indexed_timestamp == old(self).last_indexed_timestamp,
    {
        proof {
            lemma_position_of(self.entries@, working_log_base_sha@);
        }
        match self.position(working_log_base_sha) {
            Some(k) => Some(&mut self.entries[k]),
            None => None,
        }
    }

    /// The position of the first entry about commit `sha`.
    fn position(&self, sha: &str) -> (r: Option<usize>)
        ensures
            r matches Some(k) ==> position_of(self.entries@, sha@) == Some(k as int),
            r is None ==> position_of(self.entries@, sha@) is None,
    {
        let mut i: usize = 0;
        let ghost es = self.entries@;
        proof {
            assert(es.take(0) =~= Seq::<StatsDeltaLogEntry<S, T>>::empty());
        }
        while i < self.entries.len()
            invariant
                i <= self.entries.len(),
                es == self.entries@,
                position_of(es.take(i as int), sha@) is None,
            decreases self.entries.len() - i,
        {
            proof {
                assert(es.take(i + 1).drop_last() =~= es.take(i as int));
                assert(es.take(i + 1).last() == es[i as int]);
            }
            if str_eq(self.entries[i].working_log_base_sha(), sha) {
                proof {
                    lemma_prefix_position(es, sha@, i as int);
                }
                return Some(i);
            }
            i = i + 1;
        }
        proof {
            assert(es.take(es.len() as int) =~= es);
        }
        None
    }

    /// The first entry about commit `working_log_base_sha`.
    pub fn find_by_sha(&self, working_log_base_sha: &str) -> (r: Option<&StatsDeltaLogEntry<S, T>>)
        ensures
            r == (match position_of(self.entries@, working_log_base_sha@) {
                Some(k) => Some(&self.entries@[k]),
                None => None::<&StatsDeltaLogEntry<S, T>>,
            }),
    {
        proof {
            lemma_position_of(self.entries@, working_log_base_sha@);
        }
        match self.position(working_log_base_sha) {
            Some(k) => Some(&self.entries[k]),
            None => None,
        }
    }

    /// Appends an entry.
    pub fn add(&mut self, entry: StatsDeltaLogEntry<S, T>)
        ensures
            final(self).entries@ == old(self).entries@.push(entry),
            final(self).last_indexed_commit == old(self).last_indexed_commit,
            final(self).last_indexed_timestamp == old(self).last_indexed_timestamp,
    {
        self.entries.push(entry);
    }

    /// Puts `new_entry` in place of the first entry about the same commit, and says whether
    /// there was one; without one the log is unchanged.
    pub fn replace(&mut self, new_entry: StatsDeltaLogEntry<S, T>) -> (r: bool)
        ensures
            r == position_of(old(self).entries@, new_entry.base()) is Some,
            final(self).entries@ == (match position_of(old(self).entries@, new_entry.base()) {
                Some(k) => old(self).entries@.update(k, new_entry),
                None => old(self).entries@,
            }),
            final(self).last_indexed_commit == old(self).last_indexed_commit,
            final(self).last_indexed_timestamp == old(self).last_indexed_timestamp,
    {
        let pos = {
            let sha = new_entry.working_log_base_sha();
            self.position(sha)
        };
        proof {
            lemma_position_of(self.entries@, new_entry.base());
        }
        match pos {
            Some(k) => {
                self.entries.set(k, new_entry);
                true
            },
            None => false,
        }
    }

    /// Puts `entry` in place of the first entry about the same commit, or appends it when
    /// there is none.
    pub fn upsert(&mut self, entry: StatsDeltaLogEntry<S, T>)
        ensures
            final(self).entries@ == upserted(old(self).entries@, entry),
            final(self).last_indexed_commit == old(self).last_indexed_commit,
            final(self).last_indexed_timestamp == old(self).last_indexed_timestamp,
    {
        let pos = {
            let sha = entry.working_log_base_sha();
            self.position(sha)
        };
        proof {
            lemma_position_of(self.entries@, entry.base());
        }
        match pos {
            Some(k) => self.entries.set(k, entry),
            None => self.entries.push(entry),
        }
    }

    /// Removes the first entry about commit `working_log_base_sha`, and says whether there
    /// was one.
    pub fn delete(&mut self, working_log_base_sha: &str) -> (r: bool)
        ensures
            r == position_of(old(self).entries@, working_log_base_sha@) is Some,
            final(self).entries@ == (match position_of(old(self).entries@, working_log_base_sha@) {
                Some(k) => old(self).entries@.remove(k),
                None => old(self).entries@,
            }),
            final(self).last_indexed_commit == old(self).last_indexed_commit,
            final(self).last_indexed_timestamp == old(self).last_indexed_timestamp,
    {
        proof {
            lemma_position_of(self.entries@, working_log_base_sha@);
        }
        match self.position(working_log_base_sha) {
            Some(k) => {
                self.entries.remove(k);
                true
            },
            None => false,
        }
    }

    /// Removes the entries for which `predicate` holds, asking it once per entry in order,
    /// and says how many went.
    pub fn delete_where<F>(&mut self, predicate: F) -> (r: usize) where
        F: Fn(&StatsDeltaLogEntry<S, T>) -> bool,

        requires
            forall|e: &StatsDeltaLogEntry<S, T>| call_requires(predicate, (e,)),
        ensures
            exists|drop: Seq<bool>|
                {
                    &&& drop.len() == old(self).entries@.len()
                    &&& forall|k: int|
                        0 <= k < drop.len() ==> call_ensures(predicate, (&old(self).entries@[k],), #[trigger] drop[k])
                    &&& final(self).entries@ == kept_entries(old(self).entries@, drop)
                },
            r == old(self).entries@.len() - final(self).entries@.len(),
            final(self).last_indexed_commit == old(self).last_indexed_commit,
            final(self).last_indexed_timestamp == old(self).last_indexed_timestamp,
    {
        let ghost orig = self.entries@;
        let ghost mut drop: Seq<bool> = Seq::empty();
        let initial_len = self.entries.len();
        let mut i: usize = 0;
        proof {
            assert(orig.take(0) =~= Seq::<StatsDeltaLogEntry<S, T>>::empty());
            assert(orig.skip(0) =~= orig);
        }
        while i < self.entries.len()
            invariant
                initial_len == orig.len(),
                forall|e: &StatsDeltaLogEntry<S, T>| call_requires(predicate, (e,)),
                drop.len() <= orig.len(),
                forall|k: int| 0 <= k < drop.len() ==> call_ensures(predicate, (&orig[k],), #[trigger] drop[k]),
                i == kept_entries(orig.take(drop.len() as int), drop).len(),
                self.entries@ == kept_entries(orig.take(drop.len() as int), drop) + orig.skip(drop.len() as int),
                self.last_indexed_commit == old(self).last_indexed_commit,
                self.last_indexed_timestamp == old(self).last_indexed_timestamp,
            decreases self.entries.len() - i,
        {
            let ghost j = drop.len() as int;
            let ghost d0 = drop;
            let ghost kept0 = kept_entries(orig.take(j), d0);
            let ghost cur = self.entries@;
            proof {
                lemma_kept_len(orig.take(j), d0);
                assert(orig.skip(j) =~= seq![orig[j]] + orig.skip(j + 1));
                assert(cur[i as int] == orig[j]);
            }
            let gone = predicate(&self.entries[i]);
            proof {
                drop = d0.push(gone);
                lemma_kept_prefix(orig.take(j), d0, drop);
                assert(orig.take(j + 1).drop_last() =~= orig.take(j));
                assert(orig.take(j + 1).last() == orig[j]);
                assert(drop[j] == gone);
                assert(kept_entries(orig.take(j + 1), drop) == if gone {
                    kept0
                } else {
                    kept0.push(orig[j])
                });
            }
            if gone {
                self.entries.remove(i);
                proof {
                    assert(self.entries@ =~= kept0 + orig.skip(j + 1));
                }
            } else {
                i = i + 1;
                proof {
                    assert(self.entries@ =~= kept0.push(orig[j]) + orig.skip(j + 1));
                }
            }
        }
        proof {
            lemma_kept_len(orig.take(drop.len() as int), drop);
            assert(drop.len() == orig.len());
            assert(orig.take(drop.len() as int) =~= orig);
        }
        initial_len - self.entries.len()
    }

    /// Marks the first entry about commit `working_log_base_sha` as seen at time `now` (see
    /// `StatsDeltaLogEntry::touch`), and says whether there was one.
    pub fn touch(&mut self, working_log_base_sha: &str, now: T) -> (r: bool)
        ensures
            r == position_of(old(self).entries@, working_log_base_sha@) is Some,
            final(self).entries@ == (match position_of(old(self).entries@, working_log_base_sha@) {
                Some(k) => old(self).entries@.update(k, touched(old(self).entries@[k], now)),
                None => old(self).entries@,
            }),
            final(self).last_indexed_commit == old(self).last_indexed_commit,
            final(self).last_indexed_timestamp == old(self).last_indexed_timestamp,
    {
        proof {
            lemma_position_of(self.entries@, working_log_base_sha@);
        }
        match self.position(working_log_base_sha) {
            Some(k) => {
                let ghost before = self.entries@;
                let e = self.entries.remove(k);
                let t = e.touch(now);
                self.entries.insert(k, t);
                proof {
                    assert(before == old(self).entries@);
                    assert(position_of(before, working_log_base_sha@) == Some(k as int));
                    assert(self.entries@ =~= old(self).entries@.update(k as int, touched(old(self).entries@[k as int], now)));
                }
                true
            },
            None => false,
        }
    }
}

/// An entry seen again at time `now` (see `StatsDeltaLogEntry::touch`).
pub open spec fn touched<S, T>(e: StatsDeltaLogEntry<S, T>, now: T) -> StatsDeltaLogEntry<S, T> {
    match e {
        StatsDeltaLogEntry::Editing { working_log_base_sha, first_seen, .. } => StatsDeltaLogEntry::Editing {
            working_log_base_sha,
            first_seen,
            last_seen: now,
        },
        other => other,
    }
}

/// The entries of `es` whose flag in `drop` is false, in order.
pub open spec fn kept_entries<E>(es: Seq<E>, drop: Seq<bool>) -> Seq<E>
    decreases es.len(),
{
    if es.len() == 0 {
        Seq::empty()
    } else {
        let p = kept_entries(es.drop_last(), drop);
        if drop[es.len() - 1] {
            p
        } else {
            p.push(es.last())
        }
    }
}

/// The kept entries are no more than the entries.
proof fn lemma_kept_len<E>(es: Seq<E>, drop: Seq<bool>)
    ensures
        kept_entries(es, drop).len() <= es.len(),
    decreases es.len(),
{
    if es.len() > 0 {
        lemma_kept_len(es.drop_last(), drop);
    }
}

/// Flags past the end of the entries do not matter.
proof fn lemma_kept_prefix<E>(es: Seq<E>, d1: Seq<bool>, d2: Seq<bool>)
    requires
        es.len() <= d1.len(),
        d1.len() <= d2.len(),
        forall|k: int| 0 <= k < d1.len() ==> d1[k] == d2[k],
    ensures
        kept_entries(es, d1) == kept_entries(es, d2),
    decreases es.len(),
{
    if es.len() > 0 {
        lemma_kept_prefix(es.drop_last(), d1, d2);
    }
}

/// When no entry of the first `i` is about `sha` and entry `i` is, `i` is the first.
proof fn lemma_prefix_position<S, T>(es: Seq<StatsDeltaLogEntry<S, T>>, sha: Seq<char>, i: int)
    requires
        0 <= i < es.len(),
        position_of(es.take(i), sha) is None,
        es[i].base() == sha,
    ensures
        position_of(es, sha) == Some(i),
    decreases es.len(),
{
    if es.len() - 1 == i {
        assert(es.drop_last() =~= es.take(i));
    } else {
        assert(es.drop_last().take(i) =~= es.take(i));
        lemma_prefix_position(es.drop_last(), sha, i);
    }
}

impl<S, T: Copy> StatsDeltaLog<S, T> {
    /// Notes that a working log is being edited on top of `head_sha`: an entry about it is
    /// seen again at `now`, or an editing entry first and last seen at `now` is added.
    pub fn note_editing(&mut self, head_sha: &str, now: T)
        ensures
            position_of(old(self).entries@, head_sha@) matches Some(k) ==> final(self).entries@ == old(
                self,
            ).entries@.update(k, touched(old(self).entries@[k], now)),
            position_of(old(self).entries@, head_sha@) is None ==> {
                &&& final(self).entries@.len() == old(self).entries@.len() + 1
                &&& final(self).entries@.drop_last() == old(self).entries@
                &&& final(self).entries@.last() matches StatsDeltaLogEntry::Editing {
                    working_log_base_sha: s,
                    first_seen: f,
                    last_seen: l,
                }
                &&& s@ == head_sha@ && f == now && l == now
            },
            final(self).last_indexed_commit == old(self).last_indexed_commit,
            final(self).last_indexed_timestamp == old(self).last_indexed_timestamp,
    {
        if self.find_by_sha(head_sha).is_some() {
            self.touch(head_sha, now);
        } else {
            let sha = String::from_str(head_sha);
            self.add(StatsDeltaLogEntry::Editing { working_log_base_sha: sha, first_seen: now, last_seen: now });
        }
    }

    /// Records a commit with git-ai authorship that landed on `parent_sha`: the parent's
    /// entry goes, and a landed entry with `stats`, processed at `now`, is appended.
    pub fn record_post_commit(&mut self, parent_sha: String, commit_sha: String, stats: S, now: T)
        ensures
            final(self).entries@ == (match position_of(old(self).entries@, parent_sha@) {
                Some(k) => old(self).entries@.remove(k),
                None => old(self).entries@,
            }).push(
                StatsDeltaLogEntry::LandedGitAIPostCommit {
                    working_log_base_sha: parent_sha,
                    commit_sha,
                    stats,
                    processed_at: now,
                },
            ),
            final(self).last_indexed_commit == old(self).last_indexed_commit,
            final(self).last_indexed_timestamp == old(self).last_indexed_timestamp,
    {
        self.delete(parent_sha.as_str());
        self.add(StatsDeltaLogEntry::LandedGitAIPostCommit {
            working_log_base_sha: parent_sha,
            commit_sha,
            stats,
            processed_at: now,
        });
    }

    /// Records a commit that landed on `parent_sha`, whose working log it used, without
    /// git-ai's post-commit step: the parent's entry goes, and a heuristic entry with
    /// `stats`, processed at `now`, is appended.
    pub fn record_heuristic(&mut self, parent_sha: String, stats: S, now: T)
        ensures
            final(self).entries@ == (match position_of(old(self).entries@, parent_sha@) {
                Some(k) => old(self).entries@.remove(k),
                None => old(self).entries@,
            }).push(StatsDeltaLogEntry::LandedCommitHueristic { working_log_base_sha: parent_sha, stats, processed_at: now }),
            final(self).last_indexed_commit == old(self).last_indexed_commit,
            final(self).last_indexed_timestamp == old(self).last_indexed_timestamp,
    {
        self.delete(parent_sha.as_str());
        self.add(StatsDeltaLogEntry::LandedCommitHueristic { working_log_base_sha: parent_sha, stats, processed_at: now });
    }
}

/// How a commit of the indexed range is recorded.
#[derive(Debug, Clone, PartialEq, Eq)]
pub enum LandedCommit {
    /// Not at all.
    Skip,
    /// As a commit with git-ai authorship on this parent.
    PostCommit { parent_sha: String },
    /// As a commit made on this parent's working log without git-ai.
    Heuristic { parent_sha: String },
}

/// How a commit of the indexed range is recorded: not when it cannot be found or already
/// has an entry; with git-ai authorship on its first parent when it has authorship notes (not
/// at all without a parent); else, for a commit with exactly one parent whose working log
/// exists, as a heuristic landing on that parent.
pub fn classify_landed_commit<S, T>(
    log: &StatsDeltaLog<S, T>,
    commit_sha: &str,
    found: bool,
    has_authorship: bool,
    first_parent: &Option<String>,
    parent_count: Option<usize>,
    parent_has_working_log: bool,
) -> (r: LandedCommit)
    ensures
        r == (if !found || position_of(log.entries@, commit_sha@) is Some {
            LandedCommit::Skip
        } else if has_authorship {
            match first_parent {
                Some(p) => LandedCommit::PostCommit { parent_sha: *p },
                None => LandedCommit::Skip,
            }
        } else {
            match first_parent {
                Some(p) => if parent_count == Some(1usize) && parent_has_working_log {
                    LandedCommit::Heuristic { parent_sha: *p }
                } else {
                    LandedCommit::Skip
                },
                None => LandedCommit::Skip,
            }
        }),
{
    if !found {
        return LandedCommit::Skip;
    }
    let mut i: usize = 0;
    let ghost es = log.entries@;
    proof {
        assert(es.take(0) =~= Seq::<StatsDeltaLogEntry<S, T>>::empty());
    }
    while i < log.entries.len()
        invariant
            i <= log.entries.len(),
            es == log.entries@,
            position_of(es.take(i as int), commit_sha@) is None,
        decreases log.entries.len() - i,
    {
        proof {
            assert(es.take(i + 1).drop_last() =~= es.take(i as int));
            assert(es.take(i + 1).last() == es[i as int]);
        }
        if str_eq(log.entries[i].working_log_base_sha(), commit_sha) {
            proof {
                lemma_prefix_position(es, commit_sha@, i as int);
            }
            return LandedCommit::Skip;
        }
        i = i + 1;
    }
    proof {
        assert(es.take(es.len() as int) =~= es);
    }
    match first_parent {
        Some(p) => {
            if has_authorship {
                LandedCommit::PostCommit { parent_sha: p.clone() }
            } else if parent_count == Some(1usize) && parent_has_working_log {
                LandedCommit::Heuristic { parent_sha: p.clone() }
            } else {
                LandedCommit::Skip
            }
        },
        None => LandedCommit::Skip,
    }
}

/// The commits that `stats-delta` indexes: those after the commit indexed last, when it
/// still exists, up to `head_sha`; else just `head_sha` (from its first parent).
pub fn stats_range_spec(head_sha: &str, last_indexed: Option<&str>, last_indexed_found: bool) -> (r: String)
    ensures
        r@ == (match last_indexed {
            Some(l) => if last_indexed_found {
                l@ + ".."@ + head_sha@
            } else {
                head_sha@ + "~1.."@ + head_sha@
            },
            None => head_sha@ + "~1.."@ + head_sha@,
        }),
{
    let mut v: Vec<char> = Vec::new();
    let h = to_chars(head_sha);
    match last_indexed {
        Some(l) if last_indexed_found => {
            let lc = to_chars(l);
            extend_chars(&mut v, lc.as_slice());
            let dots = to_chars("..");
            extend_chars(&mut v, dots.as_slice());
        },
        _ => {
            extend_chars(&mut v, h.as_slice());
            let tail = to_chars("~1..");
            extend_chars(&mut v, tail.as_slice());
        },
    }
    extend_chars(&mut v, h.as_slice());
    from_chars(v.as_slice())
}

/// The entries after an upsert of `e`.
pub open spec fn upserted<S, T>(es: Seq<StatsDeltaLogEntry<S, T>>, e: StatsDeltaLogEntry<S, T>) -> Seq<
    StatsDeltaLogEntry<S, T>,
> {
    match position_of(es, e.base()) {
        Some(k) => es.update(k, e),
        None => es.push(e),
    }
}

/// Whether no two entries are about the same commit.
pub open spec fn distinct_bases<S, T>(es: Seq<StatsDeltaLogEntry<S, T>>) -> bool {
    forall|i: int, j: int| 0 <= i < j < es.len() ==> (#[trigger] es[i]).base() != (#[trigger] es[j]).base()
}

/// The first entry about `sha` is the one at `k` when no entry before it is about `sha`.
proof fn lemma_first_position<S, T>(es: Seq<StatsDeltaLogEntry<S, T>>, sha: Seq<char>, k: int)
    requires
        0 <= k < es.len(),
        es[k].base() == sha,
        forall|j: int| 0 <= j < k ==> (#[trigger] es[j]).base() != sha,
    ensures
        position_of(es, sha) == Some(k),
{
    lemma_position_of(es.take(k), sha);
    if position_of(es.take(k), sha) is Some {
        let m = position_of(es.take(k), sha)->Some_0;
        assert(es.take(k)[m] == es[m]);
    }
    lemma_prefix_position(es, sha, k);
}

/// After an upsert of an entry, looking up its commit finds that entry.
pub proof fn lemma_upsert_then_find<S, T>(es: Seq<StatsDeltaLogEntry<S, T>>, e: StatsDeltaLogEntry<S, T>)
    ensures
        position_of(upserted(es, e), e.base()) matches Some(k) && upserted(es, e)[k] == e,
{
    let sha = e.base();
    lemma_position_of(es, sha);
    let u = upserted(es, e);
    match position_of(es, sha) {
        Some(k) => {
            assert forall|j: int| 0 <= j < k implies (#[trigger] u[j]).base() != sha by {
                assert(u[j] == es[j]);
            }
            lemma_first_position(u, sha, k);
        },
        None => {
            assert forall|j: int| 0 <= j < es.len() implies (#[trigger] u[j]).base() != sha by {
                assert(u[j] == es[j]);
            }
            lemma_first_position(u, sha, es.len() as int);
        },
    }
}

/// In a log with one entry per commit, looking up a commit after deleting it finds nothing,
/// and the other entries keep their commits distinct.
pub proof fn lemma_delete_then_find<S, T>(es: Seq<StatsDeltaLogEntry<S, T>>, sha: Seq<char>)
    requires
        distinct_bases(es),
    ensures
        ({
            let d = match position_of(es, sha) {
                Some(k) => es.remove(k),
                None => es,
            };
            position_of(d, sha) is None && distinct_bases(d)
        }),
{
    lemma_position_of(es, sha);
    let d = match position_of(es, sha) {
        Some(k) => es.remove(k),
        None => es,
    };
    lemma_position_of(d, sha);
    match position_of(es, sha) {
        Some(k) => {
            if position_of(d, sha) is Some {
                let m = position_of(d, sha)->Some_0;
                if m < k {
                    assert(d[m] == es[m]);
                } else {
                    assert(d[m] == es[m + 1]);
                }
            }
            assert forall|i: int, j: int| 0 <= i < j < d.len() implies (#[trigger] d[i]).base() != (
            #[trigger] d[j]).base() by {
                let i2 = if i < k {
                    i
                } else {
                    i + 1
                };
                let j2 = if j < k {
                    j
                } else {
                    j + 1
                };
                assert(d[i] == es[i2]);
                assert(d[j] == es[j2]);
            }
        },
        None => {},
    }
}

} // verus!
