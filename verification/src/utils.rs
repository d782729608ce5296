//! A record of how long the stages of a run took.

use crate::text::{decimal, decimal_string};
use crate::types::Version;
use std::path::PathBuf;
use std::time::{Duration, Instant};
use vstd::prelude::*;
use vstd::string::StringExecFns;

verus! {

/// `std::time::Instant`, of which nothing is said: a moment is kept, and
/// the time since then is asked for.
#[verifier::external_type_specification]
#[verifier::external_body]
pub struct ExInstant(Instant);

/// Calls `std::time::Instant::now`: the present moment, of which nothing is
/// said.
#[verifier::external_body]
fn now() -> Instant {
    Instant::now()
}

/// Calls `std::time::Instant::elapsed`: the time that has passed since the
/// given moment, of which nothing is said.
#[verifier::external_body]
fn elapsed_since(start: &Instant) -> Duration {
    start.elapsed()
}

/// Writes a duration in seconds with the given number of decimals: the
/// seconds come from `std::time::Duration::as_secs_f32` and are written by
/// `format!`. Nothing is said of the text. The number of decimals is kept
/// to what a precision in a format can surely hold.
#[verifier::external_body]
fn seconds_text(duration: &Duration, decimals: usize) -> String
    requires
        decimals <= 65535,
{
    format!("{:.*}", decimals, duration.as_secs_f32())
}

/// The number of decimals with which seconds are recorded.
pub const SECONDS_DECIMALS: usize = 2;

/// One thing that was recorded: its key and its value.
pub type Entry = (Seq<char>, Seq<char>);

/// The keys of a record.
pub open spec fn keys_of(trace: Seq<Entry>) -> Seq<Seq<char>> {
    trace.map_values(|e: Entry| e.0)
}

/// The record with `value` under `key`: in the place of what stood under
/// that key, or, where nothing did, at the end.
pub open spec fn put(trace: Seq<Entry>, key: Seq<char>, value: Seq<char>) -> Seq<Entry> {
    if keys_of(trace).contains(key) {
        trace.update(keys_of(trace).index_of(key), (key, value))
    } else {
        trace.push((key, value))
    }
}

/// The number of files of all the snapshots together.
pub open spec fn total_files(versions: Seq<Version>) -> nat
    decreases versions.len(),
{
    if versions.len() == 0 {
        0
    } else {
        total_files(versions.drop_last()) + versions.last().files@.len()
    }
}

/// Keeps the time that each stage of a run took, and the size of the input,
/// each under a key of its own.
pub struct InferencePerformanceTracker {
    save_dir: PathBuf,
    keys: Vec<String>,
    values: Vec<String>,
    curr_instant: Instant,
    started: Instant,
}

impl InferencePerformanceTracker {
    /// What has been recorded, in the order in which the keys first came.
    pub closed spec fn trace(&self) -> Seq<Entry> {
        Seq::new(self.keys@.len(), |i: int| (self.keys@[i]@, self.values@[i]@))
    }

    /// The directory in which the record is to be saved.
    pub closed spec fn directory(&self) -> PathBuf {
        self.save_dir
    }

    /// Every key stands in the record once.
    pub closed spec fn well_formed(&self) -> bool {
        &&& self.keys@.len() == self.values@.len()
        &&& keys_of(self.trace()).no_duplicates()
    }

    /// Starts the clock, with nothing recorded. The record will be saved in
    /// `save_dir`.
    pub fn new(save_dir: PathBuf) -> (tracker: Self)
        ensures
            tracker.well_formed(),
            tracker.trace() == Seq::<Entry>::empty(),
            tracker.directory() == save_dir,
    {
        let tracker = InferencePerformanceTracker {
            save_dir,
            keys: Vec::new(),
            values: Vec::new(),
            curr_instant: now(),
            started: now(),
        };
        assert(tracker.trace() =~= Seq::<Entry>::empty());
        tracker
    }

    /// Puts a value under a key.
    fn record(&mut self, key: &str, value: String)
        requires
            old(self).well_formed(),
        ensures
            final(self).well_formed(),
            final(self).directory() == old(self).directory(),
            final(self).trace() == put(old(self).trace(), key@, value@),
    {
        let ghost before = self.trace();
        let ghost names = keys_of(before);
        let key_text = String::from_str(key);
        let mut i: usize = 0;
        while i < self.keys.len()
            invariant
                *self == *old(self),
                self.well_formed(),
                before == self.trace(),
                names == keys_of(before),
                key_text@ == key@,
                i <= self.keys@.len(),
                forall|k: int| 0 <= k < i ==> names[k] != key@,
            decreases self.keys@.len() - i,
        {
            if self.keys[i] == key_text {
                proof {
                    assert(names[i as int] == key@);
                    assert(names.contains(key@));
                    let at = names.index_of(key@);
                    assert(names[at] == key@);
                    assert(at == i);
                }
                self.values.set(i, value);
                proof {
                    assert(self.trace() =~= before.update(i as int, (key@, value@)));
                    assert(keys_of(self.trace()) =~= names);
                }
                return ;
            }
            i = i + 1;
        }
        proof {
            if names.contains(key@) {
                let at = choose|at: int| 0 <= at < names.len() && names[at] == key@;
                assert(names[at] != key@);
            }
        }
        self.keys.push(key_text);
        self.values.push(value);
        proof {
            assert(self.trace() =~= before.push((key@, value@)));
            assert(keys_of(self.trace()) =~= names.push(key@));
        }
    }

    /// Records, under the key, the seconds since the clock was last set.
    fn record_instant(&mut self, key: &'static str)
        requires
            old(self).well_formed(),
        ensures
            final(self).well_formed(),
            final(self).directory() == old(self).directory(),
            exists|seconds: Seq<char>|
                final(self).trace() == #[trigger] put(old(self).trace(), key@, seconds),
    {
        let text = seconds_text(&elapsed_since(&self.curr_instant), SECONDS_DECIMALS);
        self.record(key, text);
    }

    /// Sets the clock to the present moment.
    fn reset_instant(&mut self)
        ensures
            final(self).well_formed() == old(self).well_formed(),
            final(self).directory() == old(self).directory(),
            final(self).trace() == old(self).trace(),
    {
        self.curr_instant = now();
    }

    /// Records that the snapshots are loaded: the seconds it took, under
    /// `load_versions_rt`; the number of snapshots, under `no_versions`; and
    /// the number of files of a snapshot on average, rounded down, under
    /// `avg_files_per_version`. There must be a snapshot to take the average
    /// over.
    pub fn done_loading(&mut self, versions: &Vec<Version>)
        requires
            old(self).well_formed(),
            versions@.len() > 0,
        ensures
            final(self).well_formed(),
            final(self).directory() == old(self).directory(),
            exists|seconds: Seq<char>|
                final(self).trace() == put(
                    put(
                        #[trigger] put(old(self).trace(), "load_versions_rt"@, seconds),
                        "no_versions"@,
                        decimal(versions@.len()),
                    ),
                    "avg_files_per_version"@,
                    decimal(total_files(versions@) / versions@.len()),
                ),
    {
        self.record_instant("load_versions_rt");

        let n = versions.len();
        self.record("no_versions", decimal_string(n as u128));
        let mut total: u128 = 0;
        assert(versions@.take(0) =~= Seq::<Version>::empty());
        for i in 0..n
            invariant
                n == versions@.len(),
                total == total_files(versions@.take(i as int)),
                total <= i * usize::MAX,
        {
            proof {
                assert(versions@.take(i + 1).drop_last() =~= versions@.take(i as int));
                assert(versions@.take(i + 1).last() == versions@[i as int]);
                assert((i + 1) * usize::MAX == i * usize::MAX + usize::MAX) by (nonlinear_arith);
                assert(i * usize::MAX <= usize::MAX * usize::MAX) by (nonlinear_arith)
                    requires
                        i <= usize::MAX,
                ;
            }
            total = total + versions[i].files.len() as u128;
        }
        assert(versions@.take(n as int) =~= versions@);
        self.record("avg_files_per_version", decimal_string(total / (n as u128)));

        self.reset_instant();
    }

    /// Records the seconds that the inference took, under `infer_rt`.
    pub fn done_inferring(&mut self)
        requires
            old(self).well_formed(),
        ensures
            final(self).well_formed(),
            final(self).directory() == old(self).directory(),
            exists|seconds: Seq<char>|
                final(self).trace() == #[trigger] put(old(self).trace(), "infer_rt"@, seconds),
    {
        self.record_instant("infer_rt");
        self.reset_instant();
    }

    /// Records the seconds that saving the tree took, under `saving_rt`.
    pub fn done_saving(&mut self)
        requires
            old(self).well_formed(),
        ensures
            final(self).well_formed(),
            final(self).directory() == old(self).directory(),
            exists|seconds: Seq<char>|
                final(self).trace() == #[trigger] put(old(self).trace(), "saving_rt"@, seconds),
    {
        self.record_instant("saving_rt");
        self.reset_instant();
    }

    /// Records the seconds since the tracker was made, under `total_rt`.
    pub fn done_all(&mut self)
        requires
            old(self).well_formed(),
        ensures
            final(self).well_formed(),
            final(self).directory() == old(self).directory(),
            exists|seconds: Seq<char>|
                final(self).trace() == #[trigger] put(old(self).trace(), "total_rt"@, seconds),
    {
        self.curr_instant = self.started;
        self.record_instant("total_rt");
    }

    /// The time since the tracker was made.
    pub fn elapsed(&self) -> Duration {
        elapsed_since(&self.started)
    }

    /// Where the record is to be saved.
    pub fn save_dir(&self) -> (dir: &PathBuf)
        ensures
            *dir == self.directory(),
    {
        &self.save_dir
    }

    /// The number of things recorded.
    pub fn len(&self) -> (n: usize)
        requires
            self.well_formed(),
        ensures
            n == self.trace().len(),
    {
        self.keys.len()
    }

    /// The key and the value recorded at a place.
    pub fn entry(&self, i: usize) -> (entry: (&String, &String))
        requires
            self.well_formed(),
            i < self.trace().len(),
        ensures
            (entry.0@, entry.1@) == self.trace()[i as int],
    {
        (&self.keys[i], &self.values[i])
    }
}

} // verus!
