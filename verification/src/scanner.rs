//! Bookkeeping of a directory scan.
//!
//! A scan walks the directory twice: once to count the entries, so that the
//! second walk can tell how far it is, and once to build the tree. This
//! module holds what is decided on the way: the counters, the file limit,
//! when a progress report is due, what a report says, and the result. The
//! caller walks the directory and hands over what it meets, entry by entry.

use vstd::prelude::*;
use vstd::string::*;
use crate::model::{
    finalized, insert_spec, leaf, path_components, sorted_desc, texts_of, Node,
};

verus! {

/// The limits of a scan.
#[derive(Debug, Clone, Copy)]
pub struct ScanConfig {
    /// How many levels below the root the walk descends: at least 1.
    pub max_depth: usize,
    /// The walk stops when it meets a file after this many files.
    pub max_files: Option<usize>,
    /// A progress report is due every so many entries: at least 1.
    pub progress_interval: usize,
}

impl Default for ScanConfig {
    fn default() -> (config: ScanConfig)
        ensures
            config.max_depth == 64,
            config.max_files == Some(250_000usize),
            config.progress_interval == 400,
    {
        ScanConfig { max_depth: 64, max_files: Some(250_000), progress_interval: 400 }
    }
}

/// The two walks of a scan.
#[derive(Debug, Clone, Copy, PartialEq, Eq, Structural)]
pub enum ScanPhase {
    Counting,
    Scanning,
}

impl Default for ScanPhase {
    fn default() -> (phase: ScanPhase)
        ensures
            phase == ScanPhase::Counting,
    {
        ScanPhase::Counting
    }
}

/// How far a scan is. `progress_permille` is in tenths of a percent;
/// `eta_nanos` is the estimated remaining time in nanoseconds.
#[derive(Debug)]
pub struct ScanProgress {
    pub phase: ScanPhase,
    pub entries_scanned: u64,
    pub files_scanned: u64,
    pub directories_scanned: u64,
    pub warnings: u64,
    pub truncated: bool,
    pub current_path: Option<String>,
    pub total_estimated_entries: Option<u64>,
    pub remaining_estimated_entries: Option<u64>,
    pub progress_permille: Option<u32>,
    pub eta_nanos: Option<u128>,
}

/// The counters of a scan.
pub ghost struct Tally {
    pub entries: u64,
    pub files: u64,
    pub directories: u64,
    pub warnings: u64,
    pub truncated: bool,
}

/// What a walk meets: an entry at some depth, or a failure to read one.
pub ghost enum Met {
    Entry { depth: usize, is_dir: bool },
    Failure,
}

/// What the walk is to do next.
#[derive(Debug, Clone, Copy, PartialEq, Eq, Structural)]
pub enum Next {
    /// Go on with the next entry.
    Continue,
    /// Send a progress report, then go on.
    Report,
    /// End the walk: the file limit is reached.
    Stop,
}

/// `v + 1`, or `v` at the top of the range.
pub open spec fn bump(v: u64) -> u64 {
    if v == u64::MAX {
        v
    } else {
        (v + 1) as u64
    }
}

/// Whether `files` files are as many as the limit allows.
pub open spec fn file_limit_reached(files: u64, max_files: Option<usize>) -> bool {
    max_files is Some && files >= max_files->0
}

/// Whether the walk ends at `met`: a file below the root, met when the file
/// limit is reached.
pub open spec fn stops_at(tally: Tally, max_files: Option<usize>, met: Met) -> bool {
    match met {
        Met::Failure => false,
        Met::Entry { depth, is_dir } => depth > 0 && !is_dir && file_limit_reached(
            tally.files,
            max_files,
        ),
    }
}

/// The counters after `met`. A failure is a warning. An entry counts as an
/// entry; below the root it counts as a directory or as a file as well,
/// unless it is a file beyond the limit, which marks the scan as truncated.
pub open spec fn tally_after(tally: Tally, max_files: Option<usize>, met: Met) -> Tally {
    match met {
        Met::Failure => Tally { warnings: bump(tally.warnings), ..tally },
        Met::Entry { depth, is_dir } => {
            let counted = Tally { entries: bump(tally.entries), ..tally };
            if depth == 0 {
                counted
            } else if is_dir {
                Tally { directories: bump(tally.directories), ..counted }
            } else if file_limit_reached(tally.files, max_files) {
                Tally { truncated: true, ..counted }
            } else {
                Tally { files: bump(tally.files), ..counted }
            }
        },
    }
}

/// Whether a report is due at this number of entries.
pub open spec fn report_due(entries: u64, interval: usize) -> bool {
    if interval <= 1 {
        true
    } else {
        entries % (interval as u64) == 0
    }
}

/// What the counting walk does after `met`: the root entry is passed over,
/// a file beyond the limit ends the walk, and otherwise a report is sent
/// where one is due.
pub open spec fn next_after(tally: Tally, config: ScanConfig, met: Met) -> Next {
    if stops_at(tally, config.max_files, met) {
        Next::Stop
    } else if met is Entry && met->depth == 0 {
        Next::Continue
    } else if report_due(tally_after(tally, config.max_files, met).entries, config.progress_interval) {
        Next::Report
    } else {
        Next::Continue
    }
}

/// The tenths of a percent that `entries` are of `total`, at most 999.
pub open spec fn raw_permille(entries: u64, total: u64) -> int {
    let whole: int = if total == 0 {
        1
    } else {
        total as int
    };
    if entries * 1000 / whole >= 999 {
        999
    } else {
        entries * 1000 / whole
    }
}

/// The progress that a report shows: 1000 when the scan is finished;
/// before that the part of the estimate that is scanned, never 1000 and
/// never less than what the report before showed.
pub open spec fn next_permille(
    previous: Option<u32>,
    entries: u64,
    total: Option<u64>,
    finished: bool,
) -> int {
    if finished {
        1000
    } else {
        let raw = raw_permille(
            entries,
            if total is Some {
                total->0
            } else {
                1
            },
        );
        if previous is Some && previous->0 > raw {
            previous->0 as int
        } else {
            raw
        }
    }
}

/// The entries that are left of the estimate.
pub open spec fn remaining_entries(entries: u64, total: Option<u64>, finished: bool) -> int {
    let whole: int = if total is Some && total->0 > 0 {
        total->0 as int
    } else {
        1
    };
    if finished || entries >= whole {
        0
    } else {
        whole - entries
    }
}

/// The time that the remaining entries take at the rate so far, in
/// nanoseconds: none before the first entry or before any time has passed,
/// zero when the scan is finished.
pub open spec fn eta_after(
    entries: u64,
    total: Option<u64>,
    elapsed_nanos: u64,
    finished: bool,
) -> Option<int> {
    if finished {
        Some(0int)
    } else if entries == 0 || elapsed_nanos == 0 {
        None
    } else {
        Some(remaining_entries(entries, total, finished) * elapsed_nanos / (entries as int))
    }
}

impl Default for ScanProgress {
    fn default() -> (progress: ScanProgress)
        ensures
            progress.phase == ScanPhase::Counting,
            progress.tally() == (Tally {
                entries: 0,
                files: 0,
                directories: 0,
                warnings: 0,
                truncated: false,
            }),
            progress.current_path is None,
            progress.total_estimated_entries is None,
            progress.remaining_estimated_entries is None,
            progress.progress_permille is None,
            progress.eta_nanos is None,
    {
        ScanProgress::start(ScanPhase::Counting)
    }
}

impl Clone for ScanProgress {
    fn clone(&self) -> (copy: ScanProgress)
        ensures
            copy.same_as(self),
    {
        self.snapshot()
    }
}

impl ScanProgress {
    /// The counters.
    pub open spec fn tally(&self) -> Tally {
        Tally {
            entries: self.entries_scanned,
            files: self.files_scanned,
            directories: self.directories_scanned,
            warnings: self.warnings,
            truncated: self.truncated,
        }
    }

    /// The text of the path last met.
    pub open spec fn current_text(&self) -> Option<Seq<char>> {
        match self.current_path {
            Some(path) => Some(path@),
            None => None,
        }
    }

    /// Same phase, counters, path and figures.
    pub open spec fn same_as(&self, other: &ScanProgress) -> bool {
        &&& self.phase == other.phase
        &&& self.tally() == other.tally()
        &&& self.current_text() == other.current_text()
        &&& self.total_estimated_entries == other.total_estimated_entries
        &&& self.remaining_estimated_entries == other.remaining_estimated_entries
        &&& self.progress_permille == other.progress_permille
        &&& self.eta_nanos == other.eta_nanos
    }

    /// The progress at the start of `phase`: nothing counted, nothing known.
    pub fn start(phase: ScanPhase) -> (progress: ScanProgress)
        ensures
            progress.phase == phase,
            progress.tally() == (Tally {
                entries: 0,
                files: 0,
                directories: 0,
                warnings: 0,
                truncated: false,
            }),
            progress.current_path is None,
            progress.total_estimated_entries is None,
            progress.remaining_estimated_entries is None,
            progress.progress_permille is None,
            progress.eta_nanos is None,
    {
        ScanProgress {
            phase,
            entries_scanned: 0,
            files_scanned: 0,
            directories_scanned: 0,
            warnings: 0,
            truncated: false,
            current_path: None,
            total_estimated_entries: None,
            remaining_estimated_entries: None,
            progress_permille: None,
            eta_nanos: None,
        }
    }

    /// A copy to send away.
    pub fn snapshot(&self) -> (copy: ScanProgress)
        ensures
            copy.same_as(self),
    {
        let current_path = match &self.current_path {
            Some(path) => Some(path.clone()),
            None => None,
        };
        ScanProgress {
            phase: self.phase,
            entries_scanned: self.entries_scanned,
            files_scanned: self.files_scanned,
            directories_scanned: self.directories_scanned,
            warnings: self.warnings,
            truncated: self.truncated,
            current_path,
            total_estimated_entries: self.total_estimated_entries,
            remaining_estimated_entries: self.remaining_estimated_entries,
            progress_permille: self.progress_permille,
            eta_nanos: self.eta_nanos,
        }
    }

    /// Counts the entry at `path`, `depth` levels below the root, and says
    /// whether the walk ends here.
    fn count(&mut self, config: &ScanConfig, depth: usize, is_dir: bool, path: String) -> (stop:
        bool)
        ensures
            final(self).tally() == tally_after(
                old(self).tally(),
                config.max_files,
                Met::Entry { depth, is_dir },
            ),
            stop == stops_at(old(self).tally(), config.max_files, Met::Entry { depth, is_dir }),
            final(self).current_text() == Some(path@),
            final(self).phase == old(self).phase,
            final(self).total_estimated_entries == old(self).total_estimated_entries,
            final(self).remaining_estimated_entries == old(self).remaining_estimated_entries,
            final(self).progress_permille == old(self).progress_permille,
            final(self).eta_nanos == old(self).eta_nanos,
    {
        self.entries_scanned = self.entries_scanned.saturating_add(1);
        self.current_path = Some(path);
        if depth == 0 {
            return false;
        }
        if is_dir {
            self.directories_scanned = self.directories_scanned.saturating_add(1);
            return false;
        }
        if let Some(max_files) = config.max_files {
            if self.files_scanned >= max_files as u64 {
                self.truncated = true;
                return true;
            }
        }
        self.files_scanned = self.files_scanned.saturating_add(1);
        false
    }

    /// Whether a report is due now.
    fn due(&self, config: &ScanConfig) -> (due: bool)
        ensures
            due == report_due(self.entries_scanned, config.progress_interval),
    {
        if config.progress_interval <= 1 {
            true
        } else {
            self.entries_scanned % (config.progress_interval as u64) == 0
        }
    }

    /// The counting walk meets an entry.
    pub fn count_entry(&mut self, config: &ScanConfig, depth: usize, is_dir: bool, path: String) -> (next:
        Next)
        ensures
            final(self).tally() == tally_after(
                old(self).tally(),
                config.max_files,
                Met::Entry { depth, is_dir },
            ),
            next == next_after(old(self).tally(), *config, Met::Entry { depth, is_dir }),
            final(self).current_text() == Some(path@),
            final(self).phase == old(self).phase,
            final(self).total_estimated_entries == old(self).total_estimated_entries,
            final(self).remaining_estimated_entries == old(self).remaining_estimated_entries,
            final(self).progress_permille == old(self).progress_permille,
            final(self).eta_nanos == old(self).eta_nanos,
    {
        if self.count(config, depth, is_dir, path) {
            return Next::Stop;
        }
        if depth == 0 {
            return Next::Continue;
        }
        if self.due(config) {
            Next::Report
        } else {
            Next::Continue
        }
    }

    /// The walk fails to read an entry: a warning.
    pub fn count_failure(&mut self, config: &ScanConfig) -> (next: Next)
        ensures
            final(self).tally() == tally_after(old(self).tally(), config.max_files, Met::Failure),
            next == next_after(old(self).tally(), *config, Met::Failure),
            final(self).current_text() == old(self).current_text(),
            final(self).phase == old(self).phase,
            final(self).total_estimated_entries == old(self).total_estimated_entries,
            final(self).remaining_estimated_entries == old(self).remaining_estimated_entries,
            final(self).progress_permille == old(self).progress_permille,
            final(self).eta_nanos == old(self).eta_nanos,
    {
        self.warnings = self.warnings.saturating_add(1);
        if self.due(config) {
            Next::Report
        } else {
            Next::Continue
        }
    }

    /// Ends the counting walk: the estimate is the number of entries
    /// counted, at least 1.
    pub fn finish_counting(&mut self) -> (estimate: u64)
        ensures
            estimate == (if old(self).entries_scanned == 0 {
                1
            } else {
                old(self).entries_scanned
            }),
            final(self).total_estimated_entries == Some(estimate),
            final(self).tally() == old(self).tally(),
            final(self).current_text() == old(self).current_text(),
            final(self).phase == old(self).phase,
            final(self).remaining_estimated_entries == old(self).remaining_estimated_entries,
            final(self).progress_permille == old(self).progress_permille,
            final(self).eta_nanos == old(self).eta_nanos,
    {
        let estimate = if self.entries_scanned == 0 {
            1
        } else {
            self.entries_scanned
        };
        self.total_estimated_entries = Some(estimate);
        estimate
    }
}

/// Brings the figures of a report up to date: the progress, the entries
/// left and the time left, `elapsed_nanos` nanoseconds into the walk. The
/// progress never goes down from one report to the next, and is 1000
/// exactly when the scan is finished.
pub fn update_scan_progress_metrics(progress: &mut ScanProgress, elapsed_nanos: u64, finished: bool)
    ensures
        final(progress).progress_permille == Some(
            next_permille(
                old(progress).progress_permille,
                old(progress).entries_scanned,
                old(progress).total_estimated_entries,
                finished,
            ) as u32,
        ),
        final(progress).progress_permille->0 == 1000 <==> finished || old(
            progress,
        ).progress_permille == Some(1000u32),
        old(progress).progress_permille is Some && old(progress).progress_permille->0 <= 1000
            ==> final(progress).progress_permille->0 >= old(progress).progress_permille->0,
        final(progress).progress_permille->0 <= 1000 || final(progress).progress_permille == old(
            progress,
        ).progress_permille,
        final(progress).remaining_estimated_entries == Some(
            remaining_entries(
                old(progress).entries_scanned,
                old(progress).total_estimated_entries,
                finished,
            ) as u64,
        ),
        final(progress).eta_nanos == (match eta_after(
            old(progress).entries_scanned,
            old(progress).total_estimated_entries,
            elapsed_nanos,
            finished,
        ) {
            Some(nanos) => Some(nanos as u128),
            None => None,
        }),
        final(progress).tally() == old(progress).tally(),
        final(progress).current_text() == old(progress).current_text(),
        final(progress).phase == old(progress).phase,
        final(progress).total_estimated_entries == old(progress).total_estimated_entries,
{
    let total: u64 = match progress.total_estimated_entries {
        Some(total) => if total == 0 {
            1
        } else {
            total
        },
        None => 1,
    };
    let entries = progress.entries_scanned;
    assert(entries * 1000 <= 0xffff_ffff_ffff_ffff * 1000);
    let scaled: u128 = (entries as u128) * 1000 / (total as u128);
    let mut permille: u32 = if finished {
        1000
    } else if scaled >= 999 {
        999
    } else {
        scaled as u32
    };
    if let Some(previous) = progress.progress_permille {
        if !finished && previous > permille {
            permille = previous;
        }
    }
    progress.progress_permille = Some(permille);
    let remaining: u64 = if finished || entries >= total {
        0
    } else {
        total - entries
    };
    progress.remaining_estimated_entries = Some(remaining);
    if finished {
        progress.eta_nanos = Some(0);
        return ;
    }
    if entries == 0 || elapsed_nanos == 0 {
        progress.eta_nanos = None;
        return ;
    }
    assert(remaining * elapsed_nanos <= 0xffff_ffff_ffff_ffff * 0xffff_ffff_ffff_ffff)
        by (nonlinear_arith)
        requires
            remaining <= 0xffff_ffff_ffff_ffff,
            elapsed_nanos <= 0xffff_ffff_ffff_ffff,
    ;
    let nanos: u128 = (remaining as u128) * (elapsed_nanos as u128) / (entries as u128);
    progress.eta_nanos = Some(nanos);
}


/// The final figures of a scan. `elapsed_nanos` is for the caller to fill
/// in, who holds the clock.
#[derive(Debug, Clone, Copy)]
pub struct ScanStats {
    pub entries_scanned: u64,
    pub files_scanned: u64,
    pub directories_scanned: u64,
    pub warnings: u64,
    pub truncated: bool,
    pub estimated_total_entries: Option<u64>,
    pub elapsed_nanos: u128,
}

impl Default for ScanStats {
    fn default() -> (stats: ScanStats)
        ensures
            stats.entries_scanned == 0,
            stats.files_scanned == 0,
            stats.directories_scanned == 0,
            stats.warnings == 0,
            !stats.truncated,
            stats.estimated_total_entries is None,
            stats.elapsed_nanos == 0,
    {
        ScanStats {
            entries_scanned: 0,
            files_scanned: 0,
            directories_scanned: 0,
            warnings: 0,
            truncated: false,
            estimated_total_entries: None,
            elapsed_nanos: 0,
        }
    }
}

/// What a scan hands over when it is done: the finalized tree, the final
/// figures, and the warnings in the order in which they arose.
#[derive(Debug)]
pub struct ScanResult {
    pub root: Node,
    pub stats: ScanStats,
    pub warnings: Vec<String>,
}

impl Clone for ScanResult {
    fn clone(&self) -> (copy: ScanResult)
        ensures
            copy.root@ == self.root@,
            copy.stats == self.stats,
            texts_of(copy.warnings@) == texts_of(self.warnings@),
    {
        let mut warnings: Vec<String> = Vec::new();
        let mut i: usize = 0;
        proof {
            assert(texts_of(warnings@) =~= texts_of(self.warnings@).subrange(0, 0));
        }
        while i < self.warnings.len()
            invariant
                i <= self.warnings@.len(),
                texts_of(warnings@) == texts_of(self.warnings@).subrange(0, i as int),
            decreases self.warnings@.len() - i,
        {
            let ghost earlier = texts_of(warnings@);
            let warning = self.warnings[i].clone();
            assert(warning@ == self.warnings@[i as int]@);
            warnings.push(warning);
            i += 1;
            proof {
                assert(texts_of(warnings@) =~= earlier.push(warning@));
                assert(texts_of(warnings@) =~= texts_of(self.warnings@).subrange(0, i as int));
            }
        }
        proof {
            assert(texts_of(self.warnings@).subrange(0, i as int) =~= texts_of(self.warnings@));
        }
        ScanResult { root: self.root.clone(), stats: self.stats, warnings }
    }
}

/// What the scanning side sends: progress reports, then once the result or
/// the reason why there is none.
#[derive(Debug)]
pub enum ScanMessage {
    Progress(ScanProgress),
    Finished(Result<ScanResult, String>),
}

/// An entry as the second walk meets it: how deep it lies, whether it is a
/// directory, its path, its path relative to the root where it has one, and
/// for a file its size, or the reason why the size could not be read.
#[derive(Debug)]
pub struct WalkEntry {
    pub depth: usize,
    pub is_dir: bool,
    pub path: String,
    pub relative: Option<String>,
    pub size: Result<u64, String>,
}

/// The tree under construction with the progress and the warnings so far.
#[derive(Debug)]
pub struct Scan {
    pub root: Node,
    pub progress: ScanProgress,
    pub warnings: Vec<String>,
}

/// Whether an entry goes into the tree: it is below the root, it does not
/// end the walk, and it has a relative path that is not empty.
pub open spec fn is_inserted(tally: Tally, max_files: Option<usize>, entry: WalkEntry) -> bool {
    &&& entry.depth > 0
    &&& !stops_at(tally, max_files, Met::Entry { depth: entry.depth, is_dir: entry.is_dir })
    &&& entry.relative is Some
    &&& entry.relative->0@.len() > 0
}

/// The size that an entry goes into the tree with: for a file the size
/// read, for a directory and for a file whose size could not be read, zero.
pub open spec fn inserted_size(entry: WalkEntry) -> u64 {
    if entry.is_dir {
        0
    } else {
        match entry.size {
            Ok(size) => size,
            Err(_) => 0,
        }
    }
}

/// Whether an entry leaves a warning: it goes into the tree, it is a file,
/// and its size could not be read.
pub open spec fn is_unreadable(tally: Tally, max_files: Option<usize>, entry: WalkEntry) -> bool {
    is_inserted(tally, max_files, entry) && !entry.is_dir && entry.size is Err
}

/// The warning for a file whose size could not be read.
pub open spec fn metadata_warning(path: Seq<char>, reason: Seq<char>) -> Seq<char> {
    "Could not read metadata for "@ + path + ": "@ + reason
}

/// The warning for an entry that the walk could not read.
pub open spec fn access_warning(path: Option<Seq<char>>, reason: Seq<char>) -> Seq<char> {
    match path {
        Some(path) => "Could not access "@ + path + ": "@ + reason,
        None => "Walkdir error: "@ + reason,
    }
}

/// The counters after the second walk has met `entry`.
pub open spec fn scan_tally_after(tally: Tally, max_files: Option<usize>, entry: WalkEntry) -> Tally {
    let counted = tally_after(
        tally,
        max_files,
        Met::Entry { depth: entry.depth, is_dir: entry.is_dir },
    );
    if is_unreadable(tally, max_files, entry) {
        Tally { warnings: bump(counted.warnings), ..counted }
    } else {
        counted
    }
}

/// What the second walk does after `entry`: as the counting walk, but an
/// entry without a relative path is passed over.
pub open spec fn scan_next_after(tally: Tally, config: ScanConfig, entry: WalkEntry) -> Next {
    if stops_at(tally, config.max_files, Met::Entry { depth: entry.depth, is_dir: entry.is_dir }) {
        Next::Stop
    } else if !is_inserted(tally, config.max_files, entry) {
        Next::Continue
    } else if report_due(bump(tally.entries), config.progress_interval) {
        Next::Report
    } else {
        Next::Continue
    }
}

/// The text of the warning for a file whose size could not be read.
pub fn metadata_warning_text(path: &str, reason: &str) -> (message: String)
    ensures
        message@ == metadata_warning(path@, reason@),
{
    let mut message = String::from_str("Could not read metadata for ");
    message.append(path);
    message.append(": ");
    message.append(reason);
    message
}

/// The text of the warning for an entry that the walk could not read.
pub fn access_warning_text(path: Option<&str>, reason: &str) -> (message: String)
    ensures
        message@ == access_warning(
            match path {
                Some(path) => Some(path@),
                None => None,
            },
            reason@,
        ),
{
    match path {
        Some(path) => {
            let mut message = String::from_str("Could not access ");
            message.append(path);
            message.append(": ");
            message.append(reason);
            message
        },
        None => {
            let mut message = String::from_str("Walkdir error: ");
            message.append(reason);
            message
        },
    }
}

impl Scan {
    /// The state at the start of the second walk: a tree that holds the
    /// root alone, the estimate of the first walk (at least 1), progress 0.
    pub fn begin(root_name: String, root_path: String, estimated_total_entries: u64) -> (scan:
        Scan)
        ensures
            scan.root@ == leaf(root_name@, root_path@, 0),
            scan.warnings@.len() == 0,
            scan.progress.phase == ScanPhase::Scanning,
            scan.progress.tally() == (Tally {
                entries: 0,
                files: 0,
                directories: 0,
                warnings: 0,
                truncated: false,
            }),
            scan.progress.current_path is None,
            scan.progress.total_estimated_entries == Some(
                if estimated_total_entries == 0 {
                    1u64
                } else {
                    estimated_total_entries
                },
            ),
            scan.progress.remaining_estimated_entries is None,
            scan.progress.progress_permille == Some(0u32),
            scan.progress.eta_nanos is None,
    {
        let mut progress = ScanProgress::start(ScanPhase::Scanning);
        progress.total_estimated_entries = Some(
            if estimated_total_entries == 0 {
                1
            } else {
                estimated_total_entries
            },
        );
        progress.progress_permille = Some(0);
        Scan { root: Node::new(root_name, root_path, 0), progress, warnings: Vec::new() }
    }

    /// Whether the size of an entry has to be read before it is handed to
    /// [`entry`]: it is a file that will go into the tree. For any other
    /// entry the size is not looked at.
    ///
    /// [`entry`]: Scan::entry
    pub fn needs_size(&self, config: &ScanConfig, depth: usize, is_dir: bool, relative: &Option<
        String,
    >) -> (needed: bool)
        ensures
            needed == (depth > 0 && !is_dir && !file_limit_reached(
                self.progress.files_scanned,
                config.max_files,
            ) && relative is Some && relative->0@.len() > 0),
            forall|entry: WalkEntry|
                entry.depth == depth && entry.is_dir == is_dir && entry.relative == *relative
                    ==> needed == (#[trigger] is_inserted(
                    self.progress.tally(),
                    config.max_files,
                    entry,
                ) && !is_dir),
    {
        if depth == 0 || is_dir {
            return false;
        }
        if let Some(max_files) = config.max_files {
            if self.progress.files_scanned >= max_files as u64 {
                return false;
            }
        }
        match relative {
            Some(relative) => !relative.as_str().is_empty(),
            None => false,
        }
    }

    /// The second walk meets an entry: it is counted and, unless it is the
    /// root, ends the walk or has no relative path, goes into the tree.
    pub fn entry(&mut self, config: &ScanConfig, entry: WalkEntry) -> (next: Next)
        ensures
            final(self).progress.tally() == scan_tally_after(
                old(self).progress.tally(),
                config.max_files,
                entry,
            ),
            next == scan_next_after(old(self).progress.tally(), *config, entry),
            final(self).root@ == (if is_inserted(
                old(self).progress.tally(),
                config.max_files,
                entry,
            ) {
                insert_spec(
                    old(self).root@,
                    path_components(entry.relative->0@),
                    0,
                    inserted_size(entry),
                )
            } else {
                old(self).root@
            }),
            texts_of(final(self).warnings@) == (if is_unreadable(
                old(self).progress.tally(),
                config.max_files,
                entry,
            ) {
                texts_of(old(self).warnings@).push(
                    metadata_warning(entry.path@, entry.size->Err_0@),
                )
            } else {
                texts_of(old(self).warnings@)
            }),
            final(self).progress.current_text() == Some(entry.path@),
            final(self).progress.phase == old(self).progress.phase,
            final(self).progress.total_estimated_entries == old(
                self,
            ).progress.total_estimated_entries,
            final(self).progress.remaining_estimated_entries == old(
                self,
            ).progress.remaining_estimated_entries,
            final(self).progress.progress_permille == old(self).progress.progress_permille,
            final(self).progress.eta_nanos == old(self).progress.eta_nanos,
    {
        let WalkEntry { depth, is_dir, path, relative, size } = entry;
        let ghost before = texts_of(self.warnings@);
        proof {
            assert(texts_of(self.warnings@) =~= before);
        }
        if self.progress.count(config, depth, is_dir, path.clone()) {
            return Next::Stop;
        }
        if depth == 0 {
            return Next::Continue;
        }
        let relative = match relative {
            Some(relative) => relative,
            None => {
                return Next::Continue;
            },
        };
        if relative.as_str().is_empty() {
            return Next::Continue;
        }
        let size: u64 = if is_dir {
            0
        } else {
            match size {
                Ok(size) => size,
                Err(reason) => {
                    self.progress.warnings = self.progress.warnings.saturating_add(1);
                    self.warnings.push(metadata_warning_text(path.as_str(), reason.as_str()));
                    proof {
                        assert(texts_of(self.warnings@) =~= before.push(
                            metadata_warning(path@, reason@),
                        ));
                    }
                    0
                },
            }
        };
        self.root.insert_relative(relative.as_str(), size);
        if self.progress.due(config) {
            Next::Report
        } else {
            Next::Continue
        }
    }

    /// The second walk fails to read an entry: a warning with its text.
    pub fn failure(&mut self, config: &ScanConfig, message: String) -> (next: Next)
        ensures
            final(self).progress.tally() == tally_after(
                old(self).progress.tally(),
                config.max_files,
                Met::Failure,
            ),
            next == next_after(old(self).progress.tally(), *config, Met::Failure),
            final(self).root@ == old(self).root@,
            texts_of(final(self).warnings@) == texts_of(old(self).warnings@).push(message@),
            final(self).progress.current_text() == old(self).progress.current_text(),
            final(self).progress.phase == old(self).progress.phase,
            final(self).progress.total_estimated_entries == old(
                self,
            ).progress.total_estimated_entries,
            final(self).progress.remaining_estimated_entries == old(
                self,
            ).progress.remaining_estimated_entries,
            final(self).progress.progress_permille == old(self).progress.progress_permille,
            final(self).progress.eta_nanos == old(self).progress.eta_nanos,
    {
        let ghost before = texts_of(self.warnings@);
        self.warnings.push(message);
        proof {
            assert(texts_of(self.warnings@) =~= before.push(message@));
        }
        self.progress.count_failure(config)
    }

    /// The figures for a report, `elapsed_nanos` nanoseconds into the
    /// second walk, and a copy of the progress to send.
    pub fn report(&mut self, elapsed_nanos: u64) -> (copy: ScanProgress)
        ensures
            copy.same_as(&final(self).progress),
            final(self).root@ == old(self).root@,
            texts_of(final(self).warnings@) == texts_of(old(self).warnings@),
            final(self).progress.tally() == old(self).progress.tally(),
            final(self).progress.progress_permille == Some(
                next_permille(
                    old(self).progress.progress_permille,
                    old(self).progress.entries_scanned,
                    old(self).progress.total_estimated_entries,
                    false,
                ) as u32,
            ),
            old(self).progress.progress_permille is Some && old(self).progress.progress_permille->0
                <= 1000 ==> final(self).progress.progress_permille->0 >= old(
                self,
            ).progress.progress_permille->0,
            final(self).progress.remaining_estimated_entries == Some(
                remaining_entries(
                    old(self).progress.entries_scanned,
                    old(self).progress.total_estimated_entries,
                    false,
                ) as u64,
            ),
            final(self).progress.eta_nanos == (match eta_after(
                old(self).progress.entries_scanned,
                old(self).progress.total_estimated_entries,
                elapsed_nanos,
                false,
            ) {
                Some(nanos) => Some(nanos as u128),
                None => None,
            }),
            final(self).progress.current_text() == old(self).progress.current_text(),
            final(self).progress.phase == old(self).progress.phase,
            final(self).progress.total_estimated_entries == old(
                self,
            ).progress.total_estimated_entries,
    {
        update_scan_progress_metrics(&mut self.progress, elapsed_nanos, false);
        self.progress.snapshot()
    }

    /// Ends the scan: the sizes of the directories are added up, the
    /// children put in order, and the last report shows 1000.
    pub fn finish(self) -> (done: (ScanResult, ScanProgress))
        ensures
            done.0.root@ == sorted_desc(finalized(self.root@)),
            texts_of(done.0.warnings@) == texts_of(self.warnings@),
            done.0.stats.entries_scanned == self.progress.entries_scanned,
            done.0.stats.files_scanned == self.progress.files_scanned,
            done.0.stats.directories_scanned == self.progress.directories_scanned,
            done.0.stats.warnings == self.progress.warnings,
            done.0.stats.truncated == self.progress.truncated,
            done.0.stats.estimated_total_entries == self.progress.total_estimated_entries,
            done.0.stats.elapsed_nanos == 0,
            done.1.tally() == self.progress.tally(),
            done.1.phase == self.progress.phase,
            done.1.progress_permille == Some(1000u32),
            done.1.remaining_estimated_entries == Some(0u64),
            done.1.eta_nanos == Some(0u128),
            done.1.total_estimated_entries == self.progress.total_estimated_entries,
            done.1.current_text() == self.progress.current_text(),
    {
        let Scan { root, progress, warnings } = self;
        let mut root = root;
        let mut progress = progress;
        root.compute_total_size();
        root.sort_children_by_size_desc();
        update_scan_progress_metrics(&mut progress, 0, true);
        let stats = ScanStats {
            entries_scanned: progress.entries_scanned,
            files_scanned: progress.files_scanned,
            directories_scanned: progress.directories_scanned,
            warnings: progress.warnings,
            truncated: progress.truncated,
            estimated_total_entries: progress.total_estimated_entries,
            elapsed_nanos: 0,
        };
        (ScanResult { root, stats, warnings }, progress)
    }
}

/// Whether the scan of `path` can start: the path must exist and be a
/// directory. These are the only reasons for which a scan fails.
pub fn check_root(path: &str, exists: bool, is_dir: bool) -> (checked: Result<(), String>)
    ensures
        checked is Ok <==> exists && is_dir,
        !exists ==> checked->Err_0@ == "Directory does not exist: "@ + path@,
        exists && !is_dir ==> checked->Err_0@ == "Path is not a directory: "@ + path@,
{
    if !exists {
        let mut message = String::from_str("Directory does not exist: ");
        message.append(path);
        return Err(message);
    }
    if !is_dir {
        let mut message = String::from_str("Path is not a directory: ");
        message.append(path);
        return Err(message);
    }
    Ok(())
}


/// walkdir's error: what its iterator yields for an entry it cannot read.
#[verifier::external_type_specification]
#[verifier::external_body]
pub struct ExWalkdirError(walkdir::Error);

/// The path that a walkdir error is about, as text, where it has one: what
/// `walkdir::Error::path` returns for it.
pub uninterp spec fn error_path_of(error: walkdir::Error) -> Option<Seq<char>>;

/// `walkdir::Error::path`, as text: the path that the error is about,
/// where it has one. The path is a part of the error; the contract gives
/// it its name and claims nothing of what the text is.
#[verifier::external_body]
fn walkdir_error_path(error: &walkdir::Error) -> (path: Option<String>)
    ensures
        match path {
            Some(text) => error_path_of(*error) == Some(text@),
            None => error_path_of(*error) is None,
        },
{
    match error.path() {
        Some(path) => Some(path.display().to_string()),
        None => None,
    }
}

/// The `Display` text of a `walkdir::Error`. Nothing is claimed of the text.
#[verifier::external_body]
fn walkdir_error_text(error: &walkdir::Error) -> (text: String) {
    error.to_string()
}

/// The warning for an entry that the walk could not read: an access
/// warning that names the error's path, where it has one, with the
/// error's own text as the reason.
pub fn format_walkdir_error(error: &walkdir::Error) -> (message: String)
    ensures
        exists|reason: Seq<char>|
            message@ == #[trigger] access_warning(error_path_of(*error), reason),
{
    let path = walkdir_error_path(error);
    let reason = walkdir_error_text(error);
    match path {
        Some(path) => {
            let message = access_warning_text(Some(path.as_str()), reason.as_str());
            assert(message@ == access_warning(Some(path@), reason@));
            message
        },
        None => {
            let message = access_warning_text(None, reason.as_str());
            assert(message@ == access_warning(None, reason@));
            message
        },
    }
}

/// What one look into the channel finds.
#[derive(Debug)]
pub enum Polled {
    /// A message.
    Message(ScanMessage),
    /// Nothing yet.
    Empty,
    /// Nothing, and nothing will come: the sender is gone.
    Disconnected,
}

/// What the receiving side does after one look into the channel.
#[derive(Debug)]
pub enum Received {
    /// A progress report: keep it and look again.
    Progress(ScanProgress),
    /// Nothing yet: look again later.
    Wait,
    /// The scan has ended.
    Done(Result<ScanResult, String>),
}

/// The text of the error for a scan whose sender went away without a
/// result.
pub open spec fn disconnected_text() -> Seq<char> {
    "Scan worker disconnected unexpectedly"@
}

/// Decides what one look into the channel means. A result ends the scan;
/// a channel that can yield no more ends it with an error, so that the
/// receiver never waits for ever.
pub fn receive(polled: Polled) -> (received: Received)
    ensures
        match polled {
            Polled::Message(ScanMessage::Progress(progress)) => received == Received::Progress(
                progress,
            ),
            Polled::Message(ScanMessage::Finished(result)) => received == Received::Done(result),
            Polled::Empty => received is Wait,
            Polled::Disconnected => received is Done && received->Done_0 is Err
                && received->Done_0->Err_0@ == disconnected_text(),
        },
{
    match polled {
        Polled::Message(ScanMessage::Progress(progress)) => Received::Progress(progress),
        Polled::Message(ScanMessage::Finished(result)) => Received::Done(result),
        Polled::Empty => Received::Wait,
        Polled::Disconnected => Received::Done(
            Err(String::from_str("Scan worker disconnected unexpectedly")),
        ),
    }
}

/// The number of the next scan. Numbers wrap round.
pub fn next_generation(current: u64) -> (next: u64)
    ensures
        next == (if current == u64::MAX {
            0
        } else {
            current + 1
        }),
        next != current,
{
    current.wrapping_add(1)
}

/// A file below the root.
pub open spec fn is_file(met: Met) -> bool {
    met is Entry && met->depth > 0 && !met->is_dir
}

/// How many files below the root a walk meets.
pub open spec fn files_in(mets: Seq<Met>) -> nat
    decreases mets.len(),
{
    if mets.len() == 0 {
        0
    } else if is_file(mets[0]) {
        1 + files_in(mets.drop_first())
    } else {
        files_in(mets.drop_first())
    }
}

/// The counters at the end of a walk that meets `mets` in this order and
/// ends early where the file limit tells it to.
pub open spec fn tally_run(tally: Tally, max_files: Option<usize>, mets: Seq<Met>) -> Tally
    decreases mets.len(),
{
    if mets.len() == 0 {
        tally
    } else if stops_at(tally, max_files, mets[0]) {
        tally_after(tally, max_files, mets[0])
    } else {
        tally_run(tally_after(tally, max_files, mets[0]), max_files, mets.drop_first())
    }
}

/// With a file limit, a walk never counts more files than the limit. If
/// it meets more, the result is marked as truncated; if it does not, every
/// file is counted and the mark is left as it was.
pub proof fn lemma_truncation_bound(tally: Tally, limit: usize, mets: Seq<Met>)
    requires
        tally.files <= limit,
    ensures
        tally_run(tally, Some(limit), mets).files <= limit,
        tally.files + files_in(mets) > limit ==> tally_run(tally, Some(limit), mets).truncated,
        tally.files + files_in(mets) <= limit ==> tally_run(tally, Some(limit), mets).files
            == tally.files + files_in(mets) && tally_run(tally, Some(limit), mets).truncated
            == tally.truncated,
    decreases mets.len(),
{
    if mets.len() > 0 && !stops_at(tally, Some(limit), mets[0]) {
        lemma_truncation_bound(tally_after(tally, Some(limit), mets[0]), limit, mets.drop_first());
    }
}

/// Reading a file's size changes neither the count of files nor the mark:
/// the bound holds of the second walk as of the first.
pub proof fn lemma_scan_tally(tally: Tally, max_files: Option<usize>, entry: WalkEntry)
    ensures
        scan_tally_after(tally, max_files, entry).files == tally_after(
            tally,
            max_files,
            Met::Entry { depth: entry.depth, is_dir: entry.is_dir },
        ).files,
        scan_tally_after(tally, max_files, entry).truncated == tally_after(
            tally,
            max_files,
            Met::Entry { depth: entry.depth, is_dir: entry.is_dir },
        ).truncated,
        scan_tally_after(tally, max_files, entry).entries == bump(tally.entries),
{
}

/// The counters at the end of a second walk that meets `entries` in this
/// order and ends early where the file limit tells it to.
pub open spec fn scan_run(tally: Tally, max_files: Option<usize>, entries: Seq<WalkEntry>) -> Tally
    decreases entries.len(),
{
    if entries.len() == 0 {
        tally
    } else if stops_at(
        tally,
        max_files,
        Met::Entry { depth: entries[0].depth, is_dir: entries[0].is_dir },
    ) {
        scan_tally_after(tally, max_files, entries[0])
    } else {
        scan_run(scan_tally_after(tally, max_files, entries[0]), max_files, entries.drop_first())
    }
}

/// How many files such a walk puts into the tree.
pub open spec fn files_inserted(tally: Tally, max_files: Option<usize>, entries: Seq<WalkEntry>) -> nat
    decreases entries.len(),
{
    if entries.len() == 0 || stops_at(
        tally,
        max_files,
        Met::Entry { depth: entries[0].depth, is_dir: entries[0].is_dir },
    ) {
        0
    } else {
        let here: nat = if is_inserted(tally, max_files, entries[0]) && !entries[0].is_dir {
            1
        } else {
            0
        };
        here + files_inserted(
            scan_tally_after(tally, max_files, entries[0]),
            max_files,
            entries.drop_first(),
        )
    }
}

/// With a file limit, the second walk puts no more files into the tree
/// than it counts, and counts no more than the limit.
pub proof fn lemma_inserted_files_bound(tally: Tally, limit: usize, entries: Seq<WalkEntry>)
    requires
        tally.files <= limit,
    ensures
        tally.files + files_inserted(tally, Some(limit), entries) <= scan_run(
            tally,
            Some(limit),
            entries,
        ).files <= limit,
    decreases entries.len(),
{
    if entries.len() > 0 && !stops_at(
        tally,
        Some(limit),
        Met::Entry { depth: entries[0].depth, is_dir: entries[0].is_dir },
    ) {
        lemma_inserted_files_bound(
            scan_tally_after(tally, Some(limit), entries[0]),
            limit,
            entries.drop_first(),
        );
    }
}

/// The progress that the reports of one scan show: one report at each of
/// the entry counts `counts`, then the last report.
pub open spec fn reports(previous: Option<u32>, total: Option<u64>, counts: Seq<u64>) -> Seq<int>
    decreases counts.len(),
{
    if counts.len() == 0 {
        seq![next_permille(previous, 0, total, true)]
    } else {
        let shown = next_permille(previous, counts[0], total, false);
        seq![shown] + reports(Some(shown as u32), total, counts.drop_first())
    }
}

/// A report shows at most 1000, and no less than the report before it.
pub proof fn lemma_next_permille(
    previous: Option<u32>,
    entries: u64,
    total: Option<u64>,
    finished: bool,
)
    requires
        previous is Some ==> previous->0 <= 1000,
    ensures
        0 <= next_permille(previous, entries, total, finished) <= 1000,
        previous is Some ==> previous->0 <= next_permille(previous, entries, total, finished),
        finished ==> next_permille(previous, entries, total, finished) == 1000,
        !finished && previous != Some(1000u32) ==> next_permille(previous, entries, total, finished)
            < 1000,
{
    let whole: int = if total is Some && total->0 > 0 {
        total->0 as int
    } else {
        1
    };
    assert(0 <= entries * 1000 / whole) by (nonlinear_arith)
        requires
            entries >= 0,
            whole > 0,
    ;
}

/// Over one scan the progress shown never goes down, and the last report
/// shows exactly 1000.
pub proof fn lemma_progress_monotonic(previous: Option<u32>, total: Option<u64>, counts: Seq<u64>)
    requires
        previous is Some ==> previous->0 <= 1000,
    ensures
        reports(previous, total, counts).len() == counts.len() + 1,
        reports(previous, total, counts).last() == 1000,
        forall|i: int|
            0 <= i < reports(previous, total, counts).len() ==> 0 <= #[trigger] reports(
                previous,
                total,
                counts,
            )[i] <= 1000 && (previous is Some ==> previous->0 <= reports(previous, total, counts)[i]),
        forall|i: int, j: int|
            0 <= i <= j < reports(previous, total, counts).len() ==> #[trigger] reports(
                previous,
                total,
                counts,
            )[i] <= #[trigger] reports(previous, total, counts)[j],
    decreases counts.len(),
{
    let all = reports(previous, total, counts);
    if counts.len() == 0 {
        lemma_next_permille(previous, 0, total, true);
    } else {
        lemma_next_permille(previous, counts[0], total, false);
        let shown = next_permille(previous, counts[0], total, false);
        let later = reports(Some(shown as u32), total, counts.drop_first());
        lemma_progress_monotonic(Some(shown as u32), total, counts.drop_first());
        assert(all == seq![shown] + later);
        assert forall|i: int| 0 <= i < all.len() implies 0 <= #[trigger] all[i] <= 1000 && (
        previous is Some ==> previous->0 <= all[i]) by {
            if i > 0 {
                assert(all[i] == later[i - 1]);
            }
        }
        assert forall|i: int, j: int| 0 <= i <= j < all.len() implies #[trigger] all[i]
            <= #[trigger] all[j] by {
            if i > 0 {
                assert(all[i] == later[i - 1]);
                assert(all[j] == later[j - 1]);
            } else if j > 0 {
                assert(all[j] == later[j - 1]);
            }
        }
        assert(all.last() == later.last());
    }
}

} // verus!
