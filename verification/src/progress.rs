//! Live progress: what a session is doing right now.
//!
//! A recorded status says how the last cycle ended, which is the wrong answer
//! while a cycle runs. So a session also publishes what it is doing: its
//! worker and its two sides count as the cycle moves, and a snapshot of the
//! counts can be shown at any time.
use crate::clock::clock_millis;
use crate::command::format::{law_the_nearest_is_half_a_unit_off_at_most, nearest};
use vstd::prelude::*;

verus! {

/// What a session is doing.
#[derive(Clone, Copy, Debug, PartialEq, Eq, Structural)]
pub enum Phase {
    /// Between cycles.
    Waiting,
    /// Opening the connection to the destination.
    Connecting,
    /// Walking the trees.
    Scanning,
    /// Comparing what the scans found.
    Reconciling,
    /// Moving content to where it is needed.
    Staging,
    /// Changing the trees.
    Applying,
    /// Recording what was agreed.
    Saving,
    /// Stopped by the user.
    Paused,
    /// Waiting out a failure.
    Retrying,
}

impl Phase {
    /// The word for the phase.
    pub open spec fn text(self) -> Seq<char> {
        match self {
            Phase::Waiting => "waiting"@,
            Phase::Connecting => "connecting"@,
            Phase::Scanning => "scanning"@,
            Phase::Reconciling => "reconciling"@,
            Phase::Staging => "transferring"@,
            Phase::Applying => "applying"@,
            Phase::Saving => "saving"@,
            Phase::Paused => "paused"@,
            Phase::Retrying => "retrying"@,
        }
    }

    /// The word for the phase.
    pub fn label(self) -> (r: &'static str)
        ensures
            r@ == self.text(),
    {
        match self {
            Phase::Waiting => "waiting",
            Phase::Connecting => "connecting",
            Phase::Scanning => "scanning",
            Phase::Reconciling => "reconciling",
            Phase::Staging => "transferring",
            Phase::Applying => "applying",
            Phase::Saving => "saving",
            Phase::Paused => "paused",
            Phase::Retrying => "retrying",
        }
    }

    /// Whether the session is in the middle of something.
    pub fn is_working(self) -> (r: bool)
        ensures
            r == (self != Phase::Waiting),
    {
        match self {
            Phase::Waiting => false,
            _ => true,
        }
    }
}

// ---------------------------------------------------------------------------
// Estimates
// ---------------------------------------------------------------------------

/// How long a phase has to have run before its rate says anything, in
/// milliseconds.
pub const MINIMUM_ELAPSED: u64 = 3000;

/// How much has to be done before a rate says anything.
pub const MINIMUM_DONE: u64 = 64;

/// The time left, in nanoseconds, at the rate so far.
pub open spec fn time_left(done: int, expected: int, elapsed: int) -> int {
    nearest((expected - done) * elapsed * 1000000, done)
}

/// The longest time left that is told, in milliseconds: more seconds than a
/// word holds cannot be shown.
pub open spec fn longest_left() -> int {
    u64::MAX * 1000
}

/// The estimate of the time left: `None` where there is no rate worth
/// extrapolating.
pub open spec fn estimated(done: int, expected: int, elapsed: int) -> Option<int> {
    if elapsed < MINIMUM_ELAPSED || done < MINIMUM_DONE || expected <= done || (expected - done)
        * elapsed / done >= longest_left() {
        None
    } else {
        Some(time_left(done, expected, elapsed))
    }
}

proof fn lemma_split(x: int, d: int)
    requires
        x >= 0,
        d > 0,
    ensures
        nearest(x * 1000000, d) == (x / d) * 1000000 + nearest((x % d) * 1000000, d),
{
    let q = x / d;
    let r = x % d;
    let a = (r * 1000000) / d;
    let b = (r * 1000000) % d;
    assert(x == q * d + r) by (nonlinear_arith)
        requires
            q == x / d,
            r == x % d,
            d > 0,
    ;
    assert(r * 1000000 == a * d + b && 0 <= b < d) by (nonlinear_arith)
        requires
            a == (r * 1000000) / d,
            b == (r * 1000000) % d,
            d > 0,
    ;
    assert(x * 1000000 == (q * 1000000 + a) * d + b) by (nonlinear_arith)
        requires
            x == q * d + r,
            r * 1000000 == a * d + b,
    ;
    vstd::arithmetic::div_mod::lemma_fundamental_div_mod_converse(
        x * 1000000,
        d,
        q * 1000000 + a,
        b,
    );
    assert((q * 1000000 + a) % 2 == a % 2);
}

/// The time left of a phase, in nanoseconds, by what is done of what is
/// expected after so many milliseconds. `None` where too little time has
/// passed or too little is done to have measured a rate, where the total is
/// wrong, being reached, or where the answer is longer than can be shown.
pub fn estimate_remaining(done: u64, expected: u64, elapsed: u64) -> (r: Option<u128>)
    ensures
        match r {
            Some(left) => estimated(done as int, expected as int, elapsed as int) == Some(
                left as int,
            ),
            None => estimated(done as int, expected as int, elapsed as int) is None,
        },
        r matches Some(left) ==> left / 1000000000 <= u64::MAX,
{
    if elapsed < MINIMUM_ELAPSED || done < MINIMUM_DONE || expected <= done {
        return None;
    }
    let ghost product = (expected - done) * elapsed;
    assert(0 <= product <= u64::MAX * u64::MAX) by (nonlinear_arith)
        requires
            product == (expected - done) * elapsed,
            0 <= expected - done <= u64::MAX,
            0 <= elapsed <= u64::MAX,
    ;
    let whole: u128 = (expected - done) as u128 * elapsed as u128;
    let divisor: u128 = done as u128;
    let q: u128 = whole / divisor;
    let r: u128 = whole % divisor;
    if q >= 18446744073709551615000 {
        return None;
    }
    let part: u128 = r * 1000000;
    let a: u128 = part / divisor;
    let b: u128 = part % divisor;
    assert(a < 1000000) by (nonlinear_arith)
        requires
            a == (r * 1000000) / (divisor as int),
            0 <= r < divisor,
    ;
    proof {
        lemma_split(whole as int, divisor as int);
    }
    let rounded: u128 = if 2 * b < divisor || (2 * b == divisor && a % 2 == 0) {
        a
    } else {
        a + 1
    };
    Some(q * 1000000 + rounded)
}

// ---------------------------------------------------------------------------
// A side
// ---------------------------------------------------------------------------

/// How far one side of a session has come.
#[derive(Clone, Copy, Debug)]
pub struct SideProgress {
    /// The entries of the running scan.
    pub entries: u64,
    /// The bytes it has read.
    pub bytes: u64,
    /// Whether a scan runs.
    pub active: bool,
    /// Whether it walks the whole tree.
    pub full: bool,
    /// When it began, in milliseconds.
    pub since: u64,
    /// The entries of the last whole scan; zero where there was none.
    pub expected: u64,
    /// The changes made.
    pub applied: u64,
}

/// What a side has counted.
#[verifier::ext_equal]
pub struct SideCounts {
    /// The entries of the running scan.
    pub entries: u64,
    /// The bytes it has read.
    pub bytes: u64,
    /// Whether a scan runs.
    pub active: bool,
    /// Whether it walks the whole tree.
    pub full: bool,
    /// When it began, in milliseconds.
    pub since: u64,
    /// The entries of the last whole scan; zero where there was none.
    pub expected: u64,
    /// The changes made.
    pub applied: u64,
}

/// A side at one moment.
#[derive(Clone, Copy, Debug)]
pub struct SideSnapshot {
    /// Whether a scan runs.
    pub active: bool,
    /// The entries so far.
    pub entries: u64,
    /// The bytes so far.
    pub bytes: u64,
    /// How many entries there are likely to be.
    pub expected: Option<u64>,
    /// How long the scan has run.
    pub seconds: u64,
    /// How long it is likely to go on.
    pub remaining_seconds: Option<u64>,
}

/// The total a side is measured against: its own, or its peer's where it has
/// none; none where a running scan has passed it.
pub open spec fn total_for(side: SideCounts, peer: u64) -> Option<u64> {
    let total = if side.expected == 0 {
        peer
    } else {
        side.expected
    };
    if total == 0 || (side.active && total <= side.entries) {
        None
    } else {
        Some(total)
    }
}

/// How long before `now` a moment was, in milliseconds.
pub open spec fn elapsed_at(since: u64, now: u64) -> int {
    if now >= since {
        now - since
    } else {
        0
    }
}

/// An estimate in whole seconds.
pub open spec fn in_seconds(estimate: Option<int>) -> Option<u64> {
    match estimate {
        Some(left) => Some((left / 1000000000) as u64),
        None => None,
    }
}

/// A side at one moment. Only a scan of the whole tree is given an estimate:
/// another visits only what changed, which a total does not measure.
pub open spec fn side_at(side: SideCounts, peer: u64, now: u64) -> SideSnapshot {
    SideSnapshot {
        active: side.active,
        entries: side.entries,
        bytes: side.bytes,
        expected: total_for(side, peer),
        seconds: (elapsed_at(side.since, now) / 1000) as u64,
        remaining_seconds: match total_for(side, peer) {
            Some(expected) => if side.active && side.full {
                in_seconds(
                    estimated(side.entries as int, expected as int, elapsed_at(side.since, now)),
                )
            } else {
                None
            },
            None => None,
        },
    }
}

/// A count that wraps around.
pub open spec fn wrapped(n: int) -> u64 {
    (n % 0x1_0000_0000_0000_0000) as u64
}

fn advanced(count: u64, by: u64) -> (r: u64)
    ensures
        r == wrapped(count + by),
{
    count.wrapping_add(by)
}

fn seconds_left(estimate: Option<u128>) -> (r: Option<u64>)
    requires
        estimate matches Some(left) ==> left / 1000000000 <= u64::MAX,
    ensures
        r == in_seconds(
            match estimate {
                Some(left) => Some(left as int),
                None => None,
            },
        ),
{
    match estimate {
        Some(left) => Some((left / 1000000000) as u64),
        None => None,
    }
}

impl SideProgress {
    /// What the side has counted.
    pub open spec fn counts(&self) -> SideCounts {
        SideCounts {
            entries: self.entries,
            bytes: self.bytes,
            active: self.active,
            full: self.full,
            since: self.since,
            expected: self.expected,
            applied: self.applied,
        }
    }

    /// A side that has not counted anything.
    pub fn new() -> (r: SideProgress)
        ensures
            r.counts() == (SideCounts {
                entries: 0,
                bytes: 0,
                active: false,
                full: false,
                since: 0,
                expected: 0,
                applied: 0,
            }),
    {
        SideProgress {
            entries: 0,
            bytes: 0,
            active: false,
            full: false,
            since: 0,
            expected: 0,
            applied: 0,
        }
    }

    /// Begins a scan at `now`.
    pub fn begin_at(&mut self, full: bool, now: u64)
        ensures
            final(self).counts() == (SideCounts {
                entries: 0,
                bytes: 0,
                active: true,
                full,
                since: now,
                ..old(self).counts()
            }),
    {
        self.entries = 0;
        self.bytes = 0;
        self.full = full;
        self.since = now;
        self.active = true;
    }

    /// Begins a scan.
    pub fn begin(&mut self, full: bool)
        ensures
            final(self).counts() == (SideCounts {
                entries: 0,
                bytes: 0,
                active: true,
                full,
                since: final(self).counts().since,
                ..old(self).counts()
            }),
    {
        self.begin_at(full, clock_millis());
    }

    /// Counts entries and bytes of the running scan.
    pub fn advance(&mut self, entries: u64, bytes: u64)
        ensures
            final(self).counts() == (SideCounts {
                entries: wrapped(old(self).counts().entries + entries),
                bytes: wrapped(old(self).counts().bytes + bytes),
                ..old(self).counts()
            }),
    {
        self.entries = advanced(self.entries, entries);
        self.bytes = advanced(self.bytes, bytes);
    }

    /// Counts a change.
    pub fn change_applied(&mut self)
        ensures
            final(self).counts() == (SideCounts {
                applied: wrapped(old(self).counts().applied + 1),
                ..old(self).counts()
            }),
    {
        self.applied = advanced(self.applied, 1);
    }

    /// Ends a scan. A whole one leaves its count behind as the total for the
    /// next.
    pub fn end(&mut self, entries: Option<u64>)
        ensures
            final(self).counts() == (SideCounts {
                active: false,
                expected: match entries {
                    Some(entries) => entries,
                    None => old(self).counts().expected,
                },
                ..old(self).counts()
            }),
    {
        self.active = false;
        if let Some(entries) = entries {
            self.expected = entries;
        }
    }

    /// Sets the total from elsewhere.
    pub fn seed_expected(&mut self, entries: u64)
        ensures
            final(self).counts() == (SideCounts { expected: entries, ..old(self).counts() }),
    {
        self.expected = entries;
    }

    /// The total; zero where none is known.
    pub fn expected_total(&self) -> (r: u64)
        ensures
            r == self.counts().expected,
    {
        self.expected
    }

    /// The side at `now`, with its peer's total to borrow.
    pub fn snapshot_at(&self, peer_expected: u64, now: u64) -> (r: SideSnapshot)
        ensures
            r == side_at(self.counts(), peer_expected, now),
    {
        let total: u64 = if self.expected == 0 {
            peer_expected
        } else {
            self.expected
        };
        let expected: Option<u64> = if total == 0 || (self.active && total <= self.entries) {
            None
        } else {
            Some(total)
        };
        let elapsed: u64 = now.saturating_sub(self.since);
        let remaining_seconds: Option<u64> = match expected {
            Some(expected) => if self.active && self.full {
                seconds_left(estimate_remaining(self.entries, expected, elapsed))
            } else {
                None
            },
            None => None,
        };
        SideSnapshot {
            active: self.active,
            entries: self.entries,
            bytes: self.bytes,
            expected,
            seconds: elapsed / 1000,
            remaining_seconds,
        }
    }
}

// ---------------------------------------------------------------------------
// A session
// ---------------------------------------------------------------------------

/// How far a session has come.
#[derive(Clone, Copy, Debug)]
pub struct Progress {
    /// What it is doing.
    pub phase: Phase,
    /// Since when, in milliseconds.
    pub phase_since: u64,
    /// The alpha side.
    pub alpha: SideProgress,
    /// The beta side.
    pub beta: SideProgress,
    /// The files moved.
    pub staged: u64,
    /// The files to move.
    pub staged_total: u64,
    /// The bytes moved.
    pub staged_bytes: u64,
    /// The bytes to move.
    pub staged_bytes_total: u64,
    /// The changes reported as made.
    pub applied: u64,
    /// The changes to make.
    pub applied_total: u64,
}

/// What a session has counted.
#[verifier::ext_equal]
pub struct Counts {
    /// What it is doing.
    pub phase: Phase,
    /// Since when, in milliseconds.
    pub phase_since: u64,
    /// The alpha side.
    pub alpha: SideCounts,
    /// The beta side.
    pub beta: SideCounts,
    /// The files moved.
    pub staged: u64,
    /// The files to move.
    pub staged_total: u64,
    /// The bytes moved.
    pub staged_bytes: u64,
    /// The bytes to move.
    pub staged_bytes_total: u64,
    /// The changes reported as made.
    pub applied: u64,
    /// The changes to make.
    pub applied_total: u64,
}

/// A session at one moment.
#[derive(Clone, Copy, Debug)]
pub struct ProgressSnapshot {
    /// What it is doing.
    pub phase: Phase,
    /// For how long.
    pub seconds: u64,
    /// The alpha side.
    pub alpha: SideSnapshot,
    /// The beta side.
    pub beta: SideSnapshot,
    /// The files moved.
    pub staged: u64,
    /// The files to move.
    pub staged_total: u64,
    /// The bytes moved.
    pub staged_bytes: u64,
    /// The bytes to move.
    pub staged_bytes_total: u64,
    /// The changes made.
    pub applied: u64,
    /// The changes to make.
    pub applied_total: u64,
    /// How long the phase is likely to go on.
    pub remaining_seconds: Option<u64>,
}

/// The changes made: what the sides count, or what was reported where that is
/// more.
pub open spec fn changes_made(c: Counts) -> u64 {
    let counted = wrapped(c.alpha.applied + c.beta.applied);
    if counted >= c.applied {
        counted
    } else {
        c.applied
    }
}

/// The time left of a scan of two sides: that of the slower, or of the only
/// one; none where one cannot be estimated.
pub open spec fn scan_left(alpha: SideSnapshot, beta: SideSnapshot) -> Option<u64> {
    if alpha.active && beta.active {
        match (alpha.remaining_seconds, beta.remaining_seconds) {
            (Some(a), Some(b)) => Some(if a >= b {
                a
            } else {
                b
            }),
            _ => None,
        }
    } else if alpha.active {
        alpha.remaining_seconds
    } else if beta.active {
        beta.remaining_seconds
    } else {
        None
    }
}

/// A session at one moment.
pub open spec fn progress_at(c: Counts, now: u64) -> ProgressSnapshot {
    let elapsed = elapsed_at(c.phase_since, now);
    let alpha = side_at(c.alpha, c.beta.expected, now);
    let beta = side_at(c.beta, c.alpha.expected, now);
    ProgressSnapshot {
        phase: c.phase,
        seconds: (elapsed / 1000) as u64,
        alpha,
        beta,
        staged: c.staged,
        staged_total: c.staged_total,
        staged_bytes: c.staged_bytes,
        staged_bytes_total: c.staged_bytes_total,
        applied: changes_made(c),
        applied_total: c.applied_total,
        remaining_seconds: match c.phase {
            Phase::Scanning => scan_left(alpha, beta),
            Phase::Staging => in_seconds(
                estimated(c.staged as int, c.staged_total as int, elapsed),
            ),
            Phase::Applying => in_seconds(
                estimated(changes_made(c) as int, c.applied_total as int, elapsed),
            ),
            _ => None,
        },
    }
}

/// Counts after entering a phase at `now`: entering the one it is in does not
/// restart its time.
pub open spec fn entered(c: Counts, phase: Phase, now: u64) -> Counts {
    Counts {
        phase,
        phase_since: if c.phase == phase {
            c.phase_since
        } else {
            now
        },
        ..c
    }
}

/// Counts after beginning to move content at `now`.
pub open spec fn staging(c: Counts, files: u64, bytes: u64, now: u64) -> Counts {
    entered(
        Counts { staged: 0, staged_bytes: 0, staged_total: files, staged_bytes_total: bytes, ..c },
        Phase::Staging,
        now,
    )
}

/// Counts after beginning to make changes at `now`.
pub open spec fn applying(c: Counts, changes: u64, now: u64) -> Counts {
    entered(
        Counts {
            applied: 0,
            alpha: SideCounts { applied: 0, ..c.alpha },
            beta: SideCounts { applied: 0, ..c.beta },
            applied_total: changes,
            ..c
        },
        Phase::Applying,
        now,
    )
}

/// Counts after a cycle, at `now`: no scan runs, and what was moved and
/// changed in the cycle is forgotten.
pub open spec fn resting(c: Counts, phase: Phase, now: u64) -> Counts {
    entered(
        Counts {
            alpha: SideCounts { active: false, applied: 0, ..c.alpha },
            beta: SideCounts { active: false, applied: 0, ..c.beta },
            staged: 0,
            staged_total: 0,
            staged_bytes: 0,
            staged_bytes_total: 0,
            applied: 0,
            applied_total: 0,
            ..c
        },
        phase,
        now,
    )
}

impl Progress {
    /// What the session has counted.
    pub open spec fn counts(&self) -> Counts {
        Counts {
            phase: self.phase,
            phase_since: self.phase_since,
            alpha: self.alpha.counts(),
            beta: self.beta.counts(),
            staged: self.staged,
            staged_total: self.staged_total,
            staged_bytes: self.staged_bytes,
            staged_bytes_total: self.staged_bytes_total,
            applied: self.applied,
            applied_total: self.applied_total,
        }
    }

    /// A session that waits since `now`.
    pub fn new_at(now: u64) -> (r: Progress)
        ensures
            r.counts().phase == Phase::Waiting,
            r.counts().phase_since == now,
            r.counts().alpha == (SideCounts {
                entries: 0,
                bytes: 0,
                active: false,
                full: false,
                since: 0,
                expected: 0,
                applied: 0,
            }),
            r.counts().beta == r.counts().alpha,
            r.counts().staged == 0,
            r.counts().staged_total == 0,
            r.counts().staged_bytes == 0,
            r.counts().staged_bytes_total == 0,
            r.counts().applied == 0,
            r.counts().applied_total == 0,
    {
        Progress {
            phase: Phase::Waiting,
            phase_since: now,
            alpha: SideProgress::new(),
            beta: SideProgress::new(),
            staged: 0,
            staged_total: 0,
            staged_bytes: 0,
            staged_bytes_total: 0,
            applied: 0,
            applied_total: 0,
        }
    }

    /// A session that waits.
    pub fn new() -> (r: Progress)
        ensures
            r.counts().phase == Phase::Waiting,
            r.counts().alpha == (SideCounts {
                entries: 0,
                bytes: 0,
                active: false,
                full: false,
                since: 0,
                expected: 0,
                applied: 0,
            }),
            r.counts().beta == r.counts().alpha,
            r.counts().staged == 0,
            r.counts().staged_total == 0,
            r.counts().staged_bytes == 0,
            r.counts().staged_bytes_total == 0,
            r.counts().applied == 0,
            r.counts().applied_total == 0,
    {
        Progress::new_at(clock_millis())
    }

    /// Enters a phase at `now`.
    pub fn enter_at(&mut self, phase: Phase, now: u64)
        ensures
            final(self).counts() == entered(old(self).counts(), phase, now),
    {
        if self.phase != phase {
            self.phase_since = now;
        }
        self.phase = phase;
    }

    /// Enters a phase.
    pub fn enter(&mut self, phase: Phase)
        ensures
            exists|now: u64|
                final(self).counts() == #[trigger] entered(old(self).counts(), phase, now),
    {
        let now: u64 = clock_millis();
        self.enter_at(phase, now);
    }

    /// The phase the session is in.
    pub fn phase(&self) -> (r: Phase)
        ensures
            r == self.counts().phase,
    {
        self.phase
    }

    /// Begins to move content, at `now`.
    pub fn begin_staging_at(&mut self, files: u64, bytes: u64, now: u64)
        ensures
            final(self).counts() == staging(old(self).counts(), files, bytes, now),
    {
        self.staged = 0;
        self.staged_bytes = 0;
        self.staged_total = files;
        self.staged_bytes_total = bytes;
        self.enter_at(Phase::Staging, now);
    }

    /// Begins to move content.
    pub fn begin_staging(&mut self, files: u64, bytes: u64)
        ensures
            exists|now: u64|
                final(self).counts() == #[trigger] staging(old(self).counts(), files, bytes, now),
    {
        let now: u64 = clock_millis();
        self.begin_staging_at(files, bytes, now);
    }

    /// Counts files and bytes moved.
    pub fn staged(&mut self, files: u64, bytes: u64)
        ensures
            final(self).counts() == (Counts {
                staged: wrapped(old(self).counts().staged + files),
                staged_bytes: wrapped(old(self).counts().staged_bytes + bytes),
                ..old(self).counts()
            }),
    {
        self.staged = advanced(self.staged, files);
        self.staged_bytes = advanced(self.staged_bytes, bytes);
    }

    /// Begins to make changes, at `now`.
    pub fn begin_applying_at(&mut self, changes: u64, now: u64)
        ensures
            final(self).counts() == applying(old(self).counts(), changes, now),
    {
        self.applied = 0;
        self.alpha.applied = 0;
        self.beta.applied = 0;
        self.applied_total = changes;
        self.enter_at(Phase::Applying, now);
    }

    /// Begins to make changes.
    pub fn begin_applying(&mut self, changes: u64)
        ensures
            exists|now: u64|
                final(self).counts() == #[trigger] applying(old(self).counts(), changes, now),
    {
        let now: u64 = clock_millis();
        self.begin_applying_at(changes, now);
    }

    /// Takes over how many changes were reported as made.
    pub fn applied_reached(&mut self, changes: u64)
        ensures
            final(self).counts() == (Counts { applied: changes, ..old(self).counts() }),
    {
        self.applied = changes;
    }

    /// Ends a cycle, at `now`: its counters are cleared.
    pub fn rest_at(&mut self, phase: Phase, now: u64)
        ensures
            final(self).counts() == resting(old(self).counts(), phase, now),
    {
        self.alpha.end(None);
        self.beta.end(None);
        self.alpha.applied = 0;
        self.beta.applied = 0;
        self.staged = 0;
        self.staged_total = 0;
        self.staged_bytes = 0;
        self.staged_bytes_total = 0;
        self.applied = 0;
        self.applied_total = 0;
        self.enter_at(phase, now);
    }

    /// Ends a cycle.
    pub fn rest(&mut self, phase: Phase)
        ensures
            exists|now: u64|
                final(self).counts() == #[trigger] resting(old(self).counts(), phase, now),
    {
        let now: u64 = clock_millis();
        self.rest_at(phase, now);
    }

    /// The session at `now`.
    pub fn snapshot_at(&self, now: u64) -> (r: ProgressSnapshot)
        ensures
            r == progress_at(self.counts(), now),
    {
        let elapsed: u64 = now.saturating_sub(self.phase_since);
        let alpha = self.alpha.snapshot_at(self.beta.expected, now);
        let beta = self.beta.snapshot_at(self.alpha.expected, now);
        let counted: u64 = advanced(self.alpha.applied, self.beta.applied);
        let applied: u64 = if counted >= self.applied {
            counted
        } else {
            self.applied
        };
        let remaining_seconds: Option<u64> = match self.phase {
            Phase::Scanning => if alpha.active && beta.active {
                match (alpha.remaining_seconds, beta.remaining_seconds) {
                    (Some(a), Some(b)) => Some(
                        if a >= b {
                            a
                        } else {
                            b
                        },
                    ),
                    _ => None,
                }
            } else if alpha.active {
                alpha.remaining_seconds
            } else if beta.active {
                beta.remaining_seconds
            } else {
                None
            },
            Phase::Staging => seconds_left(
                estimate_remaining(self.staged, self.staged_total, elapsed),
            ),
            Phase::Applying => seconds_left(
                estimate_remaining(applied, self.applied_total, elapsed),
            ),
            _ => None,
        };
        ProgressSnapshot {
            phase: self.phase,
            seconds: elapsed / 1000,
            alpha,
            beta,
            staged: self.staged,
            staged_total: self.staged_total,
            staged_bytes: self.staged_bytes,
            staged_bytes_total: self.staged_bytes_total,
            applied,
            applied_total: self.applied_total,
            remaining_seconds,
        }
    }

    /// The session now.
    pub fn snapshot(&self) -> (r: ProgressSnapshot)
        ensures
            exists|now: u64| r == #[trigger] progress_at(self.counts(), now),
    {
        let now: u64 = clock_millis();
        self.snapshot_at(now)
    }
}

// ---------------------------------------------------------------------------
// Laws
// ---------------------------------------------------------------------------

/// A phase lasts from when it was entered, not from when it was repeated.
pub proof fn law_repeating_a_phase_keeps_its_time(c: Counts, phase: Phase, first: u64, again: u64)
    ensures
        entered(entered(c, phase, first), phase, again) == entered(c, phase, first),
{
}

/// A scan that visits only what changed is never given an estimate.
pub proof fn law_a_partial_scan_has_no_estimate(side: SideCounts, peer: u64, now: u64)
    requires
        !side.full,
    ensures
        side_at(side, peer, now).remaining_seconds is None,
{
}

/// A total that a running scan has reached is not reported.
pub proof fn law_a_passed_total_is_not_reported(side: SideCounts, peer: u64, now: u64)
    requires
        side.active,
    ensures
        side_at(side, peer, now).expected matches Some(total) ==> side.entries < total,
{
}

/// While both sides scan, the phase is given no estimate shorter than either
/// side's, and none where one side has none.
pub proof fn law_scanning_ends_with_the_slower_side(c: Counts, now: u64)
    requires
        c.phase == Phase::Scanning,
        c.alpha.active,
        c.beta.active,
    ensures
        progress_at(c, now).remaining_seconds is Some <==> progress_at(
            c,
            now,
        ).alpha.remaining_seconds is Some && progress_at(c, now).beta.remaining_seconds is Some,
        progress_at(c, now).remaining_seconds matches Some(left) ==> left >= (progress_at(
            c,
            now,
        ).alpha.remaining_seconds->0) && left >= (progress_at(c, now).beta.remaining_seconds->0),
{
}

/// What a session counts of its sides is what they count.
pub proof fn law_a_session_counts_what_its_sides_do(progress: Progress)
    ensures
        progress.counts().alpha == progress.alpha.counts(),
        progress.counts().beta == progress.beta.counts(),
{
}

/// A side is measured against its own total, and against its peer's where it
/// has none; a running scan shows no total that it has reached.
pub proof fn law_a_side_without_history_borrows_its_peer_s_total(progress: Progress, now: u64)
    ensures
        ({
            let shown = progress_at(progress.counts(), now);
            let (alpha, beta) = (progress.alpha, progress.beta);
            let (own, peer) = (alpha.expected, beta.expected);
            let for_alpha = if own > 0 {
                own
            } else {
                peer
            };
            let for_beta = if peer > 0 {
                peer
            } else {
                own
            };
            &&& shown.alpha.expected == (if for_alpha == 0 || (alpha.active && for_alpha
                <= alpha.entries) {
                None::<u64>
            } else {
                Some(for_alpha)
            })
            &&& shown.beta.expected == (if for_beta == 0 || (beta.active && for_beta
                <= beta.entries) {
                None::<u64>
            } else {
                Some(for_beta)
            })
        }),
{
}

/// Setting how many changes were made counts none of them twice: where the
/// sides counted no more, that is what is shown.
pub proof fn law_reported_changes_are_not_added(c: Counts, changes: u64, now: u64)
    requires
        c.alpha.applied + c.beta.applied <= changes,
    ensures
        progress_at((Counts { applied: changes, ..c }), now).applied == changes,
{
    assert((c.alpha.applied + c.beta.applied) % 0x1_0000_0000_0000_0000 == c.alpha.applied
        + c.beta.applied);
}

/// After a cycle nothing is left of its counters.
pub proof fn law_resting_clears_the_cycle_s_counters(c: Counts, phase: Phase, since: u64, now: u64)
    ensures
        ({
            let shown = progress_at(resting(c, phase, since), now);
            &&& shown.phase == phase
            &&& !shown.alpha.active && !shown.beta.active
            &&& shown.staged == 0 && shown.staged_bytes == 0
            &&& shown.staged_total == 0 && shown.staged_bytes_total == 0
            &&& shown.applied == 0 && shown.applied_total == 0
        }),
{
}

/// An estimate goes by the pace so far. There is none in the first three
/// seconds, before sixty-four items are done, or once the total is reached; any
/// other is what the remaining items take at that pace, to the nearest
/// nanosecond, and is there unless it exceeds what a clock can count.
pub proof fn law_an_estimate_goes_by_the_pace_so_far(done: int, expected: int, elapsed: int)
    requires
        0 <= done,
        0 <= elapsed,
    ensures
        elapsed < 3000 || done < 64 || expected <= done ==> estimated(done, expected, elapsed)
            is None,
        elapsed >= 3000 && done >= 64 && expected > done && (expected - done) * elapsed < done
            * 18446744073709551615000 ==> estimated(done, expected, elapsed) is Some,
        estimated(done, expected, elapsed) matches Some(left) ==> {
            let exact = (expected - done) * elapsed * 1000000;
            2 * (exact - done * left) <= done && 2 * (done * left - exact) <= done
        },
{
    if elapsed >= 3000 && done >= 64 && expected > done {
        let work = (expected - done) * elapsed;
        assert(work >= 0) by (nonlinear_arith)
            requires
                work == (expected - done) * elapsed,
                expected > done,
                elapsed >= 0,
        ;
        law_the_nearest_is_half_a_unit_off_at_most(work * 1000000, done);
        assert(work < done * 18446744073709551615000 ==> work / done < 18446744073709551615000)
            by (nonlinear_arith)
            requires
                done > 0,
                work >= 0,
        ;
    }
}

/// What a side shows is what it counted: its entries and bytes as they are, the
/// whole seconds since its scan began, and an estimate only while a full scan
/// with a known total is running.
pub proof fn law_a_side_shows_what_it_counted(side: SideCounts, peer: u64, now: u64)
    ensures
        ({
            let shown = side_at(side, peer, now);
            &&& shown.active == side.active
            &&& shown.entries == side.entries
            &&& shown.bytes == side.bytes
            &&& now >= side.since ==> shown.seconds * 1000 <= now - side.since < shown.seconds
                * 1000 + 1000
            &&& now < side.since ==> shown.seconds == 0
            &&& shown.remaining_seconds matches Some(left) ==> {
                &&& side.active
                &&& side.full
                &&& shown.expected matches Some(total) && (estimated(
                    side.entries as int,
                    total as int,
                    now - side.since,
                ) matches Some(nanos) && left == (nanos / 1000000000) as u64)
            }
            &&& side.active && side.full && shown.expected is Some && now >= side.since
                && shown.remaining_seconds is None ==> estimated(
                side.entries as int,
                shown.expected->0 as int,
                now - side.since,
            ) is None
        }),
{
}

/// What a session shows is what it counted: its phase and the whole seconds it
/// has been in it, both sides, and the cycle's own counters.
pub proof fn law_a_session_shows_what_it_counted(c: Counts, now: u64)
    ensures
        ({
            let shown = progress_at(c, now);
            &&& shown.phase == c.phase
            &&& now >= c.phase_since ==> shown.seconds * 1000 <= now - c.phase_since
                < shown.seconds * 1000 + 1000
            &&& now < c.phase_since ==> shown.seconds == 0
            &&& shown.alpha.entries == c.alpha.entries && shown.alpha.bytes == c.alpha.bytes
            &&& shown.beta.entries == c.beta.entries && shown.beta.bytes == c.beta.bytes
            &&& shown.alpha.active == c.alpha.active && shown.beta.active == c.beta.active
            &&& shown.staged == c.staged && shown.staged_total == c.staged_total
            &&& shown.staged_bytes == c.staged_bytes
            &&& shown.staged_bytes_total == c.staged_bytes_total
            &&& shown.applied_total == c.applied_total
            &&& c.alpha.applied + c.beta.applied <= u64::MAX ==> {
                &&& shown.applied >= c.applied
                &&& shown.applied >= c.alpha.applied + c.beta.applied
                &&& shown.applied == c.applied || shown.applied == c.alpha.applied + c.beta.applied
            }
        }),
{
}

/// How long the rest of a phase takes is told of scanning, staging and applying
/// alone: of a scan by the sides that are walking, the slower one where both
/// are; of staging by the files staged; of applying by the changes applied.
pub proof fn law_only_counted_phases_are_estimated(c: Counts, now: u64)
    ensures
        ({
            let shown = progress_at(c, now);
            let gone = if now >= c.phase_since {
                now - c.phase_since
            } else {
                0
            };
            &&& shown.remaining_seconds is Some ==> c.phase == Phase::Scanning || c.phase
                == Phase::Staging || c.phase == Phase::Applying
            &&& c.phase == Phase::Scanning && c.alpha.active && c.beta.active ==> (
            shown.remaining_seconds is Some ==> shown.remaining_seconds
                == shown.alpha.remaining_seconds || shown.remaining_seconds
                == shown.beta.remaining_seconds)
            &&& c.phase == Phase::Scanning && c.alpha.active && !c.beta.active
                ==> shown.remaining_seconds == shown.alpha.remaining_seconds
            &&& c.phase == Phase::Scanning && !c.alpha.active && c.beta.active
                ==> shown.remaining_seconds == shown.beta.remaining_seconds
            &&& c.phase == Phase::Scanning && !c.alpha.active && !c.beta.active
                ==> shown.remaining_seconds is None
            &&& c.phase == Phase::Staging ==> match estimated(
                c.staged as int,
                c.staged_total as int,
                gone,
            ) {
                Some(nanos) => shown.remaining_seconds == Some((nanos / 1000000000) as u64),
                None => shown.remaining_seconds is None,
            }
            &&& c.phase == Phase::Applying ==> match estimated(
                shown.applied as int,
                c.applied_total as int,
                gone,
            ) {
                Some(nanos) => shown.remaining_seconds == Some((nanos / 1000000000) as u64),
                None => shown.remaining_seconds is None,
            }
        }),
{
}

/// Entering a phase changes the phase and nothing that was counted; the time it
/// is counted from is new exactly where the phase is.
pub proof fn law_entering_a_phase_keeps_the_counters(c: Counts, phase: Phase, now: u64)
    ensures
        ({
            let after = entered(c, phase, now);
            &&& after.phase == phase
            &&& c.phase != phase ==> after.phase_since == now
            &&& c.phase == phase ==> after.phase_since == c.phase_since
            &&& after.alpha == c.alpha && after.beta == c.beta
            &&& after.staged == c.staged && after.staged_total == c.staged_total
            &&& after.staged_bytes == c.staged_bytes
            &&& after.staged_bytes_total == c.staged_bytes_total
            &&& after.applied == c.applied && after.applied_total == c.applied_total
        }),
{
}

/// Staging starts from nothing staged, of the totals given, and leaves the
/// sides and the changes alone.
pub proof fn law_staging_starts_at_nothing(c: Counts, files: u64, bytes: u64, now: u64)
    ensures
        ({
            let after = staging(c, files, bytes, now);
            &&& after.phase == Phase::Staging
            &&& after.phase_since == (if c.phase == Phase::Staging {
                c.phase_since
            } else {
                now
            })
            &&& after.staged == 0 && after.staged_bytes == 0
            &&& after.staged_total == files && after.staged_bytes_total == bytes
            &&& after.alpha == c.alpha && after.beta == c.beta
            &&& after.applied == c.applied && after.applied_total == c.applied_total
        }),
{
}

/// Applying starts from no change made on either side, of the total given, and
/// leaves alone what was scanned and staged.
pub proof fn law_applying_starts_at_nothing(c: Counts, changes: u64, now: u64)
    ensures
        ({
            let after = applying(c, changes, now);
            &&& after.phase == Phase::Applying
            &&& after.phase_since == (if c.phase == Phase::Applying {
                c.phase_since
            } else {
                now
            })
            &&& after.applied == 0 && after.alpha.applied == 0 && after.beta.applied == 0
            &&& after.applied_total == changes
            &&& after.alpha == (SideCounts { applied: 0, ..c.alpha })
            &&& after.beta == (SideCounts { applied: 0, ..c.beta })
            &&& after.staged == c.staged && after.staged_total == c.staged_total
            &&& after.staged_bytes == c.staged_bytes
            &&& after.staged_bytes_total == c.staged_bytes_total
            &&& progress_at(after, now).applied == 0
        }),
{
}

/// Coming to rest keeps what the last scan of each side found, so that the next
/// one has a total to go by.
pub proof fn law_resting_keeps_the_scans(c: Counts, phase: Phase, now: u64)
    ensures
        ({
            let after = resting(c, phase, now);
            &&& after.alpha == (SideCounts { active: false, applied: 0, ..c.alpha })
            &&& after.beta == (SideCounts { active: false, applied: 0, ..c.beta })
            &&& after.phase_since == (if c.phase == phase {
                c.phase_since
            } else {
                now
            })
        }),
{
}

} // verus!
