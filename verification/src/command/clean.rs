//! Cleaning up: which recorded state belongs to no session any more.
use crate::command::format::{format_size, size_text};
use crate::command::resolve::push_line;
use crate::plan::SessionPlan;
use crate::text::{
    chars_of, decimal, decimal_text, ends_with, has_suffix, holds_text, join_strings, joined,
    lemma_either,
    same_text, string_of, strings,
};
use vstd::prelude::*;
use vstd::slice::slice_subrange;

verus! {

// ---------------------------------------------------------------------------
// Disabled sessions
// ---------------------------------------------------------------------------

/// The identifiers of sessions.
pub open spec fn identifiers(plans: Seq<SessionPlan>) -> Seq<Seq<char>> {
    Seq::new(plans.len(), |i: int| plans[i].identifier@)
}

/// The identifiers of sessions.
pub fn identifiers_of(plans: &[SessionPlan]) -> (r: Vec<String>)
    ensures
        strings(r@) == identifiers(plans@),
{
    let mut r: Vec<String> = Vec::new();
    let mut i: usize = 0;
    while i < plans.len()
        invariant
            i <= plans@.len(),
            r@.len() == i,
            forall|k: int| 0 <= k < i ==> (#[trigger] r@[k])@ == plans@[k].identifier@,
        decreases plans@.len() - i,
    {
        r.push(plans[i].identifier.clone());
        i += 1;
    }
    assert(strings(r@) =~= identifiers(plans@));
    r
}

/// What a group's settings come to by themselves.
pub struct Attempt {
    /// The group.
    pub group: String,
    /// Its sessions; `None` where its settings do not validate.
    pub plans: Option<Vec<SessionPlan>>,
}

/// Those of some sessions that are not among the active ones.
pub open spec fn inactive(plans: Seq<SessionPlan>, active: Seq<Seq<char>>) -> Seq<SessionPlan> {
    plans.filter(|plan: SessionPlan| !active.contains(plan.identifier@))
}

/// The sessions of the first `n` attempts that are not active.
pub open spec fn disabled_in(attempts: Seq<Attempt>, active: Seq<Seq<char>>, n: int) -> Seq<
    SessionPlan,
>
    decreases n,
{
    if n <= 0 {
        Seq::empty()
    } else {
        let front = disabled_in(attempts, active, n - 1);
        match attempts[n - 1].plans {
            Some(plans) => front + inactive(plans@, active),
            None => front,
        }
    }
}

/// The groups of the first `n` attempts whose settings do not validate.
pub open spec fn unclear_in(attempts: Seq<Attempt>, n: int) -> Seq<Seq<char>>
    decreases n,
{
    if n <= 0 {
        Seq::empty()
    } else {
        let front = unclear_in(attempts, n - 1);
        match attempts[n - 1].plans {
            Some(_) => front,
            None => front.push(attempts[n - 1].group@),
        }
    }
}

fn push_inactive(list: &mut Vec<SessionPlan>, plans: &[SessionPlan], active: &[String])
    ensures
        final(list)@ == old(list)@ + inactive(plans@, strings(active@)),
{
    let ghost start = list@;
    let ghost test = |plan: SessionPlan| !strings(active@).contains(plan.identifier@);
    let mut i: usize = 0;
    proof {
        reveal(Seq::filter);
        assert(start + plans@.take(0).filter(test) =~= start);
    }
    while i < plans.len()
        invariant
            i <= plans@.len(),
            test == (|plan: SessionPlan| !strings(active@).contains(plan.identifier@)),
            list@ == start + plans@.take(i as int).filter(test),
        decreases plans@.len() - i,
    {
        proof {
            reveal(Seq::filter);
            assert(plans@.take(i + 1).drop_last() =~= plans@.take(i as int));
            assert(plans@.take(i + 1).last() == plans@[i as int]);
        }
        if !holds_text(active, plans[i].identifier.as_str()) {
            let ghost before = plans@.take(i as int).filter(test);
            list.push(plans[i].duplicate());
            assert(list@ =~= start + before.push(plans@[i as int]));
        }
        i += 1;
    }
    assert(plans@.take(plans@.len() as int) =~= plans@);
}

/// The sessions that are configured and disabled, and the groups of which
/// that cannot be told, given what each group comes to by itself.
pub fn disabled_plans(attempts: &[Attempt], active: &[SessionPlan]) -> (r: (
    Vec<SessionPlan>,
    Vec<String>,
))
    ensures
        r.0@ == disabled_in(attempts@, identifiers(active@), attempts@.len() as int),
        strings(r.1@) == unclear_in(attempts@, attempts@.len() as int),
{
    let active_ids = identifiers_of(active);
    let mut disabled: Vec<SessionPlan> = Vec::new();
    let mut unclear: Vec<String> = Vec::new();
    let mut i: usize = 0;
    assert(strings(unclear@) =~= unclear_in(attempts@, 0));
    while i < attempts.len()
        invariant
            i <= attempts@.len(),
            strings(active_ids@) == identifiers(active@),
            disabled@ == disabled_in(attempts@, identifiers(active@), i as int),
            strings(unclear@) == unclear_in(attempts@, i as int),
        decreases attempts@.len() - i,
    {
        match &attempts[i].plans {
            Some(plans) => {
                push_inactive(&mut disabled, plans.as_slice(), active_ids.as_slice());
            },
            None => {
                push_line(&mut unclear, attempts[i].group.clone());
            },
        }
        i += 1;
    }
    (disabled, unclear)
}

/// Whether removing the state of so many disabled sessions is asked about
/// first.
pub open spec fn asked_first(
    include_disabled: bool,
    dry_run: bool,
    yes: bool,
    disabled: int,
    unclear: int,
) -> bool {
    include_disabled && !dry_run && !yes && !(disabled == 0 && unclear == 0)
}

/// Whether removing the state of disabled sessions is asked about first.
pub fn must_ask(
    include_disabled: bool,
    dry_run: bool,
    yes: bool,
    disabled: &[SessionPlan],
    unclear: &[String],
) -> (r: bool)
    ensures
        r == asked_first(
            include_disabled,
            dry_run,
            yes,
            disabled@.len() as int,
            unclear@.len() as int,
        ),
{
    include_disabled && !dry_run && !yes && !(disabled.len() == 0 && unclear.len() == 0)
}

/// What is said before that question.
pub open spec fn question_lines(disabled: Seq<SessionPlan>, unclear: Seq<Seq<char>>) -> Seq<
    Seq<char>,
> {
    seq!["about to remove the state of these disabled sessions:"@] + Seq::new(
        disabled.len(),
        |i: int| "  "@ + disabled[i].display@,
    ) + Seq::new(
        unclear.len(),
        |i: int|
            "  whatever belongs to group '"@ + unclear[i] + "', whose settings do not validate"@,
    )
}

/// What is said before that question.
pub fn question(disabled: &[SessionPlan], unclear: &[String]) -> (r: Vec<String>)
    ensures
        strings(r@) == question_lines(disabled@, strings(unclear@)),
{
    let mut lines: Vec<String> = Vec::new();
    assert(strings(lines@) =~= Seq::<Seq<char>>::empty());
    push_line(&mut lines, "about to remove the state of these disabled sessions:".to_owned());
    let ghost first = seq!["about to remove the state of these disabled sessions:"@];
    let ghost a = Seq::new(disabled@.len(), |i: int| "  "@ + disabled@[i].display@);
    let mut i: usize = 0;
    assert(strings(lines@) =~= first + a.take(0));
    while i < disabled.len()
        invariant
            i <= disabled@.len(),
            a == Seq::new(disabled@.len(), |i: int| "  "@ + disabled@[i].display@),
            strings(lines@) == first + a.take(i as int),
        decreases disabled@.len() - i,
    {
        let mut line = "  ".to_owned();
        line.append(disabled[i].display.as_str());
        push_line(&mut lines, line);
        assert(a.take(i + 1) =~= a.take(i as int).push(a[i as int]));
        assert(strings(lines@) =~= first + a.take(i + 1));
        i += 1;
    }
    assert(a.take(a.len() as int) =~= a);
    let ghost groups = strings(unclear@);
    let ghost b = Seq::new(
        groups.len(),
        |i: int|
            "  whatever belongs to group '"@ + groups[i] + "', whose settings do not validate"@,
    );
    let mut k: usize = 0;
    assert(strings(lines@) =~= first + a + b.take(0));
    while k < unclear.len()
        invariant
            k <= unclear@.len(),
            groups == strings(unclear@),
            b == Seq::new(
                groups.len(),
                |i: int|
                    "  whatever belongs to group '"@ + groups[i]
                        + "', whose settings do not validate"@,
            ),
            strings(lines@) == first + a + b.take(k as int),
        decreases unclear@.len() - k,
    {
        let mut line = "  whatever belongs to group '".to_owned();
        line.append(unclear[k].as_str());
        line.append("', whose settings do not validate");
        push_line(&mut lines, line);
        assert(b.take(k + 1) =~= b.take(k as int).push(b[k as int]));
        assert(strings(lines@) =~= first + a + b.take(k + 1));
        k += 1;
    }
    assert(b.take(b.len() as int) =~= b);
    lines
}

// ---------------------------------------------------------------------------
// What becomes of each item
// ---------------------------------------------------------------------------

/// What a session is called where its state is removed.
#[derive(Debug)]
pub struct Label {
    /// The session.
    pub identifier: String,
    /// What it is called.
    pub text: String,
}

/// What cleaning up goes by.
pub struct Cleaning {
    /// The sessions whose state is kept.
    pub live_sessions: Vec<String>,
    /// The endpoint locks that are kept.
    pub live_locks: Vec<String>,
    /// What disabled sessions are called.
    pub labels: Vec<Label>,
    /// The disabled groups whose settings do not validate.
    pub unclear: Vec<String>,
    /// Whether the state of disabled sessions goes too.
    pub include_disabled: bool,
    /// Whether nothing is removed.
    pub dry_run: bool,
    /// How many days old staged content of unknown sessions has to be.
    pub staging_days: Option<u64>,
    /// The sessions whose state was removed.
    pub retired: Vec<String>,
}

/// What becomes of an item.
#[derive(Debug)]
pub enum Fate {
    /// It stays, and nothing is said.
    Leave,
    /// It stays, since whose it is cannot be told.
    Keep,
    /// It goes, under this name.
    Remove(String),
}

/// What becomes of an item.
pub enum FateView {
    /// It stays, and nothing is said.
    Leave,
    /// It stays, since whose it is cannot be told.
    Keep,
    /// It goes, under this name.
    Remove(Seq<char>),
}

impl Fate {
    /// What becomes of the item.
    pub open spec fn view(&self) -> FateView {
        match self {
            Fate::Leave => FateView::Leave,
            Fate::Keep => FateView::Keep,
            Fate::Remove(what) => FateView::Remove(what@),
        }
    }
}

/// The label a session has among the first `n`; a later one replaces an
/// earlier.
pub open spec fn label_of(labels: Seq<Label>, identifier: Seq<char>, n: int) -> Option<Seq<char>>
    decreases n,
{
    if n <= 0 {
        None
    } else if labels[n - 1].identifier@ == identifier {
        Some(labels[n - 1].text@)
    } else {
        label_of(labels, identifier, n - 1)
    }
}

/// The labels of disabled sessions.
pub fn disabled_labels(disabled: &[SessionPlan]) -> (r: Vec<Label>)
    ensures
        r@.len() == disabled@.len(),
        forall|k: int|
            0 <= k < r@.len() ==> (#[trigger] r@[k]).identifier@ == disabled@[k].identifier@
                && r@[k].text@ == "("@ + disabled@[k].display@ + ", disabled)"@,
{
    let mut r: Vec<Label> = Vec::new();
    let mut i: usize = 0;
    while i < disabled.len()
        invariant
            i <= disabled@.len(),
            r@.len() == i,
            forall|k: int|
                0 <= k < r@.len() ==> (#[trigger] r@[k]).identifier@ == disabled@[k].identifier@
                    && r@[k].text@ == "("@ + disabled@[k].display@ + ", disabled)"@,
        decreases disabled@.len() - i,
    {
        let mut text = "(".to_owned();
        text.append(disabled[i].display.as_str());
        text.append(", disabled)");
        r.push(Label { identifier: disabled[i].identifier.clone(), text });
        i += 1;
    }
    r
}

/// A text without an end, however often it is there.
pub open spec fn without_end(s: Seq<char>, end: Seq<char>) -> Seq<char>
    decreases s.len(),
{
    if end.len() > 0 && has_suffix(s, end) {
        without_end(s.take(s.len() - end.len()), end)
    } else {
        s
    }
}

/// Where a character occurs last among the first `n`; -1 where it does not.
pub open spec fn last_index(s: Seq<char>, c: char, n: int) -> int
    decreases n,
{
    if n <= 0 {
        -1
    } else if s[n - 1] == c {
        n - 1
    } else {
        last_index(s, c, n - 1)
    }
}

/// The session that staged content belongs to: what stands before the last
/// dash of its name, without the end that marks a scan cache.
pub open spec fn staged_session(name: Seq<char>) -> Option<Seq<char>> {
    let stem = without_end(name, ".scancache"@);
    let dash = last_index(stem, '-', stem.len() as int);
    if dash < 0 {
        None
    } else {
        Some(stem.take(dash))
    }
}

/// The session that staged content belongs to.
pub fn staging_session(name: &str) -> (r: Option<String>)
    ensures
        crate::text::optional(r) == staged_session(name@),
{
    let all = chars_of(name);
    let end = chars_of(".scancache");
    proof {
        reveal_strlit(".scancache");
    }
    let mut n: usize = all.len();
    assert(all@.take(n as int) =~= name@);
    while n >= end.len() && ends_with(slice_subrange(all.as_slice(), 0, n), end.as_slice())
        invariant
            n <= all@.len(),
            end@ == ".scancache"@,
            end@.len() == 10,
            without_end(name@, end@) == without_end(all@.take(n as int), end@),
        decreases n,
    {
        assert(all@.subrange(0, n as int) =~= all@.take(n as int));
        assert(all@.take(n as int).take(n - 10) =~= all@.take(n - 10));
        n = n - end.len();
    }
    assert(all@.subrange(0, n as int) =~= all@.take(n as int));
    let ghost stem = all@.take(n as int);
    assert(without_end(name@, end@) == stem);
    let mut d: usize = n;
    while d > 0 && all[d - 1] != '-'
        invariant
            d <= n <= all@.len(),
            stem == all@.take(n as int),
            last_index(stem, '-', n as int) == last_index(stem, '-', d as int),
        decreases d,
    {
        d -= 1;
    }
    if d == 0 {
        None
    } else {
        let session = slice_subrange(all.as_slice(), 0, d - 1);
        assert(session@ =~= stem.take(d - 1));
        Some(string_of(session))
    }
}

/// Appends texts to a list.
fn append_texts(list: &mut Vec<String>, more: &[String])
    ensures
        strings(final(list)@) == strings(old(list)@) + strings(more@),
{
    let ghost start = strings(list@);
    let ghost all = strings(more@);
    let mut i: usize = 0;
    assert(start + all.take(0) =~= start);
    while i < more.len()
        invariant
            i <= more@.len(),
            all == strings(more@),
            strings(list@) == start + all.take(i as int),
        decreases more@.len() - i,
    {
        push_line(list, more[i].clone());
        assert(start + all.take(i + 1) =~= (start + all.take(i as int)).push(all[i as int]));
        i += 1;
    }
    assert(all.take(all.len() as int) =~= all);
}

/// What is kept of what is active and what is disabled.
pub open spec fn kept_names(
    active: Seq<Seq<char>>,
    disabled: Seq<Seq<char>>,
    include_disabled: bool,
) -> Seq<Seq<char>> {
    active + (if include_disabled {
        Seq::empty()
    } else {
        disabled
    })
}

impl Cleaning {
    /// What cleaning up goes by: the state of every session that the
    /// configuration describes is kept, on or off, but that of disabled ones
    /// where it is to go too. `locks` and `disabled_locks` are the endpoint
    /// locks of the sessions.
    pub fn new(
        plans: &[SessionPlan],
        locks: &[String],
        disabled: &[SessionPlan],
        disabled_locks: &[String],
        unclear: Vec<String>,
        include_disabled: bool,
        dry_run: bool,
        staging_days: Option<u64>,
    ) -> (cleaning: Cleaning)
        ensures
            strings(cleaning.live_sessions@) == kept_names(
                identifiers(plans@),
                identifiers(disabled@),
                include_disabled,
            ),
            strings(cleaning.live_locks@) == kept_names(
                strings(locks@),
                strings(disabled_locks@),
                include_disabled,
            ),
            cleaning.labels@.len() == disabled@.len(),
            forall|k: int|
                0 <= k < disabled@.len() ==> (#[trigger] cleaning.labels@[k]).identifier@
                    == disabled@[k].identifier@ && cleaning.labels@[k].text@ == "("@
                    + disabled@[k].display@ + ", disabled)"@,
            cleaning.unclear == unclear,
            cleaning.include_disabled == include_disabled,
            cleaning.dry_run == dry_run,
            cleaning.staging_days == staging_days,
            cleaning.retired@.len() == 0,
    {
        let mut live_sessions = identifiers_of(plans);
        let mut live_locks: Vec<String> = Vec::new();
        assert(strings(live_locks@) =~= Seq::<Seq<char>>::empty());
        append_texts(&mut live_locks, locks);
        assert(strings(live_locks@) =~= strings(locks@));
        if !include_disabled {
            let more = identifiers_of(disabled);
            append_texts(&mut live_sessions, more.as_slice());
            append_texts(&mut live_locks, disabled_locks);
        } else {
            assert(identifiers(plans@) + Seq::<Seq<char>>::empty() =~= identifiers(plans@));
            assert(strings(locks@) + Seq::<Seq<char>>::empty() =~= strings(locks@));
        }
        Cleaning {
            live_sessions,
            live_locks,
            labels: disabled_labels(disabled),
            unclear,
            include_disabled,
            dry_run,
            staging_days,
            retired: Vec::new(),
        }
    }

    /// Whether a session's state is kept.
    pub open spec fn is_live(&self, identifier: Seq<char>) -> bool {
        strings(self.live_sessions@).contains(identifier)
    }

    /// Whether an item could belong to a group of which nothing can be told.
    pub open spec fn unattributable(&self) -> bool {
        !self.include_disabled && self.unclear@.len() > 0
    }

    /// What becomes of a session's directory.
    pub open spec fn session_fate(&self, name: Seq<char>) -> FateView {
        if self.is_live(name) {
            FateView::Leave
        } else if self.unattributable() {
            FateView::Keep
        } else {
            match label_of(self.labels@, name, self.labels@.len() as int) {
                Some(label) => FateView::Remove("session "@ + label),
                None => FateView::Remove("session"@),
            }
        }
    }

    /// What becomes of a status record.
    pub open spec fn status_fate(&self, name: Seq<char>) -> FateView {
        if !has_suffix(name, ".json"@) || self.is_live(name.take(name.len() - 5)) {
            FateView::Leave
        } else if self.unattributable() {
            FateView::Keep
        } else {
            FateView::Remove("status record"@)
        }
    }

    /// What becomes of an endpoint lock.
    pub open spec fn lock_fate(&self, name: Seq<char>) -> FateView {
        if strings(self.live_locks@).contains(name) {
            FateView::Leave
        } else if self.unattributable() {
            FateView::Keep
        } else {
            FateView::Remove("endpoint lock"@)
        }
    }

    /// What becomes of staged content: it goes with its session, or once it is
    /// old enough.
    pub open spec fn staging_fate(&self, name: Seq<char>, age: Option<u64>) -> FateView {
        match staged_session(name) {
            Some(session) => if self.is_live(session) {
                FateView::Leave
            } else if strings(self.retired@).contains(session) || (self.staging_days matches Some(
                days,
            ) && age matches Some(age) && age >= days * 86400) {
                FateView::Remove("staged content"@)
            } else {
                FateView::Leave
            },
            None => FateView::Leave,
        }
    }

    fn find_label(&self, identifier: &str) -> (r: Option<String>)
        ensures
            crate::text::optional(r) == label_of(
                self.labels@,
                identifier@,
                self.labels@.len() as int,
            ),
    {
        let mut n: usize = self.labels.len();
        while n > 0
            invariant
                n <= self.labels@.len(),
                label_of(self.labels@, identifier@, self.labels@.len() as int) == label_of(
                    self.labels@,
                    identifier@,
                    n as int,
                ),
            decreases n,
        {
            if same_text(self.labels[n - 1].identifier.as_str(), identifier) {
                return Some(self.labels[n - 1].text.clone());
            }
            n -= 1;
        }
        None
    }

    /// What becomes of a session's directory. One that goes is still left
    /// alone where its lock is held.
    pub fn judge_session(&self, name: &str) -> (r: Fate)
        ensures
            r.view() == self.session_fate(name@),
    {
        if holds_text(self.live_sessions.as_slice(), name) {
            Fate::Leave
        } else if !self.include_disabled && self.unclear.len() > 0 {
            Fate::Keep
        } else {
            match self.find_label(name) {
                Some(label) => {
                    let mut what = "session ".to_owned();
                    what.append(label.as_str());
                    Fate::Remove(what)
                },
                None => Fate::Remove("session".to_owned()),
            }
        }
    }

    /// Notes that a session's state was removed.
    pub fn retire(&mut self, name: &str)
        ensures
            strings(final(self).retired@) == strings(old(self).retired@).push(name@),
            final(self).live_sessions == old(self).live_sessions,
            final(self).live_locks == old(self).live_locks,
            final(self).labels == old(self).labels,
            final(self).unclear == old(self).unclear,
            final(self).include_disabled == old(self).include_disabled,
            final(self).dry_run == old(self).dry_run,
            final(self).staging_days == old(self).staging_days,
    {
        push_line(&mut self.retired, name.to_owned());
    }

    /// What becomes of a status record.
    pub fn judge_status(&self, name: &str) -> (r: Fate)
        ensures
            r.view() == self.status_fate(name@),
    {
        let all = chars_of(name);
        let end = chars_of(".json");
        proof {
            reveal_strlit(".json");
        }
        if !ends_with(all.as_slice(), end.as_slice()) {
            return Fate::Leave;
        }
        let front = slice_subrange(all.as_slice(), 0, all.len() - 5);
        assert(front@ =~= name@.take(name@.len() - 5));
        let identifier = string_of(front);
        if holds_text(self.live_sessions.as_slice(), identifier.as_str()) {
            Fate::Leave
        } else if !self.include_disabled && self.unclear.len() > 0 {
            Fate::Keep
        } else {
            Fate::Remove("status record".to_owned())
        }
    }

    /// What becomes of an endpoint lock. One that goes is still left alone
    /// where it is held.
    pub fn judge_lock(&self, name: &str) -> (r: Fate)
        ensures
            r.view() == self.lock_fate(name@),
    {
        if holds_text(self.live_locks.as_slice(), name) {
            Fate::Leave
        } else if !self.include_disabled && self.unclear.len() > 0 {
            Fate::Keep
        } else {
            Fate::Remove("endpoint lock".to_owned())
        }
    }

    /// What becomes of staged content that was last changed so many seconds
    /// ago, where that is known.
    pub fn judge_staging(&self, name: &str, age: Option<u64>) -> (r: Fate)
        ensures
            r.view() == self.staging_fate(name@, age),
    {
        match staging_session(name) {
            Some(session) => {
                if holds_text(self.live_sessions.as_slice(), session.as_str()) {
                    return Fate::Leave;
                }
                let old_enough = match (self.staging_days, age) {
                    (Some(days), Some(age)) => age as u128 >= days as u128 * 86400,
                    _ => false,
                };
                if holds_text(self.retired.as_slice(), session.as_str()) || old_enough {
                    Fate::Remove("staged content".to_owned())
                } else {
                    Fate::Leave
                }
            },
            None => Fate::Leave,
        }
    }

    /// What is said of an item that goes.
    pub fn removed_line(&self, what: &str, path: &str, size: u64) -> (r: String)
        ensures
            r@ == verb_text(self.dry_run) + " "@ + what@ + " "@ + path@ + " ("@ + size_text(
                size as nat,
            ) + ")"@,
    {
        let mut line = verb(self.dry_run).to_owned();
        line.append(" ");
        line.append(what);
        line.append(" ");
        line.append(path);
        line.append(" (");
        let size = format_size(size);
        line.append(size.as_str());
        line.append(")");
        line
    }

    /// What is said of an item that is kept, since whose it is cannot be told.
    pub fn kept_line(&self, what: &str, path: &str) -> (r: String)
        ensures
            r@ == "kept "@ + what@ + " "@ + path@
                + ": could not tell what it belongs to (disabled group(s) "@ + joined(
                strings(self.unclear@),
                ", "@,
            ) + " do not validate)"@,
    {
        let mut line = "kept ".to_owned();
        line.append(what);
        line.append(" ");
        line.append(path);
        line.append(": could not tell what it belongs to (disabled group(s) ");
        let groups = join_strings(self.unclear.as_slice(), ", ");
        line.append(groups.as_str());
        line.append(" do not validate)");
        line
    }
}

/// What is said of an item that is in use.
pub fn skipped_line(what: &str, path: &str) -> (r: String)
    ensures
        r@ == "skipped "@ + what@ + " "@ + path@ + " (in use)"@,
{
    let mut line = "skipped ".to_owned();
    line.append(what);
    line.append(" ");
    line.append(path);
    line.append(" (in use)");
    line
}

/// What is said of the service log.
pub fn log_line(size: u64, path: &str) -> (r: String)
    ensures
        r@ == "the service log is "@ + size_text(size as nat) + " ("@ + path@
            + "); it rotates on its own"@,
{
    let mut line = "the service log is ".to_owned();
    let size = format_size(size);
    line.append(size.as_str());
    line.append(" (");
    line.append(path);
    line.append("); it rotates on its own");
    line
}

/// What is done to an item, in words.
pub open spec fn verb_text(dry_run: bool) -> Seq<char> {
    if dry_run {
        "would remove"@
    } else {
        "removed"@
    }
}

fn verb(dry_run: bool) -> (r: &'static str)
    ensures
        r@ == verb_text(dry_run),
{
    if dry_run {
        "would remove"
    } else {
        "removed"
    }
}

// ---------------------------------------------------------------------------
// Agents, and the sum of it
// ---------------------------------------------------------------------------

/// Destinations in order, each once: where agents are pruned.
pub open spec fn pruned_at(destinations: Seq<Seq<char>>) -> Seq<Seq<char>> {
    crate::order::sorted(destinations)
}

/// Destinations in order, each once.
pub fn destinations(list: &[String]) -> (r: Vec<String>)
    ensures
        strings(r@) == pruned_at(strings(list@)),
{
    crate::order::sort_texts(list)
}

/// What is said of a destination's agents.
pub open spec fn agents_text(
    destination: Seq<char>,
    removed: Seq<Seq<char>>,
    kept: Seq<Seq<char>>,
    dry_run: bool,
) -> Seq<char> {
    if removed.len() == 0 {
        destination + ": "@ + decimal_text(kept.len()) + " agent(s), nothing superseded"@
    } else {
        verb_text(dry_run) + " "@ + decimal_text(removed.len()) + " superseded agent(s) on "@
            + destination + ": "@ + joined(removed, ", "@) + " (kept "@ + joined(kept, ", "@)
            + ")"@
    }
}

/// What is said of a destination's agents.
pub fn agents_line(destination: &str, removed: &[String], kept: &[String], dry_run: bool) -> (r:
    String)
    ensures
        r@ == agents_text(destination@, strings(removed@), strings(kept@), dry_run),
{
    if removed.len() == 0 {
        let mut line = destination.to_owned();
        line.append(": ");
        let count = decimal(kept.len() as u64);
        line.append(count.as_str());
        line.append(" agent(s), nothing superseded");
        line
    } else {
        let mut line = verb(dry_run).to_owned();
        line.append(" ");
        let count = decimal(removed.len() as u64);
        line.append(count.as_str());
        line.append(" superseded agent(s) on ");
        line.append(destination);
        line.append(": ");
        let gone = join_strings(removed, ", ");
        line.append(gone.as_str());
        line.append(" (kept ");
        let left = join_strings(kept, ", ");
        line.append(left.as_str());
        line.append(")");
        line
    }
}

/// What was done in all.
#[derive(Clone, Copy, Debug)]
pub struct CleanTally {
    /// How many items went.
    pub removed: usize,
    /// How large they were.
    pub bytes: u64,
    /// How many were in use.
    pub in_use: usize,
    /// How many agents went.
    pub agents_removed: usize,
}

/// What is said in the end.
pub open spec fn summary_lines(tally: CleanTally, dry_run: bool) -> Seq<Seq<char>> {
    let agents: Seq<Seq<char>> = if tally.agents_removed > 0 {
        seq![
            verb_text(dry_run) + " "@ + decimal_text(tally.agents_removed as nat)
                + " superseded agent binary(ies) from the remote hosts"@,
        ]
    } else {
        Seq::empty()
    };
    let items = verb_text(dry_run) + " "@ + decimal_text(tally.removed as nat) + " item(s), "@
        + size_text(tally.bytes as nat);
    if tally.removed == 0 && tally.in_use == 0 && tally.agents_removed == 0 {
        agents.push("nothing to clean"@)
    } else if tally.in_use > 0 {
        agents.push(
            items + "; "@ + decimal_text(tally.in_use as nat) + " in use and left alone"@,
        )
    } else {
        agents.push(items)
    }
}

/// What is said in the end.
pub fn summary(tally: &CleanTally, dry_run: bool) -> (r: Vec<String>)
    ensures
        strings(r@) == summary_lines(*tally, dry_run),
{
    let mut lines: Vec<String> = Vec::new();
    assert(strings(lines@) =~= Seq::<Seq<char>>::empty());
    if tally.agents_removed > 0 {
        let mut line = verb(dry_run).to_owned();
        line.append(" ");
        let count = decimal(tally.agents_removed as u64);
        line.append(count.as_str());
        line.append(" superseded agent binary(ies) from the remote hosts");
        push_line(&mut lines, line);
    }
    if tally.removed == 0 && tally.in_use == 0 && tally.agents_removed == 0 {
        push_line(&mut lines, "nothing to clean".to_owned());
    } else {
        let mut line = verb(dry_run).to_owned();
        line.append(" ");
        let count = decimal(tally.removed as u64);
        line.append(count.as_str());
        line.append(" item(s), ");
        let size = format_size(tally.bytes);
        line.append(size.as_str());
        if tally.in_use > 0 {
            line.append("; ");
            let count = decimal(tally.in_use as u64);
            line.append(count.as_str());
            line.append(" in use and left alone");
        }
        push_line(&mut lines, line);
    }
    assert(strings(lines@) =~= summary_lines(*tally, dry_run));
    lines
}

// ---------------------------------------------------------------------------
// Laws
// ---------------------------------------------------------------------------

/// What belongs to a session whose state is kept is left alone.
pub proof fn law_live_state_is_left_alone(
    cleaning: Cleaning,
    session: Seq<char>,
    staged: Seq<char>,
    age: Option<u64>,
)
    requires
        cleaning.is_live(session),
        staged_session(staged) == Some(session),
    ensures
        cleaning.session_fate(session) == FateView::Leave,
        cleaning.status_fate(session + ".json"@) == FateView::Leave,
        cleaning.staging_fate(staged, age) == FateView::Leave,
{
    reveal_strlit(".json");
    let name = session + ".json"@;
    assert(name.take(name.len() - 5) =~= session);
}

/// While the settings of a disabled group do not validate, and disabled
/// sessions are to be kept, no session, status record or lock goes.
pub proof fn law_what_cannot_be_attributed_is_kept(cleaning: Cleaning, name: Seq<char>)
    requires
        cleaning.unattributable(),
    ensures
        !(cleaning.session_fate(name) is Remove),
        !(cleaning.status_fate(name) is Remove),
        !(cleaning.lock_fate(name) is Remove),
{
}

/// Staged content belongs to the session that it is named after: a session's
/// identifier, a dash, and a side that holds no dash. A scan cache is named the
/// same way, with an end of its own. What has no dash in its name belongs to
/// no session.
pub proof fn law_staged_content_is_its_session_s(session: Seq<char>, side: Seq<char>)
    requires
        !side.contains('-'),
        !has_suffix(side, ".scancache"@),
    ensures
        staged_session(session + seq!['-'] + side) == Some(session),
        staged_session(session + seq!['-'] + side + ".scancache"@) == Some(session),
        staged_session(side) is None,
        staged_session(side + ".scancache"@) is None,
{
    reveal_strlit(".scancache");
    let end = ".scancache"@;
    let name = session + seq!['-'] + side;
    let at = session.len() as int;
    if has_suffix(name, end) {
        if side.len() < 10 {
            let k = 9 - side.len();
            assert(name[at] == name.skip(name.len() - 10)[k]);
            assert(end[k] == '-');
        } else {
            assert(side.skip(side.len() - 10) =~= name.skip(name.len() - 10));
        }
    }
    assert(without_end(name, end) == name);
    lemma_dash(name, session, side, name.len() as int);
    assert(name.take(at) =~= session);
    let cache = name + end;
    assert(cache.skip(cache.len() - 10) =~= end);
    assert(cache.take(cache.len() - 10) =~= name);
    assert(without_end(cache, end) == name);
    assert(without_end(side, end) == side);
    lemma_no_dash(side, side.len() as int);
    let bare = side + end;
    assert(bare.skip(bare.len() - 10) =~= end);
    assert(bare.take(bare.len() - 10) =~= side);
    assert(without_end(bare, end) == side);
}

proof fn lemma_no_dash(s: Seq<char>, n: int)
    requires
        0 <= n <= s.len(),
        !s.contains('-'),
    ensures
        last_index(s, '-', n) == -1,
    decreases n,
{
    if n > 0 {
        assert(s.contains(s[n - 1]));
        lemma_no_dash(s, n - 1);
    }
}

proof fn lemma_dash(name: Seq<char>, session: Seq<char>, side: Seq<char>, n: int)
    requires
        name == session + seq!['-'] + side,
        !side.contains('-'),
        session.len() < n <= name.len(),
    ensures
        last_index(name, '-', n) == session.len(),
    decreases n,
{
    if n > session.len() + 1 {
        assert(name[n - 1] == side[n - 2 - session.len()]);
        assert(side.contains(name[n - 1]));
        lemma_dash(name, session, side, n - 1);
    }
}

/// What becomes of staged content. That of a session whose state is kept is
/// left alone, whichever side it is of, however old it is and whatever else is
/// removed. That of a session whose state was removed goes with it. Any other
/// goes once it is so many days old, where days are given and its age is
/// known, and not before.
pub proof fn law_staged_content_goes_with_its_session_or_with_age(
    cleaning: Cleaning,
    session: Seq<char>,
    side: Seq<char>,
    cache: bool,
    age: Option<u64>,
)
    requires
        !side.contains('-'),
        !has_suffix(side, ".scancache"@),
    ensures
        ({
            let name = session + seq!['-'] + side + if cache {
                ".scancache"@
            } else {
                Seq::<char>::empty()
            };
            let live = exists|i: int|
                0 <= i < cleaning.live_sessions@.len() && (
                #[trigger] cleaning.live_sessions@[i])@ == session;
            let retired = exists|i: int|
                0 <= i < cleaning.retired@.len() && (#[trigger] cleaning.retired@[i])@ == session;
            let fate = cleaning.staging_fate(name, age);
            &&& live ==> fate is Leave
            &&& !live && retired ==> fate == FateView::Remove("staged content"@)
            &&& !live && !retired ==> (fate is Remove <==> cleaning.staging_days is Some
                && age is Some && age->0 >= cleaning.staging_days->0 * 24 * 60 * 60)
            &&& !(fate is Keep)
        }),
{
    law_staged_content_is_its_session_s(session, side);
    let name = session + seq!['-'] + side;
    assert(name + Seq::<char>::empty() =~= name);
    lemma_held(cleaning.live_sessions@, session);
    lemma_held(cleaning.retired@, session);
}

/// A list of texts holds a text exactly where one of them is it.
proof fn lemma_held(list: Seq<String>, text: Seq<char>)
    ensures
        strings(list).contains(text) <==> exists|i: int|
            0 <= i < list.len() && (#[trigger] list[i])@ == text,
{
    if strings(list).contains(text) {
        let i = choose|i: int| 0 <= i < strings(list).len() && strings(list)[i] == text;
        assert(list[i]@ == text);
    }
    if exists|i: int| 0 <= i < list.len() && (#[trigger] list[i])@ == text {
        let i = choose|i: int| 0 <= i < list.len() && (#[trigger] list[i])@ == text;
        assert(strings(list)[i] == text);
    }
}

/// What belongs to no session that is kept goes, unless it could belong to a
/// disabled group whose settings do not validate; that is kept, and said so.
/// What is no session's record is left alone.
pub proof fn law_what_belongs_to_no_session_goes(cleaning: Cleaning, name: Seq<char>)
    ensures
        ({
            let live = exists|i: int|
                0 <= i < cleaning.live_sessions@.len() && (
                #[trigger] cleaning.live_sessions@[i])@ == name;
            let locked = exists|i: int|
                0 <= i < cleaning.live_locks@.len() && (#[trigger] cleaning.live_locks@[i])@
                    == name;
            let doubtful = !cleaning.include_disabled && cleaning.unclear@.len() > 0;
            let record = cleaning.status_fate(name + ".json"@);
            &&& cleaning.session_fate(name) is Leave <==> live
            &&& cleaning.session_fate(name) is Keep <==> !live && doubtful
            &&& cleaning.session_fate(name) is Remove <==> !live && !doubtful
            &&& record is Leave <==> live
            &&& record is Keep <==> !live && doubtful
            &&& record is Remove <==> !live && !doubtful
            &&& cleaning.lock_fate(name) is Leave <==> locked
            &&& cleaning.lock_fate(name) is Keep <==> !locked && doubtful
            &&& cleaning.lock_fate(name) is Remove <==> !locked && !doubtful
        }),
        !has_suffix(name, ".json"@) ==> cleaning.status_fate(name) is Leave,
{
    reveal_strlit(".json");
    lemma_held(cleaning.live_sessions@, name);
    lemma_held(cleaning.live_locks@, name);
    let record = name + ".json"@;
    assert(record.skip(record.len() - 5) =~= ".json"@);
    assert(record.take(record.len() - 5) =~= name);
}

/// A session is disabled exactly where the settings of some group describe it
/// and no active session has its identifier. A group is unclear exactly where
/// its settings do not validate.
pub proof fn law_a_disabled_session_is_described_and_not_active(
    attempts: Seq<Attempt>,
    active: Seq<Seq<char>>,
    n: int,
    plan: SessionPlan,
    group: Seq<char>,
)
    requires
        0 <= n <= attempts.len(),
    ensures
        disabled_in(attempts, active, n).contains(plan) <==> !active.contains(plan.identifier@)
            && exists|i: int|
            0 <= i < n && (#[trigger] attempts[i]).plans is Some && attempts[i].plans->0@.contains(
                plan,
            ),
        unclear_in(attempts, n).contains(group) <==> exists|i: int|
            0 <= i < n && (#[trigger] attempts[i]).plans is None && attempts[i].group@ == group,
    decreases n,
{
    if n > 0 {
        law_a_disabled_session_is_described_and_not_active(attempts, active, n - 1, plan, group);
        let front = disabled_in(attempts, active, n - 1);
        let groups = unclear_in(attempts, n - 1);
        match attempts[n - 1].plans {
            Some(plans) => {
                let test = |plan: SessionPlan| !active.contains(plan.identifier@);
                lemma_filtered(plans@, test, plan);
                let more = inactive(plans@, active);
                lemma_either(front, more, plan);
            },
            None => {
                let all = groups.push(attempts[n - 1].group@);
                if groups.contains(group) {
                    let k = choose|k: int| 0 <= k < groups.len() && groups[k] == group;
                    assert(all[k] == group);
                }
                assert(all[all.len() - 1] == attempts[n - 1].group@);
                if all.contains(group) {
                    let k = choose|k: int| 0 <= k < all.len() && all[k] == group;
                    if k < groups.len() {
                        assert(groups[k] == group);
                    }
                }
            },
        }
    }
}

proof fn lemma_filtered<A>(list: Seq<A>, test: spec_fn(A) -> bool, a: A)
    ensures
        list.filter(test).contains(a) <==> list.contains(a) && test(a),
    decreases list.len(),
{
    reveal(Seq::filter);
    if list.len() > 0 {
        let front = list.drop_last();
        lemma_filtered(front, test, a);
        lemma_either(front.filter(test), seq![list.last()], a);
        lemma_either(front, seq![list.last()], a);
        assert(front + seq![list.last()] =~= list);
        assert(front.filter(test) + seq![list.last()] =~= front.filter(test).push(list.last()));
        assert(seq![list.last()].contains(a) <==> a == list.last()) by {
            assert(seq![list.last()][0] == list.last());
        }
    }
}

/// Where nothing went, nothing was in use and no agent was superseded, the
/// summary is that there is nothing to clean; otherwise it says how many items
/// went, and what was left alone.
pub proof fn law_a_summary_says_what_went(tally: CleanTally, dry_run: bool)
    ensures
        summary_lines(tally, dry_run).len() == (if tally.agents_removed == 0 {
            1int
        } else {
            2
        }),
        tally.removed == 0 && tally.in_use == 0 && tally.agents_removed == 0 ==> summary_lines(
            tally,
            dry_run,
        ).last() == "nothing to clean"@,
        (tally.removed > 0 || tally.in_use > 0 || tally.agents_removed > 0) ==> summary_lines(
            tally,
            dry_run,
        ).last() == (if dry_run {
            "would remove"@
        } else {
            "removed"@
        }) + " "@ + decimal_text(tally.removed as nat) + " item(s), "@ + size_text(
            tally.bytes as nat,
        ) + (if tally.in_use > 0 {
            "; "@ + decimal_text(tally.in_use as nat) + " in use and left alone"@
        } else {
            Seq::<char>::empty()
        }),
{
    let items = verb_text(dry_run) + " "@ + decimal_text(tally.removed as nat) + " item(s), "@
        + size_text(tally.bytes as nat);
    assert(items + Seq::<char>::empty() =~= items);
    assert(items + ("; "@ + decimal_text(tally.in_use as nat) + " in use and left alone"@) =~= items
        + "; "@ + decimal_text(tally.in_use as nat) + " in use and left alone"@);
}

/// Nothing of a disabled session is removed unasked: the question is left out
/// only where it was answered beforehand, where nothing is removed, or where
/// there is nothing to remove.
pub proof fn law_disabled_sessions_are_asked_about(
    include_disabled: bool,
    dry_run: bool,
    yes: bool,
    disabled: int,
    unclear: int,
)
    requires
        disabled >= 0,
        unclear >= 0,
    ensures
        asked_first(true, false, false, disabled, unclear) <==> disabled + unclear > 0,
        !include_disabled || dry_run || yes ==> !asked_first(
            include_disabled,
            dry_run,
            yes,
            disabled,
            unclear,
        ),
{
}

/// What is active is kept, whatever is asked for, and what is disabled unless
/// it is asked for; nothing else is.
pub proof fn law_the_active_are_kept(
    active: Seq<Seq<char>>,
    disabled: Seq<Seq<char>>,
    include_disabled: bool,
    name: Seq<char>,
)
    ensures
        kept_names(active, disabled, include_disabled).contains(name) <==> active.contains(name) || (
        !include_disabled && disabled.contains(name)),
{
    let all = kept_names(active, disabled, include_disabled);
    if active.contains(name) {
        let i = choose|i: int| 0 <= i < active.len() && active[i] == name;
        assert(all[i] == name);
    }
    if !include_disabled && disabled.contains(name) {
        let i = choose|i: int| 0 <= i < disabled.len() && disabled[i] == name;
        assert(all[active.len() + i] == name);
    }
    if all.contains(name) {
        let i = choose|i: int| 0 <= i < all.len() && all[i] == name;
        if i < active.len() {
            assert(active[i] == name);
        } else {
            assert(disabled[i - active.len()] == name);
        }
    }
}

/// What is named after no session is left alone, however old it is.
pub proof fn law_what_no_session_staged_is_left_alone(
    cleaning: Cleaning,
    name: Seq<char>,
    age: Option<u64>,
)
    requires
        !name.contains('-'),
        !has_suffix(name, ".scancache"@),
    ensures
        cleaning.staging_fate(name, age) is Leave,
        cleaning.staging_fate(name + ".scancache"@, age) is Leave,
{
    law_staged_content_is_its_session_s(name, name);
}

/// A disabled session is told of by its own label, and by the last where it has
/// several; one without a label is not.
pub proof fn law_a_session_is_told_of_by_its_own_label(
    labels: Seq<Label>,
    identifier: Seq<char>,
    n: int,
)
    requires
        0 <= n <= labels.len(),
    ensures
        match label_of(labels, identifier, n) {
            Some(text) => exists|i: int|
                0 <= i < n && (#[trigger] labels[i]).identifier@ == identifier && labels[i].text@
                    == text && forall|j: int|
                    i < j < n ==> (#[trigger] labels[j]).identifier@ != identifier,
            None => forall|j: int|
                0 <= j < n ==> (#[trigger] labels[j]).identifier@ != identifier,
        },
    decreases n,
{
    if n > 0 {
        law_a_session_is_told_of_by_its_own_label(labels, identifier, n - 1);
        if labels[n - 1].identifier@ == identifier {
            assert(labels[n - 1].text@ == label_of(labels, identifier, n)->0);
        } else if label_of(labels, identifier, n) is Some {
            let text = label_of(labels, identifier, n)->0;
            let i = choose|i: int|
                0 <= i < n - 1 && (#[trigger] labels[i]).identifier@ == identifier
                    && labels[i].text@ == text && forall|j: int|
                    i < j < n - 1 ==> (#[trigger] labels[j]).identifier@ != identifier;
            assert(labels[i].identifier@ == identifier);
        }
    }
}

} // verus!
