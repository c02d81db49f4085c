//! Discovery of versioned migration scripts and the order in which they run.
//!
//! A migration script is named `<version>_<description>.sql`. The caller lists
//! the migrations directory and hands the names to [`discover`]; it queries the
//! tracking table for the highest recorded version and hands both to
//! [`MigrationRun::new`], which then says which script runs next.
use vstd::prelude::*;

use crate::decimal::{parse_u32, u32_of};

verus! {

/// File name of the script that creates the tracking table and the baseline
/// schema. It runs first when the tracking table does not exist yet.
pub const INIT_SCRIPT: &'static str = "00_init.sql";

/// One discovered migration script.
pub struct MigrationFile {
    pub version: u32,
    pub filename: String,
}

/// What a directory entry's name makes of it.
#[derive(Debug, PartialEq, Eq, Structural)]
pub enum NameKind {
    /// Not a migration script: no `_`, or not ending in `.sql`.
    Ignored,
    /// Shaped like a migration script, but the text before the first `_` is
    /// not an unsigned 32-bit number.
    Invalid,
    /// A migration script of this version.
    Versioned(u32),
}

/// Why a migrations directory cannot be run.
#[derive(Debug)]
pub enum MigrationError {
    /// A script's name does not start with a version number.
    InvalidFilename(String),
    /// Two scripts carry the same version.
    DuplicateVersion(u32),
}

pub open spec fn has_sql_suffix(name: Seq<char>) -> bool {
    name.len() >= 4 && name.subrange(name.len() - 4, name.len() as int) == seq!['.', 's', 'q', 'l']
}

pub open spec fn is_candidate(name: Seq<char>) -> bool {
    name.contains('_') && has_sql_suffix(name)
}

/// Index of the first `_` in `s`, or its length when there is none.
pub open spec fn first_underscore(s: Seq<char>) -> int
    decreases s.len(),
{
    if s.len() == 0 {
        0
    } else if s[0] == '_' {
        0
    } else {
        1 + first_underscore(s.drop_first())
    }
}

/// The text before the first `_`.
pub open spec fn version_token(name: Seq<char>) -> Seq<char> {
    name.subrange(0, first_underscore(name))
}

#[verifier::opaque]
pub open spec fn name_kind(name: Seq<char>) -> NameKind {
    if !is_candidate(name) {
        NameKind::Ignored
    } else {
        match u32_of(version_token(name)) {
            Some(v) => NameKind::Versioned(v),
            None => NameKind::Invalid,
        }
    }
}

proof fn lemma_first_underscore(s: Seq<char>, k: int)
    requires
        0 <= k <= s.len(),
        forall|j: int| 0 <= j < k ==> s[j] != '_',
        k == s.len() || s[k] == '_',
    ensures
        first_underscore(s) == k,
    decreases k,
{
    if k > 0 {
        let t = s.drop_first();
        assert forall|j: int| 0 <= j < k - 1 implies t[j] != '_' by {
            assert(t[j] == s[j + 1]);
        }
        if k < s.len() {
            assert(t[k - 1] == s[k]);
        }
        lemma_first_underscore(t, k - 1);
    }
}

/// Classifies a directory entry by its file name.
pub fn classify_filename(name: &str) -> (r: NameKind)
    ensures
        r == name_kind(name@),
{
    let len = name.unicode_len();
    let mut k: usize = 0;
    while k < len && name.get_char(k) != '_'
        invariant
            k <= len,
            len == name@.len(),
            forall|j: int| 0 <= j < k ==> name@[j] != '_',
        decreases len - k,
    {
        k = k + 1;
    }
    proof {
        lemma_first_underscore(name@, k as int);
        reveal(name_kind);
    }
    if k == len {
        assert(!name@.contains('_'));
        return NameKind::Ignored;
    }
    assert(name@.contains('_')) by {
        assert(name@[k as int] == '_');
    }
    if len < 4 {
        return NameKind::Ignored;
    }
    let suffix = name.get_char(len - 4) == '.' && name.get_char(len - 3) == 's'
        && name.get_char(len - 2) == 'q' && name.get_char(len - 1) == 'l';
    let ghost tail = name@.subrange(len - 4, len as int);
    assert(tail[0] == name@[len - 4] && tail[1] == name@[len - 3] && tail[2] == name@[len - 2]
        && tail[3] == name@[len - 1]);
    if !suffix {
        assert(tail != seq!['.', 's', 'q', 'l']) by {
            if tail == seq!['.', 's', 'q', 'l'] {
                assert(tail[0] == '.' && tail[1] == 's' && tail[2] == 'q' && tail[3] == 'l');
            }
        }
        return NameKind::Ignored;
    }
    assert(tail =~= seq!['.', 's', 'q', 'l']);
    let token = name.substring_char(0, k);
    match parse_u32(token) {
        Some(v) => NameKind::Versioned(v),
        None => NameKind::Invalid,
    }
}

/// Entry `i` makes discovery fail: a script with a bad name, or a script whose
/// version an earlier script already has.
pub open spec fn bad_at(names: Seq<String>, i: int) -> bool {
    match name_kind(names[i]@) {
        NameKind::Ignored => false,
        NameKind::Invalid => true,
        NameKind::Versioned(v) => exists|j: int|
            0 <= j < i && #[trigger] name_kind(names[j]@) == NameKind::Versioned(v),
    }
}

/// `e` is the error that entry `i` gives.
pub open spec fn error_at(names: Seq<String>, i: int, e: MigrationError) -> bool {
    match e {
        MigrationError::InvalidFilename(n) => name_kind(names[i]@) == NameKind::Invalid && n@
            == names[i]@,
        MigrationError::DuplicateVersion(v) => name_kind(names[i]@) == NameKind::Versioned(v),
    }
}

pub open spec fn strictly_sorted(ms: Seq<MigrationFile>) -> bool {
    forall|i: int, j: int| 0 <= i < j < ms.len() ==> ms[i].version < ms[j].version
}

/// Some entry of `ms` is the script `name` with version `v`.
#[verifier::opaque]
pub open spec fn lists_script(ms: Seq<MigrationFile>, name: Seq<char>, v: u32) -> bool {
    exists|k: int| 0 <= k < ms.len() && ms[k].version == v && #[trigger] ms[k].filename@ == name
}

/// `m` is the script named by one of the first `n` names.
#[verifier::opaque]
pub open spec fn comes_from(names: Seq<String>, n: int, m: MigrationFile) -> bool {
    exists|i: int|
        0 <= i < n && name_kind(#[trigger] names[i]@) == NameKind::Versioned(m.version)
            && m.filename@ == names[i]@
}

/// `ms` holds one entry for each migration script among the first `n` names,
/// and nothing else.
pub open spec fn lists_scripts(ms: Seq<MigrationFile>, names: Seq<String>, n: int) -> bool {
    &&& forall|i: int|
        0 <= i < n ==> match #[trigger] name_kind(names[i]@) {
            NameKind::Versioned(v) => lists_script(ms, names[i]@, v),
            _ => true,
        }
    &&& forall|k: int| 0 <= k < ms.len() ==> comes_from(names, n, #[trigger] ms[k])
}

proof fn lemma_skip_entry(ms: Seq<MigrationFile>, names: Seq<String>, i: int)
    requires
        0 <= i < names.len(),
        lists_scripts(ms, names, i),
        name_kind(names[i]@) == NameKind::Ignored,
    ensures
        lists_scripts(ms, names, i + 1),
{
    reveal(comes_from);
    assert forall|k: int| 0 <= k < ms.len() implies comes_from(names, i + 1, #[trigger] ms[k]) by {
        assert(comes_from(names, i, ms[k]));
    }
}

proof fn lemma_insert_sorted(old_ms: Seq<MigrationFile>, p: int, m: MigrationFile)
    requires
        0 <= p <= old_ms.len(),
        strictly_sorted(old_ms),
        forall|k: int| 0 <= k < p ==> old_ms[k].version < m.version,
        p < old_ms.len() ==> old_ms[p].version > m.version,
    ensures
        strictly_sorted(old_ms.insert(p, m)),
{
    let new_ms = old_ms.insert(p, m);
    assert forall|a: int, b: int| 0 <= a < b < new_ms.len() implies new_ms[a].version
        < new_ms[b].version by {
        if b == p {
        } else if a == p {
            assert(new_ms[b] == old_ms[b - 1]);
            assert(old_ms[p].version > m.version);
        } else if a < p && b > p {
            assert(new_ms[b] == old_ms[b - 1]);
            assert(old_ms[p].version > m.version);
        } else if a > p {
            assert(new_ms[b] == old_ms[b - 1]);
            assert(new_ms[a] == old_ms[a - 1]);
        }
    }
}

proof fn lemma_insert_fresh(old_ms: Seq<MigrationFile>, names: Seq<String>, i: int, p: int, v: u32)
    requires
        0 <= i < names.len(),
        0 <= p <= old_ms.len(),
        strictly_sorted(old_ms),
        lists_scripts(old_ms, names, i),
        forall|k: int| 0 <= k < p ==> old_ms[k].version < v,
        p < old_ms.len() ==> old_ms[p].version > v,
        name_kind(names[i]@) == NameKind::Versioned(v),
    ensures
        !bad_at(names, i),
{
    reveal(lists_script);
    assert forall|k: int| 0 <= k < old_ms.len() implies old_ms[k].version != v by {
        if k >= p {
            assert(old_ms[p].version > v);
        }
    }
    if exists|j: int| 0 <= j < i && #[trigger] name_kind(names[j]@) == NameKind::Versioned(v) {
        let j = choose|j: int| 0 <= j < i && #[trigger] name_kind(names[j]@) == NameKind::Versioned(v);
        assert(lists_script(old_ms, names[j]@, v));
    }
}

proof fn lemma_insert_lists(old_ms: Seq<MigrationFile>, names: Seq<String>, i: int, p: int, m: MigrationFile)
    requires
        0 <= i < names.len(),
        0 <= p <= old_ms.len(),
        lists_scripts(old_ms, names, i),
        name_kind(names[i]@) == NameKind::Versioned(m.version),
        m.filename@ == names[i]@,
    ensures
        lists_scripts(old_ms.insert(p, m), names, i + 1),
{
    let new_ms = old_ms.insert(p, m);
    assert forall|j: int| 0 <= j < i + 1 implies match #[trigger] name_kind(names[j]@) {
        NameKind::Versioned(v) => lists_script(new_ms, names[j]@, v),
        _ => true,
    } by {
        reveal(lists_script);
        if j == i {
            assert(new_ms[p].filename@ == names[j]@);
        } else if let NameKind::Versioned(v) = name_kind(names[j]@) {
            assert(lists_script(old_ms, names[j]@, v));
            let k = choose|k: int|
                0 <= k < old_ms.len() && old_ms[k].version == v && #[trigger] old_ms[k].filename@
                    == names[j]@;
            if k < p {
                assert(new_ms[k] == old_ms[k]);
            } else {
                assert(new_ms[k + 1] == old_ms[k]);
            }
        }
    }
    assert forall|k: int| 0 <= k < new_ms.len() implies comes_from(names, i + 1, #[trigger] new_ms[k]) by {
        reveal(comes_from);
        if k == p {
            assert(name_kind(names[i]@) == NameKind::Versioned(new_ms[k].version));
        } else {
            let ko = if k < p {
                k
            } else {
                k - 1
            };
            assert(new_ms[k] == old_ms[ko]);
            assert(comes_from(names, i, old_ms[ko]));
        }
    }
}

/// Turns a directory listing into the migrations it holds, in ascending order
/// of version. Names that are not migration scripts are skipped; the first
/// entry (in listing order) with a bad name or a repeated version is an error.
pub fn discover(names: &Vec<String>) -> (r: Result<Vec<MigrationFile>, MigrationError>)
    ensures
        match r {
            Ok(ms) => {
                &&& forall|i: int| 0 <= i < names@.len() ==> !bad_at(names@, i)
                &&& strictly_sorted(ms@)
                &&& lists_scripts(ms@, names@, names@.len() as int)
            },
            Err(e) => exists|i: int|
                0 <= i < names@.len() && bad_at(names@, i) && (forall|j: int|
                    0 <= j < i ==> !bad_at(names@, j)) && error_at(names@, i, e),
        },
{
    let mut ms: Vec<MigrationFile> = Vec::new();
    let mut i: usize = 0;
    while i < names.len()
        invariant
            i <= names@.len(),
            forall|j: int| 0 <= j < i ==> !bad_at(names@, j),
            strictly_sorted(ms@),
            lists_scripts(ms@, names@, i as int),
        decreases names@.len() - i,
    {
        let kind = classify_filename(names[i].as_str());
        match kind {
            NameKind::Ignored => {
                proof {
                    lemma_skip_entry(ms@, names@, i as int);
                }
            },
            NameKind::Invalid => {
                let filename = names[i].clone();
                assert(bad_at(names@, i as int));
                assert(error_at(names@, i as int, MigrationError::InvalidFilename(filename)));
                return Err(MigrationError::InvalidFilename(filename));
            },
            NameKind::Versioned(v) => {
                let mut p: usize = 0;
                while p < ms.len() && ms[p].version < v
                    invariant
                        p <= ms@.len(),
                        forall|k: int| 0 <= k < p ==> ms@[k].version < v,
                    decreases ms@.len() - p,
                {
                    p = p + 1;
                }
                if p < ms.len() && ms[p].version == v {
                    proof {
                        reveal(comes_from);
                        assert(comes_from(names@, i as int, ms@[p as int]));
                        assert(bad_at(names@, i as int));
                    }
                    return Err(MigrationError::DuplicateVersion(v));
                }
                let filename = names[i].clone();
                let m = MigrationFile { version: v, filename };
                proof {
                    lemma_insert_sorted(ms@, p as int, m);
                    lemma_insert_fresh(ms@, names@, i as int, p as int, v);
                    lemma_insert_lists(ms@, names@, i as int, p as int, m);
                }
                ms.insert(p, m);
            },
        }
        i = i + 1;
    }
    Ok(ms)
}

/// The version below which nothing runs: the highest recorded version, or 0
/// when the tracking table holds no record.
pub open spec fn baseline_of(latest: Option<u32>) -> u32 {
    match latest {
        Some(v) => v,
        None => 0,
    }
}

pub open spec fn above(baseline: u32) -> spec_fn(MigrationFile) -> bool {
    |m: MigrationFile| m.version > baseline
}

/// The migrations that still have to run: those above the baseline, in order.
pub open spec fn pending(ms: Seq<MigrationFile>, baseline: u32) -> Seq<MigrationFile> {
    ms.filter(above(baseline))
}

proof fn lemma_pending_suffix(ms: Seq<MigrationFile>, baseline: u32, k: int)
    requires
        0 <= k <= ms.len(),
        forall|i: int| 0 <= i < k ==> ms[i].version <= baseline,
        forall|i: int| k <= i < ms.len() ==> ms[i].version > baseline,
    ensures
        pending(ms, baseline) == ms.subrange(k, ms.len() as int),
    decreases ms.len(),
{
    reveal(Seq::filter);
    if ms.len() == 0 {
        assert(ms.subrange(0, 0) =~= ms);
    } else {
        let t = ms.drop_last();
        if k < ms.len() {
            lemma_pending_suffix(t, baseline, k);
            assert(ms.subrange(k, ms.len() as int) =~= t.subrange(k, t.len() as int).push(ms.last()));
        } else {
            lemma_pending_suffix(t, baseline, t.len() as int);
            assert(ms.subrange(k, ms.len() as int) =~= t.subrange(t.len() as int, t.len() as int));
        }
    }
}

/// One run of the migration procedure over the discovered migrations.
///
/// The caller executes the script that [`MigrationRun::next_script`] names,
/// records its version in the tracking table, then calls
/// [`MigrationRun::mark_applied`]. When a script or its record fails, the
/// caller stops: the failed migration stays unrecorded, so the next run starts
/// with it.
pub struct MigrationRun {
    migrations: Vec<MigrationFile>,
    first: usize,
    next: usize,
    baseline: u32,
}

impl MigrationRun {
    /// All migrations of this run, in ascending order of version.
    pub closed spec fn migrations(&self) -> Seq<MigrationFile> {
        self.migrations@
    }

    /// The highest version applied so far, or the one recorded at the start.
    pub closed spec fn baseline(&self) -> u32 {
        self.baseline
    }

    /// The migrations this run is to apply, in the order they run.
    pub closed spec fn plan(&self) -> Seq<MigrationFile> {
        self.migrations@.subrange(self.first as int, self.migrations@.len() as int)
    }

    /// The migrations applied so far by this run, in the order they ran.
    pub closed spec fn applied(&self) -> Seq<MigrationFile> {
        self.migrations@.subrange(self.first as int, self.next as int)
    }

    /// The migrations still to run, in the order they run.
    pub closed spec fn remaining(&self) -> Seq<MigrationFile> {
        self.migrations@.subrange(self.next as int, self.migrations@.len() as int)
    }

    pub closed spec fn wf(&self) -> bool {
        &&& strictly_sorted(self.migrations@)
        &&& self.first <= self.next <= self.migrations@.len()
        &&& forall|i: int| 0 <= i < self.next ==> self.migrations@[i].version <= self.baseline
        &&& forall|i: int|
            self.next <= i < self.migrations@.len() ==> self.migrations@[i].version > self.baseline
    }

    /// Starts a run. `latest` is the highest version in the tracking table,
    /// `None` when it holds no record.
    pub fn new(migrations: Vec<MigrationFile>, latest: Option<u32>) -> (r: MigrationRun)
        requires
            strictly_sorted(migrations@),
        ensures
            r.wf(),
            r.migrations() == migrations@,
            r.baseline() == baseline_of(latest),
            r.plan() == pending(migrations@, baseline_of(latest)),
            r.applied() == Seq::<MigrationFile>::empty(),
            r.remaining() == r.plan(),
    {
        let baseline = match latest {
            Some(v) => v,
            None => 0,
        };
        let mut next: usize = 0;
        while next < migrations.len() && migrations[next].version <= baseline
            invariant
                next <= migrations@.len(),
                forall|i: int| 0 <= i < next ==> migrations@[i].version <= baseline,
            decreases migrations@.len() - next,
        {
            next = next + 1;
        }
        assert forall|i: int| next <= i < migrations@.len() implies migrations@[i].version
            > baseline by {
            if i > next {
                assert(migrations@[next as int].version < migrations@[i].version);
            }
        }
        proof {
            lemma_pending_suffix(migrations@, baseline, next as int);
        }
        let r = MigrationRun { migrations, first: next, next, baseline };
        assert(r.applied() =~= Seq::<MigrationFile>::empty());
        r
    }

    /// The migration whose script runs next, or `None` when the run is done.
    pub fn next_script(&self) -> (r: Option<&MigrationFile>)
        requires
            self.wf(),
        ensures
            match r {
                Some(m) => self.remaining().len() > 0 && *m == self.remaining()[0],
                None => self.remaining().len() == 0,
            },
    {
        if self.next < self.migrations.len() {
            Some(&self.migrations[self.next])
        } else {
            None
        }
    }

    /// Notes that the next script ran and its version was recorded.
    pub fn mark_applied(&mut self)
        requires
            old(self).wf(),
            old(self).remaining().len() > 0,
        ensures
            final(self).wf(),
            final(self).migrations() == old(self).migrations(),
            final(self).baseline() == old(self).remaining()[0].version,
            final(self).plan() == old(self).plan(),
            final(self).applied() == old(self).applied().push(old(self).remaining()[0]),
            final(self).remaining() == old(self).remaining().drop_first(),
            final(self).remaining() == pending(final(self).migrations(), final(self).baseline()),
    {
        assert(self.remaining().len() == self.migrations@.len() - self.next);
        let n = self.next;
        assert(n < self.migrations.len());
        self.baseline = self.migrations[n].version;
        self.next = n + 1;
        proof {
            let ms = self.migrations@;
            assert forall|i: int| 0 <= i < self.next implies ms[i].version <= self.baseline by {
                if i < self.next - 1 {
                    assert(ms[i].version < ms[self.next - 1].version);
                }
            }
            assert forall|i: int| self.next <= i < ms.len() implies ms[i].version
                > self.baseline by {
                assert(ms[self.next - 1].version < ms[i].version);
            }
            lemma_pending_suffix(ms, self.baseline, self.next as int);
            assert(self.remaining() =~= old(self).remaining().drop_first());
            assert(self.applied() =~= old(self).applied().push(old(self).remaining()[0]));
        }
    }

    /// What has run and what is left make up the plan, in order.
    pub proof fn lemma_applied_then_remaining(&self)
        requires
            self.wf(),
        ensures
            self.applied() + self.remaining() == self.plan(),
    {
        assert(self.applied() + self.remaining() =~= self.plan());
    }

    /// The highest version applied so far, or the one recorded at the start.
    pub fn current_baseline(&self) -> (r: u32)
        ensures
            r == self.baseline(),
    {
        self.baseline
    }
}

/// The versions of `ms`, in order.
pub open spec fn versions(ms: Seq<MigrationFile>) -> Seq<u32> {
    ms.map_values(|m: MigrationFile| m.version)
}

/// The highest version among `records`, `None` when there is none.
pub open spec fn latest_recorded(records: Seq<u32>) -> Option<u32>
    decreases records.len(),
{
    if records.len() == 0 {
        None
    } else {
        let b = baseline_of(latest_recorded(records.drop_last()));
        Some(if records.last() > b { records.last() } else { b })
    }
}

/// The tracking records after a complete run that found `records` and the
/// migrations `ms`.
pub open spec fn records_after_run(records: Seq<u32>, ms: Seq<MigrationFile>) -> Seq<u32> {
    records + versions(pending(ms, baseline_of(latest_recorded(records))))
}

proof fn lemma_latest_bounds(records: Seq<u32>)
    ensures
        forall|i: int| 0 <= i < records.len() ==> records[i] <= baseline_of(latest_recorded(records)),
        records.len() == 0 ==> baseline_of(latest_recorded(records)) == 0,
        records.len() > 0 ==> exists|i: int|
            0 <= i < records.len() && records[i] == baseline_of(latest_recorded(records)),
    decreases records.len(),
{
    if records.len() > 0 {
        let t = records.drop_last();
        lemma_latest_bounds(t);
        assert forall|i: int| 0 <= i < records.len() implies records[i] <= baseline_of(
            latest_recorded(records),
        ) by {
            if i < t.len() {
                assert(records[i] == t[i]);
            }
        }
        if records.last() <= baseline_of(latest_recorded(t)) && t.len() > 0 {
            let i = choose|i: int| 0 <= i < t.len() && t[i] == baseline_of(latest_recorded(t));
            assert(records[i] == t[i]);
        } else {
            assert(records[records.len() - 1] == records.last());
        }
    }
}

/// On a database with no tracking record, a run executes every discovered
/// migration (all of version 1 or more) in ascending order, and afterwards the
/// tracking table holds exactly their versions.
pub proof fn lemma_fresh_database_runs_all(ms: Seq<MigrationFile>)
    requires
        strictly_sorted(ms),
        forall|i: int| 0 <= i < ms.len() ==> ms[i].version > 0,
    ensures
        pending(ms, baseline_of(latest_recorded(Seq::empty()))) == ms,
        records_after_run(Seq::empty(), ms) == versions(ms),
{
    lemma_pending_suffix(ms, 0, 0);
    assert(ms.subrange(0, ms.len() as int) =~= ms);
    assert(records_after_run(Seq::empty(), ms) =~= versions(ms));
}

/// A run that has no script left has applied exactly the pending migrations,
/// so recording each one as it ran leaves the tracking table as
/// [`records_after_run`] says.
pub proof fn lemma_finished_run_records(run: &MigrationRun, records: Seq<u32>, latest: Option<u32>)
    requires
        run.wf(),
        run.remaining().len() == 0,
        run.plan() == pending(run.migrations(), baseline_of(latest)),
        latest == latest_recorded(records),
    ensures
        records + versions(run.applied()) == records_after_run(records, run.migrations()),
{
    run.lemma_applied_then_remaining();
    assert(run.applied() =~= run.applied() + run.remaining());
}

/// Running the procedure again right after a complete run, with no new
/// scripts, executes no script.
pub proof fn lemma_rerun_runs_nothing(records: Seq<u32>, ms: Seq<MigrationFile>)
    ensures
        pending(ms, baseline_of(latest_recorded(records_after_run(records, ms)))).len() == 0,
{
    broadcast use Seq::lemma_filter_contains_rev, Seq::lemma_filter_pred, Seq::lemma_filter_contains;

    let b1 = baseline_of(latest_recorded(records));
    let p = pending(ms, b1);
    let after = records_after_run(records, ms);
    let b2 = baseline_of(latest_recorded(after));
    lemma_latest_bounds(records);
    lemma_latest_bounds(after);
    assert(b1 <= b2) by {
        if records.len() > 0 {
            let i = choose|i: int| 0 <= i < records.len() && records[i] == b1;
            assert(after[i] == records[i]);
        }
    }
    assert forall|k: int| 0 <= k < ms.len() implies ms[k].version <= b2 by {
        if ms[k].version > b1 {
            assert(p.contains(ms[k]));
            let j = choose|j: int| 0 <= j < p.len() && p[j] == ms[k];
            assert(after[records.len() + j] == ms[k].version);
        }
    }
    let q = pending(ms, b2);
    if q.len() > 0 {
        assert(q.contains(q[0]));
        assert(ms.contains(q[0]));
        assert(above(b2)(q[0]));
    }
}

} // verus!
