//! The per-table orchestration policy: which tables are processed, the
//! bounded-retry rule for one table, and the run-level summary. The loop
//! that opens files, sleeps between attempts and fans work out to threads
//! lives outside the library; it feeds attempt outcomes in and gets
//! decisions and summaries back.

use vstd::prelude::*;
use vstd::string::StringExecFns;

use crate::error::Error;
use crate::schema::TableCatalog;
use crate::schema::TableInfo;
use crate::text::str_eq;

verus! {

/// Attempts made per table before it is reported failed.
pub const MAX_ATTEMPTS: u64 = 3;

/// Seconds waited between one table's attempts.
pub const BACKOFF_SECONDS: u64 = 1;

/// After `attempts_made` failed attempts: is the table tried again (after
/// the backoff), or given up?
pub fn should_retry(attempts_made: u64) -> (r: bool)
    ensures
        r == (attempts_made < MAX_ATTEMPTS),
{
    attempts_made < MAX_ATTEMPTS
}

/// One table's outcome, reported after its attempts are exhausted or one of
/// them succeeds.
#[derive(Debug)]
pub enum RunResult {
    Success { attempts: u64 },
    Failed { error: Error, attempts: u64 },
}

impl RunResult {
    pub open spec fn is_success_spec(&self) -> bool {
        self matches RunResult::Success { .. }
    }

    #[verifier::when_used_as_spec(is_success_spec)]
    pub fn is_success(&self) -> (r: bool)
        ensures
            r == self.is_success_spec(),
    {
        match self {
            RunResult::Success { .. } => true,
            RunResult::Failed { .. } => false,
        }
    }
}

/// Index of the first successful attempt, if one falls within the limit.
/// Attempts beyond the listed results fail.
pub open spec fn spec_first_ok(results: Seq<bool>, limit: int) -> Option<int>
    decreases limit,
{
    if limit <= 0 || results.len() == 0 {
        None
    } else if results[0] {
        Some(0int)
    } else {
        match spec_first_ok(results.drop_first(), limit - 1) {
            Some(i) => Some(i + 1),
            None => None,
        }
    }
}

pub proof fn lemma_first_ok_props(results: Seq<bool>, limit: int)
    ensures
        match spec_first_ok(results, limit) {
            Some(i) => 0 <= i < limit && i < results.len() && results[i] && forall|j: int|
                0 <= j < i ==> !results[j],
            None => forall|j: int| 0 <= j < limit && j < results.len() ==> !results[j],
        },
    decreases limit,
{
    if limit > 0 && results.len() > 0 && !results[0] {
        let rest = results.drop_first();
        lemma_first_ok_props(rest, limit - 1);
        match spec_first_ok(rest, limit - 1) {
            Some(i) => {
                assert(results[i + 1] == rest[i]);
                assert forall|j: int| 0 <= j < i + 1 implies !results[j] by {
                    if j > 0 {
                        assert(results[j] == rest[j - 1]);
                    }
                }
            },
            None => {
                assert forall|j: int| 0 <= j < limit && j < results.len() implies !results[j] by {
                    if j > 0 {
                        assert(results[j] == rest[j - 1]);
                    }
                }
            },
        }
    }
}

/// The bounded-retry rule folded over one table's attempt results:
/// `attempt_results[i]` is whether attempt `i + 1` succeeds. The first
/// success within the limit ends the table successfully with that attempt
/// count; otherwise the table fails after the full `MAX_ATTEMPTS`.
pub fn retry_outcome(attempt_results: &Vec<bool>) -> (r: (bool, u64))
    ensures
        r == match spec_first_ok(attempt_results@, MAX_ATTEMPTS as int) {
            Some(i) => (true, (i + 1) as u64),
            None => (false, MAX_ATTEMPTS),
        },
{
    proof {
        lemma_first_ok_props(attempt_results@, MAX_ATTEMPTS as int);
    }
    let mut attempt: u64 = 0;
    while attempt < MAX_ATTEMPTS
        invariant
            0 <= attempt <= MAX_ATTEMPTS,
            forall|j: int| 0 <= j < attempt && j < attempt_results@.len() ==> !attempt_results@[j],
            match spec_first_ok(attempt_results@, MAX_ATTEMPTS as int) {
                Some(i) => 0 <= i < MAX_ATTEMPTS && i < attempt_results@.len()
                    && attempt_results@[i] && forall|j: int| 0 <= j < i ==> !attempt_results@[j],
                None => forall|j: int|
                    0 <= j < MAX_ATTEMPTS && j < attempt_results@.len() ==> !attempt_results@[j],
            },
        decreases MAX_ATTEMPTS - attempt,
    {
        let succeeded = if (attempt as usize) < attempt_results.len() {
            attempt_results[attempt as usize]
        } else {
            false
        };
        if succeeded {
            return (true, attempt + 1);
        }
        attempt = attempt + 1;
    }
    (false, MAX_ATTEMPTS)
}

/// A table whose first two attempts fail and whose third succeeds ends as a
/// success, reported on the third attempt.
pub proof fn lemma_retry_succeeds_on_third(results: Seq<bool>)
    requires
        results.len() >= 3,
        !results[0],
        !results[1],
        results[2],
    ensures
        spec_first_ok(results, MAX_ATTEMPTS as int) == Some(2int),
{
    lemma_first_ok_props(results, MAX_ATTEMPTS as int);
    match spec_first_ok(results, MAX_ATTEMPTS as int) {
        Some(i) => {
            if i < 2 {
                assert(results[i]);
            }
            if i > 2 {
                assert(!results[2]);
            }
        },
        None => {
            assert(!results[2]);
        },
    }
}

/// A table whose first three attempts all fail ends as a failure, after the
/// full number of attempts.
pub proof fn lemma_retry_fails_after_limit(results: Seq<bool>)
    requires
        forall|j: int| 0 <= j < 3 && j < results.len() ==> !results[j],
    ensures
        spec_first_ok(results, MAX_ATTEMPTS as int) is None,
{
    lemma_first_ok_props(results, MAX_ATTEMPTS as int);
    match spec_first_ok(results, MAX_ATTEMPTS as int) {
        Some(i) => {
            assert(!results[i]);
        },
        None => {},
    }
}

/// How many of the listed tables failed.
pub open spec fn spec_count_failed(rs: Seq<RunResult>) -> nat
    decreases rs.len(),
{
    if rs.len() == 0 {
        0
    } else {
        spec_count_failed(rs.drop_first()) + (if rs[0].is_success_spec() {
            0nat
        } else {
            1nat
        })
    }
}

/// The run-level summary: the run fails exactly when a table failed.
pub struct RunSummary {
    pub total_tables: u64,
    pub failed_tables: u64,
}

impl RunSummary {
    pub open spec fn run_failed_spec(&self) -> bool {
        self.failed_tables > 0
    }

    #[verifier::when_used_as_spec(run_failed_spec)]
    pub fn run_failed(&self) -> (r: bool)
        ensures
            r == self.run_failed_spec(),
    {
        self.failed_tables > 0
    }
}

/// Aggregate the per-table outcomes once every table has settled.
pub fn summarize(outcomes: &Vec<RunResult>) -> (s: RunSummary)
    requires
        outcomes@.len() <= u64::MAX,
    ensures
        s.total_tables == outcomes@.len(),
        s.failed_tables == spec_count_failed(outcomes@),
        s.run_failed() <==> spec_count_failed(outcomes@) > 0,
{
    let n = outcomes.len();
    let mut failed: u64 = 0;
    let mut i: usize = 0;
    proof {
        lemma_count_failed_bound(outcomes@);
        assert(outcomes@.subrange(0, 0) =~= Seq::<RunResult>::empty());
    }
    while i < n
        invariant
            n == outcomes@.len() <= u64::MAX,
            0 <= i <= n,
            failed == spec_count_failed(outcomes@.subrange(0, i as int)),
            failed <= i,
        decreases n - i,
    {
        let ghost prefix = outcomes@.subrange(0, i as int);
        if !outcomes[i].is_success() {
            failed = failed + 1;
        }
        proof {
            lemma_count_failed_snoc(prefix, outcomes@[i as int]);
            assert(outcomes@.subrange(0, i + 1) =~= prefix.push(outcomes@[i as int]));
        }
        i += 1;
    }
    proof {
        assert(outcomes@.subrange(0, n as int) =~= outcomes@);
    }
    RunSummary { total_tables: n as u64, failed_tables: failed }
}

proof fn lemma_count_failed_bound(rs: Seq<RunResult>)
    ensures
        spec_count_failed(rs) <= rs.len(),
    decreases rs.len(),
{
    if rs.len() > 0 {
        lemma_count_failed_bound(rs.drop_first());
    }
}

proof fn lemma_count_failed_snoc(rs: Seq<RunResult>, x: RunResult)
    ensures
        spec_count_failed(rs.push(x)) == spec_count_failed(rs) + (if x.is_success_spec() {
            0nat
        } else {
            1nat
        }),
    decreases rs.len(),
{
    if rs.len() == 0 {
        assert(rs.push(x)[0] == x);
        assert(rs.push(x).drop_first() =~= Seq::<RunResult>::empty());
        assert(spec_count_failed(rs.push(x).drop_first()) == 0);
    } else {
        assert(rs.push(x)[0] == rs[0]);
        assert(rs.push(x).drop_first() =~= rs.drop_first().push(x));
        lemma_count_failed_snoc(rs.drop_first(), x);
        assert(spec_count_failed(rs.push(x).drop_first()) == spec_count_failed(rs.drop_first()) + (
        if x.is_success_spec() {
            0nat
        } else {
            1nat
        }));
    }
}

/// One table's outcome contributes to the failure count independently of
/// every other table's: two runs that differ only at table `i` have failure
/// counts that differ only by those tables' own contributions.
pub proof fn lemma_failures_isolated(a: Seq<RunResult>, b: Seq<RunResult>, i: int)
    requires
        a.len() == b.len(),
        0 <= i < a.len(),
        forall|j: int| 0 <= j < a.len() && j != i ==> a[j] == b[j],
    ensures
        spec_count_failed(a) + (if b[i].is_success_spec() {
            0nat
        } else {
            1nat
        }) == spec_count_failed(b) + (if a[i].is_success_spec() {
            0nat
        } else {
            1nat
        }),
    decreases a.len(),
{
    if i == 0 {
        assert(a.drop_first() =~= b.drop_first());
    } else {
        assert(a[0] == b[0]);
        assert(forall|j: int|
            0 <= j < a.drop_first().len() && j != i - 1 ==> #[trigger] a.drop_first()[j]
                == b.drop_first()[j]);
        assert(a.drop_first()[i - 1] == a[i]);
        assert(b.drop_first()[i - 1] == b[i]);
        lemma_failures_isolated(a.drop_first(), b.drop_first(), i - 1);
    }
}

/// `x` occurs in the name list.
pub open spec fn contains_name(names: Seq<String>, x: Seq<char>) -> bool {
    exists|i: int| 0 <= i < names.len() && (#[trigger] names[i])@ == x
}

/// Whether `x` is one of the listed names.
pub fn name_listed(names: &Vec<String>, x: &str) -> (r: bool)
    ensures
        r == contains_name(names@, x@),
{
    let n = names.len();
    let mut i: usize = 0;
    while i < n
        invariant
            n == names@.len(),
            0 <= i <= n,
            forall|j: int| 0 <= j < i ==> (#[trigger] names@[j])@ != x@,
        decreases n - i,
    {
        if str_eq(names[i].as_str(), x) {
            return true;
        }
        i += 1;
    }
    false
}

/// The names of the processable tables: every catalog table, in catalog
/// order, that the exclusion list does not name.
pub open spec fn spec_processable(
    entries: Seq<(String, TableInfo)>,
    excluded: Seq<String>,
) -> Seq<Seq<char>>
    decreases entries.len(),
{
    if entries.len() == 0 {
        Seq::empty()
    } else {
        let rest = spec_processable(entries.drop_first(), excluded);
        if contains_name(excluded, entries[0].0@) {
            rest
        } else {
            seq![entries[0].0@] + rest
        }
    }
}

pub fn processable_tables(catalog: &TableCatalog, excluded: &Vec<String>) -> (r: Vec<String>)
    ensures
        r.deep_view() == spec_processable(catalog.entries@, excluded@),
{
    let n = catalog.entries.len();
    let mut out: Vec<String> = Vec::new();
    let mut i: usize = 0;
    proof {
        assert(out.deep_view() =~~= Seq::<Seq<char>>::empty());
        assert(catalog.entries@.subrange(0, n as int) =~= catalog.entries@);
        assert(out.deep_view() + spec_processable(catalog.entries@.subrange(0, n as int), excluded@)
            =~= spec_processable(catalog.entries@, excluded@));
    }
    while i < n
        invariant
            n == catalog.entries@.len(),
            0 <= i <= n,
            spec_processable(catalog.entries@, excluded@) == out.deep_view() + spec_processable(
                catalog.entries@.subrange(i as int, n as int),
                excluded@,
            ),
        decreases n - i,
    {
        let ghost remaining = catalog.entries@.subrange(i as int, n as int);
        let ghost pre = out.deep_view();
        proof {
            assert(remaining[0] == catalog.entries@[i as int]);
            assert(remaining.drop_first() =~= catalog.entries@.subrange(i + 1, n as int));
        }
        if !name_listed(excluded, catalog.entries[i].0.as_str()) {
            let name = catalog.entries[i].0.clone();
            out.push(name);
            proof {
                assert(out.deep_view() =~~= pre.push(catalog.entries@[i as int].0@));
                assert(pre + (seq![catalog.entries@[i as int].0@] + spec_processable(
                    remaining.drop_first(),
                    excluded@,
                )) =~= out.deep_view() + spec_processable(remaining.drop_first(), excluded@));
            }
        }
        i += 1;
    }
    proof {
        assert(catalog.entries@.subrange(n as int, n as int) =~= Seq::<(String, TableInfo)>::empty());
        assert(out.deep_view() + Seq::<Seq<char>>::empty() =~= out.deep_view());
    }
    out
}

/// One table's delete-then-load directive pair.
pub open spec fn spec_load_entry(name: Seq<char>, unl: Seq<char>) -> Seq<char> {
    "DELETE FROM "@ + name + ";\nLOAD FROM "@ + unl + " INSERT INTO "@ + name + ";\n\n"@
}

/// The directive pairs of every non-excluded table, in catalog order.
pub open spec fn spec_load_script(
    entries: Seq<(String, TableInfo)>,
    excluded: Seq<String>,
) -> Seq<char>
    decreases entries.len(),
{
    if entries.len() == 0 {
        Seq::empty()
    } else {
        let rest = spec_load_script(entries.drop_first(), excluded);
        if contains_name(excluded, entries[0].0@) {
            rest
        } else {
            spec_load_entry(entries[0].0@, entries[0].1.unl_file@) + rest
        }
    }
}

/// The generated load script: a comment header, then, per included table,
/// a delete-then-load directive pair.
pub fn load_script(catalog: &TableCatalog, excluded: &Vec<String>) -> (r: String)
    ensures
        r@ == "-- Generated SQL for loading processed data\n\n"@ + spec_load_script(
            catalog.entries@,
            excluded@,
        ),
{
    let mut out = String::new();
    out.append("-- Generated SQL for loading processed data\n\n");
    let ghost header = "-- Generated SQL for loading processed data\n\n"@;
    let n = catalog.entries.len();
    let mut i: usize = 0;
    proof {
        assert(catalog.entries@.subrange(0, n as int) =~= catalog.entries@);
        assert(out@ =~= header);
        assert(header + spec_load_script(catalog.entries@, excluded@) =~= out@ + spec_load_script(
            catalog.entries@.subrange(0, n as int),
            excluded@,
        ));
    }
    while i < n
        invariant
            n == catalog.entries@.len(),
            0 <= i <= n,
            header == "-- Generated SQL for loading processed data\n\n"@,
            header + spec_load_script(catalog.entries@, excluded@) == out@ + spec_load_script(
                catalog.entries@.subrange(i as int, n as int),
                excluded@,
            ),
        decreases n - i,
    {
        let ghost remaining = catalog.entries@.subrange(i as int, n as int);
        let ghost pre = out@;
        proof {
            assert(remaining[0] == catalog.entries@[i as int]);
            assert(remaining.drop_first() =~= catalog.entries@.subrange(i + 1, n as int));
        }
        if !name_listed(excluded, catalog.entries[i].0.as_str()) {
            out.append("DELETE FROM ");
            out.append(catalog.entries[i].0.as_str());
            out.append(";\nLOAD FROM ");
            out.append(catalog.entries[i].1.unl_file.as_str());
            out.append(" INSERT INTO ");
            out.append(catalog.entries[i].0.as_str());
            out.append(";\n\n");
            proof {
                let e = catalog.entries@[i as int];
                assert(out@ =~= pre + spec_load_entry(e.0@, e.1.unl_file@));
                assert(pre + (spec_load_entry(e.0@, e.1.unl_file@) + spec_load_script(
                    remaining.drop_first(),
                    excluded@,
                )) =~= out@ + spec_load_script(remaining.drop_first(), excluded@));
            }
        }
        i += 1;
    }
    proof {
        assert(catalog.entries@.subrange(n as int, n as int) =~= Seq::<(String, TableInfo)>::empty());
        assert(out@ + Seq::<char>::empty() =~= out@);
    }
    out
}

} // verus!
