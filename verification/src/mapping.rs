//! The mapping program: an ordered, immutable sequence of statements
//! executed against one record, stopping at the first failure.  Effects
//! of statements before the failure remain in the record; statements
//! after it never run.

use vstd::prelude::*;
use crate::value::MapModel;
use crate::record::Record;
use crate::statement::{Statement, StmtOut, stmt_apply, LogLine, LogLevel, line_views};
use crate::error::{ErrModel, err_text};
use crate::text::{dec_digits, u64_to_string};

verus! {

/// Outcome of running a statement sequence: the final record and every
/// line logged, or the index of the first failing statement, the record
/// as the failing statement found it, the failure cause, and the lines
/// logged before the failure.
pub enum RunOut {
    Ran(MapModel, Seq<(LogLevel, Seq<char>)>),
    Failed(nat, MapModel, ErrModel, Seq<(LogLevel, Seq<char>)>),
}

/// Run the statements in order against `m`, stopping at the first
/// failure.
pub open spec fn run(stmts: Seq<Statement>, m: MapModel) -> RunOut
    decreases stmts.len(),
{
    if stmts.len() == 0 {
        RunOut::Ran(m, Seq::empty())
    } else {
        match stmt_apply(stmts[0], m) {
            StmtOut::Ran(m2, l1) => match run(stmts.drop_first(), m2) {
                RunOut::Ran(m3, l2) => RunOut::Ran(m3, l1 + l2),
                RunOut::Failed(i, ms, e, l2) => RunOut::Failed(i + 1, ms, e, l1 + l2),
            },
            StmtOut::Failed(e) => RunOut::Failed(0, m, e, Seq::empty()),
        }
    }
}

/// The message the executor wraps a failure in: the 0-based index of the
/// failing statement and the statement's own message.
pub open spec fn wrapped_error_text(i: nat, msg: Seq<char>) -> Seq<char> {
    "failed to apply mapping "@ + dec_digits(i) + ": "@ + msg
}

/// Running one more statement extends a so-far-successful run.
proof fn lemma_run_take_step(s: Seq<Statement>, m: MapModel, i: int, mi: MapModel, li: Seq<
    (LogLevel, Seq<char>),
>)
    requires
        0 <= i < s.len(),
        run(s.take(i), m) == RunOut::Ran(mi, li),
    ensures
        match stmt_apply(s[i], mi) {
            StmtOut::Ran(m2, l2) => run(s.take(i + 1), m) == RunOut::Ran(m2, li + l2),
            StmtOut::Failed(e) => run(s.take(i + 1), m) == RunOut::Failed(i as nat, mi, e, li),
        },
    decreases i,
{
    let el = Seq::<(LogLevel, Seq<char>)>::empty();
    if i == 0 {
        assert(s.take(0) =~= Seq::<Statement>::empty());
        assert(mi == m && li == el);
        assert(s.take(1).len() == 1 && s.take(1)[0] == s[0]);
        assert(s.take(1).drop_first() =~= Seq::<Statement>::empty());
        match stmt_apply(s[0], m) {
            StmtOut::Ran(m2, l2) => {
                assert(run(Seq::<Statement>::empty(), m2) == RunOut::Ran(m2, el));
                assert(run(s.take(1), m) == RunOut::Ran(m2, l2 + el));
                assert(l2 + el =~= li + l2);
            },
            StmtOut::Failed(e) => {
                assert(run(s.take(1), m) == RunOut::Failed(0, m, e, el));
            },
        }
    } else {
        assert(s.take(i).len() == i && s.take(i)[0] == s[0]);
        assert(s.take(i + 1).len() == i + 1 && s.take(i + 1)[0] == s[0]);
        assert(s.take(i).drop_first() =~= s.drop_first().take(i - 1));
        assert(s.take(i + 1).drop_first() =~= s.drop_first().take(i));
        match stmt_apply(s[0], m) {
            StmtOut::Ran(m2, l1) => {
                match run(s.drop_first().take(i - 1), m2) {
                    RunOut::Ran(mi2, li2) => {
                        assert(mi == mi2 && li == l1 + li2);
                        lemma_run_take_step(s.drop_first(), m2, i - 1, mi2, li2);
                        assert(s.drop_first()[i - 1] == s[i]);
                        match stmt_apply(s[i], mi) {
                            StmtOut::Ran(m3, l2) => {
                                assert(run(s.drop_first().take(i), m2) == RunOut::Ran(
                                    m3,
                                    li2 + l2,
                                ));
                                assert(run(s.take(i + 1), m) == RunOut::Ran(m3, l1 + (li2 + l2)));
                                assert(l1 + (li2 + l2) =~= li + l2);
                            },
                            StmtOut::Failed(e) => {
                                assert(run(s.drop_first().take(i), m2) == RunOut::Failed(
                                    (i - 1) as nat,
                                    mi,
                                    e,
                                    li2,
                                ));
                                assert(run(s.take(i + 1), m) == RunOut::Failed(
                                    i as nat,
                                    mi,
                                    e,
                                    l1 + li2,
                                ));
                            },
                        }
                    },
                    RunOut::Failed(_, _, _, _) => {
                        assert(false);
                    },
                }
            },
            StmtOut::Failed(_) => {
                assert(false);
            },
        }
    }
}

/// A failure in a prefix decides the whole run: later statements never
/// run.
proof fn lemma_run_prefix_failed(s: Seq<Statement>, m: MapModel, j: int)
    requires
        0 <= j <= s.len(),
        run(s.take(j), m) is Failed,
    ensures
        run(s, m) == run(s.take(j), m),
    decreases j,
{
    assert(j >= 1) by {
        if j == 0 {
            assert(s.take(0) =~= Seq::<Statement>::empty());
        }
    }
    assert(s.take(j)[0] == s[0]);
    match stmt_apply(s[0], m) {
        StmtOut::Ran(m2, l1) => {
            assert(s.take(j).drop_first() =~= s.drop_first().take(j - 1));
            match run(s.drop_first().take(j - 1), m2) {
                RunOut::Ran(_, _) => {
                    assert(false);
                },
                RunOut::Failed(_, _, _, _) => {
                    lemma_run_prefix_failed(s.drop_first(), m2, j - 1);
                },
            }
        },
        StmtOut::Failed(e) => {
        },
    }
}

/// Running no statements leaves any record unchanged, logs nothing, and
/// succeeds.
pub proof fn lemma_empty_mapping(m: MapModel)
    ensures
        run(Seq::<Statement>::empty(), m) == RunOut::Ran(
            m,
            Seq::<(LogLevel, Seq<char>)>::empty(),
        ),
{
}

/// A mapping aborts at its first failing statement: if the first `i`
/// statements ran and statement `i` fails, the whole run fails at index
/// `i`, the record keeps every effect of the statements before `i`, and
/// the statements after `i` never run.
pub proof fn lemma_run_fail_fast(
    s: Seq<Statement>,
    m: MapModel,
    i: int,
    mi: MapModel,
    li: Seq<(LogLevel, Seq<char>)>,
    e: ErrModel,
)
    requires
        0 <= i < s.len(),
        run(s.take(i), m) == RunOut::Ran(mi, li),
        stmt_apply(s[i], mi) == StmtOut::Failed(e),
    ensures
        run(s, m) == RunOut::Failed(i as nat, mi, e, li),
{
    lemma_run_take_step(s, m, i, mi, li);
    lemma_run_prefix_failed(s, m, i + 1);
}

/// An ordered, immutable program of statements executed sequentially
/// against one record.
pub struct Mapping {
    pub statements: Vec<Statement>,
}

impl Mapping {
    /// Every statement is well formed.
    pub open spec fn wf(self) -> bool {
        forall|i: int| 0 <= i < self.statements@.len() ==> (#[trigger] self.statements@[i]).wf()
    }

    /// Build a mapping from its statements.
    pub fn new(statements: Vec<Statement>) -> (r: Mapping)
        ensures
            r.statements == statements,
    {
        Mapping { statements }
    }

    /// Apply the statements in order to `event`, appending diagnostic
    /// lines to `sink`.  On the first failure at index `i` with message
    /// `e`, stop and return `failed to apply mapping {i}: {e}`; every
    /// effect of the statements before `i` remains in the record.
    pub fn execute(&self, event: &mut Record, sink: &mut Vec<LogLine>) -> (r: Result<(), String>)
        requires
            self.wf(),
        ensures
            match run(self.statements@, old(event)@) {
                RunOut::Ran(m2, logs) => r is Ok && final(event)@ == m2 && line_views(
                    final(sink)@,
                ) == line_views(old(sink)@) + logs,
                RunOut::Failed(i, ms, e, logs) => r matches Err(s) && s@ == wrapped_error_text(
                    i,
                    err_text(e),
                ) && final(event)@ == ms && line_views(final(sink)@) == line_views(old(sink)@)
                    + logs,
            },
    {
        let ghost m0 = event@;
        let ghost s0 = line_views(sink@);
        let n = self.statements.len();
        let mut i: usize = 0;
        proof {
            assert(self.statements@.take(0) =~= Seq::<Statement>::empty());
            assert(line_views(sink@) =~= s0 + Seq::<(LogLevel, Seq<char>)>::empty());
        }
        while i < n
            invariant
                i <= n,
                n == self.statements@.len(),
                self.wf(),
                m0 == old(event)@,
                s0 == line_views(old(sink)@),
                run(self.statements@.take(i as int), m0) matches RunOut::Ran(mi, li) && event@
                    == mi && line_views(sink@) == s0 + li,
            decreases n - i,
        {
            let ghost mi = event@;
            let ghost li = choose|li: Seq<(LogLevel, Seq<char>)>|
                run(self.statements@.take(i as int), m0) == RunOut::Ran(mi, li);
            proof {
                lemma_run_take_step(self.statements@, m0, i as int, mi, li);
            }
            let stmt = &self.statements[i];
            match stmt.apply(event, sink) {
                Ok(_) => {
                    proof {
                        match stmt_apply(self.statements@[i as int], mi) {
                            StmtOut::Ran(m2, l2) => {
                                assert(line_views(sink@) =~= s0 + (li + l2));
                            },
                            StmtOut::Failed(_) => {
                                assert(false);
                            },
                        }
                    }
                },
                Err(msg) => {
                    proof {
                        lemma_run_prefix_failed(self.statements@, m0, i + 1);
                    }
                    let mut s = "failed to apply mapping ".to_owned();
                    let index_text = u64_to_string(i as u64);
                    proof {
                        assert(index_text@ == dec_digits(i as nat));
                    }
                    s.append(index_text.as_str());
                    s.append(": ");
                    s.append(msg.as_str());
                    proof {
                        match run(self.statements@, m0) {
                            RunOut::Failed(fi, ms, e, logs) => {
                                assert(fi == i as nat && ms == mi && logs == li);
                                assert(s@ == wrapped_error_text(fi, err_text(e)));
                            },
                            RunOut::Ran(_, _) => {
                                assert(false);
                            },
                        }
                    }
                    return Err(s);
                },
            }
            i += 1;
        }
        proof {
            assert(self.statements@.take(n as int) =~= self.statements@);
        }
        Ok(())
    }
}

} // verus!
