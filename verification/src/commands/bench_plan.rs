//! What a benchmark run will do before it starts: the concurrency levels a
//! sweep measures, whether the open model has an arrival rate to follow, the
//! connection pool it dials and the per-request deadline.
use crate::commands::bench::{folded, request_passes, ExecModel};
use crate::text::{
    chars_eq, decimal, decimal_chars, chars_of, push_all, push_str, string_from_chars, trim, trim_ascii_lower, trim_chars,
};
use vstd::arithmetic::div_mod::{lemma_fundamental_div_mod, lemma_mod_pos_bound};
use vstd::arithmetic::mul::lemma_mul_inequality;
use vstd::prelude::*;

verus! {

broadcast use vstd::string::group_string_axioms;

/// How the worker count moves across a run.
#[derive(Debug, Clone, Copy, PartialEq, Eq)]
pub enum ConcurrencySchedule {
    /// One level: the configured concurrency.
    Const,
    /// Whole blocks between the start and the end level.
    Step,
    /// One worker at a time unless a step is given.
    Line,
}

/// A sweep longer than this many levels (plus its last one) is refused.
pub const MAX_CONCURRENCY_LEVELS: usize = 64;

/// The schedule a `concurrency_schedule` value names, surrounding whitespace
/// ignored; blank means `const`.
pub open spec fn schedule_of(raw: Seq<char>) -> Option<ConcurrencySchedule> {
    let t = trim(raw);
    if t.len() == 0 || t == "const"@ {
        Some(ConcurrencySchedule::Const)
    } else if t == "step"@ {
        Some(ConcurrencySchedule::Step)
    } else if t == "line"@ {
        Some(ConcurrencySchedule::Line)
    } else {
        None
    }
}

/// Distance between the first and the last level.
pub open spec fn level_gap(start: u32, end: u32) -> nat {
    if start <= end {
        (end - start) as nat
    } else {
        (start - end) as nat
    }
}

/// The step a sweep takes: the configured one, else 1 for `line`; a step of
/// zero jumps straight from the start to the end.
pub open spec fn sweep_step(
    kind: ConcurrencySchedule,
    start: u32,
    end: u32,
    step: Option<u32>,
) -> nat {
    let s: nat = match step {
        Some(s) => s as nat,
        None => if kind == ConcurrencySchedule::Line {
            1
        } else {
            0
        },
    };
    if s == 0 {
        if level_gap(start, end) == 0 {
            1
        } else {
            level_gap(start, end)
        }
    } else {
        s
    }
}

/// Number of levels of a sweep: one per whole step from the start, then the
/// end itself.
pub open spec fn level_count(start: u32, end: u32, step: nat) -> nat
    recommends
        step > 0,
{
    if level_gap(start, end) == 0 {
        1
    } else {
        ((level_gap(start, end) + step - 1) / (step as int)) as nat + 1
    }
}

/// The `i`-th level: `i` steps away from the start towards the end, the last
/// one clamped to the end.
pub open spec fn level_at(start: u32, end: u32, step: nat, i: int) -> u32 {
    if i + 1 >= level_count(start, end, step) {
        end
    } else if start <= end {
        (start + i * step) as u32
    } else {
        (start - i * step) as u32
    }
}

/// `k` whole steps stay short of the gap exactly when `k` is below the
/// rounded-up quotient.
proof fn lemma_steps_short_of_gap(gap: int, step: int, k: int)
    requires
        gap > 0,
        step >= 1,
        k >= 0,
    ensures
        (k < (gap + step - 1) / step) <==> (k * step < gap),
{
    let q = (gap + step - 1) / step;
    let r = (gap + step - 1) % step;
    lemma_fundamental_div_mod(gap + step - 1, step);
    lemma_mod_pos_bound(gap + step - 1, step);
    assert(step * q + r == gap + step - 1);
    assert(q * step == step * q) by (nonlinear_arith);
    assert((q - 1) * step == q * step - step) by (nonlinear_arith);
    if k < q {
        lemma_mul_inequality(k, q - 1, step);
    } else {
        lemma_mul_inequality(q, k, step);
    }
}

/// The levels of a `step` or `line` sweep from `start` to `end`, refused
/// where it would run past the cap.
fn sweep_levels(start: u32, end: u32, step: u32) -> (res: Result<Vec<u32>, String>)
    requires
        step >= 1,
        start >= 1,
        end >= 1,
    ensures
        match res {
            Ok(v) => level_count(start, end, step as nat) <= MAX_CONCURRENCY_LEVELS + 1
                && v@.len() == level_count(start, end, step as nat) && forall|i: int|
                0 <= i < v@.len() ==> #[trigger] v@[i] == level_at(start, end, step as nat, i),
            Err(msg) => level_count(start, end, step as nat) > MAX_CONCURRENCY_LEVELS + 1
                && msg@
                == "concurrency schedule produces more than 64 levels; raise concurrency_step"@,
        },
{
    let ghost n = level_count(start, end, step as nat);
    let ghost gap = level_gap(start, end) as int;
    let up = start <= end;
    let mut levels: Vec<u32> = Vec::new();
    let mut current = start;
    proof {
        if gap > 0 {
            lemma_steps_short_of_gap(gap, step as int, 0);
        }
    }
    loop
        invariant_except_break
            levels@.len() < n,
            levels@.len() <= MAX_CONCURRENCY_LEVELS,
            current == level_at(start, end, step as nat, levels@.len() as int),
            levels@.len() + 1 < n ==> (levels@.len() * step < gap && current == (if up {
                start + levels@.len() * step
            } else {
                start - levels@.len() * step
            })),
        invariant
            step >= 1,
            up == (start <= end),
            n == level_count(start, end, step as nat),
            gap == level_gap(start, end),
            forall|i: int|
                0 <= i < levels@.len() ==> #[trigger] levels@[i] == level_at(
                    start,
                    end,
                    step as nat,
                    i,
                ),
        ensures
            levels@.len() == n,
            n <= MAX_CONCURRENCY_LEVELS + 1,
            forall|i: int|
                0 <= i < levels@.len() ==> #[trigger] levels@[i] == level_at(
                    start,
                    end,
                    step as nat,
                    i,
                ),
        decreases n - levels@.len(),
    {
        let ghost k = levels@.len() as int;
        levels.push(current);
        if current == end {
            proof {
                if k + 1 < n {
                    assert(k * step < gap);
                }
            }
            break;
        }
        proof {
            assert(k + 1 < n);
            lemma_steps_short_of_gap(gap, step as int, k + 1);
            assert((k + 1) * step == k * step + step) by (nonlinear_arith);
        }
        let next = if up {
            if end - current <= step {
                end
            } else {
                current + step
            }
        } else {
            if current - end <= step {
                end
            } else {
                current - step
            }
        };
        current = next;
        if levels.len() > MAX_CONCURRENCY_LEVELS {
            return Err(
                string_from_chars(
                    chars_of(
                        "concurrency schedule produces more than 64 levels; raise concurrency_step",
                    ).as_slice(),
                ),
            );
        }
    }
    Ok(levels)
}

/// A sweep starts at its first level, ends exactly at its last, and moves
/// towards the end by one step at a time, the last move possibly shorter: it
/// never overshoots the end.
pub proof fn lemma_sweep_runs_from_start_to_end(start: u32, end: u32, step: nat)
    requires
        step > 0,
    ensures
        level_at(start, end, step, 0) == start,
        level_at(start, end, step, level_count(start, end, step) - 1) == end,
        forall|i: int|
            0 <= i < level_count(start, end, step) - 1 ==> {
                let a = #[trigger] level_at(start, end, step, i);
                let b = level_at(start, end, step, i + 1);
                if start <= end {
                    a < b && b - a <= step
                } else {
                    b < a && a - b <= step
                }
            },
{
    let gap = level_gap(start, end) as int;
    let n = level_count(start, end, step);
    if gap > 0 {
        lemma_steps_short_of_gap(gap, step as int, 0);
        assert forall|i: int| 0 <= i < n - 1 implies {
            let a = #[trigger] level_at(start, end, step, i);
            let b = level_at(start, end, step, i + 1);
            if start <= end {
                a < b && b - a <= step
            } else {
                b < a && a - b <= step
            }
        } by {
            lemma_steps_short_of_gap(gap, step as int, i);
            lemma_steps_short_of_gap(gap, step as int, i + 1);
            assert((i + 1) * step == i * step + step) by (nonlinear_arith);
        }
    }
}

/// The message refusing an unknown `concurrency_schedule`, naming the value as
/// written without its surrounding whitespace.
pub open spec fn unknown_schedule_message(raw: Seq<char>) -> Seq<char> {
    "unknown concurrency_schedule '"@ + trim(raw) + "'; expected one of: const, step, line"@
}

/// The concurrency levels a run measures, in execution order. `step` and
/// `line` differ only in their default step: `step` moves in one block from
/// the start to the end, `line` one worker at a time. An unset start or end is
/// the configured concurrency.
pub fn concurrency_levels(
    schedule: &str,
    concurrency: u32,
    start: Option<u32>,
    end: Option<u32>,
    step: Option<u32>,
) -> (res: Result<Vec<u32>, String>)
    ensures
        match schedule_of(schedule@) {
            None => res is Err && res->Err_0@ == unknown_schedule_message(schedule@),
            Some(ConcurrencySchedule::Const) => res is Ok && res->Ok_0@ == seq![concurrency],
            Some(kind) => {
                let first = match start {
                    Some(s) => s,
                    None => concurrency,
                };
                let last = match end {
                    Some(e) => e,
                    None => concurrency,
                };
                let st = sweep_step(kind, first, last, step);
                if first == 0 || last == 0 {
                    res is Err && res->Err_0@ == "concurrency levels must be greater than 0"@
                } else if level_count(first, last, st) > MAX_CONCURRENCY_LEVELS + 1 {
                    res is Err && res->Err_0@
                        == "concurrency schedule produces more than 64 levels; raise concurrency_step"@
                } else {
                    res is Ok && res->Ok_0@.len() == level_count(first, last, st) && forall|i: int|
                        0 <= i < res->Ok_0@.len() ==> #[trigger] res->Ok_0@[i] == level_at(
                            first,
                            last,
                            st,
                            i,
                        )
                }
            },
        },
{
    let t = trim_chars(&chars_of(schedule));
    let is_const = t.len() == 0 || chars_eq(&t, &chars_of("const"));
    let is_step = chars_eq(&t, &chars_of("step"));
    let is_line = chars_eq(&t, &chars_of("line"));
    proof {
        reveal_strlit("const");
        reveal_strlit("step");
        reveal_strlit("line");
        assert("line"@[0] != "step"@[0]);
    }
    if is_const {
        return Ok(vec![concurrency]);
    }
    if !is_step && !is_line {
        let mut msg: Vec<char> = Vec::new();
        push_str(&mut msg, "unknown concurrency_schedule '");
        push_all(&mut msg, &t);
        push_str(&mut msg, "'; expected one of: const, step, line");
        return Err(string_from_chars(msg.as_slice()));
    }
    let first = match start {
        Some(s) => s,
        None => concurrency,
    };
    let last = match end {
        Some(e) => e,
        None => concurrency,
    };
    if first == 0 || last == 0 {
        return Err(
            string_from_chars(chars_of("concurrency levels must be greater than 0").as_slice()),
        );
    }
    let default_step: u32 = if is_line {
        1
    } else {
        0
    };
    let given = match step {
        Some(s) => s,
        None => default_step,
    };
    let gap: u32 = if first <= last {
        last - first
    } else {
        first - last
    };
    let st: u32 = if given == 0 {
        if gap == 0 {
            1
        } else {
            gap
        }
    } else {
        given
    };
    sweep_levels(first, last, st)
}

/// The open model needs a defined arrival rate: an explicit cap, a starting
/// load, or a load schedule other than `const` (compared without case and
/// surrounding ASCII whitespace).
pub fn has_target_rate(max_rps_set: bool, load_start_set: bool, load_schedule: &str) -> (b: bool)
    ensures
        b == (max_rps_set || load_start_set || folded(load_schedule@) != "const"@),
{
    if max_rps_set || load_start_set {
        return true;
    }
    let k = trim_ascii_lower(load_schedule);
    !chars_eq(&k, &chars_of("const"))
}

/// Connection pools larger than this stop paying off.
pub const MAX_DEFAULT_CONNECTIONS: u32 = 8;

/// The pool size a run dials when none is configured: one connection per
/// worker, bounded by the host's parallelism and by eight. A parallelism
/// that does not fit in `u32` counts as eight.
pub open spec fn default_connection_count(concurrency: u32, parallelism: usize) -> int {
    let p: int = if parallelism > u32::MAX {
        MAX_DEFAULT_CONNECTIONS as int
    } else {
        parallelism as int
    };
    let workers: int = if concurrency == 0 {
        1
    } else {
        concurrency as int
    };
    let bounded: int = if workers < p {
        workers
    } else {
        p
    };
    if bounded < 1 {
        1
    } else if bounded > MAX_DEFAULT_CONNECTIONS {
        MAX_DEFAULT_CONNECTIONS as int
    } else {
        bounded
    }
}

/// Every stream on a connection contends for one per-connection lock, so the
/// pool grows with the worker count up to the host's parallelism (which the
/// caller reads from the platform).
pub fn default_connections(concurrency: u32, parallelism: usize) -> (n: u32)
    ensures
        n == default_connection_count(concurrency, parallelism),
        1 <= n <= MAX_DEFAULT_CONNECTIONS,
{
    let p: u32 = if parallelism > u32::MAX as usize {
        MAX_DEFAULT_CONNECTIONS
    } else {
        parallelism as u32
    };
    let workers: u32 = if concurrency == 0 {
        1
    } else {
        concurrency
    };
    let bounded = if workers < p {
        workers
    } else {
        p
    };
    if bounded < 1 {
        1
    } else if bounded > MAX_DEFAULT_CONNECTIONS {
        MAX_DEFAULT_CONNECTIONS
    } else {
        bounded
    }
}

/// Per-request deadline in whole seconds: the configured request timeout,
/// else the run duration, else thirty seconds; never below one second.
pub fn request_timeout_seconds(request_timeout_secs: Option<u64>, duration_secs: Option<u64>) -> (s: u64)
    ensures
        s == ({
            let base: u64 = match request_timeout_secs {
                Some(t) => t,
                None => match duration_secs {
                    Some(d) => d,
                    None => 30,
                },
            };
            if base < 1 {
                1
            } else {
                base
            }
        }),
{
    let base: u64 = match request_timeout_secs {
        Some(t) => t,
        None => match duration_secs {
            Some(d) => d,
            None => 30,
        },
    };
    if base < 1 {
        1
    } else {
        base
    }
}

/// The sum of a list of pass counts.
pub open spec fn total_of(s: Seq<u64>) -> int
    decreases s.len(),
{
    if s.len() == 0 {
        0
    } else {
        total_of(s.drop_last()) + s.last()
    }
}

proof fn lemma_total_of_uniform(s: Seq<u64>, q: u64)
    requires
        forall|i: int| 0 <= i < s.len() ==> s[i] == q,
    ensures
        total_of(s) == s.len() * q,
    decreases s.len(),
{
    if s.len() > 0 {
        lemma_total_of_uniform(s.drop_last(), q);
        assert(s.drop_last().len() * q + q == s.len() * q) by (nonlinear_arith)
            requires
                s.drop_last().len() + 1 == s.len(),
        ;
    }
}

/// Each worker's share of a fixed pass budget: an equal share each, the
/// remainder to the last worker. Together they run exactly the budget.
pub fn split_passes(total_passes: u64, workers: u32) -> (shares: Vec<u64>)
    requires
        workers >= 1,
    ensures
        shares@.len() == workers,
        forall|i: int| 0 <= i < workers - 1 ==> #[trigger] shares@[i] == total_passes / (workers as u64),
        shares@[workers - 1] == total_passes / (workers as u64) + total_passes % (workers as u64),
        total_of(shares@) == total_passes,
{
    let w = workers as u64;
    let each = total_passes / w;
    let rest = total_passes % w;
    proof {
        lemma_fundamental_div_mod(total_passes as int, w as int);
        lemma_mod_pos_bound(total_passes as int, w as int);
        assert(each * w <= total_passes) by (nonlinear_arith)
            requires
                each * w + rest == total_passes,
                rest >= 0,
        ;
        assert(each + rest <= total_passes) by (nonlinear_arith)
            requires
                each * w + rest == total_passes,
                w >= 1,
                each >= 0,
        ;
    }
    let mut shares: Vec<u64> = Vec::new();
    let mut i: u32 = 0;
    while i < workers - 1
        invariant
            i <= workers - 1,
            shares@.len() == i,
            forall|j: int| 0 <= j < i ==> #[trigger] shares@[j] == each,
        decreases workers - 1 - i,
    {
        shares.push(each);
        i = i + 1;
    }
    let ghost head = shares@;
    shares.push(each + rest);
    proof {
        lemma_total_of_uniform(head, each);
        assert(shares@.drop_last() =~= head);
        assert(total_of(shares@) == head.len() * each + each + rest);
        assert(head.len() * each + each == w * each) by (nonlinear_arith)
            requires
                head.len() + 1 == w,
        ;
        assert(w * each == each * w) by (nonlinear_arith);
    }
    shares
}

/// How one benchmark level sends its requests.
#[derive(Debug, PartialEq, Eq)]
pub enum LevelRun {
    /// The open (arrival-rate) model, bounded by the run's duration.
    OpenForDuration,
    /// The open model, bounded by this many passes over the documents.
    OpenForPasses(u64),
    /// Closed loop: every worker runs until the duration ends.
    ClosedForDuration,
    /// Closed loop on a fixed budget: each worker's passes, in worker order.
    ClosedForPasses(Vec<u64>),
    /// Neither a duration nor a request budget: nothing is sent.
    Idle,
}

/// The refusal of a request budget smaller than the number of documents.
pub open spec fn below_budget_message(total_requests: nat, doc_count: nat) -> Seq<char> {
    "requests ("@ + decimal(total_requests)
        + ") is below the number of selected documents ("@ + decimal(doc_count)
        + ") \u{2014} `--requests` is the total budget across all of them, so this would issue no requests at all. Raise it to at least "@
        + decimal(doc_count) + ", or select fewer files."@
}

/// Whether a level runs the open model: open or adaptive mode with an
/// arrival rate to follow (without one it falls back to the closed loop).
pub open spec fn runs_open(model: ExecModel, has_rate: bool) -> bool {
    model == ExecModel::Open && has_rate
}

/// The passes a request budget allows over `doc_count` documents.
pub open spec fn passes_for(total_requests: u64, doc_count: usize) -> int {
    total_requests as int / (if doc_count == 0 {
        1int
    } else {
        doc_count as int
    })
}

/// How a level runs: the open model when it has an arrival rate and a bound
/// (the duration, else the passes the request budget allows); otherwise the
/// closed loop for the duration, or on the request budget split over the
/// workers, refused when the budget is below the number of documents; and
/// nothing when there is neither a duration nor a budget.
pub fn plan_level(
    model: ExecModel,
    has_rate: bool,
    has_duration: bool,
    total_requests: u64,
    doc_count: usize,
    concurrency: u32,
) -> (r: Result<LevelRun, String>)
    requires
        concurrency >= 1,
    ensures
        runs_open(model, has_rate) && has_duration ==> r matches Ok(LevelRun::OpenForDuration),
        runs_open(model, has_rate) && !has_duration && total_requests > 0 ==> (r matches Ok(
            LevelRun::OpenForPasses(p),
        ) && p == passes_for(total_requests, doc_count)),
        !runs_open(model, has_rate) && has_duration ==> r matches Ok(LevelRun::ClosedForDuration),
        !runs_open(model, has_rate) && !has_duration && total_requests > 0 && passes_for(
            total_requests,
            doc_count,
        ) == 0 ==> (r matches Err(msg) && msg@ == below_budget_message(
            total_requests as nat,
            doc_count as nat,
        )),
        !runs_open(model, has_rate) && !has_duration && total_requests > 0 && passes_for(
            total_requests,
            doc_count,
        ) > 0 ==> (r matches Ok(LevelRun::ClosedForPasses(shares)) && shares@.len() == concurrency
            && total_of(shares@) == passes_for(total_requests, doc_count) && shares@[concurrency
            - 1] == passes_for(total_requests, doc_count) / (concurrency as int) + passes_for(
            total_requests,
            doc_count,
        ) % (concurrency as int) && forall|i: int|
            0 <= i < concurrency - 1 ==> #[trigger] shares@[i] == passes_for(
                total_requests,
                doc_count,
            ) / (concurrency as int)),
        !has_duration && total_requests == 0 ==> r matches Ok(LevelRun::Idle),
{
    let open = match model {
        ExecModel::Open => has_rate,
        ExecModel::Closed => false,
    };
    if open && (has_duration || total_requests > 0) {
        if has_duration {
            Ok(LevelRun::OpenForDuration)
        } else {
            Ok(LevelRun::OpenForPasses(request_passes(total_requests, doc_count)))
        }
    } else if has_duration {
        Ok(LevelRun::ClosedForDuration)
    } else if total_requests > 0 {
        let passes = request_passes(total_requests, doc_count);
        if passes == 0 {
            let docs = doc_count as u64;
            let mut msg = chars_of("requests (");
            push_all(&mut msg, &decimal_chars(total_requests));
            push_str(&mut msg, ") is below the number of selected documents (");
            push_all(&mut msg, &decimal_chars(docs));
            push_str(
                &mut msg,
                ") \u{2014} `--requests` is the total budget across all of them, so this would issue no requests at all. Raise it to at least ",
            );
            push_all(&mut msg, &decimal_chars(docs));
            push_str(&mut msg, ", or select fewer files.");
            Err(string_from_chars(msg.as_slice()))
        } else {
            Ok(LevelRun::ClosedForPasses(split_passes(passes, concurrency)))
        }
    } else {
        Ok(LevelRun::Idle)
    }
}

} // verus!
