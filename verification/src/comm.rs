//! The request surface: the requests a client can make, the responses
//! the daemon returns, and the parsers for the duration and wall-clock
//! notations clients write (`1d2h3m4s`, `18:30`).

use vstd::prelude::*;

use crate::FmnError;
use crate::clock::ClockType;
use crate::strutil::str_to_chars;
use crate::task::{Task, TaskContext, TaskID};
use crate::task_manager::{TaskManager, first_ctx, first_match, ids_in_context, lemma_first_ctx_props, remove_ctx_tasks};
use crate::textenc::{
    dec_value, digits_prefix_len, is_digit, parse_dec_range, lemma_digits_prefix,
};

verus! {

/// What a client can ask of the daemon.
pub enum Request {
    Add(String, ClockType, Option<String>, Option<String>),
    Cancel(TaskID),
    Show,
    ContextRequest(ContextCommand),
}

/// The context sub-commands.
pub enum ContextCommand {
    Switch { context: TaskContext },
    List,
    Rm { context: TaskContext },
    Define { context: TaskContext },
}

/// What the daemon answers.
pub enum Response {
    AddSuccess,
    RemoveSuccess,
    Fail(String),
    GetTasks(Vec<Task>),
    GetContexts(Vec<TaskContext>),
    SetContextSuccess,
}

// ---------------------------------------------------------------------
// Durations: `(Nd)?(Nh)?(Nm)?(Ns)?`, at least implicitly anchored on
// both sides, each component optional, value in seconds.
// ---------------------------------------------------------------------

pub open spec fn suffix_char(stage: int) -> char {
    if stage == 0 {
        'd'
    } else if stage == 1 {
        'h'
    } else if stage == 2 {
        'm'
    } else {
        's'
    }
}

pub open spec fn unit_secs(stage: int) -> nat {
    if stage == 0 {
        86400
    } else if stage == 1 {
        3600
    } else if stage == 2 {
        60
    } else {
        1
    }
}

/// The seconds the rest of a duration string denotes, trying the unit
/// suffixes from `stage` on, in the fixed order day, hour, minute,
/// second. A component whose digits exceed the machine's range is
/// rejected, as is any character outside a digit run followed by a unit
/// letter.
pub open spec fn spec_parse_du(s: Seq<char>, stage: int) -> Option<nat>
    decreases 4 - stage,
{
    if s.len() == 0 {
        Some(0)
    } else if stage >= 4 || stage < 0 {
        None
    } else {
        let d = digits_prefix_len(s);
        if d > 0 && d < s.len() && s[d] == suffix_char(stage) {
            if dec_value(s.take(d)) <= u64::MAX {
                match spec_parse_du(s.skip(d + 1), stage + 1) {
                    Some(rest) => Some(dec_value(s.take(d)) * unit_secs(stage) + rest),
                    None => None,
                }
            } else {
                None
            }
        } else {
            spec_parse_du(s, stage + 1)
        }
    }
}

/// The seconds a whole duration string denotes: `None` exactly where
/// the notation is malformed or the total does not fit in a `u64`.
pub open spec fn spec_parse_duration(s: Seq<char>) -> Option<u64> {
    match spec_parse_du(s, 0) {
        Some(n) => if n <= u64::MAX {
            Some(n as u64)
        } else {
            None
        },
        None => None,
    }
}

/// What remains of a duration once `acc` seconds are already counted.
pub open spec fn spec_du_acc(acc: nat, s: Seq<char>, stage: int) -> Option<nat> {
    match spec_parse_du(s, stage) {
        Some(v) => Some(acc + v),
        None => None,
    }
}

fn is_digit_x(c: char) -> (r: bool)
    ensures
        r == is_digit(c),
{
    let u: u32 = c as u32;
    48 <= u && u <= 57
}

fn suffix_char_x(stage: usize) -> (r: char)
    requires
        stage < 4,
    ensures
        r == suffix_char(stage as int),
{
    if stage == 0 {
        'd'
    } else if stage == 1 {
        'h'
    } else if stage == 2 {
        'm'
    } else {
        's'
    }
}

fn unit_secs_x(stage: usize) -> (r: u64)
    requires
        stage < 4,
    ensures
        r == unit_secs(stage as int),
        r >= 1,
{
    if stage == 0 {
        86400
    } else if stage == 1 {
        3600
    } else if stage == 2 {
        60
    } else {
        1
    }
}

/// Parse a duration such as `1d2h3m4s`, `2h`, `30s` or `55m` into whole
/// seconds. Fails exactly where the notation is malformed (a stray
/// character, units out of order, a unit letter without digits) or the
/// value does not fit.
#[verifier::loop_isolation(false)]
pub fn parse_duration(duration: &str) -> (r: Result<u64, FmnError>)
    ensures
        match r {
            Ok(secs) => spec_parse_duration(duration@) == Some(secs),
            Err(_) => spec_parse_duration(duration@) is None,
        },
{
    let chars = str_to_chars(duration);
    let n: usize = chars.len();
    let mut i: usize = 0;
    let mut stage: usize = 0;
    let mut total: u64 = 0;
    proof {
        assert(chars@.skip(0) =~= duration@);
    }
    loop
        invariant
            i <= n,
            stage <= 4,
            n == chars@.len(),
            chars@ == duration@,
            spec_du_acc(total as nat, chars@.skip(i as int), stage as int) == spec_parse_du(
                duration@,
                0,
            ),
        decreases 4 - stage,
    {
        let ghost s = chars@.skip(i as int);
        if i == n {
            proof {
                assert(s.len() == 0);
                assert(spec_parse_du(s, stage as int) == Some(0nat));
            }
            return Ok(total);
        }
        if stage == 4 {
            proof {
                assert(s.len() > 0);
                assert(spec_parse_du(s, stage as int) is None);
            }
            return Err(FmnError::Validation(String::from_str("malformed duration")));
        }
        // measure the digit run that opens the rest
        let mut j: usize = i;
        while j < n && is_digit_x(chars[j])
            invariant
                i <= j <= n,
                forall|k: int| i <= k < j ==> is_digit(#[trigger] chars@[k]),
            decreases n - j,
        {
            j = j + 1;
        }
        proof {
            assert(forall|k: int| 0 <= k < j - i ==> is_digit(#[trigger] s[k]));
            if j < n {
                assert(s[j - i] == chars@[j as int]);
                assert(!is_digit(s[j - i]));
            }
            lemma_digits_prefix(s, j - i);
        }
        let d: usize = j - i;
        if d > 0 && j < n && chars[j] == suffix_char_x(stage) {
            proof {
                assert(s[d as int] == chars@[j as int]);
                assert(s.take(d as int) =~= chars@.subrange(i as int, j as int));
            }
            match parse_dec_range(chars.as_slice(), i, j) {
                None => {
                    proof {
                        assert(dec_value(s.take(d as int)) > u64::MAX);
                        assert(spec_parse_du(s, stage as int) is None);
                    }
                    return Err(
                        FmnError::Validation(String::from_str("duration component out of range")),
                    );
                },
                Some(comp) => {
                    let unit = unit_secs_x(stage);
                    let ghost comp_val = dec_value(s.take(d as int));
                    let ghost rest_val = spec_parse_du(s.skip(d + 1), stage as int + 1);
                    proof {
                        assert(comp_val == comp);
                        assert(s.skip(d + 1) =~= chars@.skip(j + 1));
                    }
                    let cap: u64 = u64::MAX / unit;
                    if comp > cap {
                        proof {
                            vstd::arithmetic::div_mod::lemma_fundamental_div_mod(
                                u64::MAX as int,
                                unit as int,
                            );
                            let q = u64::MAX as int / unit as int;
                            let rr = u64::MAX as int % unit as int;
                            assert(comp * unit > u64::MAX) by (nonlinear_arith)
                                requires
                                    comp > q,
                                    u64::MAX as int == q * (unit as int) + rr,
                                    0 <= rr,
                                    rr < unit as int,
                            ;
                        }
                        return Err(
                            FmnError::Validation(String::from_str("duration does not fit")),
                        );
                    }
                    proof {
                        vstd::arithmetic::div_mod::lemma_fundamental_div_mod(
                            u64::MAX as int,
                            unit as int,
                        );
                        let q = u64::MAX as int / unit as int;
                        let rr = u64::MAX as int % unit as int;
                        assert(comp * unit <= u64::MAX) by (nonlinear_arith)
                            requires
                                0 <= comp,
                                comp <= q,
                                unit >= 1,
                                u64::MAX as int == q * (unit as int) + rr,
                                0 <= rr,
                        ;
                    }
                    let scaled: u64 = comp * unit;
                    if total > u64::MAX - scaled {
                        return Err(
                            FmnError::Validation(String::from_str("duration does not fit")),
                        );
                    }
                    total = total + scaled;
                    i = j + 1;
                    stage = stage + 1;
                },
            }
        } else {
            proof {
                assert(!(digits_prefix_len(s) > 0 && digits_prefix_len(s) < s.len() && s[
                digits_prefix_len(s)] == suffix_char(stage as int)));
                assert(spec_parse_du(s, stage as int) == spec_parse_du(s, stage as int + 1));
            }
            stage = stage + 1;
        }
    }
}

// ---------------------------------------------------------------------
// Wall-clock times: the first digit run names the hour, an immediately
// following `:` plus digits the minute.
// ---------------------------------------------------------------------

/// The position of the first digit in `s`, if any.
pub open spec fn first_digit_ix(s: Seq<char>) -> Option<int>
    decreases s.len(),
{
    if s.len() == 0 {
        None
    } else if is_digit(s[0]) {
        Some(0)
    } else {
        match first_digit_ix(s.drop_first()) {
            Some(j) => Some(j + 1),
            None => None,
        }
    }
}

pub proof fn lemma_first_digit_at(s: Seq<char>, i: int)
    requires
        0 <= i < s.len(),
        is_digit(s[i]),
        forall|k: int| 0 <= k < i ==> !is_digit(#[trigger] s[k]),
    ensures
        first_digit_ix(s) == Some(i),
    decreases i,
{
    if i > 0 {
        let q = s.drop_first();
        assert(q[i - 1] == s[i]);
        assert(forall|k: int| 0 <= k < i - 1 ==> #[trigger] q[k] == s[k + 1]);
        lemma_first_digit_at(q, i - 1);
    }
}

pub proof fn lemma_first_digit_none(s: Seq<char>)
    requires
        forall|k: int| 0 <= k < s.len() ==> !is_digit(#[trigger] s[k]),
    ensures
        first_digit_ix(s) is None,
    decreases s.len(),
{
    if s.len() > 0 {
        let q = s.drop_first();
        assert(forall|k: int| 0 <= k < q.len() ==> #[trigger] q[k] == s[k + 1]);
        lemma_first_digit_none(q);
    }
}

/// The wall-clock hour and minute a string names: the first digit run
/// is the hour; a `:` and another digit run right after it is the
/// minute, otherwise the minute is zero. `None` exactly where no digit
/// occurs, the hour exceeds 23 or the minute exceeds 59.
pub open spec fn spec_parse_at(s: Seq<char>) -> Option<(u8, u8)> {
    match first_digit_ix(s) {
        None => None,
        Some(b) => {
            let rest = s.skip(b);
            let d = digits_prefix_len(rest);
            let hour_v = dec_value(rest.take(d));
            let after = rest.skip(d);
            let minute_v: nat = if after.len() >= 2 && after[0] == ':' && is_digit(after[1]) {
                dec_value(after.skip(1).take(digits_prefix_len(after.skip(1))))
            } else {
                0
            };
            if hour_v <= 23 && minute_v <= 59 {
                Some((hour_v as u8, minute_v as u8))
            } else {
                None
            }
        },
    }
}

/// Parse a wall-clock time such as `18:30` or `7`. Fails exactly where
/// the string holds no digit, the hour exceeds 23 or the minute exceeds
/// 59.
#[verifier::loop_isolation(false)]
pub fn parse_at(next_fire: &str) -> (r: Result<(u8, u8), FmnError>)
    ensures
        match r {
            Ok(hm) => spec_parse_at(next_fire@) == Some(hm) && crate::clock::clock_wf(
                ClockType::OncePerDay(hm.0, hm.1),
            ),
            Err(_) => spec_parse_at(next_fire@) is None,
        },
{
    let chars = str_to_chars(next_fire);
    let n: usize = chars.len();
    // find the first digit
    let mut b: usize = 0;
    while b < n && !is_digit_x(chars[b])
        invariant
            b <= n,
            forall|k: int| 0 <= k < b ==> !is_digit(#[trigger] chars@[k]),
        decreases n - b,
    {
        b = b + 1;
    }
    if b == n {
        proof {
            lemma_first_digit_none(chars@);
        }
        return Err(FmnError::Validation(String::from_str("no time found")));
    }
    proof {
        lemma_first_digit_at(chars@, b as int);
    }
    let ghost rest = chars@.skip(b as int);
    // the hour run
    let mut j: usize = b;
    while j < n && is_digit_x(chars[j])
        invariant
            b <= j <= n,
            forall|k: int| b <= k < j ==> is_digit(#[trigger] chars@[k]),
        decreases n - j,
    {
        j = j + 1;
    }
    proof {
        assert(forall|k: int| 0 <= k < j - b ==> is_digit(#[trigger] rest[k]));
        if j < n {
            assert(rest[j - b] == chars@[j as int]);
        }
        lemma_digits_prefix(rest, j - b);
        assert(rest.take(j - b) =~= chars@.subrange(b as int, j as int));
    }
    let hour: u8 = match parse_dec_range(chars.as_slice(), b, j) {
        None => {
            proof {
                assert(dec_value(rest.take(j - b)) > u64::MAX);
            }
            return Err(FmnError::Validation(String::from_str("hour out of range")));
        },
        Some(h) => {
            if h > 23 {
                return Err(FmnError::Validation(String::from_str("hour out of range")));
            }
            h as u8
        },
    };
    let ghost after = rest.skip(j - b);
    proof {
        assert(after =~= chars@.skip(j as int));
    }
    let has_minute = j < n && n - j >= 2 && chars[j] == ':' && is_digit_x(chars[j + 1]);
    proof {
        if j < n {
            assert(after[0] == chars@[j as int]);
        }
        if j + 1 < n {
            assert(after[1] == chars@[j + 1]);
        }
        assert(has_minute == (after.len() >= 2 && after[0] == ':' && is_digit(after[1])));
    }
    if !has_minute {
        return Ok((hour, 0));
    }
    let ghost mrest = after.skip(1);
    proof {
        assert(mrest =~= chars@.skip(j + 1));
    }
    // the minute run
    let mstart: usize = j + 1;
    let mut m: usize = mstart;
    while m < n && is_digit_x(chars[m])
        invariant
            mstart <= m <= n,
            forall|k: int| mstart <= k < m ==> is_digit(#[trigger] chars@[k]),
        decreases n - m,
    {
        m = m + 1;
    }
    proof {
        assert(forall|k: int| 0 <= k < m - mstart ==> is_digit(#[trigger] mrest[k]));
        if m < n {
            assert(mrest[m - mstart] == chars@[m as int]);
        }
        lemma_digits_prefix(mrest, m - mstart);
        assert(mrest.take(m - mstart) =~= chars@.subrange(mstart as int, m as int));
    }
    match parse_dec_range(chars.as_slice(), mstart, m) {
        None => {
            proof {
                assert(dec_value(mrest.take(m - mstart)) > u64::MAX);
            }
            Err(FmnError::Validation(String::from_str("minute out of range")))
        },
        Some(mv) => {
            if mv > 59 {
                Err(FmnError::Validation(String::from_str("minute out of range")))
            } else {
                Ok((hour, mv as u8))
            }
        },
    }
}

// ---------------------------------------------------------------------
// Request dispatch: what each request does to the manager, and what is
// answered.
// ---------------------------------------------------------------------

/// Serve one context sub-command against the manager: define appends,
/// list reports the store with the current context first, switch makes
/// a defined context current (failing on an unknown name), remove
/// destroys a context and its tasks.
pub fn handle_context_command(command: ContextCommand, tm: &mut TaskManager) -> (r: Response)
    requires
        old(tm).wf(),
    ensures
        final(tm).wf(),
        command matches ContextCommand::List ==> *final(tm) == *old(tm) && (r matches
        Response::GetContexts(cs) && cs@ == old(tm).contexts@),
        command matches ContextCommand::Define { context } ==> final(tm).contexts@ == old(tm).contexts@.push(context) && final(tm).tasks@ == old(tm).tasks@ && r
            is AddSuccess,
        command matches ContextCommand::Switch { context } ==> {
            &&& final(tm).tasks@ == old(tm).tasks@
            &&& ((context@ == old(tm).spec_current() || first_ctx(old(tm).contexts@, context@)
                is Some) <==> r is SetContextSuccess)
            &&& (!(context@ == old(tm).spec_current()) && first_ctx(old(tm).contexts@, context@)
                is None) ==> (r matches Response::Fail(_)) && final(tm).contexts@ == old(tm).contexts@ && final(tm).scheduler == old(tm).scheduler
            &&& (context@ != old(tm).spec_current() && first_ctx(old(tm).contexts@, context@)
                is Some) ==> final(tm).spec_current() == context@ && final(tm).scheduler.live_ids() == ids_in_context(old(tm).tasks@, context@)
            &&& context@ == old(tm).spec_current() ==> final(tm).contexts@ == old(tm).contexts@
                && final(tm).scheduler == old(tm).scheduler
        },
        command matches ContextCommand::Rm { context } ==> r is RemoveSuccess && final(tm).tasks@
            == remove_ctx_tasks(old(tm).tasks@, context@),
{
    match command {
        ContextCommand::Define { context } => {
            match tm.define_context(context) {
                Ok(_) => Response::AddSuccess,
                Err(e) => Response::Fail(e.message()),
            }
        },
        ContextCommand::List => Response::GetContexts(tm.list_context()),
        ContextCommand::Rm { context } => {
            match tm.remove_context(context) {
                Ok(_) => Response::RemoveSuccess,
                Err(e) => Response::Fail(e.message()),
            }
        },
        ContextCommand::Switch { context } => {
            let ghost ctx_view = context@;
            let result = tm.switch_context(context);
            proof {
                if ctx_view != old(tm).spec_current() && first_ctx(old(tm).contexts@, ctx_view)
                    is Some {
                    lemma_first_ctx_props(old(tm).contexts@, ctx_view);
                    let p = first_ctx(old(tm).contexts@, ctx_view).unwrap();
                    assert(p != 0);
                    assert(tm.contexts@[0] == old(tm).contexts@[p]);
                }
            }
            match result {
                Ok(_) => Response::SetContextSuccess,
                Err(e) => Response::Fail(e.message()),
            }
        },
    }
}

/// Serve one request against the manager. An added task is tagged with
/// the current context and scheduled; cancellation goes by id prefix
/// and reports an unknown prefix as an ordinary failure; `Show` lists
/// every stored task whatever its context (a documented choice); a
/// context request is served by `handle_context_command`, whose
/// contract pins what each sub-command does.
#[verifier::loop_isolation(false)]
pub fn handle_request(request: Request, tm: &mut TaskManager) -> (r: Response)
    requires
        old(tm).wf(),
    ensures
        final(tm).wf(),
        request matches Request::Show ==> *final(tm) == *old(tm) && (r matches
        Response::GetTasks(ts) && ts@ == old(tm).tasks@),
        request matches Request::Cancel(task_id) ==> match first_match(
            old(tm).tasks@,
            task_id@,
        ) {
            Some(i) => r is RemoveSuccess && final(tm).tasks@ == old(tm).tasks@.update(
                i,
                old(tm).tasks@.last(),
            ).drop_last() && final(tm).scheduler.live_ids() == old(tm).scheduler.live_ids().remove(
                old(tm).tasks@[i]@.task_id,
            ),
            None => (r matches Response::Fail(_)) && final(tm).tasks@ == old(tm).tasks@ && final(tm).scheduler == old(tm).scheduler,
        },
        request matches Request::Add(description, clock_type, image, sound) ==> {
            ||| (r is AddSuccess && final(tm).tasks@.len() == old(tm).tasks@.len() + 1 && final(tm).tasks@.drop_last() == old(tm).tasks@ && final(tm).tasks@.last()@.description
                == description@ && final(tm).tasks@.last()@.clock_type == clock_type && final(tm).tasks@.last()@.context == old(tm).spec_current() && final(tm).tasks@.last()@.image_path == crate::task::view_opt_string(image) && final(tm).tasks@.last()@.sound_path == crate::task::view_opt_string(sound) && final(tm).scheduler.live_ids() == old(tm).scheduler.live_ids().insert(
                final(tm).tasks@.last()@.task_id,
            ))
            ||| ((r matches Response::Fail(_)) && *final(tm) == *old(tm))
        },
        request matches Request::ContextRequest(command) ==> {
            &&& (command matches ContextCommand::List ==> *final(tm) == *old(tm) && (r matches
            Response::GetContexts(cs) && cs@ == old(tm).contexts@))
            &&& (command matches ContextCommand::Define { context } ==> final(tm).contexts@ == old(tm).contexts@.push(context) && final(tm).tasks@ == old(tm).tasks@ && r is AddSuccess)
            &&& (command matches ContextCommand::Switch { context } ==> final(tm).tasks@ == old(tm).tasks@ && ((context@ == old(tm).spec_current() || first_ctx(
                old(tm).contexts@,
                context@,
            ) is Some) <==> r is SetContextSuccess))
            &&& (command matches ContextCommand::Rm { context } ==> r is RemoveSuccess && final(tm).tasks@ == remove_ctx_tasks(old(tm).tasks@, context@))
        },
{
    match request {
        Request::Add(description, clock_type, image, sound) => {
            let mut task = Task::new(description, clock_type);
            match image {
                Some(image_path) => task.add_image(image_path),
                None => (),
            }
            match sound {
                Some(sound_path) => task.add_sound(sound_path),
                None => (),
            }
            // the id is random; a collision with a stored id is all but
            // impossible, but a colliding task must not be stored twice
            let n: usize = tm.tasks.len();
            let mut i: usize = 0;
            while i < n
                invariant
                    i <= n,
                    n == tm.tasks@.len(),
                    *tm == *old(tm),
                    forall|k: int|
                        0 <= k < i ==> (#[trigger] tm.tasks@[k])@.task_id != task@.task_id,
                decreases n - i,
            {
                if tm.tasks.get(i).task_id == task.task_id {
                    return Response::Fail(
                        String::from_str("a stored task already carries this id"),
                    );
                }
                i = i + 1;
            }
            match tm.add_task(task) {
                Ok(_) => Response::AddSuccess,
                Err(e) => Response::Fail(e.message()),
            }
        },
        Request::Cancel(task_id) => {
            match tm.cancel_task(task_id) {
                Ok(_) => Response::RemoveSuccess,
                Err(e) => Response::Fail(e.message()),
            }
        },
        Request::Show => Response::GetTasks(tm.get_tasks()),
        Request::ContextRequest(command) => handle_context_command(command, tm),
    }
}

} // verus!
