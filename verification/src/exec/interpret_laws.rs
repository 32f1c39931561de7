//! What holds of every run of the interpreter.
use vstd::prelude::*;

use crate::exec::instruction::Instruction;
use crate::exec::interpret::{Event, Line, Machine, Run, Value, run, step_spec};
use crate::fault::Fault;
use crate::metadata::image::Image;

verus! {

/// A run that ends has used at least one of its steps.
pub proof fn law_run_uses_steps(
    image: Image,
    code: Seq<Instruction>,
    arguments: Seq<Value>,
    m: Machine,
    steps: nat,
    out: Seq<Line>,
)
    ensures
        run(image, code, arguments, m, steps, out).end matches Ok((_, left)) ==> left < steps,
    decreases steps,
{
    if steps > 0 {
        let rest = (steps - 1) as nat;
        match step_spec(image, code, arguments, m) {
            Ok((m1, Event::Continue)) => law_run_uses_steps(image, code, arguments, m1, rest, out),
            Ok((m1, Event::Write(line))) => law_run_uses_steps(
                image,
                code,
                arguments,
                m1,
                rest,
                out.push(line),
            ),
            Ok((m1, Event::Enter { rva, params })) => {
                let body = image.methods@[rva].body@;
                let call = run(image, body, params, m1.jump(0), rest, out);
                law_run_uses_steps(image, body, params, m1.jump(0), rest, out);
                if let Ok((m2, left)) = call.end {
                    law_run_uses_steps(
                        image,
                        code,
                        arguments,
                        m2.jump(m1.pc + 1),
                        left,
                        call.out,
                    );
                }
            },
            _ => {},
        }
    }
}

/// After a called method has returned, the run goes on behind the call, with
/// the stack as the method left it, the lines that it wrote and the steps that
/// it left.
pub proof fn law_run_goes_on_behind_call(
    image: Image,
    code: Seq<Instruction>,
    arguments: Seq<Value>,
    m: Machine,
    steps: nat,
    out: Seq<Line>,
)
    requires
        steps > 0,
        step_spec(image, code, arguments, m) matches Ok((_, Event::Enter { .. })),
    ensures
        ({
            let (m1, event) = step_spec(image, code, arguments, m)->Ok_0;
            let call = run(
                image,
                image.methods@[event->rva].body@,
                event->params,
                m1.jump(0),
                (steps - 1) as nat,
                out,
            );
            run(image, code, arguments, m, steps, out) == match call.end {
                Err(f) => call,
                Ok((m2, left)) => run(
                    image,
                    code,
                    arguments,
                    m2.jump(m1.pc + 1),
                    left,
                    call.out,
                ),
            }
        }),
{
    let (m1, event) = step_spec(image, code, arguments, m)->Ok_0;
    law_run_uses_steps(
        image,
        image.methods@[event->rva].body@,
        event->params,
        m1.jump(0),
        (steps - 1) as nat,
        out,
    );
}

/// A run that ends stands on the instruction that returns.
pub proof fn law_run_ends_at_ret(
    image: Image,
    code: Seq<Instruction>,
    arguments: Seq<Value>,
    m: Machine,
    steps: nat,
    out: Seq<Line>,
)
    ensures
        run(image, code, arguments, m, steps, out).end matches Ok((m2, _)) ==> 0 <= m2.pc
            < code.len() && code[m2.pc as int] == Instruction::Ret,
    decreases steps,
{
    if steps > 0 {
        let rest = (steps - 1) as nat;
        match step_spec(image, code, arguments, m) {
            Ok((m1, Event::Continue)) => law_run_ends_at_ret(
                image,
                code,
                arguments,
                m1,
                rest,
                out,
            ),
            Ok((m1, Event::Write(line))) => law_run_ends_at_ret(
                image,
                code,
                arguments,
                m1,
                rest,
                out.push(line),
            ),
            Ok((m1, Event::Enter { rva, params })) => {
                let body = image.methods@[rva].body@;
                let call = run(image, body, params, m1.jump(0), rest, out);
                law_run_uses_steps(image, body, params, m1.jump(0), rest, out);
                if let Ok((m2, left)) = call.end {
                    law_run_ends_at_ret(
                        image,
                        code,
                        arguments,
                        m2.jump(m1.pc + 1),
                        left,
                        call.out,
                    );
                }
            },
            _ => {},
        }
    }
}

/// A method that has returned returns at once when it is run again from where it
/// stands: one step is used, and nothing else changes, whatever the arguments.
pub proof fn law_run_again_changes_nothing(
    image: Image,
    code: Seq<Instruction>,
    arguments: Seq<Value>,
    m: Machine,
    steps: nat,
    out: Seq<Line>,
    again: Seq<Value>,
    more: nat,
)
    requires
        run(image, code, arguments, m, steps, out).end is Ok,
        more > 0,
    ensures
        ({
            let first = run(image, code, arguments, m, steps, out);
            let (m2, _) = first.end->Ok_0;
            run(image, code, again, m2, more, first.out) == (Run {
                end: Ok((m2, (more - 1) as nat)),
                out: first.out,
            })
        }),
{
    law_run_ends_at_ret(image, code, arguments, m, steps, out);
}

/// How a run ends with `extra` more steps.
pub open spec fn with_extra_steps(r: Run, extra: nat) -> Run {
    match r.end {
        Ok((m, left)) => Run { end: Ok((m, left + extra)), ..r },
        Err(_) => r,
    }
}

/// Unless the steps run out, their number does not matter: with more of them
/// the run ends in the same way and leaves as many more.
pub proof fn law_more_steps_change_nothing(
    image: Image,
    code: Seq<Instruction>,
    arguments: Seq<Value>,
    m: Machine,
    steps: nat,
    extra: nat,
    out: Seq<Line>,
)
    requires
        run(image, code, arguments, m, steps, out).end != Err::<(Machine, nat), Fault>(
            Fault::OutOfSteps,
        ),
    ensures
        run(image, code, arguments, m, steps + extra, out) == with_extra_steps(
            run(image, code, arguments, m, steps, out),
            extra,
        ),
    decreases steps,
{
    if steps > 0 {
        let rest = (steps - 1) as nat;
        assert(rest + extra == (steps + extra) - 1);
        match step_spec(image, code, arguments, m) {
            Ok((m1, Event::Continue)) => law_more_steps_change_nothing(
                image,
                code,
                arguments,
                m1,
                rest,
                extra,
                out,
            ),
            Ok((m1, Event::Write(line))) => law_more_steps_change_nothing(
                image,
                code,
                arguments,
                m1,
                rest,
                extra,
                out.push(line),
            ),
            Ok((m1, Event::Enter { rva, params })) => {
                let body = image.methods@[rva].body@;
                let call = run(image, body, params, m1.jump(0), rest, out);
                law_run_uses_steps(image, body, params, m1.jump(0), rest, out);
                law_more_steps_change_nothing(
                    image,
                    body,
                    params,
                    m1.jump(0),
                    rest,
                    extra,
                    out,
                );
                if let Ok((m2, left)) = call.end {
                    law_more_steps_change_nothing(
                        image,
                        code,
                        arguments,
                        m2.jump(m1.pc + 1),
                        left,
                        extra,
                        call.out,
                    );
                }
            },
            _ => {},
        }
    }
}

/// What has been written stays written, and does not influence the run: a run
/// adds the lines that it would write if nothing had been written before.
pub proof fn law_output_is_added(
    image: Image,
    code: Seq<Instruction>,
    arguments: Seq<Value>,
    m: Machine,
    steps: nat,
    out: Seq<Line>,
)
    ensures
        run(image, code, arguments, m, steps, out).end == run(
            image,
            code,
            arguments,
            m,
            steps,
            seq![],
        ).end,
        run(image, code, arguments, m, steps, out).out == out + run(
            image,
            code,
            arguments,
            m,
            steps,
            seq![],
        ).out,
    decreases steps,
{
    let none: Seq<Line> = seq![];
    assert(out + none =~= out);
    if steps > 0 {
        let rest = (steps - 1) as nat;
        match step_spec(image, code, arguments, m) {
            Ok((m1, Event::Continue)) => law_output_is_added(
                image,
                code,
                arguments,
                m1,
                rest,
                out,
            ),
            Ok((m1, Event::Write(line))) => {
                law_output_is_added(image, code, arguments, m1, rest, out.push(line));
                law_output_is_added(image, code, arguments, m1, rest, none.push(line));
                let tail = run(image, code, arguments, m1, rest, none).out;
                assert(out.push(line) + tail =~= out + (none.push(line) + tail));
            },
            Ok((m1, Event::Enter { rva, params })) => {
                let body = image.methods@[rva].body@;
                law_output_is_added(image, body, params, m1.jump(0), rest, out);
                law_run_uses_steps(image, body, params, m1.jump(0), rest, out);
                let call = run(image, body, params, m1.jump(0), rest, out);
                let call0 = run(image, body, params, m1.jump(0), rest, none);
                if let Ok((m2, left)) = call.end {
                    let m3 = m2.jump(m1.pc + 1);
                    law_output_is_added(image, code, arguments, m3, left, call.out);
                    law_output_is_added(image, code, arguments, m3, left, call0.out);
                    let tail = run(image, code, arguments, m3, left, none).out;
                    assert((out + call0.out) + tail =~= out + (call0.out + tail));
                }
            },
            _ => {},
        }
    }
}

/// A run keeps the values on the stack within its slots, and never moves the
/// slot where they begin.
pub proof fn law_run_keeps_stack_in_bounds(
    image: Image,
    code: Seq<Instruction>,
    arguments: Seq<Value>,
    m: Machine,
    steps: nat,
    out: Seq<Line>,
)
    requires
        m.wf(),
    ensures
        run(image, code, arguments, m, steps, out).end matches Ok((m2, _)) ==> m2.wf() && m2.base
            == m.base,
    decreases steps,
{
    if steps > 0 {
        let rest = (steps - 1) as nat;
        match step_spec(image, code, arguments, m) {
            Ok((m1, Event::Continue)) => law_run_keeps_stack_in_bounds(
                image,
                code,
                arguments,
                m1,
                rest,
                out,
            ),
            Ok((m1, Event::Write(line))) => law_run_keeps_stack_in_bounds(
                image,
                code,
                arguments,
                m1,
                rest,
                out.push(line),
            ),
            Ok((m1, Event::Enter { rva, params })) => {
                let body = image.methods@[rva].body@;
                let call = run(image, body, params, m1.jump(0), rest, out);
                law_run_keeps_stack_in_bounds(image, body, params, m1.jump(0), rest, out);
                if let Ok((m2, left)) = call.end {
                    if left < steps {
                        law_run_keeps_stack_in_bounds(
                            image,
                            code,
                            arguments,
                            m2.jump(m1.pc + 1),
                            left,
                            call.out,
                        );
                    }
                }
            },
            _ => {},
        }
    }
}

/// Popping undoes pushing: the value comes back, and the values on the stack
/// are those from before.
pub proof fn law_pop_undoes_push(m: Machine, v: Value)
    requires
        m.wf(),
        m.has_room(),
    ensures
        m.push(v).peek(0) == v,
        m.push(v).values() == m.values().push(v),
        m.push(v).drop(1).values() == m.values(),
        m.push(v).drop(1).sp == m.sp,
        m.push(v).drop(1).pc == m.pc,
{
    assert(m.push(v).values() =~= m.values().push(v));
    assert(m.push(v).drop(1).values() =~= m.values());
}

/// Popping the last `n` values gives them in the order in which they were
/// pushed, in front of whatever else comes.
pub proof fn law_last_values_come_first(m: Machine, n: int)
    requires
        m.wf(),
        0 <= n <= m.sp,
    ensures
        m.top_slots(n).len() >= n,
        m.top_slots(n).subrange(0, n) == m.values().subrange(m.sp - n, m.sp as int),
        m.drop(n).values() == m.values().subrange(0, m.sp - n),
{
    assert(m.top_slots(n).subrange(0, n) =~= m.values().subrange(m.sp - n, m.sp as int));
    assert(m.drop(n).values() =~= m.values().subrange(0, m.sp - n));
}

} // verus!
