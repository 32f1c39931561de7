//! What holds where control comes together.
use vstd::prelude::*;

use crate::exec::jit::module::{Incoming, Op, ValueRef};
use crate::exec::jit::state::{Jit, PhiSpec, TypedValue};

verus! {

/// Whether what comes in from some blocks can be put together: none brings more
/// than the first.
pub open spec fn can_merge(phis: Seq<PhiSpec>) -> bool {
    &&& phis.len() > 0
    &&& forall|p: int|
        0 <= p < phis.len() ==> (#[trigger] phis[p]).stack.len() <= phis[0].stack.len()
}

/// What a phi has if control comes in from a block: the value at this place of
/// the stack there.
pub open spec fn incoming_at(first: int, phi: PhiSpec, i: int) -> Incoming {
    Incoming {
        phi: ValueRef::Inst((first + i) as usize),
        val: phi.stack[i].val,
        block: phi.src_bb,
    }
}

proof fn lemma_first_phis(j: Jit, stack: Seq<TypedValue>, phi: PhiSpec, n: nat)
    requires
        n <= phi.stack.len(),
    ensures
        ({
            let (k, full) = j.first_phis(stack, phi, n);
            let first = j.module.insts.len();
            &&& full.len() == stack.len() + n
            &&& forall|i: int| 0 <= i < stack.len() ==> #[trigger] full[i] == stack[i]
            &&& forall|i: int|
                0 <= i < n ==> #[trigger] full[stack.len() + i] == (TypedValue {
                    ty: phi.stack[i].ty,
                    val: ValueRef::Inst((first + i) as usize),
                })
            &&& k.module.insts.len() == first + n
            &&& forall|i: int|
                0 <= i < n ==> (#[trigger] k.module.insts[first + i]).op == (
                Op::<Seq<ValueRef>>::Phi { like: phi.stack[i].val })
            &&& k.module.incoming.len() == j.module.incoming.len() + n
            &&& forall|i: int|
                0 <= i < n ==> #[trigger] k.module.incoming[j.module.incoming.len() + i]
                    == incoming_at(first as int, phi, i)
        }),
    decreases n,
{
    if n > 0 {
        lemma_first_phis(j, stack, phi, (n - 1) as nat);
    }
}

proof fn lemma_add_phis(j: Jit, stack: Seq<TypedValue>, base: nat, phi: PhiSpec, n: nat)
    requires
        n <= phi.stack.len(),
    ensures
        j.add_phis(stack, base, phi, n) is Some <==> n == 0 || base + n <= stack.len(),
        j.add_phis(stack, base, phi, n) matches Some(k) ==> {
            &&& k.module.insts == j.module.insts
            &&& k.module.incoming.len() == j.module.incoming.len() + n
            &&& forall|i: int|
                0 <= i < j.module.incoming.len() ==> #[trigger] k.module.incoming[i]
                    == j.module.incoming[i]
            &&& forall|i: int|
                0 <= i < n ==> #[trigger] k.module.incoming[j.module.incoming.len() + i] == (
                Incoming {
                    phi: stack[base + i].val,
                    val: phi.stack[i].val,
                    block: phi.src_bb,
                })
        },
    decreases n,
{
    if n > 0 {
        lemma_add_phis(j, stack, base, phi, (n - 1) as nat);
    }
}

/// Whether the module has the values that come in from a block.
spec fn merged(k: Jit, stack: Seq<TypedValue>, base: nat, phi: PhiSpec) -> bool {
    forall|i: int|
        0 <= i < phi.stack.len() ==> k.module.incoming.contains(
            Incoming {
                phi: stack[base + i].val,
                val: (#[trigger] phi.stack[i]).val,
                block: phi.src_bb,
            },
        )
}

proof fn lemma_more_phis(
    j: Jit,
    stack: Seq<TypedValue>,
    base: nat,
    phis: Seq<PhiSpec>,
    n: nat,
)
    requires
        n <= phis.len(),
        base <= stack.len(),
    ensures
        j.more_phis(stack, base, phis, n) is Some <==> (forall|p: int|
            1 <= p < n ==> base + (#[trigger] phis[p]).stack.len() <= stack.len()),
        j.more_phis(stack, base, phis, n) matches Some(k) ==> {
            &&& k.module.insts == j.module.insts
            &&& j.module.incoming.len() <= k.module.incoming.len()
            &&& forall|i: int|
                0 <= i < j.module.incoming.len() ==> #[trigger] k.module.incoming[i]
                    == j.module.incoming[i]
            &&& forall|p: int| 1 <= p < n ==> merged(k, stack, base, #[trigger] phis[p])
        },
    decreases n,
{
    if n > 1 {
        lemma_more_phis(j, stack, base, phis, (n - 1) as nat);
        let phi = phis[n - 1];
        if let Some(k) = j.more_phis(stack, base, phis, (n - 1) as nat) {
            lemma_add_phis(k, stack, base, phi, phi.stack.len());
            if let Some(l) = k.add_phis(stack, base, phi, phi.stack.len()) {
                assert forall|p: int| 1 <= p < n implies merged(
                    l,
                    stack,
                    base,
                    #[trigger] phis[p],
                ) by {
                    if p < n - 1 {
                        assert(merged(k, stack, base, phis[p]));
                        assert forall|i: int|
                            0 <= i < phis[p].stack.len() implies l.module.incoming.contains(
                            Incoming {
                                phi: stack[base + i].val,
                                val: (#[trigger] phis[p].stack[i]).val,
                                block: phis[p].src_bb,
                            },
                        ) by {
                            let come = Incoming {
                                phi: stack[base + i].val,
                                val: phis[p].stack[i].val,
                                block: phis[p].src_bb,
                            };
                            assert(k.module.incoming.contains(come));
                            let at = choose|at: int|
                                0 <= at < k.module.incoming.len() && k.module.incoming[at] == come;
                            assert(l.module.incoming[at] == come);
                        }
                    } else {
                        assert forall|i: int|
                            0 <= i < phi.stack.len() implies l.module.incoming.contains(
                            Incoming {
                                phi: stack[base + i].val,
                                val: (#[trigger] phi.stack[i]).val,
                                block: phi.src_bb,
                            },
                        ) by {
                            let at = k.module.incoming.len() + i;
                            assert(l.module.incoming[at].val == phi.stack[i].val);
                        }
                    }
                }
            }
        } else {
            let p = choose|p: int|
                1 <= p < n - 1 && !(base + (#[trigger] phis[p]).stack.len() <= stack.len());
            assert(base + phis[p].stack.len() > stack.len());
        }
    }
}

/// Where something comes in at a block, the block begins with a phi for each
/// value on the first stack that comes in. The phis go on top of what is on the
/// stack anyway, in order, with the types of those values. Each phi has, for
/// each block that control comes from, the value at its place of the stack
/// there. It goes wrong only where a block brings more than the first does.
pub proof fn law_phis_merge_stacks(j: Jit, start: usize, init: Seq<TypedValue>)
    requires
        j.phi_stack.contains_key(start),
    ensures
        j.build_phi_stack(start, init) is Some <==> can_merge(j.phi_stack[start]),
        j.build_phi_stack(start, init) matches Some((k, full)) ==> {
            let phis = j.phi_stack[start];
            let first = j.module.insts.len();
            &&& full.len() == init.len() + phis[0].stack.len()
            &&& forall|i: int| 0 <= i < init.len() ==> #[trigger] full[i] == init[i]
            &&& forall|i: int|
                0 <= i < phis[0].stack.len() ==> #[trigger] full[init.len() + i] == (TypedValue {
                    ty: phis[0].stack[i].ty,
                    val: ValueRef::Inst((first + i) as usize),
                })
            &&& k.module.insts.len() == first + phis[0].stack.len()
            &&& forall|i: int|
                0 <= i < phis[0].stack.len() ==> (#[trigger] k.module.insts[first + i]).op
                    == (Op::<Seq<ValueRef>>::Phi { like: phis[0].stack[i].val })
            &&& forall|p: int, i: int|
                0 <= p < phis.len() && 0 <= i < phis[p].stack.len()
                    ==> k.module.incoming.contains(
                    #[trigger] incoming_at(first as int, phis[p], i),
                )
        },
{
    reveal(Jit::build_phi_stack);
    let phis = j.phi_stack[start];
    let first = j.module.insts.len();
    if phis.len() > 0 {
        let n = phis[0].stack.len();
        lemma_first_phis(j, init, phis[0], n);
        let (k, full) = j.first_phis(init, phis[0], n);
        lemma_more_phis(k, full, init.len(), phis, phis.len());
        assert(can_merge(phis) <==> forall|p: int|
            1 <= p < phis.len() ==> init.len() + (#[trigger] phis[p]).stack.len() <= full.len());
        if let Some(l) = k.more_phis(full, init.len(), phis, phis.len()) {
            assert forall|p: int, i: int|
                0 <= p < phis.len() && 0 <= i
                    < phis[p].stack.len() implies l.module.incoming.contains(
                #[trigger] incoming_at(first as int, phis[p], i),
            ) by {
                if p == 0 {
                    let at = j.module.incoming.len() + i;
                    assert(k.module.incoming[at] == incoming_at(first as int, phis[0], i));
                    assert(l.module.incoming[at] == k.module.incoming[at]);
                } else {
                    assert(merged(l, full, init.len(), phis[p]));
                    assert(phis[p].stack[i].val == incoming_at(first as int, phis[p], i).val);
                    assert(full[init.len() + i].val == ValueRef::Inst((first + i) as usize));
                }
            }
        }
    }
}

/// Whether the values from `from` on that phis have are those that come in from
/// the first `n` of `phis`, and no other.
spec fn only_merged(k: Jit, from: int, first: int, phis: Seq<PhiSpec>, n: nat) -> bool {
    forall|t: int|
        from <= t < k.module.incoming.len() ==> is_merged(
            #[trigger] k.module.incoming[t],
            first,
            phis,
            n,
        )
}

/// Whether it is a value that comes in from one of the first `n` of `phis`, for the
/// phi at its place.
pub open spec fn is_merged(come: Incoming, first: int, phis: Seq<PhiSpec>, n: nat) -> bool {
    exists|p: int, i: int|
        0 <= p < n && 0 <= i < phis[p].stack.len() && come == #[trigger] incoming_at(
            first,
            phis[p],
            i,
        )
}

proof fn lemma_more_phis_only(
    j: Jit,
    stack: Seq<TypedValue>,
    base: nat,
    first: int,
    phis: Seq<PhiSpec>,
    n: nat,
    from: int,
)
    requires
        1 <= n <= phis.len(),
        base <= stack.len(),
        0 <= from <= j.module.incoming.len(),
        forall|i: int|
            0 <= i < stack.len() - base ==> (#[trigger] stack[base + i]).val == ValueRef::Inst(
                (first + i) as usize,
            ),
        only_merged(j, from, first, phis, 1),
    ensures
        j.more_phis(stack, base, phis, n) matches Some(k) ==> only_merged(k, from, first, phis, n),
    decreases n,
{
    if n > 1 {
        let m = (n - 1) as nat;
        lemma_more_phis_only(j, stack, base, first, phis, m, from);
        lemma_more_phis(j, stack, base, phis, m);
        let phi = phis[n - 1];
        if let Some(a) = j.more_phis(stack, base, phis, m) {
            lemma_add_phis(a, stack, base, phi, phi.stack.len());
            if let Some(k) = a.add_phis(stack, base, phi, phi.stack.len()) {
                assert forall|t: int| from <= t < k.module.incoming.len() implies is_merged(
                    #[trigger] k.module.incoming[t],
                    first,
                    phis,
                    n,
                ) by {
                    let before = a.module.incoming.len() as int;
                    if t < before {
                        assert(k.module.incoming[t] == a.module.incoming[t]);
                        assert(is_merged(a.module.incoming[t], first, phis, m));
                        let (p, i): (int, int) = choose|p: int, i: int|
                            0 <= p < m && 0 <= i < phis[p].stack.len() && a.module.incoming[t]
                                == #[trigger] incoming_at(first, phis[p], i);
                        assert(k.module.incoming[t] == incoming_at(first, phis[p], i));
                    } else {
                        let i = t - before;
                        assert(k.module.incoming[before + i] == (Incoming {
                            phi: stack[base + i].val,
                            val: phi.stack[i].val,
                            block: phi.src_bb,
                        }));
                        assert(k.module.incoming[t] == incoming_at(first, phis[n - 1], i));
                    }
                }
            }
        }
    }
}

/// The phis of a block have no values but those that come in: each belongs to one
/// of the blocks that control comes from, and is the value at the place of the phi
/// of the stack there.
pub proof fn law_phis_have_nothing_else(j: Jit, start: usize, init: Seq<TypedValue>, t: int)
    requires
        j.phi_stack.contains_key(start),
        j.build_phi_stack(start, init) matches Some((k, _)) && j.module.incoming.len() <= t
            < k.module.incoming.len(),
    ensures
        is_merged(
            j.build_phi_stack(start, init).unwrap().0.module.incoming[t],
            j.module.insts.len() as int,
            j.phi_stack[start],
            j.phi_stack[start].len(),
        ),
{
    reveal(Jit::build_phi_stack);
    let phis = j.phi_stack[start];
    let first = j.module.insts.len() as int;
    let n = phis[0].stack.len();
    lemma_first_phis(j, init, phis[0], n);
    let (a, full) = j.first_phis(init, phis[0], n);
    let from = j.module.incoming.len() as int;
    assert(only_merged(a, from, first, phis, 1)) by {
        assert forall|t: int| from <= t < a.module.incoming.len() implies is_merged(
            #[trigger] a.module.incoming[t],
            first,
            phis,
            1,
        ) by {
            let i = t - from;
            assert(a.module.incoming[j.module.incoming.len() + i] == incoming_at(
                first,
                phis[0],
                i,
            ));
        }
    }
    lemma_more_phis_only(a, full, init.len(), first, phis, phis.len(), from);
}

} // verus!
