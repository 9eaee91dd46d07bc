use vstd::prelude::*;

use crate::error::{fails_with, Error, Failure};
use crate::program::{
    clone_names, contains_name, first_fault, instruction_views, name_views, spread, spread_block,
    Address, InstructionView, ProgramBuilder, SingleInstruction, SubRoutine,
};

verus! {

/// `b` gives a value to the variable `v`.
pub open spec fn binds<T>(b: Seq<(char, T)>, v: char) -> bool {
    exists|i: int| 0 <= i < b.len() && #[trigger] b[i].0 == v
}

/// The address that `b` gives to `v`.
pub open spec fn bound_to<T>(b: Seq<(char, T)>, v: char) -> T {
    b[choose|i: int| 0 <= i < b.len() && #[trigger] b[i].0 == v].1
}

/// Some binding names a variable that `vars` does not declare.
pub open spec fn unknown_binding<T>(vars: Seq<char>, b: Seq<(char, T)>) -> bool {
    exists|i: int| 0 <= i < b.len() && !vars.contains(#[trigger] b[i].0)
}

/// Some variable is bound twice.
pub open spec fn duplicate_binding<T>(b: Seq<(char, T)>) -> bool {
    exists|i: int, j: int| 0 <= i < j < b.len() && #[trigger] b[i].0 == #[trigger] b[j].0
}

/// Some declared variable is left unbound.
pub open spec fn missing_binding<T>(vars: Seq<char>, b: Seq<(char, T)>) -> bool {
    exists|i: int| 0 <= i < vars.len() && !binds(b, #[trigger] vars[i])
}

/// A variable is declared twice.
pub open spec fn duplicate_variable(vars: Seq<char>) -> bool {
    exists|i: int, j: int| 0 <= i < j < vars.len() && #[trigger] vars[i] == #[trigger] vars[j]
}

/// `f` is a report that a binding list may get: the first kind of defect that it has,
/// and a variable that shows it.
pub open spec fn binding_report<T>(vars: Seq<char>, b: Seq<(char, T)>, f: Failure) -> bool {
    if unknown_binding(vars, b) {
        f matches Failure::UnknownVariable(v) && !vars.contains(v) && binds(b, v)
    } else if duplicate_binding(b) {
        f matches Failure::DuplicateVariable(v) && exists|i: int, j: int|
            0 <= i < j < b.len() && #[trigger] b[i].0 == v && #[trigger] b[j].0 == v
    } else {
        f matches Failure::MissingBinding(v) && vars.contains(v) && !binds(b, v)
    }
}

/// A symbolic instruction with its variables replaced by their addresses; `flip`
/// inverts its direction.
pub open spec fn bind_instruction<T>(
    i: InstructionView<char>,
    b: Seq<(char, T)>,
    flip: bool,
) -> InstructionView<T> {
    InstructionView {
        gate: i.gate,
        target: bound_to(b, i.target),
        control: match i.control {
            Some(c) => Some(bound_to(b, c)),
            None => None,
        },
        reverse: i.reverse != flip,
    }
}

/// What calling (`uncall == false`) or uncalling a body with the bindings `b` inlines:
/// the body in order, or the body from last to first with every direction flipped.
pub open spec fn expand<T>(body: Seq<InstructionView<char>>, b: Seq<(char, T)>, uncall: bool) -> Seq<
    InstructionView<T>,
> {
    Seq::new(
        body.len(),
        |k: int|
            if uncall {
                bind_instruction(body[body.len() - 1 - k], b, true)
            } else {
                bind_instruction(body[k], b, false)
            },
    )
}

/// The same instruction in the other direction.
pub open spec fn flipped<T>(i: InstructionView<T>) -> InstructionView<T> {
    InstructionView { reverse: !i.reverse, ..i }
}

/// Uncalling a sub-routine inlines exactly its called body, reversed, with every
/// instruction's direction flipped.
pub proof fn lemma_uncall_reverses_call<T>(body: Seq<InstructionView<char>>, b: Seq<(char, T)>)
    ensures
        expand(body, b, true) == Seq::new(
            body.len(),
            |k: int| flipped(expand(body, b, false)[body.len() - 1 - k]),
        ),
{
    let n = body.len();
    let fwd = expand(body, b, false);
    assert forall|k: int| 0 <= k < n implies #[trigger] expand(body, b, true)[k] == flipped(
        fwd[n - 1 - k],
    ) by {
        assert(fwd[n - 1 - k] == bind_instruction(body[n - 1 - k], b, false));
    }
    assert(expand(body, b, true) =~= Seq::new(n, |k: int| flipped(fwd[n - 1 - k])));
}

/// Uncalling after calling with the same bindings inlines a palindrome: the `k`-th
/// instruction from the end undoes the `k`-th from the start.
pub proof fn lemma_call_then_uncall_mirrors<T>(body: Seq<InstructionView<char>>, b: Seq<(char, T)>)
    ensures
        ({
            let s = expand(body, b, false) + expand(body, b, true);
            forall|k: int| 0 <= k < s.len() ==> #[trigger] s[s.len() - 1 - k] == flipped(s[k])
        }),
{
    let n = body.len();
    let fwd = expand(body, b, false);
    let bwd = expand(body, b, true);
    let s = fwd + bwd;
    lemma_uncall_reverses_call(body, b);
    assert forall|k: int| 0 <= k < s.len() implies #[trigger] s[s.len() - 1 - k] == flipped(s[k]) by {
        if k < n {
            assert(s[k] == fwd[k]);
            assert(s[s.len() - 1 - k] == bwd[n - 1 - k]);
            assert(bwd[n - 1 - k] == flipped(fwd[n - 1 - (n - 1 - k)]));
        } else {
            let j = k - n;
            assert(s[k] == bwd[j]);
            assert(s[s.len() - 1 - k] == fwd[n - 1 - j]);
            assert(bwd[j] == flipped(fwd[n - 1 - j]));
            assert(flipped(flipped(fwd[n - 1 - j])) == fwd[n - 1 - j]);
        }
    }
}

/// Whether `c` is one of `vars`.
fn contains_char(vars: &[char], c: char) -> (r: bool)
    ensures
        r == vars@.contains(c),
{
    let mut k: usize = 0;
    while k < vars.len()
        invariant
            k <= vars@.len(),
            forall|j: int| 0 <= j < k ==> vars@[j] != c,
        decreases vars@.len() - k,
    {
        if vars[k] == c {
            assert(vars@[k as int] == c);
            return true;
        }
        k = k + 1;
    }
    false
}

/// The address that `b` gives to `v`, when it gives one.
fn lookup<T: Copy>(b: &[(char, T)], v: char) -> (r: Option<T>)
    ensures
        r is Some <==> binds(b@, v),
        r matches Some(a) ==> !duplicate_binding(b@) ==> a == bound_to(b@, v),
{
    let mut k: usize = 0;
    while k < b.len()
        invariant
            k <= b@.len(),
            forall|j: int| 0 <= j < k ==> b@[j].0 != v,
        decreases b@.len() - k,
    {
        if b[k].0 == v {
            proof {
                let i = choose|i: int| 0 <= i < b@.len() && #[trigger] b@[i].0 == v;
                assert(b@[k as int].0 == v);
                if !duplicate_binding(b@) {
                    if i < k {
                    } else if i > k {
                        assert(b@[k as int].0 == b@[i].0);
                    }
                }
            }
            return Some(b[k].1);
        }
        k = k + 1;
    }
    None
}

/// Finds the first defect of a binding list for a sub-routine declaring `vars`.
fn check_bindings<T: Copy>(vars: &[char], b: &[(char, T)]) -> (r: Result<(), Error>)
    ensures
        r is Ok <==> !unknown_binding(vars@, b@) && !duplicate_binding(b@) && !missing_binding(
            vars@,
            b@,
        ),
        r matches Err(e) ==> binding_report(vars@, b@, e@),
{
    let mut k: usize = 0;
    while k < b.len()
        invariant
            k <= b@.len(),
            forall|j: int| 0 <= j < k ==> vars@.contains(#[trigger] b@[j].0),
        decreases b@.len() - k,
    {
        if !contains_char(vars, b[k].0) {
            assert(binds(b@, b@[k as int].0));
            return Err(Error::UnknownVariable(b[k].0));
        }
        k = k + 1;
    }
    assert(!unknown_binding(vars@, b@));
    let mut i: usize = 0;
    while i < b.len()
        invariant
            i <= b@.len(),
            !unknown_binding(vars@, b@),
            forall|p: int, q: int| 0 <= p < i && p < q < b@.len() ==> #[trigger] b@[p].0 != #[trigger] b@[q].0,
        decreases b@.len() - i,
    {
        let mut j: usize = i + 1;
        while j < b.len()
            invariant
                i < b@.len(),
                i + 1 <= j <= b@.len(),
                !unknown_binding(vars@, b@),
                forall|p: int, q: int| 0 <= p < i && p < q < b@.len() ==> #[trigger] b@[p].0 != #[trigger] b@[q].0,
                forall|q: int| i < q < j ==> b@[i as int].0 != #[trigger] b@[q].0,
            decreases b@.len() - j,
        {
            if b[i].0 == b[j].0 {
                assert(b@[i as int].0 == b@[j as int].0);
                assert(duplicate_binding(b@));
                assert(exists|p: int, q: int|
                    0 <= p < q < b@.len() && #[trigger] b@[p].0 == b@[i as int].0 && #[trigger] b@[q].0
                        == b@[i as int].0);
                return Err(Error::DuplicateVariable(b[i].0));
            }
            j = j + 1;
        }
        i = i + 1;
    }
    assert(!duplicate_binding(b@));
    let mut m: usize = 0;
    while m < vars.len()
        invariant
            m <= vars@.len(),
            !unknown_binding(vars@, b@),
            !duplicate_binding(b@),
            forall|j: int| 0 <= j < m ==> binds(b@, #[trigger] vars@[j]),
        decreases vars@.len() - m,
    {
        match lookup(b, vars[m]) {
            Some(_) => {},
            None => {
                assert(vars@.contains(vars@[m as int]));
                return Err(Error::MissingBinding(vars[m]));
            },
        }
        m = m + 1;
    }
    Ok(())
}

/// Inlines `sub` with complete, distinct bindings.
fn expand_block<T: Copy>(sub: &SubRoutine, b: &[(char, T)], uncall: bool) -> (r: Vec<SingleInstruction<T>>)
    requires
        sub.wf(),
        !unknown_binding(sub.variables@, b@),
        !duplicate_binding(b@),
        !missing_binding(sub.variables@, b@),
    ensures
        instruction_views(r@) == expand(instruction_views(sub.instructions@), b@, uncall),
{
    let ghost body = instruction_views(sub.instructions@);
    let n = sub.instructions.len();
    let mut r: Vec<SingleInstruction<T>> = Vec::new();
    let mut k: usize = 0;
    while k < n
        invariant
            n == sub.instructions@.len(),
            body == instruction_views(sub.instructions@),
            sub.wf(),
            !duplicate_binding(b@),
            !missing_binding(sub.variables@, b@),
            k <= n,
            r@.len() == k,
            forall|j: int| 0 <= j < k ==> #[trigger] instruction_views(r@)[j] == expand(body, b@, uncall)[j],
        decreases n - k,
    {
        let idx = if uncall { n - 1 - k } else { k };
        let i = &sub.instructions[idx];
        proof {
            assert(sub.variables@.contains(i.target));
            let t = i.target;
            let ti = choose|ti: int| 0 <= ti < sub.variables@.len() && sub.variables@[ti] == t;
            assert(binds(b@, sub.variables@[ti]));
            if let Some(c) = i.control {
                let ci = choose|ci: int| 0 <= ci < sub.variables@.len() && sub.variables@[ci] == c;
                assert(binds(b@, sub.variables@[ci]));
            }
        }
        let target = match lookup(b, i.target) {
            Some(a) => a,
            None => {
                assert(false);
                return r;
            },
        };
        let control = match i.control {
            Some(c) => match lookup(b, c) {
                Some(a) => Some(a),
                None => {
                    assert(false);
                    return r;
                },
            },
            None => None,
        };
        let ghost before = r@;
        r.push(
            SingleInstruction {
                gate_name: i.gate_name.clone(),
                target,
                control,
                reverse: i.reverse != uncall,
            },
        );
        proof {
            assert(body[idx as int] == i@);
            assert(instruction_views(r@)[k as int] == expand(body, b@, uncall)[k as int]);
            assert forall|j: int| 0 <= j < k + 1 implies #[trigger] instruction_views(r@)[j] == expand(
                body,
                b@,
                uncall,
            )[j] by {
                if j < k {
                    assert(r@[j] == before[j]);
                    assert(instruction_views(before)[j] == expand(body, b@, uncall)[j]);
                }
            }
        }
        k = k + 1;
    }
    assert(instruction_views(r@) =~= expand(body, b@, uncall));
    r
}

impl ProgramBuilder {
    /// The position of the sub-routine named `name`.
    fn find_subroutine(&self, name: &str) -> (r: Option<usize>)
        ensures
            r matches Some(k) ==> k < self.subroutines@.len() && self.subroutines@[k as int].name@
                == name@,
            r is None ==> !self.has_subroutine(name@),
    {
        let wanted = name.to_owned();
        let mut k: usize = 0;
        while k < self.subroutines.len()
            invariant
                k <= self.subroutines@.len(),
                wanted@ == name@,
                forall|j: int| 0 <= j < k ==> self.subroutines@[j].name@ != name@,
            decreases self.subroutines@.len() - k,
        {
            if self.subroutines[k].name == wanted {
                return Some(k);
            }
            k = k + 1;
        }
        None
    }

    /// The position of the sub-routine named `name`, which is the one `subroutine` names.
    fn lookup_subroutine(&self, name: &str) -> (r: Option<usize>)
        requires
            self.wf(),
        ensures
            r matches Some(k) ==> k < self.subroutines@.len() && self.has_subroutine(name@)
                && self.subroutine(name@) == self.subroutines@[k as int],
            r is None ==> !self.has_subroutine(name@),
    {
        let r = self.find_subroutine(name);
        if let Some(k) = r {
            proof {
                let c = choose|j: int|
                    0 <= j < self.subroutines@.len() && #[trigger] self.subroutines@[j].name@ == name@;
                if c != k {
                    if c < k {
                        assert(self.subroutines@[c].name@ != self.subroutines@[k as int].name@);
                    } else {
                        assert(self.subroutines@[k as int].name@ != self.subroutines@[c].name@);
                    }
                }
            }
        }
        r
    }

    /// `f` is a report that inlining the sub-routine `name` may get.
    pub open spec fn inline_report(
        &self,
        name: Seq<char>,
        b: Seq<(char, Address)>,
        uncall: bool,
        f: Failure,
    ) -> bool {
        if self.measured {
            f == Failure::BuilderSealed
        } else if !self.has_subroutine(name) {
            f == Failure::UnknownSubroutine(name)
        } else {
            let sub = self.subroutine(name);
            if unknown_binding(sub.variables@, b) || duplicate_binding(b) || missing_binding(
                sub.variables@,
                b,
            ) {
                binding_report(sub.variables@, b, f)
            } else {
                first_fault(
                    self.size as nat,
                    self.gates(),
                    expand(instruction_views(sub.instructions@), b, uncall),
                ) == Some(f)
            }
        }
    }

    /// Inlining the sub-routine `name` succeeds.
    pub open spec fn inline_succeeds(&self, name: Seq<char>, b: Seq<(char, Address)>, uncall: bool) -> bool {
        &&& !self.measured
        &&& self.has_subroutine(name)
        &&& !unknown_binding(self.subroutine(name).variables@, b)
        &&& !duplicate_binding(b)
        &&& !missing_binding(self.subroutine(name).variables@, b)
        &&& first_fault(
            self.size as nat,
            self.gates(),
            expand(instruction_views(self.subroutine(name).instructions@), b, uncall),
        ) is None
    }

    fn inline(&mut self, name: &str, bindings: &[(char, Address)], uncall: bool) -> (r: Result<(), Error>)
        requires
            old(self).wf(),
        ensures
            final(self).wf(),
            final(self).size == old(self).size,
            final(self).gate_names@ == old(self).gate_names@,
            final(self).initial_state == old(self).initial_state,
            final(self).subroutines@ == old(self).subroutines@,
            final(self).measured == old(self).measured,
            r is Ok <==> old(self).inline_succeeds(name@, bindings@, uncall),
            r matches Err(e) ==> old(self).inline_report(name@, bindings@, uncall, e@),
            r is Ok ==> instruction_views(final(self).instructions@) == instruction_views(
                old(self).instructions@,
            ) + expand(instruction_views(old(self).subroutine(name@).instructions@), bindings@, uncall),
            r is Err ==> final(self).instructions@ == old(self).instructions@,
    {
        if self.measured {
            return Err(Error::BuilderSealed);
        }
        let k = match self.lookup_subroutine(name) {
            Some(k) => k,
            None => {
                return Err(Error::UnknownSubroutine(name.to_owned()));
            },
        };
        let block = {
            let sub = &self.subroutines[k];
            match check_bindings(sub.variables.as_slice(), bindings) {
                Ok(()) => {},
                Err(e) => {
                    return Err(e);
                },
            }
            expand_block(sub, bindings, uncall)
        };
        self.push_all(block)
    }

    /// Inlines the sub-routine `name`, its variables bound by `bindings`: its body in order.
    pub fn call(&mut self, name: &str, bindings: &[(char, Address)]) -> (r: Result<(), Error>)
        requires
            old(self).wf(),
        ensures
            final(self).wf(),
            final(self).size == old(self).size,
            final(self).gate_names@ == old(self).gate_names@,
            final(self).initial_state == old(self).initial_state,
            final(self).subroutines@ == old(self).subroutines@,
            final(self).measured == old(self).measured,
            r is Ok <==> old(self).inline_succeeds(name@, bindings@, false),
            r matches Err(e) ==> old(self).inline_report(name@, bindings@, false, e@),
            r is Ok ==> instruction_views(final(self).instructions@) == instruction_views(
                old(self).instructions@,
            ) + expand(instruction_views(old(self).subroutine(name@).instructions@), bindings@, false),
            r is Err ==> final(self).instructions@ == old(self).instructions@,
    {
        self.inline(name, bindings, false)
    }

    /// Inlines the inverse of the sub-routine `name`, its variables bound by `bindings`:
    /// its body from last to first, each instruction in the other direction.
    pub fn uncall(&mut self, name: &str, bindings: &[(char, Address)]) -> (r: Result<(), Error>)
        requires
            old(self).wf(),
        ensures
            final(self).wf(),
            final(self).size == old(self).size,
            final(self).gate_names@ == old(self).gate_names@,
            final(self).initial_state == old(self).initial_state,
            final(self).subroutines@ == old(self).subroutines@,
            final(self).measured == old(self).measured,
            r is Ok <==> old(self).inline_succeeds(name@, bindings@, true),
            r matches Err(e) ==> old(self).inline_report(name@, bindings@, true, e@),
            r is Ok ==> instruction_views(final(self).instructions@) == instruction_views(
                old(self).instructions@,
            ) + expand(instruction_views(old(self).subroutine(name@).instructions@), bindings@, true),
            r is Err ==> final(self).instructions@ == old(self).instructions@,
    {
        self.inline(name, bindings, true)
    }
}

/// Why a symbolic instruction cannot stand in a sub-routine over `vars` with the
/// gates `gates`.
pub open spec fn symbolic_fault(vars: Seq<char>, gates: Seq<Seq<char>>, i: InstructionView<char>) -> Option<
    Failure,
> {
    if !gates.contains(i.gate) {
        Some(Failure::UnknownGate(i.gate))
    } else if !vars.contains(i.target) {
        Some(Failure::UnknownVariable(i.target))
    } else {
        match i.control {
            Some(c) => if !vars.contains(c) {
                Some(Failure::UnknownVariable(c))
            } else if c == i.target {
                Some(Failure::TargetEqualsControl)
            } else {
                None
            },
            None => None,
        }
    }
}

/// The fault of the first symbolic instruction of `s` that has one.
pub open spec fn first_symbolic_fault(vars: Seq<char>, gates: Seq<Seq<char>>, s: Seq<InstructionView<char>>) -> Option<
    Failure,
>
    decreases s.len(),
{
    if s.len() == 0 {
        None
    } else {
        match symbolic_fault(vars, gates, s[0]) {
            Some(f) => Some(f),
            None => first_symbolic_fault(vars, gates, s.drop_first()),
        }
    }
}

/// Records the body of a sub-routine over its declared variables, until `end` hands it
/// to the program builder.
pub struct SubRoutineBuilder {
    pub name: String,
    pub variables: Vec<char>,
    pub gate_names: Vec<String>,
    pub instructions: Vec<SingleInstruction<char>>,
    pub ended: bool,
}

impl SubRoutineBuilder {
    pub open spec fn gates(&self) -> Seq<Seq<char>> {
        name_views(self.gate_names@)
    }

    /// Every recorded instruction uses declared variables only.
    pub open spec fn wf(&self) -> bool {
        forall|k: int|
            0 <= k < self.instructions@.len() ==> {
                let i = #[trigger] self.instructions@[k];
                &&& self.variables@.contains(i.target)
                &&& (i.control matches Some(c) ==> self.variables@.contains(c))
            }
    }

    /// Appends one symbolic instruction after checking it.
    pub fn push_instruction(
        &mut self,
        gate_name: &str,
        target: char,
        control: Option<char>,
        reverse: bool,
    ) -> (r: Result<(), Error>)
        requires
            old(self).wf(),
        ensures
            final(self).wf(),
            final(self).name == old(self).name,
            final(self).variables@ == old(self).variables@,
            final(self).gate_names@ == old(self).gate_names@,
            final(self).ended == old(self).ended,
            old(self).ended ==> fails_with(r, Failure::BuilderSealed),
            !old(self).ended ==> match symbolic_fault(
                old(self).variables@,
                old(self).gates(),
                InstructionView { gate: gate_name@, target, control, reverse },
            ) {
                Some(f) => fails_with(r, f),
                None => r is Ok,
            },
            r is Ok ==> instruction_views(final(self).instructions@) == instruction_views(
                old(self).instructions@,
            ).push(InstructionView { gate: gate_name@, target, control, reverse }),
            r is Err ==> final(self).instructions@ == old(self).instructions@,
    {
        if self.ended {
            return Err(Error::BuilderSealed);
        }
        if !contains_name(&self.gate_names, gate_name) {
            return Err(Error::UnknownGate(gate_name.to_owned()));
        }
        if !contains_char(self.variables.as_slice(), target) {
            return Err(Error::UnknownVariable(target));
        }
        match control {
            Some(c) => {
                if !contains_char(self.variables.as_slice(), c) {
                    return Err(Error::UnknownVariable(c));
                }
                if c == target {
                    return Err(Error::TargetEqualsControl);
                }
            },
            None => {},
        }
        let ghost before = self.instructions@;
        self.instructions.push(
            SingleInstruction { gate_name: gate_name.to_owned(), target, control, reverse },
        );
        assert(instruction_views(self.instructions@) =~= instruction_views(before).push(
            InstructionView { gate: gate_name@, target, control, reverse },
        ));
        proof {
            assert forall|k: int| 0 <= k < self.instructions@.len() implies {
                let i = #[trigger] self.instructions@[k];
                &&& self.variables@.contains(i.target)
                &&& (i.control matches Some(c) ==> self.variables@.contains(c))
            } by {
                if k < before.len() {
                    assert(self.instructions@[k] == before[k]);
                }
            }
        }
        Ok(())
    }

    /// The fault of one symbolic instruction, checked against the declared variables and gates.
    fn check(&self, gate_name: &str, target: char, control: Option<char>) -> (r: Result<(), Error>)
        ensures
            match symbolic_fault(
                self.variables@,
                self.gates(),
                InstructionView { gate: gate_name@, target, control, reverse: false },
            ) {
                Some(f) => fails_with(r, f),
                None => r is Ok,
            },
    {
        if !contains_name(&self.gate_names, gate_name) {
            return Err(Error::UnknownGate(gate_name.to_owned()));
        }
        if !contains_char(self.variables.as_slice(), target) {
            return Err(Error::UnknownVariable(target));
        }
        match control {
            Some(c) => {
                if !contains_char(self.variables.as_slice(), c) {
                    return Err(Error::UnknownVariable(c));
                }
                if c == target {
                    return Err(Error::TargetEqualsControl);
                }
            },
            None => {},
        }
        Ok(())
    }

    /// Checks then appends a sequence of symbolic instructions; on a fault nothing is appended.
    fn push_all(&mut self, block: Vec<SingleInstruction<char>>) -> (r: Result<(), Error>)
        requires
            old(self).wf(),
        ensures
            final(self).wf(),
            final(self).name == old(self).name,
            final(self).variables@ == old(self).variables@,
            final(self).gate_names@ == old(self).gate_names@,
            final(self).ended == old(self).ended,
            old(self).ended ==> fails_with(r, Failure::BuilderSealed),
            !old(self).ended ==> match first_symbolic_fault(
                old(self).variables@,
                old(self).gates(),
                instruction_views(block@),
            ) {
                Some(f) => fails_with(r, f),
                None => r is Ok,
            },
            r is Ok ==> instruction_views(final(self).instructions@) == instruction_views(
                old(self).instructions@,
            ) + instruction_views(block@),
            r is Err ==> final(self).instructions@ == old(self).instructions@,
    {
        if self.ended {
            return Err(Error::BuilderSealed);
        }
        let ghost views = instruction_views(block@);
        assert(views.subrange(0, views.len() as int) =~= views);
        let mut k: usize = 0;
        while k < block.len()
            invariant
                k <= block@.len(),
                !self.ended,
                self.wf(),
                views == instruction_views(block@),
                forall|j: int| 0 <= j < k ==> symbolic_fault(self.variables@, self.gates(), #[trigger] views[j]) is None,
                first_symbolic_fault(self.variables@, self.gates(), views) == first_symbolic_fault(
                    self.variables@,
                    self.gates(),
                    views.subrange(k as int, views.len() as int),
                ),
            decreases block@.len() - k,
        {
            let i = &block[k];
            let ghost rest = views.subrange(k as int, views.len() as int);
            assert(rest[0] == i@);
            assert(rest.drop_first() =~= views.subrange(k + 1, views.len() as int));
            match self.check(i.gate_name.as_str(), i.target, i.control) {
                Ok(()) => {},
                Err(e) => {
                    return Err(e);
                },
            }
            k = k + 1;
        }
        assert(views.subrange(k as int, views.len() as int).len() == 0);
        let ghost before = self.instructions@;
        let mut block = block;
        self.instructions.append(&mut block);
        assert(instruction_views(self.instructions@) =~= instruction_views(before) + views);
        proof {
            assert forall|q: int| 0 <= q < self.instructions@.len() implies {
                let i = #[trigger] self.instructions@[q];
                &&& self.variables@.contains(i.target)
                &&& (i.control matches Some(c) ==> self.variables@.contains(c))
            } by {
                if q < before.len() {
                    assert(self.instructions@[q] == before[q]);
                } else {
                    assert(instruction_views(self.instructions@)[q] == views[q - before.len()]);
                    assert(symbolic_fault(self.variables@, self.gates(), views[q - before.len()]) is None);
                }
            }
        }
        Ok(())
    }

    /// Applies gate `gate_name` to each of the variables `targets` in order, under
    /// `control` if given.
    pub fn apply_iter(&mut self, gate_name: &str, targets: &[char], control: Option<char>) -> (r: Result<
        (),
        Error,
    >)
        requires
            old(self).wf(),
        ensures
            final(self).wf(),
            final(self).name == old(self).name,
            final(self).variables@ == old(self).variables@,
            final(self).gate_names@ == old(self).gate_names@,
            final(self).ended == old(self).ended,
            old(self).ended ==> fails_with(r, Failure::BuilderSealed),
            !old(self).ended ==> match first_symbolic_fault(
                old(self).variables@,
                old(self).gates(),
                spread(gate_name@, targets@, control, false),
            ) {
                Some(f) => fails_with(r, f),
                None => r is Ok,
            },
            r is Ok ==> instruction_views(final(self).instructions@) == instruction_views(
                old(self).instructions@,
            ) + spread(gate_name@, targets@, control, false),
            r is Err ==> final(self).instructions@ == old(self).instructions@,
    {
        let block = spread_block(gate_name, targets, control, false);
        self.push_all(block)
    }

    /// Applies the inverse of gate `gate_name` to each of the variables `targets` in
    /// order, under `control` if given.
    pub fn unapply_iter(&mut self, gate_name: &str, targets: &[char], control: Option<char>) -> (r: Result<
        (),
        Error,
    >)
        requires
            old(self).wf(),
        ensures
            final(self).wf(),
            final(self).name == old(self).name,
            final(self).variables@ == old(self).variables@,
            final(self).gate_names@ == old(self).gate_names@,
            final(self).ended == old(self).ended,
            old(self).ended ==> fails_with(r, Failure::BuilderSealed),
            !old(self).ended ==> match first_symbolic_fault(
                old(self).variables@,
                old(self).gates(),
                spread(gate_name@, targets@, control, true),
            ) {
                Some(f) => fails_with(r, f),
                None => r is Ok,
            },
            r is Ok ==> instruction_views(final(self).instructions@) == instruction_views(
                old(self).instructions@,
            ) + spread(gate_name@, targets@, control, true),
            r is Err ==> final(self).instructions@ == old(self).instructions@,
    {
        let block = spread_block(gate_name, targets, control, true);
        self.push_all(block)
    }

    /// Applies gate `gate_name` to the variable `target`, under `control` if given.
    pub fn apply(&mut self, gate_name: &str, target: char, control: Option<char>) -> (r: Result<
        (),
        Error,
    >)
        requires
            old(self).wf(),
        ensures
            final(self).wf(),
            final(self).name == old(self).name,
            final(self).variables@ == old(self).variables@,
            final(self).gate_names@ == old(self).gate_names@,
            final(self).ended == old(self).ended,
            old(self).ended ==> fails_with(r, Failure::BuilderSealed),
            !old(self).ended ==> match symbolic_fault(
                old(self).variables@,
                old(self).gates(),
                InstructionView { gate: gate_name@, target, control, reverse: false },
            ) {
                Some(f) => fails_with(r, f),
                None => r is Ok,
            },
            r is Ok ==> instruction_views(final(self).instructions@) == instruction_views(
                old(self).instructions@,
            ).push(InstructionView { gate: gate_name@, target, control, reverse: false }),
            r is Err ==> final(self).instructions@ == old(self).instructions@,
    {
        self.push_instruction(gate_name, target, control, false)
    }

    /// Applies the inverse of gate `gate_name` to the variable `target`, under
    /// `control` if given.
    pub fn unapply(&mut self, gate_name: &str, target: char, control: Option<char>) -> (r: Result<
        (),
        Error,
    >)
        requires
            old(self).wf(),
        ensures
            final(self).wf(),
            final(self).name == old(self).name,
            final(self).variables@ == old(self).variables@,
            final(self).gate_names@ == old(self).gate_names@,
            final(self).ended == old(self).ended,
            old(self).ended ==> fails_with(r, Failure::BuilderSealed),
            !old(self).ended ==> match symbolic_fault(
                old(self).variables@,
                old(self).gates(),
                InstructionView { gate: gate_name@, target, control, reverse: true },
            ) {
                Some(f) => fails_with(r, f),
                None => r is Ok,
            },
            r is Ok ==> instruction_views(final(self).instructions@) == instruction_views(
                old(self).instructions@,
            ).push(InstructionView { gate: gate_name@, target, control, reverse: true }),
            r is Err ==> final(self).instructions@ == old(self).instructions@,
    {
        self.push_instruction(gate_name, target, control, true)
    }

    /// Seals the sub-routine and registers it with `program` under its name.
    pub fn end(&mut self, program: &mut ProgramBuilder) -> (r: Result<(), Error>)
        requires
            old(self).wf(),
            old(program).wf(),
        ensures
            final(program).wf(),
            final(program).size == old(program).size,
            final(program).gate_names@ == old(program).gate_names@,
            final(program).initial_state == old(program).initial_state,
            final(program).instructions@ == old(program).instructions@,
            final(program).measured == old(program).measured,
            old(self).ended ==> fails_with(r, Failure::BuilderSealed),
            !old(self).ended && old(program).measured ==> fails_with(r, Failure::BuilderSealed),
            !old(self).ended && !old(program).measured && old(program).has_subroutine(
                old(self).name@,
            ) ==> fails_with(r, Failure::DuplicateSubroutine(old(self).name@)),
            r is Ok <==> !old(self).ended && !old(program).measured && !old(
                program,
            ).has_subroutine(old(self).name@),
            r is Err ==> final(program).subroutines@ == old(program).subroutines@ && *final(self)
                == *old(self),
            r is Ok ==> {
                &&& final(self).ended
                &&& final(program).subroutines@.len() == old(program).subroutines@.len() + 1
                &&& final(program).subroutines@.subrange(0, old(program).subroutines@.len() as int)
                    == old(program).subroutines@
                &&& final(program).subroutines@.last().name == old(self).name
                &&& final(program).subroutines@.last().variables@ == old(self).variables@
                &&& final(program).subroutines@.last().instructions@ == old(self).instructions@
            },
    {
        if self.ended {
            return Err(Error::BuilderSealed);
        }
        if program.measured {
            return Err(Error::BuilderSealed);
        }
        match program.find_subroutine(self.name.as_str()) {
            Some(_) => {
                return Err(Error::DuplicateSubroutine(self.name.clone()));
            },
            None => {},
        }
        let mut variables: Vec<char> = Vec::new();
        let mut instructions: Vec<SingleInstruction<char>> = Vec::new();
        core::mem::swap(&mut variables, &mut self.variables);
        core::mem::swap(&mut instructions, &mut self.instructions);
        self.ended = true;
        let sub = SubRoutine { name: self.name.clone(), variables, instructions };
        let ghost before = program.subroutines@;
        program.subroutines.push(sub);
        proof {
            assert(program.subroutines@.subrange(0, before.len() as int) =~= before);
            assert forall|k: int| 0 <= k < program.subroutines@.len() implies #[trigger] program.subroutines@[k].wf() by {
                if k < before.len() {
                    assert(program.subroutines@[k] == before[k]);
                }
            }
            assert forall|i: int, j: int|
                0 <= i < j < program.subroutines@.len() implies #[trigger] program.subroutines@[i].name@
                    != #[trigger] program.subroutines@[j].name@ by {
                if j < before.len() {
                    assert(program.subroutines@[i] == before[i]);
                    assert(program.subroutines@[j] == before[j]);
                } else {
                    assert(program.subroutines@[i] == before[i]);
                }
            }
        }
        Ok(())
    }
}

impl ProgramBuilder {
    /// Opens the definition of a sub-routine `name` over the distinct `variables`.
    pub fn new_subroutine(&self, name: &str, variables: &[char]) -> (r: Result<SubRoutineBuilder, Error>)
        ensures
            self.measured ==> fails_with(r, Failure::BuilderSealed),
            !self.measured && self.has_subroutine(name@) ==> fails_with(
                r,
                Failure::DuplicateSubroutine(name@),
            ),
            !self.measured && !self.has_subroutine(name@) && duplicate_variable(variables@) ==> (r matches Err(
                e,
            ) && (e@ matches Failure::DuplicateVariable(v) && exists|i: int, j: int|
                0 <= i < j < variables@.len() && #[trigger] variables@[i] == v && #[trigger] variables@[j]
                    == v)),
            r is Ok <==> !self.measured && !self.has_subroutine(name@) && !duplicate_variable(
                variables@,
            ),
            r matches Ok(s) ==> {
                &&& s.wf()
                &&& s.name@ == name@
                &&& s.variables@ == variables@
                &&& s.gate_names@ == self.gate_names@
                &&& s.instructions@.len() == 0
                &&& !s.ended
            },
    {
        if self.measured {
            return Err(Error::BuilderSealed);
        }
        match self.find_subroutine(name) {
            Some(_) => {
                return Err(Error::DuplicateSubroutine(name.to_owned()));
            },
            None => {},
        }
        let mut declared: Vec<char> = Vec::new();
        let mut k: usize = 0;
        while k < variables.len()
            invariant
                k <= variables@.len(),
                !self.measured,
                !self.has_subroutine(name@),
                declared@ == variables@.subrange(0, k as int),
                !duplicate_variable(declared@),
            decreases variables@.len() - k,
        {
            let v = variables[k];
            if contains_char(declared.as_slice(), v) {
                proof {
                    let i = choose|i: int| 0 <= i < declared@.len() && declared@[i] == v;
                    assert(variables@[i] == v && variables@[k as int] == v);
                    assert(duplicate_variable(variables@));
                }
                return Err(Error::DuplicateVariable(v));
            }
            declared.push(v);
            k = k + 1;
            proof {
                assert(declared@ =~= variables@.subrange(0, k as int));
                assert forall|i: int, j: int| 0 <= i < j < declared@.len() implies #[trigger] declared@[i]
                    != #[trigger] declared@[j] by {
                    if j == declared@.len() - 1 {
                        assert(declared@[i] == variables@.subrange(0, k - 1)[i]);
                    }
                }
            }
        }
        assert(declared@ =~= variables@);
        Ok(
            SubRoutineBuilder {
                name: name.to_owned(),
                variables: declared,
                gate_names: clone_names(&self.gate_names),
                instructions: Vec::new(),
                ended: false,
            },
        )
    }
}

impl SubRoutineBuilder {
    /// `f` is a report that inlining the sub-routine `name` of `program` may get.
    pub open spec fn inline_report(
        &self,
        program: &ProgramBuilder,
        name: Seq<char>,
        b: Seq<(char, char)>,
        uncall: bool,
        f: Failure,
    ) -> bool {
        if self.ended {
            f == Failure::BuilderSealed
        } else if !program.has_subroutine(name) {
            f == Failure::UnknownSubroutine(name)
        } else {
            let sub = program.subroutine(name);
            if unknown_binding(sub.variables@, b) || duplicate_binding(b) || missing_binding(
                sub.variables@,
                b,
            ) {
                binding_report(sub.variables@, b, f)
            } else {
                first_symbolic_fault(
                    self.variables@,
                    self.gates(),
                    expand(instruction_views(sub.instructions@), b, uncall),
                ) == Some(f)
            }
        }
    }

    /// Inlining the sub-routine `name` of `program` succeeds.
    pub open spec fn inline_succeeds(
        &self,
        program: &ProgramBuilder,
        name: Seq<char>,
        b: Seq<(char, char)>,
        uncall: bool,
    ) -> bool {
        &&& !self.ended
        &&& program.has_subroutine(name)
        &&& !unknown_binding(program.subroutine(name).variables@, b)
        &&& !duplicate_binding(b)
        &&& !missing_binding(program.subroutine(name).variables@, b)
        &&& first_symbolic_fault(
            self.variables@,
            self.gates(),
            expand(instruction_views(program.subroutine(name).instructions@), b, uncall),
        ) is None
    }

    fn inline(
        &mut self,
        program: &ProgramBuilder,
        name: &str,
        bindings: &[(char, char)],
        uncall: bool,
    ) -> (r: Result<(), Error>)
        requires
            old(self).wf(),
            program.wf(),
        ensures
            final(self).wf(),
            final(self).name == old(self).name,
            final(self).variables@ == old(self).variables@,
            final(self).gate_names@ == old(self).gate_names@,
            final(self).ended == old(self).ended,
            r is Ok <==> old(self).inline_succeeds(program, name@, bindings@, uncall),
            r matches Err(e) ==> old(self).inline_report(program, name@, bindings@, uncall, e@),
            r is Ok ==> instruction_views(final(self).instructions@) == instruction_views(
                old(self).instructions@,
            ) + expand(instruction_views(program.subroutine(name@).instructions@), bindings@, uncall),
            r is Err ==> final(self).instructions@ == old(self).instructions@,
    {
        if self.ended {
            return Err(Error::BuilderSealed);
        }
        let k = match program.lookup_subroutine(name) {
            Some(k) => k,
            None => {
                return Err(Error::UnknownSubroutine(name.to_owned()));
            },
        };
        let sub = &program.subroutines[k];
        match check_bindings(sub.variables.as_slice(), bindings) {
            Ok(()) => {},
            Err(e) => {
                return Err(e);
            },
        }
        let block = expand_block(sub, bindings, uncall);
        self.push_all(block)
    }

    /// Inlines the sub-routine `name` of `program` in order, its variables bound to
    /// variables of this sub-routine.
    pub fn call(&mut self, program: &ProgramBuilder, name: &str, bindings: &[(char, char)]) -> (r:
        Result<(), Error>)
        requires
            old(self).wf(),
            program.wf(),
        ensures
            final(self).wf(),
            final(self).name == old(self).name,
            final(self).variables@ == old(self).variables@,
            final(self).gate_names@ == old(self).gate_names@,
            final(self).ended == old(self).ended,
            r is Ok <==> old(self).inline_succeeds(program, name@, bindings@, false),
            r matches Err(e) ==> old(self).inline_report(program, name@, bindings@, false, e@),
            r is Ok ==> instruction_views(final(self).instructions@) == instruction_views(
                old(self).instructions@,
            ) + expand(instruction_views(program.subroutine(name@).instructions@), bindings@, false),
            r is Err ==> final(self).instructions@ == old(self).instructions@,
    {
        self.inline(program, name, bindings, false)
    }

    /// Inlines the inverse of the sub-routine `name` of `program`: its body from last to
    /// first, each instruction in the other direction.
    pub fn uncall(&mut self, program: &ProgramBuilder, name: &str, bindings: &[(char, char)]) -> (r:
        Result<(), Error>)
        requires
            old(self).wf(),
            program.wf(),
        ensures
            final(self).wf(),
            final(self).name == old(self).name,
            final(self).variables@ == old(self).variables@,
            final(self).gate_names@ == old(self).gate_names@,
            final(self).ended == old(self).ended,
            r is Ok <==> old(self).inline_succeeds(program, name@, bindings@, true),
            r matches Err(e) ==> old(self).inline_report(program, name@, bindings@, true, e@),
            r is Ok ==> instruction_views(final(self).instructions@) == instruction_views(
                old(self).instructions@,
            ) + expand(instruction_views(program.subroutine(name@).instructions@), bindings@, true),
            r is Err ==> final(self).instructions@ == old(self).instructions@,
    {
        self.inline(program, name, bindings, true)
    }
}

} // verus!
