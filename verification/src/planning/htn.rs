//! Hierarchical task networks: primitive, compound and dynamic tasks, and
//! the decomposition of a task into a sequence of action names.

use vstd::prelude::*;

use crate::planning::belief::{copy_names, names_of, BeliefId, BeliefIdSet};

verus! {

/// An HTN method: one way to decompose a compound task. It applies when all
/// of its condition beliefs hold; it then expands into its subtasks in order.
#[derive(Debug)]
pub struct Method {
    pub name: String,
    pub conditions: BeliefIdSet,
    pub subtasks: Vec<String>,
}

/// Builder for HTN methods.
pub struct MethodBuilder {
    name: String,
    conditions: BeliefIdSet,
    subtasks: Vec<String>,
}

impl View for MethodBuilder {
    type V = (Seq<char>, Set<Seq<char>>, Seq<Seq<char>>);

    closed spec fn view(&self) -> (Seq<char>, Set<Seq<char>>, Seq<Seq<char>>) {
        (self.name@, self.conditions@, names_of(self.subtasks@))
    }
}

impl MethodBuilder {
    /// A method with no condition and no subtask.
    pub fn new(name: &str) -> (b: Self)
        ensures
            b@ == (name@, Set::<Seq<char>>::empty(), Seq::<Seq<char>>::empty()),
    {
        let b = MethodBuilder { name: name.to_owned(), conditions: BeliefIdSet::new(), subtasks: Vec::new() };
        assert(names_of(b.subtasks@) =~= Seq::<Seq<char>>::empty());
        b
    }

    /// Add a belief that must hold for the method to apply.
    pub fn condition(self, belief: &str) -> (b: Self)
        ensures
            b@ == (self@.0, self@.1.insert(belief@), self@.2),
    {
        let mut s = self;
        let id: BeliefId = belief.to_owned();
        s.conditions.insert(id);
        s
    }

    /// Append a subtask name.
    pub fn subtask(self, task_name: &str) -> (b: Self)
        ensures
            b@ == (self@.0, self@.1, self@.2.push(task_name@)),
    {
        let mut s = self;
        let ghost before = s.subtasks@;
        s.subtasks.push(task_name.to_owned());
        assert(names_of(s.subtasks@) =~= names_of(before).push(task_name@));
        s
    }

    /// The method described so far.
    pub fn build(self) -> (m: Method)
        ensures
            m.name@ == self@.0,
            m.conditions@ == self@.1,
            names_of(m.subtasks@) == self@.2,
    {
        Method { name: self.name, conditions: self.conditions, subtasks: self.subtasks }
    }
}

/// An HTN task: primitive (one named action), compound (decomposes through
/// methods, tried in order) or dynamic (its action names come from a
/// resolver `R` that the caller runs).
pub enum Task<R> {
    Primitive { name: String, action_name: String },
    Compound { name: String, methods: Vec<Method> },
    Dynamic { name: String, resolver: R },
}

/// The answers of the dynamic tasks' resolvers, in the order the
/// decomposition asked for them: each time the decomposition reaches a
/// dynamic task (the task being decomposed, or one named as a subtask), it
/// takes the next answer.
pub struct DynamicOutcomes {
    pub answers: Vec<Option<Vec<String>>>,
}

/// Where a decomposition got to: finished, with the action names (`None`
/// when no method applies all the way down), or stopped at a dynamic task
/// once every answer so far was taken, so that its resolver is to be asked
/// next (`None`: the task being decomposed; `Some(k)`: `all_tasks[k]`).
#[derive(Debug, PartialEq, Eq)]
pub enum Decomposition<P> {
    Finished(Option<P>),
    NeedsResolver(Option<usize>),
}

/// Names of an optional list of strings.
pub open spec fn opt_names(o: Option<Vec<String>>) -> Option<Seq<Seq<char>>> {
    match o {
        Some(v) => Some(names_of(v@)),
        None => None,
    }
}

/// Names of each answer.
pub open spec fn answer_views(v: Seq<Option<Vec<String>>>) -> Seq<Option<Seq<Seq<char>>>> {
    v.map_values(|a: Option<Vec<String>>| opt_names(a))
}

/// The names of a decomposition's result.
pub open spec fn step_view(d: Decomposition<Vec<String>>) -> Decomposition<Seq<Seq<char>>> {
    match d {
        Decomposition::Finished(o) => Decomposition::Finished(opt_names(o)),
        Decomposition::NeedsResolver(w) => Decomposition::NeedsResolver(w),
    }
}

impl<R> Task<R> {
    /// The task's name.
    pub open spec fn name_view(&self) -> Seq<char> {
        match self {
            Task::Primitive { name, .. } => name@,
            Task::Compound { name, .. } => name@,
            Task::Dynamic { name, .. } => name@,
        }
    }

    /// The task's name.
    pub fn name(&self) -> (s: &str)
        ensures
            s@ == self.name_view(),
    {
        match self {
            Task::Primitive { name, .. } => name.as_str(),
            Task::Compound { name, .. } => name.as_str(),
            Task::Dynamic { name, .. } => name.as_str(),
        }
    }

    fn name_string(&self) -> (s: &String)
        ensures
            s@ == self.name_view(),
    {
        match self {
            Task::Primitive { name, .. } => name,
            Task::Compound { name, .. } => name,
            Task::Dynamic { name, .. } => name,
        }
    }
}

/// Index of the first task named `name` at or after `from`, or the number of
/// tasks when there is none.

/// Index of the first task named `name` at or after `from`, or the number of
/// tasks when there is none.
pub open spec fn first_named<R>(tasks: Seq<Task<R>>, name: Seq<char>, from: int) -> int
    decreases tasks.len() - from,
{
    if from < 0 || from >= tasks.len() {
        tasks.len() as int
    } else if tasks[from].name_view() == name {
        from
    } else {
        first_named(tasks, name, from + 1)
    }
}

/// Decomposition of `t` with at most `fuel` nested compound expansions,
/// taking the resolver answers `ans` from position `pos` on; `None` when the
/// fuel runs out. The result comes with the position of the next answer.
/// `who` names `t` when it is dynamic and no answer is left.
pub open spec fn decomp<R>(
    fuel: nat,
    t: Task<R>,
    who: Option<usize>,
    facts: Set<Seq<char>>,
    tasks: Seq<Task<R>>,
    ans: Seq<Option<Seq<Seq<char>>>>,
    pos: nat,
) -> Option<(Decomposition<Seq<Seq<char>>>, nat)>
    decreases fuel, 0nat, 0int,
{
    match t {
        Task::Primitive { action_name, .. } => Some((Decomposition::Finished(Some(seq![action_name@])), pos)),
        Task::Compound { methods, .. } => {
            if fuel == 0 {
                None
            } else {
                try_methods((fuel - 1) as nat, methods@, 0, facts, tasks, ans, pos)
            }
        },
        Task::Dynamic { .. } => Some(
            if pos < ans.len() {
                (Decomposition::Finished(ans[pos as int]), pos + 1)
            } else {
                (Decomposition::NeedsResolver(who), pos)
            },
        ),
    }
}

/// The first method, from index `i` on, whose conditions hold and whose
/// subtasks all decompose; its plan.
pub open spec fn try_methods<R>(
    fuel: nat,
    methods: Seq<Method>,
    i: int,
    facts: Set<Seq<char>>,
    tasks: Seq<Task<R>>,
    ans: Seq<Option<Seq<Seq<char>>>>,
    pos: nat,
) -> Option<(Decomposition<Seq<Seq<char>>>, nat)>
    decreases fuel, 2nat, methods.len() - i,
{
    if i < 0 || i >= methods.len() {
        Some((Decomposition::Finished(None), pos))
    } else if methods[i].conditions@.subset_of(facts) {
        match run_subtasks(fuel, methods[i].subtasks@, 0, Seq::empty(), facts, tasks, ans, pos) {
            Some((Decomposition::Finished(None), p2)) => try_methods(fuel, methods, i + 1, facts, tasks, ans, p2),
            other => other,
        }
    } else {
        try_methods(fuel, methods, i + 1, facts, tasks, ans, pos)
    }
}

/// Expansion of the subtasks from index `j` on, appended to `acc`. A subtask
/// name that names no task is kept as an action name.
pub open spec fn run_subtasks<R>(
    fuel: nat,
    subs: Seq<String>,
    j: int,
    acc: Seq<Seq<char>>,
    facts: Set<Seq<char>>,
    tasks: Seq<Task<R>>,
    ans: Seq<Option<Seq<Seq<char>>>>,
    pos: nat,
) -> Option<(Decomposition<Seq<Seq<char>>>, nat)>
    decreases fuel, 1nat, subs.len() - j,
{
    if j < 0 || j >= subs.len() {
        Some((Decomposition::Finished(Some(acc)), pos))
    } else {
        let k = first_named(tasks, subs[j]@, 0);
        if 0 <= k < tasks.len() {
            match decomp(fuel, tasks[k], Some(k as usize), facts, tasks, ans, pos) {
                Some((Decomposition::Finished(Some(p)), p2)) => run_subtasks(fuel, subs, j + 1, acc + p, facts, tasks, ans, p2),
                other => other,
            }
        } else {
            run_subtasks(fuel, subs, j + 1, acc.push(subs[j]@), facts, tasks, ans, pos)
        }
    }
}

/// Some condition belief of method `m` does not hold.
pub open spec fn some_condition_fails(m: Method, facts: Set<Seq<char>>) -> bool {
    exists|c: Seq<char>| m.conditions@.contains(c) && !facts.contains(c)
}

/// A method whose conditions do not all hold is passed over: trying the
/// methods from `i` gives what trying them from `i + 1` gives.
pub proof fn lemma_method_needs_all_conditions<R>(
    fuel: nat,
    methods: Seq<Method>,
    i: int,
    facts: Set<Seq<char>>,
    tasks: Seq<Task<R>>,
    ans: Seq<Option<Seq<Seq<char>>>>,
    pos: nat,
)
    requires
        0 <= i < methods.len(),
        some_condition_fails(methods[i], facts),
    ensures
        try_methods(fuel, methods, i, facts, tasks, ans, pos) == try_methods(fuel, methods, i + 1, facts, tasks, ans, pos),
{
}

proof fn lemma_no_method_applies<R>(
    fuel: nat,
    methods: Seq<Method>,
    i: int,
    facts: Set<Seq<char>>,
    tasks: Seq<Task<R>>,
    ans: Seq<Option<Seq<Seq<char>>>>,
    pos: nat,
)
    requires
        0 <= i,
        forall|m: int| i <= m < methods.len() ==> some_condition_fails(#[trigger] methods[m], facts),
    ensures
        try_methods(fuel, methods, i, facts, tasks, ans, pos) == Some((Decomposition::<Seq<Seq<char>>>::Finished(None), pos)),
    decreases methods.len() - i,
{
    if i < methods.len() {
        assert(some_condition_fails(methods[i], facts));
        assert(!methods[i].conditions@.subset_of(facts));
        lemma_no_method_applies(fuel, methods, i + 1, facts, tasks, ans, pos);
    }
}

proof fn lemma_decomp_fuel<R>(
    f1: nat,
    f2: nat,
    t: Task<R>,
    who: Option<usize>,
    facts: Set<Seq<char>>,
    tasks: Seq<Task<R>>,
    ans: Seq<Option<Seq<Seq<char>>>>,
    pos: nat,
)
    requires
        f1 <= f2,
        decomp(f1, t, who, facts, tasks, ans, pos) is Some,
    ensures
        decomp(f2, t, who, facts, tasks, ans, pos) == decomp(f1, t, who, facts, tasks, ans, pos),
    decreases f1, 0nat, 0int,
{
    match t {
        Task::Compound { methods, .. } => {
            lemma_methods_fuel((f1 - 1) as nat, (f2 - 1) as nat, methods@, 0, facts, tasks, ans, pos);
        },
        _ => {},
    }
}

proof fn lemma_methods_fuel<R>(
    f1: nat,
    f2: nat,
    methods: Seq<Method>,
    i: int,
    facts: Set<Seq<char>>,
    tasks: Seq<Task<R>>,
    ans: Seq<Option<Seq<Seq<char>>>>,
    pos: nat,
)
    requires
        f1 <= f2,
        try_methods(f1, methods, i, facts, tasks, ans, pos) is Some,
    ensures
        try_methods(f2, methods, i, facts, tasks, ans, pos) == try_methods(f1, methods, i, facts, tasks, ans, pos),
    decreases f1, 2nat, methods.len() - i,
{
    if 0 <= i < methods.len() {
        if methods[i].conditions@.subset_of(facts) {
            let r1 = run_subtasks(f1, methods[i].subtasks@, 0, Seq::empty(), facts, tasks, ans, pos);
            if r1 is Some {
                lemma_subtasks_fuel(f1, f2, methods[i].subtasks@, 0, Seq::empty(), facts, tasks, ans, pos);
            }
            if let Some((Decomposition::Finished(None), p2)) = r1 {
                lemma_methods_fuel(f1, f2, methods, i + 1, facts, tasks, ans, p2);
            }
        } else {
            lemma_methods_fuel(f1, f2, methods, i + 1, facts, tasks, ans, pos);
        }
    }
}

proof fn lemma_subtasks_fuel<R>(
    f1: nat,
    f2: nat,
    subs: Seq<String>,
    j: int,
    acc: Seq<Seq<char>>,
    facts: Set<Seq<char>>,
    tasks: Seq<Task<R>>,
    ans: Seq<Option<Seq<Seq<char>>>>,
    pos: nat,
)
    requires
        f1 <= f2,
        run_subtasks(f1, subs, j, acc, facts, tasks, ans, pos) is Some,
    ensures
        run_subtasks(f2, subs, j, acc, facts, tasks, ans, pos) == run_subtasks(f1, subs, j, acc, facts, tasks, ans, pos),
    decreases f1, 1nat, subs.len() - j,
{
    if 0 <= j < subs.len() {
        let k = first_named(tasks, subs[j]@, 0);
        if 0 <= k < tasks.len() {
            let d1 = decomp(f1, tasks[k], Some(k as usize), facts, tasks, ans, pos);
            if d1 is Some {
                lemma_decomp_fuel(f1, f2, tasks[k], Some(k as usize), facts, tasks, ans, pos);
            }
            if let Some((Decomposition::Finished(Some(p)), p2)) = d1 {
                lemma_subtasks_fuel(f1, f2, subs, j + 1, acc + p, facts, tasks, ans, p2);
            }
        } else {
            lemma_subtasks_fuel(f1, f2, subs, j + 1, acc.push(subs[j]@), facts, tasks, ans, pos);
        }
    }
}

proof fn lemma_first_named_skip<R>(tasks: Seq<Task<R>>, name: Seq<char>, from: int, to: int)
    requires
        0 <= from <= to <= tasks.len(),
        forall|m: int| from <= m < to ==> tasks[m].name_view() != name,
    ensures
        first_named(tasks, name, from) == first_named(tasks, name, to),
    decreases to - from,
{
    if from < to {
        lemma_first_named_skip(tasks, name, from + 1, to);
    }
}

proof fn lemma_first_named_from<R>(tasks: Seq<Task<R>>, name: Seq<char>, from: int)
    requires
        0 <= from <= tasks.len(),
    ensures
        from <= first_named(tasks, name, from) <= tasks.len(),
        first_named(tasks, name, from) < tasks.len() ==> tasks[first_named(tasks, name, from)].name_view() == name,
        forall|m: int| from <= m < first_named(tasks, name, from) ==> tasks[m].name_view() != name,
    decreases tasks.len() - from,
{
    if from < tasks.len() && tasks[from].name_view() != name {
        lemma_first_named_from(tasks, name, from + 1);
    }
}

/// A subtask name resolves to the first task of the list with that name,
/// searching from the start: every task before it has another name, and
/// when some task has the name, one is found.
pub proof fn lemma_first_named_is_first<R>(tasks: Seq<Task<R>>, name: Seq<char>)
    ensures
        0 <= first_named(tasks, name, 0) <= tasks.len(),
        first_named(tasks, name, 0) < tasks.len() ==> tasks[first_named(tasks, name, 0)].name_view() == name,
        forall|m: int| 0 <= m < first_named(tasks, name, 0) ==> tasks[m].name_view() != name,
        (exists|m: int| 0 <= m < tasks.len() && tasks[m].name_view() == name) ==> first_named(tasks, name, 0) < tasks.len(),
{
    lemma_first_named_from(tasks, name, 0);
}

/// Index of the first task named `name`, or `tasks.len()`.
fn find_task<R>(tasks: &[Task<R>], name: &String) -> (k: usize)
    ensures
        k as int == first_named(tasks@, name@, 0),
        k < tasks@.len() ==> tasks@[k as int].name_view() == name@,
        forall|m: int| 0 <= m < k ==> tasks@[m].name_view() != name@,
{
    let n = tasks.len();
    let mut i: usize = 0;
    while i < n
        invariant
            n == tasks@.len(),
            0 <= i <= n,
            forall|m: int| 0 <= m < i ==> tasks@[m].name_view() != name@,
        decreases n - i,
    {
        if *tasks[i].name_string() == *name {
            proof {
                lemma_first_named_skip(tasks@, name@, 0, i as int);
            }
            return i;
        }
        i += 1;
    }
    proof {
        lemma_first_named_skip(tasks@, name@, 0, n as int);
    }
    n
}

fn copy_outcome(o: &Option<Vec<String>>) -> (r: Option<Vec<String>>)
    ensures
        opt_names(r) == opt_names(*o),
{
    match o {
        Some(v) => Some(copy_names(v)),
        None => None,
    }
}

/// A decomposition that stopped for a resolver took every answer, and asks
/// for that of `t` itself (named `who`) or of a dynamic task of `tasks`.
pub open spec fn asks_next<R>(
    w: Option<usize>,
    next: nat,
    t: Task<R>,
    who: Option<usize>,
    tasks: Seq<Task<R>>,
    ans_len: nat,
) -> bool {
    &&& next == ans_len
    &&& {
        ||| (w == who && t is Dynamic)
        ||| (w matches Some(k) && k < tasks.len() && tasks[k as int] is Dynamic)
    }
}

fn decompose_node<R>(
    t: &Task<R>,
    who: Option<usize>,
    facts: &BeliefIdSet,
    tasks: &[Task<R>],
    answers: &Vec<Option<Vec<String>>>,
    pos: usize,
    Ghost(fuel): Ghost<nat>,
) -> (r: (Decomposition<Vec<String>>, usize))
    requires
        pos <= answers@.len(),
        decomp(fuel, *t, who, facts@, tasks@, answer_views(answers@), pos as nat) is Some,
    ensures
        Some((step_view(r.0), r.1 as nat)) == decomp(fuel, *t, who, facts@, tasks@, answer_views(answers@), pos as nat),
        pos <= r.1 <= answers@.len(),
        r.0 matches Decomposition::NeedsResolver(w) ==> asks_next(w, r.1 as nat, *t, who, tasks@, answers@.len()),
    decreases fuel, 0nat, 0int,
{
    match t {
        Task::Primitive { action_name, .. } => {
            let mut v: Vec<String> = Vec::new();
            v.push(action_name.clone());
            proof {
                assert(names_of(v@) =~= seq![action_name@]);
            }
            (Decomposition::Finished(Some(v)), pos)
        },
        Task::Compound { methods, .. } => {
            decompose_methods(methods, facts, tasks, answers, pos, Ghost((fuel - 1) as nat))
        },
        Task::Dynamic { .. } => {
            if pos < answers.len() {
                (Decomposition::Finished(copy_outcome(&answers[pos])), pos + 1)
            } else {
                (Decomposition::NeedsResolver(who), pos)
            }
        },
    }
}

fn decompose_methods<R>(
    methods: &Vec<Method>,
    facts: &BeliefIdSet,
    tasks: &[Task<R>],
    answers: &Vec<Option<Vec<String>>>,
    pos: usize,
    Ghost(fuel): Ghost<nat>,
) -> (r: (Decomposition<Vec<String>>, usize))
    requires
        pos <= answers@.len(),
        try_methods(fuel, methods@, 0, facts@, tasks@, answer_views(answers@), pos as nat) is Some,
    ensures
        Some((step_view(r.0), r.1 as nat)) == try_methods(fuel, methods@, 0, facts@, tasks@, answer_views(answers@), pos as nat),
        pos <= r.1 <= answers@.len(),
        r.0 matches Decomposition::NeedsResolver(w) ==> r.1 == answers@.len() && (w matches Some(k)
            && k < tasks@.len() && tasks@[k as int] is Dynamic),
    decreases fuel, 2nat, 0int,
{
    let ghost ans = answer_views(answers@);
    let n = methods.len();
    let mut i: usize = 0;
    let mut p = pos;
    while i < n
        invariant
            n == methods@.len(),
            0 <= i <= n,
            pos <= p <= answers@.len(),
            ans == answer_views(answers@),
            try_methods(fuel, methods@, 0, facts@, tasks@, ans, pos as nat)
                == try_methods(fuel, methods@, i as int, facts@, tasks@, ans, p as nat),
            try_methods(fuel, methods@, i as int, facts@, tasks@, ans, p as nat) is Some,
        decreases n - i,
    {
        let m = &methods[i];
        if m.conditions.is_subset_of(facts) {
            let r = decompose_subtasks(&m.subtasks, facts, tasks, answers, p, Ghost(fuel));
            match r.0 {
                Decomposition::Finished(None) => {
                    p = r.1;
                },
                _ => {
                    return r;
                },
            }
        }
        i += 1;
    }
    (Decomposition::Finished(None), p)
}

fn decompose_subtasks<R>(
    subs: &Vec<String>,
    facts: &BeliefIdSet,
    tasks: &[Task<R>],
    answers: &Vec<Option<Vec<String>>>,
    pos: usize,
    Ghost(fuel): Ghost<nat>,
) -> (r: (Decomposition<Vec<String>>, usize))
    requires
        pos <= answers@.len(),
        run_subtasks(fuel, subs@, 0, Seq::empty(), facts@, tasks@, answer_views(answers@), pos as nat) is Some,
    ensures
        Some((step_view(r.0), r.1 as nat)) == run_subtasks(fuel, subs@, 0, Seq::empty(), facts@, tasks@, answer_views(answers@), pos as nat),
        pos <= r.1 <= answers@.len(),
        r.0 matches Decomposition::NeedsResolver(w) ==> r.1 == answers@.len() && (w matches Some(k)
            && k < tasks@.len() && tasks@[k as int] is Dynamic),
    decreases fuel, 1nat, 0int,
{
    let ghost ans = answer_views(answers@);
    let mut plan: Vec<String> = Vec::new();
    let n = subs.len();
    let mut j: usize = 0;
    let mut p = pos;
    proof {
        assert(names_of(plan@) =~= Seq::<Seq<char>>::empty());
    }
    while j < n
        invariant
            n == subs@.len(),
            0 <= j <= n,
            pos <= p <= answers@.len(),
            ans == answer_views(answers@),
            run_subtasks(fuel, subs@, 0, Seq::empty(), facts@, tasks@, ans, pos as nat)
                == run_subtasks(fuel, subs@, j as int, names_of(plan@), facts@, tasks@, ans, p as nat),
            run_subtasks(fuel, subs@, j as int, names_of(plan@), facts@, tasks@, ans, p as nat) is Some,
        decreases n - j,
    {
        let k = find_task(tasks, &subs[j]);
        if k < tasks.len() {
            let sub = decompose_node(&tasks[k], Some(k), facts, tasks, answers, p, Ghost(fuel));
            match sub.0 {
                Decomposition::Finished(Some(q)) => {
                    let ghost before = names_of(plan@);
                    let mut q = q;
                    let ghost qv = names_of(q@);
                    plan.append(&mut q);
                    proof {
                        assert(names_of(plan@) =~= before + qv);
                    }
                    p = sub.1;
                },
                _ => {
                    return sub;
                },
            }
        } else {
            let ghost before = names_of(plan@);
            plan.push(subs[j].clone());
            proof {
                assert(names_of(plan@) =~= before.push(subs@[j as int]@));
            }
        }
        j += 1;
    }
    (Decomposition::Finished(Some(plan)), p)
}

impl<R> Task<R> {
    /// Whether decomposing the task finishes: every chain of compound
    /// expansions it goes through is finite.
    pub open spec fn terminates(&self, facts: &BeliefIdSet, all_tasks: &[Task<R>], outcomes: &DynamicOutcomes) -> bool {
        exists|f: nat|
            #[trigger] decomp(f, *self, None, facts@, all_tasks@, answer_views(outcomes.answers@), 0) is Some
    }

    /// Where decomposing the task gets to, given the beliefs that hold and
    /// the answers of the resolvers so far, with the number of answers it
    /// takes.
    pub open spec fn decomposition(&self, facts: &BeliefIdSet, all_tasks: &[Task<R>], outcomes: &DynamicOutcomes) -> (Decomposition<Seq<Seq<char>>>, nat) {
        let f = choose|f: nat|
            #[trigger] decomp(f, *self, None, facts@, all_tasks@, answer_views(outcomes.answers@), 0) is Some;
        decomp(f, *self, None, facts@, all_tasks@, answer_views(outcomes.answers@), 0)->0
    }

    /// The decomposition does not depend on how much nesting is allowed,
    /// once it is enough to finish: with any such allowance `fuel`, it is
    /// what the decomposition with that allowance gives.
    pub proof fn lemma_decomposition_fuel(&self, facts: &BeliefIdSet, all_tasks: &[Task<R>], outcomes: &DynamicOutcomes, fuel: nat)
        requires
            decomp(fuel, *self, None, facts@, all_tasks@, answer_views(outcomes.answers@), 0) is Some,
        ensures
            self.terminates(facts, all_tasks, outcomes),
            Some(self.decomposition(facts, all_tasks, outcomes))
                == decomp(fuel, *self, None, facts@, all_tasks@, answer_views(outcomes.answers@), 0),
    {
        let ans = answer_views(outcomes.answers@);
        let f = choose|f: nat| #[trigger] decomp(f, *self, None, facts@, all_tasks@, ans, 0) is Some;
        if f <= fuel {
            lemma_decomp_fuel(f, fuel, *self, None, facts@, all_tasks@, ans, 0);
        } else {
            lemma_decomp_fuel(fuel, f, *self, None, facts@, all_tasks@, ans, 0);
        }
    }

    /// A compound task none of whose methods has all its conditions among
    /// the facts decomposes to nothing, taking no resolver answer.
    pub proof fn lemma_no_applicable_method(&self, facts: &BeliefIdSet, all_tasks: &[Task<R>], outcomes: &DynamicOutcomes)
        requires
            *self is Compound,
            forall|m: int| 0 <= m < self->methods@.len() ==> some_condition_fails(#[trigger] self->methods@[m], facts@),
        ensures
            self.terminates(facts, all_tasks, outcomes),
            self.decomposition(facts, all_tasks, outcomes) == (Decomposition::<Seq<Seq<char>>>::Finished(None), 0nat),
    {
        let ans = answer_views(outcomes.answers@);
        lemma_no_method_applies(0, self->methods@, 0, facts@, all_tasks@, ans, 0);
        assert(decomp(1, *self, None, facts@, all_tasks@, ans, 0) == Some((Decomposition::<Seq<Seq<char>>>::Finished(None), 0nat)));
        self.lemma_decomposition_fuel(facts, all_tasks, outcomes, 1);
    }

    /// Decompose the task into the action names to execute, given the
    /// beliefs that hold (`facts`) and the resolver answers so far. A
    /// primitive task yields its action; a compound task tries its methods
    /// in order and takes the first whose conditions hold and whose subtasks
    /// all decompose (a subtask naming no task is kept as an action name); a
    /// dynamic task yields the next answer, each time it is reached. When a
    /// dynamic task is reached with no answer left, the decomposition stops
    /// and names that task: its resolver is to be asked, its answer added,
    /// and the decomposition run again.
    pub fn decompose(&self, facts: &BeliefIdSet, all_tasks: &[Task<R>], outcomes: &DynamicOutcomes) -> (r: Decomposition<Vec<String>>)
        requires
            self.terminates(facts, all_tasks, outcomes),
        ensures
            step_view(r) == self.decomposition(facts, all_tasks, outcomes).0,
            self.decomposition(facts, all_tasks, outcomes).1 <= outcomes.answers@.len(),
            r is NeedsResolver ==> self.decomposition(facts, all_tasks, outcomes).1 == outcomes.answers@.len(),
            r matches Decomposition::NeedsResolver(None) ==> *self is Dynamic && outcomes.answers@.len() == 0,
            r matches Decomposition::NeedsResolver(Some(k)) ==> k < all_tasks@.len() && all_tasks@[k as int] is Dynamic,
    {
        let ghost f = choose|f: nat|
            #[trigger] decomp(f, *self, None, facts@, all_tasks@, answer_views(outcomes.answers@), 0) is Some;
        let r = decompose_node(self, None, facts, all_tasks, &outcomes.answers, 0, Ghost(f));
        r.0
    }
}

/// Builder for HTN tasks.
pub struct TaskBuilder;

impl TaskBuilder {
    /// A primitive task that maps to `action_name`.
    pub fn primitive<R>(name: &str, action_name: &str) -> (t: Task<R>)
        ensures
            t matches Task::Primitive { name: n, action_name: a } && n@ == name@ && a@ == action_name@,
    {
        Task::Primitive { name: name.to_owned(), action_name: action_name.to_owned() }
    }

    /// A compound task decomposing through `methods`, tried in order.
    pub fn compound<R>(name: &str, methods: Vec<Method>) -> (t: Task<R>)
        ensures
            t matches Task::Compound { name: n, methods: ms } && n@ == name@ && ms@ == methods@,
    {
        Task::Compound { name: name.to_owned(), methods }
    }
}

} // verus!
