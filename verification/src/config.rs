//! A task file and the rows that adding it puts in the database.
//!
//! Adding a task file records one job, numbered one past the highest number
//! that a job of the same name has, and one task per stage whose key ends in
//! a stage number (the part of the key after its last `_`).

use vstd::prelude::*;
use crate::text::{
    after_last, after_last_char, all_digits, decimal, decimal_string, decimal_value, lemma_decimal_chars,
    lemma_decimal_injective, lemma_decimal_read_back,
};

verus! {

/// A task file: a job's name, author and description, and its stages as
/// (key, shell command) pairs in the order in which they are read. No key
/// occurs twice.
#[derive(Debug, PartialEq, Eq)]
pub struct Config {
    name: String,
    author: String,
    description: String,
    stages: Vec<(String, String)>,
}

/// The mathematical value of a [`Config`].
pub struct ConfigView {
    pub name: Seq<char>,
    pub author: Seq<char>,
    pub description: Seq<char>,
    pub stages: Seq<(Seq<char>, Seq<char>)>,
}

/// No two stages have the same key.
pub open spec fn keys_distinct(stages: Seq<(Seq<char>, Seq<char>)>) -> bool {
    forall|i: int, j: int| 0 <= i < j < stages.len() ==> stages[i].0 != stages[j].0
}

impl View for Config {
    type V = ConfigView;

    closed spec fn view(&self) -> ConfigView {
        ConfigView {
            name: self.name@,
            author: self.author@,
            description: self.description@,
            stages: stages_view(self.stages@),
        }
    }
}

/// The row that records a job.
#[derive(Debug, Clone, PartialEq, Eq)]
pub struct JobRow {
    pub name: String,
    pub job_count: i32,
    pub author: String,
    pub description: String,
}

/// The row that records one task of a job.
#[derive(Debug, Clone, PartialEq, Eq)]
pub struct TaskRow {
    pub job_name: String,
    pub stage_number: String,
    pub definition: String,
}

/// Everything that adding a task file records: the job and its tasks.
#[derive(Debug, Clone, PartialEq, Eq)]
pub struct JobPlan {
    pub job: JobRow,
    pub tasks: Vec<TaskRow>,
}

/// The mathematical value of a [`TaskRow`].
pub struct TaskView {
    pub job_name: Seq<char>,
    pub stage_number: Seq<char>,
    pub definition: Seq<char>,
}

impl View for TaskRow {
    type V = TaskView;

    open spec fn view(&self) -> TaskView {
        TaskView {
            job_name: self.job_name@,
            stage_number: self.stage_number@,
            definition: self.definition@,
        }
    }
}

/// The stages of a task file as pairs of texts.
pub open spec fn stages_view(stages: Seq<(String, String)>) -> Seq<(Seq<char>, Seq<char>)> {
    stages.map_values(|p: (String, String)| (p.0@, p.1@))
}

/// The views of a vector of task rows.
pub open spec fn tasks_view(tasks: Seq<TaskRow>) -> Seq<TaskView> {
    tasks.map_values(|t: TaskRow| t@)
}

/// The number of the job being added, given the highest number that a job
/// of the same name already has.
pub open spec fn next_job_count(previous: Option<i32>) -> int {
    match previous {
        Some(c) => c + 1,
        None => 1,
    }
}

/// The name under which the tasks of job number `count` of `name` are
/// recorded: the name, `_`, and the number.
pub open spec fn job_instance_name(name: Seq<char>, count: int) -> Seq<char> {
    name + seq!['_'] + decimal(count)
}

/// The stage number of a stage key: the part after its last `_`, or the
/// whole key when it has none.
pub open spec fn stage_number_of(key: Seq<char>) -> Seq<char> {
    after_last(key, '_')
}

/// The tasks recorded for `stages` under the job name `job`: one per stage
/// with a non-empty stage number, in the order of the stages.
pub open spec fn planned_tasks(job: Seq<char>, stages: Seq<(Seq<char>, Seq<char>)>) -> Seq<TaskView>
    decreases stages.len(),
{
    if stages.len() == 0 {
        Seq::empty()
    } else {
        let rest = planned_tasks(job, stages.drop_last());
        let number = stage_number_of(stages.last().0);
        if number.len() == 0 {
            rest
        } else {
            rest.push(TaskView { job_name: job, stage_number: number, definition: stages.last().1 })
        }
    }
}

/// The stage number of a stage key (`key.split('_').last()`).
pub fn stage_number(key: &str) -> (r: String)
    ensures
        r@ == stage_number_of(key@),
{
    after_last_char(key, '_')
}

/// The name under which the tasks of job number `count` of `name` are
/// recorded (`format!("{}_{}", name, count)`).
pub fn job_instance(name: &str, count: i32) -> (r: String)
    ensures
        r@ == job_instance_name(name@, count as int),
{
    let number = decimal_string(count as i64);
    let r = name.to_owned().concat("_").concat(number.as_str());
    proof {
        reveal_strlit("_");
    }
    r
}

impl Config {
    /// The stage keys of a task file are distinct.
    #[verifier::type_invariant]
    spec fn stage_keys_distinct(self) -> bool {
        keys_distinct(stages_view(self.stages@))
    }

    /// A task file with the given fields; `None` when two stages have the same
    /// key.
    pub fn new(name: String, author: String, description: String, stages: Vec<(String, String)>) -> (r:
        Option<Config>)
        ensures
            r is Some <==> keys_distinct(stages_view(stages@)),
            r matches Some(c) ==> c@ == (ConfigView {
                name: name@,
                author: author@,
                description: description@,
                stages: stages_view(stages@),
            }),
    {
        let ghost sv = stages_view(stages@);
        let n = stages.len();
        let mut i: usize = 0;
        while i < n
            invariant
                n == stages@.len(),
                sv == stages_view(stages@),
                i <= n,
                forall|a: int, b: int| 0 <= a < b < n && a < i ==> sv[a].0 != sv[b].0,
            decreases n - i,
        {
            let mut j: usize = i + 1;
            while j < n
                invariant
                    n == stages@.len(),
                    sv == stages_view(stages@),
                    i < n,
                    i + 1 <= j <= n,
                    forall|a: int, b: int| 0 <= a < b < n && a < i ==> sv[a].0 != sv[b].0,
                    forall|b: int| i < b < j ==> sv[i as int].0 != sv[b].0,
                decreases n - j,
            {
                if stages[i].0 == stages[j].0 {
                    assert(sv[i as int].0 == sv[j as int].0);
                    return None;
                }
                j += 1;
            }
            i += 1;
        }
        Some(Config { name, author, description, stages })
    }

    /// The job's name.
    pub fn name(&self) -> (r: &String)
        ensures
            r@ == self@.name,
    {
        &self.name
    }

    /// The job's author.
    pub fn author(&self) -> (r: &String)
        ensures
            r@ == self@.author,
    {
        &self.author
    }

    /// The job's description.
    pub fn description(&self) -> (r: &String)
        ensures
            r@ == self@.description,
    {
        &self.description
    }

    /// The stages, in the order in which they are read; their keys are
    /// distinct.
    pub fn stages(&self) -> (r: &Vec<(String, String)>)
        ensures
            stages_view(r@) == self@.stages,
            keys_distinct(self@.stages),
    {
        proof {
            use_type_invariant(self);
        }
        &self.stages
    }

    /// The rows recorded when the task file is added, given the highest number
    /// that a job of the same name already has (`None` when there is none).
    pub fn plan_job(&self, previous_job_count: Option<i32>) -> (plan: JobPlan)
        requires
            previous_job_count matches Some(c) ==> c < i32::MAX,
        ensures
            plan.job.name@ == self@.name,
            plan.job.job_count == next_job_count(previous_job_count),
            plan.job.author@ == self@.author,
            plan.job.description@ == self@.description,
            tasks_view(plan.tasks@) == planned_tasks(
                job_instance_name(self@.name, next_job_count(previous_job_count)),
                self@.stages,
            ),
    {
        let job_count: i32 = match previous_job_count {
            Some(c) => c + 1,
            None => 1,
        };
        let job_name = job_instance(self.name.as_str(), job_count);
        let ghost stages = stages_view(self.stages@);
        let mut tasks: Vec<TaskRow> = Vec::new();
        let mut i: usize = 0;
        while i < self.stages.len()
            invariant
                i <= self.stages.len(),
                stages == stages_view(self.stages@),
                tasks_view(tasks@) == planned_tasks(job_name@, stages.take(i as int)),
            decreases self.stages.len() - i,
        {
            let number = stage_number(self.stages[i].0.as_str());
            let ghost before = tasks_view(tasks@);
            proof {
                assert(stages.take(i + 1).drop_last() =~= stages.take(i as int));
                assert(stages.take(i + 1).last() == stages[i as int]);
            }
            if number.as_str().is_empty() {
                assert(number@.len() == 0);
            } else {
                let row = TaskRow {
                    job_name: job_name.clone(),
                    stage_number: number,
                    definition: self.stages[i].1.clone(),
                };
                tasks.push(row);
                assert(tasks_view(tasks@) =~= before.push(row@));
            }
            i += 1;
        }
        assert(stages.take(self.stages.len() as int) =~= stages);
        JobPlan {
            job: JobRow {
                name: self.name.clone(),
                job_count,
                author: self.author.clone(),
                description: self.description.clone(),
            },
            tasks,
        }
    }
}

/// `c` does not occur in `s`.
pub open spec fn lacks(s: Seq<char>, c: char) -> bool {
    forall|j: int| 0 <= j < s.len() ==> s[j] != c
}

proof fn lemma_after_last_lacks(s: Seq<char>, c: char)
    ensures
        lacks(after_last(s, c), c),
    decreases s.len(),
{
    if s.len() > 0 && s.last() != c {
        lemma_after_last_lacks(s.drop_last(), c);
    }
}

proof fn lemma_after_last_of_free(s: Seq<char>, c: char)
    requires
        lacks(s, c),
    ensures
        after_last(s, c) == s,
    decreases s.len(),
{
    if s.len() > 0 {
        lemma_after_last_of_free(s.drop_last(), c);
        assert(s.drop_last().push(s.last()) =~= s);
    }
}

/// A stage number never holds `_`.
pub proof fn lemma_stage_number_has_no_separator(key: Seq<char>)
    ensures
        lacks(stage_number_of(key), '_'),
{
    lemma_after_last_lacks(key, '_');
}

/// A key without `_` is its own stage number.
pub proof fn lemma_stage_number_of_plain_key(key: Seq<char>)
    requires
        lacks(key, '_'),
    ensures
        stage_number_of(key) == key,
{
    lemma_after_last_of_free(key, '_');
}

/// The stage number of `prefix_number` is `number` when `number` holds no
/// `_`, whatever `prefix` holds.
pub proof fn lemma_stage_number_of_suffixed_key(prefix: Seq<char>, number: Seq<char>)
    requires
        lacks(number, '_'),
    ensures
        stage_number_of(prefix + seq!['_'] + number) == number,
    decreases number.len(),
{
    let key = prefix + seq!['_'] + number;
    if number.len() == 0 {
        assert(key.last() == '_');
    } else {
        lemma_stage_number_of_suffixed_key(prefix, number.drop_last());
        assert(key.drop_last() =~= prefix + seq!['_'] + number.drop_last());
        assert(key.last() == number.last());
        assert(number.drop_last().push(number.last()) =~= number);
    }
}

/// Every task planned for a job carries the job's name and a non-empty stage
/// number without `_`, and there are at most as many tasks as stages.
pub proof fn lemma_planned_tasks_shape(job: Seq<char>, stages: Seq<(Seq<char>, Seq<char>)>)
    ensures
        planned_tasks(job, stages).len() <= stages.len(),
        forall|k: int| 0 <= k < planned_tasks(job, stages).len() ==> {
            let t = #[trigger] planned_tasks(job, stages)[k];
            &&& t.job_name == job
            &&& t.stage_number.len() > 0
            &&& lacks(t.stage_number, '_')
        },
    decreases stages.len(),
{
    if stages.len() > 0 {
        lemma_planned_tasks_shape(job, stages.drop_last());
        lemma_stage_number_has_no_separator(stages.last().0);
        let rest = planned_tasks(job, stages.drop_last());
        assert forall|k: int| 0 <= k < planned_tasks(job, stages).len() implies {
            let t = #[trigger] planned_tasks(job, stages)[k];
            &&& t.job_name == job
            &&& t.stage_number.len() > 0
            &&& lacks(t.stage_number, '_')
        } by {
            if k < rest.len() {
                assert(planned_tasks(job, stages)[k] == rest[k]);
            }
        }
    }
}

/// When every stage key ends in a stage number, every stage gets its task, in
/// order, with the stage's number and command.
pub proof fn lemma_planned_tasks_all_stages(job: Seq<char>, stages: Seq<(Seq<char>, Seq<char>)>)
    requires
        forall|k: int| 0 <= k < stages.len() ==> (#[trigger] stage_number_of(stages[k].0)).len() > 0,
    ensures
        planned_tasks(job, stages).len() == stages.len(),
        forall|k: int| 0 <= k < stages.len() ==> #[trigger] planned_tasks(job, stages)[k] == (TaskView {
            job_name: job,
            stage_number: stage_number_of(stages[k].0),
            definition: stages[k].1,
        }),
    decreases stages.len(),
{
    if stages.len() > 0 {
        let init = stages.drop_last();
        assert forall|k: int| 0 <= k < init.len() implies (#[trigger] stage_number_of(init[k].0)).len() > 0 by {
            assert(init[k] == stages[k]);
            assert(stage_number_of(stages[k].0).len() > 0);
        }
        lemma_planned_tasks_all_stages(job, init);
        assert(stage_number_of(stages[stages.len() - 1].0).len() > 0);
        assert forall|k: int| 0 <= k < stages.len() implies #[trigger] planned_tasks(job, stages)[k] == (TaskView {
            job_name: job,
            stage_number: stage_number_of(stages[k].0),
            definition: stages[k].1,
        }) by {
            if k < init.len() {
                assert(init[k] == stages[k]);
                assert(planned_tasks(job, init)[k] == planned_tasks(job, stages)[k]);
            }
        }
    }
}

/// Two instances of the same job with different numbers get different task
/// job names, so their tasks never mix.
pub proof fn lemma_job_instances_distinct(name: Seq<char>, c1: int, c2: int)
    requires
        c1 != c2,
    ensures
        job_instance_name(name, c1) != job_instance_name(name, c2),
{
    let p = name + seq!['_'];
    if job_instance_name(name, c1) == job_instance_name(name, c2) {
        let a = job_instance_name(name, c1);
        assert(a.subrange(p.len() as int, a.len() as int) =~= decimal(c1));
        let b = job_instance_name(name, c2);
        assert(b.subrange(p.len() as int, b.len() as int) =~= decimal(c2));
        lemma_decimal_injective(c1, c2);
    }
}

/// The job number can be read back from a task's job name: it is the stage
/// number of that name, the part after its last `_`.
pub proof fn lemma_job_number_read_back(name: Seq<char>, count: int)
    ensures
        stage_number_of(job_instance_name(name, count)) == decimal(count),
{
    lemma_decimal_chars(count);
    assert(lacks(decimal(count), '_')) by {
        assert forall|j: int| 0 <= j < decimal(count).len() implies decimal(count)[j] != '_' by {
            let ch = decimal(count)[j];
            assert(('0' <= ch <= '9') || ch == '-');
        }
    }
    lemma_stage_number_of_suffixed_key(name, decimal(count));
}

/// Job numbers of a name stay distinct: when the existing numbers of a name
/// are distinct and `previous` is their highest (`None` when there are none),
/// the next number is one more than the highest, or 1, is none of the
/// existing ones, and its task job name differs from each of theirs.
pub proof fn lemma_job_counts_stay_distinct(name: Seq<char>, existing: Seq<int>, previous: Option<i32>)
    requires
        existing.no_duplicates(),
        previous matches Some(m) ==> existing.contains(m as int) && forall|k: int|
            0 <= k < existing.len() ==> existing[k] <= m,
        previous is None ==> existing.len() == 0,
    ensures
        next_job_count(previous) == match previous {
            Some(m) => m + 1,
            None => 1int,
        },
        !existing.contains(next_job_count(previous)),
        existing.push(next_job_count(previous)).no_duplicates(),
        forall|k: int|
            0 <= k < existing.len() ==> job_instance_name(name, #[trigger] existing[k])
                != job_instance_name(name, next_job_count(previous)),
{
    let next = next_job_count(previous);
    assert(!existing.contains(next)) by {
        if existing.contains(next) {
            let k = choose|k: int| 0 <= k < existing.len() && existing[k] == next;
            assert(existing[k] <= next - 1);
        }
    }
    let all = existing.push(next);
    assert forall|i: int, j: int| 0 <= i < all.len() && 0 <= j < all.len() && i != j implies all[i]
        != all[j] by {
        if i < existing.len() && j < existing.len() {
            assert(all[i] == existing[i] && all[j] == existing[j]);
        } else if i < existing.len() {
            assert(all[i] == existing[i]);
            assert(existing.contains(existing[i]));
        } else {
            assert(all[j] == existing[j]);
            assert(existing.contains(existing[j]));
        }
    }
    assert forall|k: int| 0 <= k < existing.len() implies job_instance_name(name, #[trigger] existing[k])
        != job_instance_name(name, next) by {
        assert(existing.contains(existing[k]));
        lemma_job_instances_distinct(name, existing[k], next);
    }
}

/// The task job name of job number `count` of `name` (count positive, as
/// every recorded job's is) is the name unchanged, `_`, and a run of digits
/// without a leading zero that reads back as `count`.
pub proof fn lemma_job_instance_parts(name: Seq<char>, count: int)
    requires
        count > 0,
    ensures
        job_instance_name(name, count).take(name.len() as int) == name,
        job_instance_name(name, count)[name.len() as int] == '_',
        all_digits(job_instance_name(name, count).skip(name.len() as int + 1)),
        decimal_value(job_instance_name(name, count).skip(name.len() as int + 1)) == count,
        job_instance_name(name, count).skip(name.len() as int + 1)[0] != '0',
{
    lemma_decimal_read_back(count);
    let j = job_instance_name(name, count);
    assert(j.take(name.len() as int) =~= name);
    assert(j.skip(name.len() as int + 1) =~= decimal(count));
}

} // verus!
