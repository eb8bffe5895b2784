//! The planner's laws: statements that relate the spec-level model's
//! pieces to each other, proved once and for all. Batch sizes, replicate
//! tagging, dependency linking, id assignment, and required-field coverage.

use crate::data::spec_vectorize;
use crate::data::FieldData;
use crate::data::FieldSetting;
use crate::errors::ErrModel;
use crate::plan::inst_id;
use crate::plan::lemma_attach_len;
use crate::plan::lemma_cross_len;
use crate::plan::lemma_fold_deps_err;
use crate::plan::lemma_plan_upto_err;
use crate::plan::spec_add_futures;
use crate::plan::spec_attach;
use crate::plan::spec_attach_dep;
use crate::plan::spec_cross;
use crate::plan::spec_cross_dep;
use crate::plan::spec_deps;
use crate::plan::spec_flatten;
use crate::plan::spec_fold_deps;
use crate::plan::spec_insts;
use crate::plan::spec_merge;
use crate::plan::spec_merge_upto;
use crate::plan::spec_plan_upto;
use crate::plan::spec_validate_ws;
use crate::plan::spec_product_upto;
use crate::plan::spec_ws0;
use crate::plan::Experiment;
use crate::plan::InstModel;
use crate::plan::Job;
use crate::program::Output;
use crate::program::Program;
use crate::smap::keys_unique;
use crate::smap::lemma_idx_of;
use crate::smap::lemma_map_set_has;
use crate::smap::map_has;
use crate::smap::map_idx;
use crate::smap::map_set;
use crate::smap::map_val;
use vstd::prelude::*;

verus! {

/// The product of the cardinalities of the first `i` settings.
pub open spec fn spec_card_upto(entries: Seq<(Seq<char>, FieldSetting)>, i: int) -> int
    decreases i,
{
    if i <= 0 {
        1
    } else {
        spec_card_upto(entries, i - 1) * spec_vectorize(entries[i - 1].1@).len()
    }
}

impl Job {
    /// The cartesian size of the job's settings: the product of every
    /// setting's cardinality.
    pub open spec fn spec_card(&self) -> int {
        spec_card_upto(self.parameters@, self.parameters@.len() as int)
    }
}

proof fn lemma_product_len_upto(entries: Seq<(Seq<char>, FieldSetting)>, i: int)
    requires
        0 <= i,
    ensures
        spec_product_upto(entries, i).len() == spec_card_upto(entries, i),
    decreases i,
{
    if i > 0 {
        lemma_product_len_upto(entries, i - 1);
        lemma_cross_len(
            spec_product_upto(entries, i - 1),
            entries[i - 1].0,
            spec_vectorize(entries[i - 1].1@),
        );
    }
}

/// Law: a batch has exactly `repetitions` times the product of the
/// per-field setting cardinalities many assignments.
pub proof fn lemma_batch_size(job: Job)
    ensures
        job.spec_batch().len() == job.spec_reps() * job.spec_card(),
{
    lemma_product_len_upto(job.parameters@, job.parameters@.len() as int);
    assert(job.spec_reps() >= 0);
    assert(job.spec_reps() * job.spec_product().len() >= 0) by (nonlinear_arith)
        requires job.spec_reps() >= 0 && job.spec_product().len() >= 0;
}

/// Every assignment of the cartesian product has pairwise distinct keys.
proof fn lemma_attach_unique(p: Seq<(Seq<char>, FieldData)>, name: Seq<char>, vals: Seq<FieldData>)
    requires
        keys_unique(p),
    ensures
        forall|j: int|
            0 <= j < spec_attach(p, name, vals).len() ==> keys_unique(
                #[trigger] spec_attach(p, name, vals)[j],
            ),
    decreases vals.len(),
{
    if vals.len() > 0 {
        lemma_attach_unique(p, name, vals.drop_last());
        lemma_map_set_has(p, name, vals.last(), name);
        let a = spec_attach(p, name, vals);
        let a0 = spec_attach(p, name, vals.drop_last());
        assert forall|j: int| 0 <= j < a.len() implies keys_unique(#[trigger] a[j]) by {
            if j < a0.len() {
                assert(a[j] == a0[j]);
            } else {
                assert(a[j] == map_set(p, name, vals.last()));
            }
        };
    }
}

proof fn lemma_cross_unique(
    ps: Seq<Seq<(Seq<char>, FieldData)>>,
    name: Seq<char>,
    vals: Seq<FieldData>,
)
    requires
        forall|j: int| 0 <= j < ps.len() ==> keys_unique(#[trigger] ps[j]),
    ensures
        forall|j: int|
            0 <= j < spec_cross(ps, name, vals).len() ==> keys_unique(
                #[trigger] spec_cross(ps, name, vals)[j],
            ),
    decreases ps.len(),
{
    if ps.len() > 0 {
        assert(forall|j: int| 0 <= j < ps.len() - 1 ==> #[trigger] ps.drop_last()[j] == ps[j]);
        lemma_cross_unique(ps.drop_last(), name, vals);
        lemma_attach_unique(ps.last(), name, vals);
        let c = spec_cross(ps, name, vals);
        let c0 = spec_cross(ps.drop_last(), name, vals);
        let at = spec_attach(ps.last(), name, vals);
        assert forall|j: int| 0 <= j < c.len() implies keys_unique(#[trigger] c[j]) by {
            if j < c0.len() {
                assert(c[j] == c0[j]);
            } else {
                assert(c[j] == at[j - c0.len()]);
            }
        };
    }
}

proof fn lemma_product_unique(entries: Seq<(Seq<char>, FieldSetting)>, i: int)
    ensures
        forall|j: int|
            0 <= j < spec_product_upto(entries, i).len() ==> keys_unique(
                #[trigger] spec_product_upto(entries, i)[j],
            ),
    decreases i,
{
    if i > 0 {
        lemma_product_unique(entries, i - 1);
        lemma_cross_unique(
            spec_product_upto(entries, i - 1),
            entries[i - 1].0,
            spec_vectorize(entries[i - 1].1@),
        );
    }
}

/// Every assignment of a batch has pairwise distinct keys.
pub proof fn lemma_batch_unique(job: Job, i: int)
    requires
        0 <= i < job.spec_batch().len(),
    ensures
        keys_unique(job.spec_batch()[i]),
{
    let base = job.spec_product().len() as int;
    if base == 0 {
        assert(job.spec_reps() * 0 == 0) by (nonlinear_arith);
    }
    vstd::arithmetic::div_mod::lemma_mod_bound(i, base);
    lemma_product_unique(job.parameters@, job.parameters@.len() as int);
    lemma_map_set_has(
        job.spec_product()[i % base],
        job.rep_key(),
        FieldData::UInt((i / base) as usize),
        job.rep_key(),
    );
}

/// Law: the assignment at position `i` of a batch carries the synthetic
/// repetition parameter bound to its replicate index `i / R`, where `R` is
/// the cartesian product size.
pub proof fn lemma_repetition_tag(job: Job, i: int)
    requires
        0 <= i < job.spec_batch().len(),
    ensures
        map_has(job.spec_batch()[i], job.rep_key()),
        map_val(job.spec_batch()[i], job.rep_key()) == FieldData::UInt(
            (i / job.spec_product().len() as int) as usize,
        ),
{
    let base = job.spec_product().len() as int;
    if base == 0 {
        assert(job.spec_reps() * 0 == 0) by (nonlinear_arith);
    }
    vstd::arithmetic::div_mod::lemma_mod_bound(i, base);
    lemma_product_unique(job.parameters@, job.parameters@.len() as int);
    lemma_map_set_has(
        job.spec_product()[i % base],
        job.rep_key(),
        FieldData::UInt((i / base) as usize),
        job.rep_key(),
    );
}

/// Law: a job that names a dependency before any job has been planned
/// fails with exactly the unknown-dependency error for its first listed
/// name; it never silently plans zero instances.
pub proof fn lemma_unknown_dependency_first(
    exp: Experiment,
    threads: usize,
    programs: Seq<(Seq<char>, Program)>,
)
    requires
        exp.jobs@.len() >= 1,
        exp.jobs@[0].on_each is Some,
        spec_deps(exp.jobs@[0]).len() >= 1,
        map_has(programs, exp.jobs@[0].run@),
    ensures
        exp.spec_plan(threads, programs) == Err::<Seq<InstModel>, ErrModel>(
            ErrModel::UnknownDependency(exp.jobs@[0].run@, spec_deps(exp.jobs@[0])[0]),
        ),
{
    let jobs = exp.jobs@;
    let job = jobs[0];
    let empty_pl = Seq::<(Seq<char>, Seq<InstModel>)>::empty();
    assert(spec_plan_upto(jobs, threads, programs, 0) == Ok::<
        (Seq<(Seq<char>, Seq<InstModel>)>, int),
        ErrModel,
    >((empty_pl, 0)));
    let dseq = spec_deps(job);
    assert(!map_has(empty_pl, dseq[0]));
    assert(spec_fold_deps(job.run@, programs, empty_pl, spec_ws0(job), dseq, 0) == Ok::<
        Seq<(Seq<(Seq<char>, FieldData)>, Seq<usize>)>,
        ErrModel,
    >(spec_ws0(job)));
    assert(spec_fold_deps(job.run@, programs, empty_pl, spec_ws0(job), dseq, 1) == Err::<
        Seq<(Seq<(Seq<char>, FieldData)>, Seq<usize>)>,
        ErrModel,
    >(ErrModel::UnknownDependency(job.run@, dseq[0])));
    lemma_fold_deps_err(
        job.run@,
        programs,
        empty_pl,
        spec_ws0(job),
        dseq,
        1,
        dseq.len() as int,
    );
    lemma_plan_upto_err(jobs, threads, programs, 1, jobs.len() as int);
}

/// Whether `x` is the id of one of `insts`.
pub open spec fn is_id_of(x: usize, insts: Seq<InstModel>) -> bool {
    exists|b: int| 0 <= b < insts.len() && x == inst_id(#[trigger] insts[b])
}

/// The planner state at step `i` when planning succeeds there.
pub open spec fn plan_state(
    jobs: Seq<Job>,
    threads: usize,
    programs: Seq<(Seq<char>, Program)>,
    i: int,
) -> (Seq<(Seq<char>, Seq<InstModel>)>, int) {
    match spec_plan_upto(jobs, threads, programs, i) {
        Ok(st) => st,
        Err(_) => (Seq::empty(), 0),
    }
}

proof fn lemma_attach_dep_len(
    w: (Seq<(Seq<char>, FieldData)>, Seq<usize>),
    insts: Seq<InstModel>,
    outs: Seq<(Seq<char>, Output)>,
)
    ensures
        spec_attach_dep(w, insts, outs).len() == insts.len(),
    decreases insts.len(),
{
    if insts.len() > 0 {
        lemma_attach_dep_len(w, insts.drop_last(), outs);
    }
}

pub proof fn lemma_cross_dep_len(
    ws: Seq<(Seq<(Seq<char>, FieldData)>, Seq<usize>)>,
    insts: Seq<InstModel>,
    outs: Seq<(Seq<char>, Output)>,
)
    ensures
        spec_cross_dep(ws, insts, outs).len() == ws.len() * insts.len(),
    decreases ws.len(),
{
    if ws.len() > 0 {
        lemma_cross_dep_len(ws.drop_last(), insts, outs);
        lemma_attach_dep_len(ws.last(), insts, outs);
        assert((ws.len() - 1) * insts.len() + insts.len() == ws.len() * insts.len())
            by (nonlinear_arith);
    }
}

proof fn lemma_merge_unique(
    a: Seq<(Seq<char>, FieldData)>,
    b: Seq<(Seq<char>, FieldData)>,
    i: int,
)
    requires
        keys_unique(a),
    ensures
        keys_unique(spec_merge_upto(a, b, i)),
    decreases i,
{
    if i > 0 {
        lemma_merge_unique(a, b, i - 1);
        lemma_map_set_has(spec_merge_upto(a, b, i - 1), b[i - 1].0, b[i - 1].1, b[i - 1].0);
    }
}

proof fn lemma_add_futures_unique(
    m: Seq<(Seq<char>, FieldData)>,
    outs: Seq<(Seq<char>, Output)>,
    i: int,
)
    requires
        keys_unique(m),
    ensures
        keys_unique(spec_add_futures(m, outs, i)),
    decreases i,
{
    if i > 0 {
        lemma_add_futures_unique(m, outs, i - 1);
        lemma_map_set_has(
            spec_add_futures(m, outs, i - 1),
            outs[i - 1].0,
            FieldData::Future,
            outs[i - 1].0,
        );
    }
}

/// After the futures are bound, every covered output name reads `Future`.
proof fn lemma_add_futures_future(
    m: Seq<(Seq<char>, FieldData)>,
    outs: Seq<(Seq<char>, Output)>,
    i: int,
    t: int,
)
    requires
        keys_unique(m),
        0 <= t < i,
    ensures
        map_has(spec_add_futures(m, outs, i), outs[t].0),
        map_val(spec_add_futures(m, outs, i), outs[t].0) == FieldData::Future,
    decreases i,
{
    lemma_add_futures_unique(m, outs, i - 1);
    if t == i - 1 {
        lemma_map_set_has(spec_add_futures(m, outs, i - 1), outs[i - 1].0, FieldData::Future, outs[t].0);
    } else {
        lemma_add_futures_future(m, outs, i - 1, t);
        lemma_map_set_has(spec_add_futures(m, outs, i - 1), outs[i - 1].0, FieldData::Future, outs[t].0);
    }
}

/// Crossing a working set whose items carry no dependencies yet against a
/// dependency batch gives items that each depend on exactly one of the
/// batch's ids and carry a `Future` for every declared output name.
proof fn lemma_attach_dep_linked(
    w: (Seq<(Seq<char>, FieldData)>, Seq<usize>),
    insts: Seq<InstModel>,
    outs: Seq<(Seq<char>, Output)>,
)
    requires
        w.1 == Seq::<usize>::empty(),
        keys_unique(w.0),
    ensures
        forall|j: int|
            0 <= j < spec_attach_dep(w, insts, outs).len() ==> {
                let item = #[trigger] spec_attach_dep(w, insts, outs)[j];
                &&& item.1.len() == 1
                &&& is_id_of(item.1[0], insts)
                &&& forall|t: int|
                    0 <= t < outs.len() ==> map_has(item.0, (#[trigger] outs[t]).0) && map_val(
                        item.0,
                        outs[t].0,
                    ) == FieldData::Future
            },
    decreases insts.len(),
{
    if insts.len() > 0 {
        lemma_attach_dep_linked(w, insts.drop_last(), outs);
        lemma_attach_dep_len(w, insts.drop_last(), outs);
        let at = spec_attach_dep(w, insts, outs);
        let at0 = spec_attach_dep(w, insts.drop_last(), outs);
        let lastm = spec_add_futures(
            spec_merge(w.0, insts.last().params),
            outs,
            outs.len() as int,
        );
        assert forall|j: int| 0 <= j < at.len() implies {
            let item = #[trigger] at[j];
            &&& item.1.len() == 1
            &&& is_id_of(item.1[0], insts)
            &&& forall|t: int|
                0 <= t < outs.len() ==> map_has(item.0, (#[trigger] outs[t]).0) && map_val(
                    item.0,
                    outs[t].0,
                ) == FieldData::Future
        } by {
            if j < at0.len() {
                assert(at[j] == at0[j]);
                let item = at0[j];
                assert(is_id_of(item.1[0], insts.drop_last()));
                let b = choose|b: int|
                    0 <= b < insts.drop_last().len() && item.1[0] == inst_id(
                        #[trigger] insts.drop_last()[b],
                    );
                assert(insts[b] == insts.drop_last()[b]);
                assert(item.1[0] == inst_id(insts[b]));
            } else {
                assert(at[j] == (lastm, w.1.push(inst_id(insts.last()))));
                assert(at[j].1.len() == 1);
                assert(at[j].1[0] == inst_id(insts[insts.len() - 1]));
                lemma_merge_unique(w.0, insts.last().params, insts.last().params.len() as int);
                assert forall|t: int|
                    0 <= t < outs.len() implies map_has(lastm, (#[trigger] outs[t]).0) && map_val(
                        lastm,
                        outs[t].0,
                    ) == FieldData::Future by {
                    lemma_add_futures_future(
                        spec_merge(w.0, insts.last().params),
                        outs,
                        outs.len() as int,
                        t,
                    );
                };
            }
        };
    }
}

proof fn lemma_cross_dep_linked(
    ws: Seq<(Seq<(Seq<char>, FieldData)>, Seq<usize>)>,
    insts: Seq<InstModel>,
    outs: Seq<(Seq<char>, Output)>,
)
    requires
        forall|a: int| 0 <= a < ws.len() ==> (#[trigger] ws[a]).1 == Seq::<usize>::empty(),
        forall|a: int| 0 <= a < ws.len() ==> keys_unique((#[trigger] ws[a]).0),
    ensures
        forall|j: int|
            0 <= j < spec_cross_dep(ws, insts, outs).len() ==> {
                let item = #[trigger] spec_cross_dep(ws, insts, outs)[j];
                &&& item.1.len() == 1
                &&& is_id_of(item.1[0], insts)
                &&& forall|t: int|
                    0 <= t < outs.len() ==> map_has(item.0, (#[trigger] outs[t]).0) && map_val(
                        item.0,
                        outs[t].0,
                    ) == FieldData::Future
            },
    decreases ws.len(),
{
    if ws.len() > 0 {
        assert(forall|a: int|
            0 <= a < ws.len() - 1 ==> #[trigger] ws.drop_last()[a] == ws[a]);
        lemma_cross_dep_linked(ws.drop_last(), insts, outs);
        lemma_attach_dep_linked(ws.last(), insts, outs);
        let c = spec_cross_dep(ws, insts, outs);
        let c0 = spec_cross_dep(ws.drop_last(), insts, outs);
        let at = spec_attach_dep(ws.last(), insts, outs);
        assert forall|j: int| 0 <= j < c.len() implies {
            let item = #[trigger] c[j];
            &&& item.1.len() == 1
            &&& is_id_of(item.1[0], insts)
            &&& forall|t: int|
                0 <= t < outs.len() ==> map_has(item.0, (#[trigger] outs[t]).0) && map_val(
                    item.0,
                    outs[t].0,
                ) == FieldData::Future
        } by {
            if j < c0.len() {
                assert(c[j] == c0[j]);
            } else {
                assert(c[j] == at[j - c0.len()]);
            }
        };
    }
}

/// Law: dependency linking. In a two-job experiment whose second job
/// depends on the first (and runs a different program name), a successful
/// plan emits, for the second job, one instance per pair of a first-job
/// instance and one of its own assignments; each such instance depends on
/// exactly one id, the id of a first-job instance, and its resolved
/// parameters bind a `Future` for every output name the first job's
/// program declares.
pub proof fn lemma_dependency_linking(
    exp: Experiment,
    threads: usize,
    programs: Seq<(Seq<char>, Program)>,
)
    requires
        exp.jobs@.len() == 2,
        exp.jobs@[0].on_each is None,
        exp.jobs@[1].on_each is Some,
        spec_deps(exp.jobs@[1]) == seq![exp.jobs@[0].run@],
        exp.jobs@[1].run@ != exp.jobs@[0].run@,
        spec_plan_upto(exp.jobs@, threads, programs, 2) is Ok,
    ensures
        ({
            let jobs = exp.jobs@;
            let pl = plan_state(jobs, threads, programs, 2).0;
            let ia = map_val(pl, jobs[0].run@);
            let ib = map_val(pl, jobs[1].run@);
            let outs = map_val(programs, jobs[0].run@).outputs@;
            &&& map_has(pl, jobs[0].run@)
            &&& map_has(pl, jobs[1].run@)
            &&& ib.len() == ia.len() * jobs[1].spec_batch().len()
            &&& forall|j: int|
                0 <= j < ib.len() ==> (#[trigger] ib[j]).depends.len() == 1 && is_id_of(
                    ib[j].depends[0],
                    ia,
                )
            &&& forall|j: int, t: int|
                0 <= j < ib.len() && 0 <= t < outs.len() ==> map_has(
                    (#[trigger] ib[j]).params,
                    (#[trigger] outs[t]).0,
                ) && map_val(ib[j].params, outs[t].0) == FieldData::Future
        }),
{
    let jobs = exp.jobs@;
    let job0 = jobs[0];
    let job1 = jobs[1];
    let empty_pl = Seq::<(Seq<char>, Seq<InstModel>)>::empty();
    assert(spec_plan_upto(jobs, threads, programs, 0) == Ok::<
        (Seq<(Seq<char>, Seq<InstModel>)>, int),
        ErrModel,
    >((empty_pl, 0)));
    assert(spec_plan_upto(jobs, threads, programs, 1) is Ok);
    let prog_a = map_val(programs, job0.run@);
    let ws_a = spec_ws0(job0);
    let ia = spec_insts(prog_a, threads, 0, ws_a);
    let pl1 = map_set(empty_pl, job0.run@, ia);
    assert(spec_plan_upto(jobs, threads, programs, 1) == Ok::<
        (Seq<(Seq<char>, Seq<InstModel>)>, int),
        ErrModel,
    >((pl1, ws_a.len() as int)));
    assert(pl1 =~= seq![(job0.run@, ia)]);
    assert(keys_unique(pl1));
    lemma_idx_of(pl1, 0);
    assert(map_has(pl1, job0.run@) && map_val(pl1, job0.run@) == ia);
    let dseq = spec_deps(job1);
    let ws0b = spec_ws0(job1);
    let prog_b = map_val(programs, job1.run@);
    let outs = prog_a.outputs@;
    assert(spec_fold_deps(job1.run@, programs, pl1, ws0b, dseq, 0) == Ok::<
        Seq<(Seq<(Seq<char>, FieldData)>, Seq<usize>)>,
        ErrModel,
    >(ws0b));
    let wsb = spec_cross_dep(ws0b, ia, outs);
    assert(spec_fold_deps(job1.run@, programs, pl1, ws0b, dseq, 1) == Ok::<
        Seq<(Seq<(Seq<char>, FieldData)>, Seq<usize>)>,
        ErrModel,
    >(wsb));
    let nid1 = ws_a.len() as int;
    let ib = spec_insts(prog_b, threads, nid1, wsb);
    let pl2 = map_set(pl1, job1.run@, ib);
    assert(spec_plan_upto(jobs, threads, programs, 2) == Ok::<
        (Seq<(Seq<char>, Seq<InstModel>)>, int),
        ErrModel,
    >((pl2, nid1 + wsb.len())));
    lemma_map_set_has(pl1, job1.run@, ib, job1.run@);
    lemma_map_set_has(pl1, job1.run@, ib, job0.run@);
    assert(map_val(pl2, job1.run@) == ib);
    assert(map_val(pl2, job0.run@) == ia);
    lemma_cross_dep_len(ws0b, ia, outs);
    assert(ws0b.len() == job1.spec_batch().len());
    assert(ia.len() == ws_a.len());
    assert(ws0b.len() * ia.len() == ia.len() * ws0b.len()) by (nonlinear_arith);
    assert forall|a: int| 0 <= a < ws0b.len() implies (#[trigger] ws0b[a]).1 == Seq::<
        usize,
    >::empty() && keys_unique(ws0b[a].0) by {
        assert(ws0b[a] == (job1.spec_batch()[a], Seq::<usize>::empty()));
        lemma_batch_unique(job1, a);
    };
    lemma_cross_dep_linked(ws0b, ia, outs);
    assert forall|j: int| 0 <= j < ib.len() implies (#[trigger] ib[j]).depends.len() == 1
        && is_id_of(ib[j].depends[0], ia) by {
        assert(ib[j].depends == wsb[j].1);
    };
    assert forall|j: int, t: int|
        0 <= j < ib.len() && 0 <= t < outs.len() implies map_has(
        (#[trigger] ib[j]).params,
        (#[trigger] outs[t]).0,
    ) && map_val(ib[j].params, outs[t].0) == FieldData::Future by {
        assert(ib[j].params == wsb[j].0);
    };
}

/// Every element of `s` is below `b`.
pub open spec fn ids_below(s: Seq<usize>, b: int) -> bool {
    forall|d: int| 0 <= d < s.len() ==> #[trigger] s[d] < b
}

pub open spec fn insts_ids_below(s: Seq<InstModel>, b: int) -> bool {
    forall|j: int| 0 <= j < s.len() ==> inst_id(#[trigger] s[j]) < b
}

/// Every dependency entry of the instance is an id smaller than the
/// instance's own.
pub open spec fn inst_deps_before_own(m: InstModel) -> bool {
    ids_below(m.depends, inst_id(m) as int)
}

pub open spec fn insts_linked(s: Seq<InstModel>) -> bool {
    forall|j: int| 0 <= j < s.len() ==> inst_deps_before_own(#[trigger] s[j])
}

pub open spec fn planned_ids_below(pl: Seq<(Seq<char>, Seq<InstModel>)>, b: int) -> bool {
    forall|i: int| 0 <= i < pl.len() ==> insts_ids_below((#[trigger] pl[i]).1, b)
}

pub open spec fn planned_linked(pl: Seq<(Seq<char>, Seq<InstModel>)>) -> bool {
    forall|i: int| 0 <= i < pl.len() ==> insts_linked((#[trigger] pl[i]).1)
}

pub open spec fn ws_deps_below(ws: Seq<(Seq<(Seq<char>, FieldData)>, Seq<usize>)>, b: int) -> bool {
    forall|i: int| 0 <= i < ws.len() ==> ids_below((#[trigger] ws[i]).1, b)
}

proof fn lemma_attach_dep_deps_below(
    w: (Seq<(Seq<char>, FieldData)>, Seq<usize>),
    insts: Seq<InstModel>,
    outs: Seq<(Seq<char>, Output)>,
    b: int,
)
    requires
        ids_below(w.1, b),
        insts_ids_below(insts, b),
    ensures
        ws_deps_below(spec_attach_dep(w, insts, outs), b),
    decreases insts.len(),
{
    if insts.len() > 0 {
        assert(forall|j: int|
            0 <= j < insts.len() - 1 ==> #[trigger] insts.drop_last()[j] == insts[j]);
        lemma_attach_dep_deps_below(w, insts.drop_last(), outs, b);
        let at = spec_attach_dep(w, insts, outs);
        let at0 = spec_attach_dep(w, insts.drop_last(), outs);
        assert(inst_id(insts.last()) < b);
        assert forall|i: int| 0 <= i < at.len() implies ids_below((#[trigger] at[i]).1, b) by {
            if i < at0.len() {
                assert(at[i] == at0[i]);
            } else {
                assert(at[i].1 == w.1.push(inst_id(insts.last())));
                assert forall|d: int| 0 <= d < at[i].1.len() implies #[trigger] at[i].1[d] < b by {
                    if d < w.1.len() {
                        assert(at[i].1[d] == w.1[d]);
                    }
                };
            }
        };
    }
}

proof fn lemma_cross_dep_deps_below(
    ws: Seq<(Seq<(Seq<char>, FieldData)>, Seq<usize>)>,
    insts: Seq<InstModel>,
    outs: Seq<(Seq<char>, Output)>,
    b: int,
)
    requires
        ws_deps_below(ws, b),
        insts_ids_below(insts, b),
    ensures
        ws_deps_below(spec_cross_dep(ws, insts, outs), b),
    decreases ws.len(),
{
    if ws.len() > 0 {
        assert(forall|a: int| 0 <= a < ws.len() - 1 ==> #[trigger] ws.drop_last()[a] == ws[a]);
        lemma_cross_dep_deps_below(ws.drop_last(), insts, outs, b);
        lemma_attach_dep_deps_below(ws.last(), insts, outs, b);
        let c = spec_cross_dep(ws, insts, outs);
        let c0 = spec_cross_dep(ws.drop_last(), insts, outs);
        let at = spec_attach_dep(ws.last(), insts, outs);
        assert forall|i: int| 0 <= i < c.len() implies ids_below((#[trigger] c[i]).1, b) by {
            if i < c0.len() {
                assert(c[i] == c0[i]);
            } else {
                assert(c[i] == at[i - c0.len()]);
            }
        };
    }
}

proof fn lemma_fold_deps_below(
    run: Seq<char>,
    programs: Seq<(Seq<char>, Program)>,
    planned: Seq<(Seq<char>, Seq<InstModel>)>,
    ws: Seq<(Seq<(Seq<char>, FieldData)>, Seq<usize>)>,
    deps: Seq<Seq<char>>,
    i: int,
    b: int,
)
    requires
        planned_ids_below(planned, b),
        ws_deps_below(ws, b),
        spec_fold_deps(run, programs, planned, ws, deps, i) is Ok,
    ensures
        ws_deps_below(
            spec_fold_deps(run, programs, planned, ws, deps, i)->Ok_0,
            b,
        ),
    decreases i,
{
    if i > 0 {
        lemma_fold_deps_below(run, programs, planned, ws, deps, i - 1, b);
        let cur = spec_fold_deps(run, programs, planned, ws, deps, i - 1)->Ok_0;
        let dep = deps[i - 1];
        assert(map_has(planned, dep));
        assert(0 <= map_idx(planned, dep) < planned.len());
        assert(insts_ids_below(planned[map_idx(planned, dep)].1, b));
        lemma_cross_dep_deps_below(cur, map_val(planned, dep), map_val(programs, dep).outputs@, b);
    }
}

/// After planning up to step `i` successfully, every emitted id is below
/// the running counter and every instance depends only on smaller ids.
proof fn lemma_plan_upto_ids(
    jobs: Seq<Job>,
    threads: usize,
    programs: Seq<(Seq<char>, Program)>,
    i: int,
)
    requires
        0 <= i <= jobs.len(),
        spec_plan_upto(jobs, threads, programs, i) is Ok,
        forall|k: int|
            0 <= k <= jobs.len() ==> match #[trigger] spec_plan_upto(jobs, threads, programs, k) {
                Ok((pl, nid)) => nid <= usize::MAX,
                Err(_) => true,
            },
    ensures
        ({
            let st = plan_state(jobs, threads, programs, i);
            &&& st.1 >= 0
            &&& planned_ids_below(st.0, st.1)
            &&& planned_linked(st.0)
        }),
    decreases i,
{
    if i > 0 {
        assert(spec_plan_upto(jobs, threads, programs, i - 1) is Ok);
        lemma_plan_upto_ids(jobs, threads, programs, i - 1);
        let st0 = plan_state(jobs, threads, programs, i - 1);
        let pl = st0.0;
        let nid = st0.1;
        let job = jobs[i - 1];
        let prog = map_val(programs, job.run@);
        let st1 = plan_state(jobs, threads, programs, i);
        assert(st1.1 <= usize::MAX);
        let ws = if job.on_each is None {
            spec_ws0(job)
        } else {
            spec_fold_deps(
                job.run@,
                programs,
                pl,
                spec_ws0(job),
                spec_deps(job),
                spec_deps(job).len() as int,
            )->Ok_0
        };
        let insts = spec_insts(prog, threads, nid, ws);
        assert(st1.0 == map_set(pl, job.run@, insts) && st1.1 == nid + ws.len());
        assert forall|a: int|
            0 <= a < spec_ws0(job).len() implies ids_below(
            (#[trigger] spec_ws0(job)[a]).1,
            nid,
        ) by {
            assert(spec_ws0(job)[a].1 == Seq::<usize>::empty());
        };
        if job.on_each is Some {
            lemma_fold_deps_below(
                job.run@,
                programs,
                pl,
                spec_ws0(job),
                spec_deps(job),
                spec_deps(job).len() as int,
                nid,
            );
        }
        assert(ws_deps_below(ws, nid));
        assert forall|j: int| 0 <= j < insts.len() implies inst_id(#[trigger] insts[j]) == nid + j
            && inst_deps_before_own(insts[j]) by {
            assert(insts[j].id == Some((nid + j) as usize));
            assert(nid + j <= st1.1 - 1 <= usize::MAX);
            assert(inst_id(insts[j]) == nid + j);
            assert(insts[j].depends == ws[j].1);
            assert(ids_below(ws[j].1, nid));
            assert forall|d: int|
                0 <= d < insts[j].depends.len() implies #[trigger] insts[j].depends[d] < inst_id(
                insts[j],
            ) as int by {
                assert(ws[j].1[d] < nid);
            };
        };
        assert(insts_ids_below(insts, st1.1));
        assert(insts_linked(insts));
        assert forall|a: int|
            0 <= a < st1.0.len() implies insts_ids_below((#[trigger] st1.0[a]).1, st1.1)
            && insts_linked(st1.0[a].1) by {
            if map_has(pl, job.run@) {
                if a != map_idx(pl, job.run@) {
                    assert(st1.0[a] == pl[a]);
                    assert(insts_ids_below(pl[a].1, nid));
                    assert forall|j: int|
                        0 <= j < pl[a].1.len() implies inst_id(#[trigger] pl[a].1[j]) < st1.1 by {
                        assert(inst_id(pl[a].1[j]) < nid);
                    };
                }
            } else {
                if a < pl.len() {
                    assert(st1.0[a] == pl[a]);
                    assert(insts_ids_below(pl[a].1, nid));
                    assert forall|j: int|
                        0 <= j < pl[a].1.len() implies inst_id(#[trigger] pl[a].1[j]) < st1.1 by {
                        assert(inst_id(pl[a].1[j]) < nid);
                    };
                }
            }
        };
    }
}

proof fn lemma_flatten_linked(pl: Seq<(Seq<char>, Seq<InstModel>)>)
    requires
        planned_linked(pl),
    ensures
        insts_linked(spec_flatten(pl)),
    decreases pl.len(),
{
    if pl.len() > 0 {
        assert(forall|a: int| 0 <= a < pl.len() - 1 ==> #[trigger] pl.drop_last()[a] == pl[a]);
        lemma_flatten_linked(pl.drop_last());
        let f = spec_flatten(pl);
        let f0 = spec_flatten(pl.drop_last());
        let lastv = pl.last().1;
        assert(insts_linked(lastv));
        assert forall|j: int| 0 <= j < f.len() implies inst_deps_before_own(#[trigger] f[j]) by {
            if j < f0.len() {
                assert(f[j] == f0[j]);
            } else {
                assert(f[j] == lastv[j - f0.len()]);
            }
        };
    }
}

/// Law: in a successful plan, every dependency entry of every emitted
/// instance refers to an id assigned earlier in the same planning pass:
/// it is strictly smaller than the instance's own id.
pub proof fn lemma_depends_assigned_earlier(
    exp: Experiment,
    threads: usize,
    programs: Seq<(Seq<char>, Program)>,
)
    requires
        exp.plan_ids_fit(threads, programs),
        exp.spec_plan(threads, programs) is Ok,
    ensures
        insts_linked(exp.spec_plan(threads, programs)->Ok_0),
{
    let jobs = exp.jobs@;
    let n = jobs.len() as int;
    lemma_plan_upto_ids(jobs, threads, programs, n);
    lemma_flatten_linked(plan_state(jobs, threads, programs, n).0);
}

/// Each entry's instances carry consecutive ids starting at the first.
pub open spec fn insts_block(s: Seq<InstModel>) -> bool {
    forall|j: int|
        0 <= j < s.len() ==> inst_id(#[trigger] s[j]) == inst_id(s[0]) + j
}

/// Two instance blocks occupy disjoint id ranges.
pub open spec fn blocks_disjoint(x: Seq<InstModel>, y: Seq<InstModel>) -> bool {
    x.len() == 0 || y.len() == 0 || inst_id(x[0]) + x.len() <= inst_id(y[0]) || inst_id(y[0])
        + y.len() <= inst_id(x[0])
}

pub open spec fn planned_blocks(pl: Seq<(Seq<char>, Seq<InstModel>)>) -> bool {
    &&& forall|a: int| 0 <= a < pl.len() ==> insts_block((#[trigger] pl[a]).1)
    &&& forall|a: int, b: int|
        0 <= a < b < pl.len() ==> blocks_disjoint((#[trigger] pl[a]).1, (#[trigger] pl[b]).1)
}

pub open spec fn insts_ids_unique(s: Seq<InstModel>) -> bool {
    forall|j1: int, j2: int|
        0 <= j1 < j2 < s.len() ==> inst_id(#[trigger] s[j1]) != inst_id(#[trigger] s[j2])
}

/// After a successful planning prefix the table's id blocks are
/// consecutive per entry and pairwise disjoint, all below the counter.
proof fn lemma_plan_upto_blocks(
    jobs: Seq<Job>,
    threads: usize,
    programs: Seq<(Seq<char>, Program)>,
    i: int,
)
    requires
        0 <= i <= jobs.len(),
        spec_plan_upto(jobs, threads, programs, i) is Ok,
        forall|k: int|
            0 <= k <= jobs.len() ==> match #[trigger] spec_plan_upto(jobs, threads, programs, k) {
                Ok((pl, nid)) => nid <= usize::MAX,
                Err(_) => true,
            },
    ensures
        ({
            let st = plan_state(jobs, threads, programs, i);
            &&& st.1 >= 0
            &&& planned_ids_below(st.0, st.1)
            &&& planned_blocks(st.0)
        }),
    decreases i,
{
    if i > 0 {
        assert(spec_plan_upto(jobs, threads, programs, i - 1) is Ok);
        lemma_plan_upto_blocks(jobs, threads, programs, i - 1);
        lemma_plan_upto_ids(jobs, threads, programs, i);
        lemma_plan_upto_ids(jobs, threads, programs, i - 1);
        let st0 = plan_state(jobs, threads, programs, i - 1);
        let pl = st0.0;
        let nid = st0.1;
        let job = jobs[i - 1];
        let prog = map_val(programs, job.run@);
        let st1 = plan_state(jobs, threads, programs, i);
        assert(st1.1 <= usize::MAX);
        let ws = if job.on_each is None {
            spec_ws0(job)
        } else {
            spec_fold_deps(
                job.run@,
                programs,
                pl,
                spec_ws0(job),
                spec_deps(job),
                spec_deps(job).len() as int,
            )->Ok_0
        };
        let insts = spec_insts(prog, threads, nid, ws);
        assert(st1.0 == map_set(pl, job.run@, insts) && st1.1 == nid + ws.len());
        assert forall|j: int| 0 <= j < insts.len() implies inst_id(#[trigger] insts[j]) == nid
            + j by {
            assert(insts[j].id == Some((nid + j) as usize));
            assert(nid + j <= st1.1 - 1 <= usize::MAX);
        };
        assert(insts_block(insts));
        // an old entry's block sits wholly below the new one
        assert forall|a: int|
            0 <= a < pl.len() && (#[trigger] pl[a]).1.len() > 0 implies inst_id(pl[a].1[0])
            + pl[a].1.len() <= nid by {
            assert(insts_ids_below(pl[a].1, nid));
            let e = pl[a].1;
            assert(inst_id(e[e.len() - 1]) < nid);
            assert(inst_id(e[e.len() - 1]) == inst_id(e[0]) + e.len() - 1);
        };
        assert forall|a: int| 0 <= a < st1.0.len() implies insts_block((#[trigger] st1.0[a]).1) by {
            if map_has(pl, job.run@) {
                if a != map_idx(pl, job.run@) {
                    assert(st1.0[a] == pl[a]);
                }
            } else {
                if a < pl.len() {
                    assert(st1.0[a] == pl[a]);
                }
            }
        };
        assert forall|a: int, b: int|
            0 <= a < b < st1.0.len() implies blocks_disjoint(
            (#[trigger] st1.0[a]).1,
            (#[trigger] st1.0[b]).1,
        ) by {
            let idx = if map_has(pl, job.run@) {
                map_idx(pl, job.run@)
            } else {
                pl.len() as int
            };
            if a != idx && b != idx {
                assert(st1.0[a] == pl[a] && st1.0[b] == pl[b]);
            } else if a == idx {
                assert(st1.0[a].1 == insts && st1.0[b] == pl[b]);
                if pl[b].1.len() > 0 && insts.len() > 0 {
                    assert(inst_id(pl[b].1[0]) + pl[b].1.len() <= nid);
                    assert(inst_id(insts[0]) == nid);
                }
            } else {
                assert(st1.0[b].1 == insts && st1.0[a] == pl[a]);
                if pl[a].1.len() > 0 && insts.len() > 0 {
                    assert(inst_id(pl[a].1[0]) + pl[a].1.len() <= nid);
                    assert(inst_id(insts[0]) == nid);
                }
            }
        };
    }
}

/// The entry and offset the flattened position `j` comes from.
pub open spec fn flat_pos(pl: Seq<(Seq<char>, Seq<InstModel>)>, j: int) -> (int, int)
    decreases pl.len(),
{
    if pl.len() == 0 {
        (0, 0)
    } else if j < spec_flatten(pl.drop_last()).len() {
        flat_pos(pl.drop_last(), j)
    } else {
        (pl.len() - 1, j - spec_flatten(pl.drop_last()).len())
    }
}

proof fn lemma_flat_pos(pl: Seq<(Seq<char>, Seq<InstModel>)>, j: int)
    requires
        0 <= j < spec_flatten(pl).len(),
    ensures
        ({
            let (a, o) = flat_pos(pl, j);
            &&& 0 <= a < pl.len()
            &&& 0 <= o < pl[a].1.len()
            &&& spec_flatten(pl)[j] == pl[a].1[o]
        }),
    decreases pl.len(),
{
    let f0 = spec_flatten(pl.drop_last());
    if j < f0.len() {
        lemma_flat_pos(pl.drop_last(), j);
        let (a, o) = flat_pos(pl, j);
        assert(pl.drop_last()[a] == pl[a]);
        assert(spec_flatten(pl)[j] == f0[j]);
    }
}

proof fn lemma_flat_pos_mono(pl: Seq<(Seq<char>, Seq<InstModel>)>, j1: int, j2: int)
    requires
        0 <= j1 < j2 < spec_flatten(pl).len(),
    ensures
        ({
            let (a1, o1) = flat_pos(pl, j1);
            let (a2, o2) = flat_pos(pl, j2);
            a1 < a2 || (a1 == a2 && o1 < o2)
        }),
    decreases pl.len(),
{
    let f0 = spec_flatten(pl.drop_last());
    if j2 < f0.len() {
        lemma_flat_pos_mono(pl.drop_last(), j1, j2);
    } else if j1 < f0.len() {
        lemma_flat_pos(pl.drop_last(), j1);
    }
}

proof fn lemma_flatten_unique(pl: Seq<(Seq<char>, Seq<InstModel>)>)
    requires
        planned_blocks(pl),
    ensures
        insts_ids_unique(spec_flatten(pl)),
{
    let f = spec_flatten(pl);
    assert forall|j1: int, j2: int|
        0 <= j1 < j2 < f.len() implies inst_id(#[trigger] f[j1]) != inst_id(#[trigger] f[j2]) by {
        lemma_flat_pos(pl, j1);
        lemma_flat_pos(pl, j2);
        lemma_flat_pos_mono(pl, j1, j2);
        let (a1, o1) = flat_pos(pl, j1);
        let (a2, o2) = flat_pos(pl, j2);
        assert(insts_block(pl[a1].1) && insts_block(pl[a2].1));
        if a1 == a2 {
            assert(inst_id(pl[a1].1[o1]) == inst_id(pl[a1].1[0]) + o1);
            assert(inst_id(pl[a2].1[o2]) == inst_id(pl[a2].1[0]) + o2);
        } else {
            assert(blocks_disjoint(pl[a1].1, pl[a2].1));
            assert(inst_id(pl[a1].1[o1]) == inst_id(pl[a1].1[0]) + o1);
            assert(inst_id(pl[a2].1[o2]) == inst_id(pl[a2].1[0]) + o2);
        }
    };
}

/// Law: the ids of a successful plan's instances are pairwise distinct.
pub proof fn lemma_ids_unique(
    exp: Experiment,
    threads: usize,
    programs: Seq<(Seq<char>, Program)>,
)
    requires
        exp.plan_ids_fit(threads, programs),
        exp.spec_plan(threads, programs) is Ok,
    ensures
        insts_ids_unique(exp.spec_plan(threads, programs)->Ok_0),
{
    let jobs = exp.jobs@;
    let n = jobs.len() as int;
    lemma_plan_upto_blocks(jobs, threads, programs, n);
    lemma_flatten_unique(plan_state(jobs, threads, programs, n).0);
}

/// Validation from `i` on passing means the data pass accepts every later
/// required field.
proof fn lemma_validate_data_none(
    p: Program,
    params: Seq<(Seq<char>, FieldData)>,
    i: int,
    f: int,
)
    requires
        p.spec_validate_data_from(params, i) is None,
        0 <= i <= f < p.fields@.len(),
        p.fields@[f].1.option is None,
    ensures
        map_has(params, p.fields@[f].0),
    decreases f - i,
{
    if f > i {
        lemma_validate_data_none(p, params, i + 1, f);
    }
}

proof fn lemma_validate_settings_none(
    p: Program,
    params: Seq<(Seq<char>, FieldSetting)>,
    i: int,
    f: int,
)
    requires
        p.spec_validate_settings_from(params, i) is None,
        0 <= i <= f < p.fields@.len(),
        p.fields@[f].1.option is None,
    ensures
        map_has(params, p.fields@[f].0),
    decreases f - i,
{
    if f > i {
        lemma_validate_settings_none(p, params, i + 1, f);
    }
}

proof fn lemma_validate_ws_none(
    prog: Program,
    ws: Seq<(Seq<(Seq<char>, FieldData)>, Seq<usize>)>,
    i: int,
    j: int,
)
    requires
        spec_validate_ws(prog, ws, i) is None,
        0 <= i <= j < ws.len(),
    ensures
        prog.spec_validate_data(ws[j].0) is None,
    decreases j - i,
{
    if j > i {
        lemma_validate_ws_none(prog, ws, i + 1, j);
    }
}

/// Every assignment of the product over the first `i` settings binds every
/// one of those settings' names.
pub open spec fn assigns_cover(
    ps: Seq<Seq<(Seq<char>, FieldData)>>,
    entries: Seq<(Seq<char>, FieldSetting)>,
    i: int,
) -> bool {
    forall|j: int, t: int|
        0 <= j < ps.len() && 0 <= t < i ==> map_has(#[trigger] ps[j], (#[trigger] entries[t]).0)
}

proof fn lemma_attach_covers(
    p: Seq<(Seq<char>, FieldData)>,
    name: Seq<char>,
    vals: Seq<FieldData>,
    entries: Seq<(Seq<char>, FieldSetting)>,
    i: int,
)
    requires
        keys_unique(p),
        forall|t: int| 0 <= t < i ==> map_has(p, (#[trigger] entries[t]).0) || (entries[t]).0 == name,
    ensures
        assigns_cover(spec_attach(p, name, vals), entries, i),
    decreases vals.len(),
{
    if vals.len() > 0 {
        lemma_attach_covers(p, name, vals.drop_last(), entries, i);
        let at = spec_attach(p, name, vals);
        let at0 = spec_attach(p, name, vals.drop_last());
        assert forall|j: int, t: int|
            0 <= j < at.len() && 0 <= t < i implies map_has(
            #[trigger] at[j],
            (#[trigger] entries[t]).0,
        ) by {
            if j < at0.len() {
                assert(at[j] == at0[j]);
            } else {
                assert(at[j] == map_set(p, name, vals.last()));
                lemma_map_set_has(p, name, vals.last(), entries[t].0);
            }
        };
    }
}

proof fn lemma_cross_covers(
    ps: Seq<Seq<(Seq<char>, FieldData)>>,
    name: Seq<char>,
    vals: Seq<FieldData>,
    entries: Seq<(Seq<char>, FieldSetting)>,
    i: int,
)
    requires
        forall|j: int| 0 <= j < ps.len() ==> keys_unique(#[trigger] ps[j]),
        assigns_cover(ps, entries, i),
        0 <= i < entries.len(),
        entries[i].0 == name,
    ensures
        assigns_cover(spec_cross(ps, name, vals), entries, i + 1),
    decreases ps.len(),
{
    if ps.len() > 0 {
        assert(forall|j: int| 0 <= j < ps.len() - 1 ==> #[trigger] ps.drop_last()[j] == ps[j]);
        lemma_cross_covers(ps.drop_last(), name, vals, entries, i);
        assert forall|t: int|
            0 <= t < i + 1 implies map_has(ps.last(), (#[trigger] entries[t]).0) || (
        entries[t]).0 == name by {
            if t < i {
                assert(map_has(ps[ps.len() - 1], entries[t].0));
            }
        };
        lemma_attach_covers(ps.last(), name, vals, entries, i + 1);
        let c = spec_cross(ps, name, vals);
        let c0 = spec_cross(ps.drop_last(), name, vals);
        let at = spec_attach(ps.last(), name, vals);
        assert forall|j: int, t: int|
            0 <= j < c.len() && 0 <= t < i + 1 implies map_has(
            #[trigger] c[j],
            (#[trigger] entries[t]).0,
        ) by {
            if j < c0.len() {
                assert(c[j] == c0[j]);
                assert(map_has(c0[j], entries[t].0));
            } else {
                assert(c[j] == at[j - c0.len()]);
                assert(map_has(at[j - c0.len()], entries[t].0));
            }
        };
    }
}

proof fn lemma_product_covers(entries: Seq<(Seq<char>, FieldSetting)>, i: int)
    requires
        0 <= i <= entries.len(),
    ensures
        assigns_cover(spec_product_upto(entries, i), entries, i),
    decreases i,
{
    if i > 0 {
        lemma_product_covers(entries, i - 1);
        lemma_product_unique(entries, i - 1);
        lemma_cross_covers(
            spec_product_upto(entries, i - 1),
            entries[i - 1].0,
            spec_vectorize(entries[i - 1].1@),
            entries,
            i - 1,
        );
    }
}

/// Every assignment of a batch binds every parameter name the job gives.
pub proof fn lemma_batch_covers(job: Job, j: int, t: int)
    requires
        0 <= j < job.spec_batch().len(),
        0 <= t < job.parameters@.len(),
    ensures
        map_has(job.spec_batch()[j], job.parameters@[t].0),
{
    let base = job.spec_product().len() as int;
    if base == 0 {
        assert(job.spec_reps() * 0 == 0) by (nonlinear_arith);
    }
    vstd::arithmetic::div_mod::lemma_mod_bound(j, base);
    lemma_product_covers(job.parameters@, job.parameters@.len() as int);
    lemma_product_unique(job.parameters@, job.parameters@.len() as int);
    assert(map_has(job.spec_product()[j % base], job.parameters@[t].0));
    lemma_map_set_has(
        job.spec_product()[j % base],
        job.rep_key(),
        FieldData::UInt((j / base) as usize),
        job.parameters@[t].0,
    );
}

/// Every instance of the block binds, for the program it was planned
/// against, every declared field that has no option template.
pub open spec fn insts_cover(prog: Program, s: Seq<InstModel>) -> bool {
    forall|j: int, f: int|
        0 <= j < s.len() && 0 <= f < prog.fields@.len() && (prog.fields@[f]).1.option is None
            ==> map_has((#[trigger] s[j]).params, (#[trigger] prog.fields@[f]).0)
}

pub open spec fn planned_covered(
    pl: Seq<(Seq<char>, Seq<InstModel>)>,
    programs: Seq<(Seq<char>, Program)>,
) -> bool {
    forall|a: int|
        0 <= a < pl.len() ==> map_has(programs, (#[trigger] pl[a]).0) && insts_cover(
            map_val(programs, pl[a].0),
            pl[a].1,
        )
}

proof fn lemma_plan_upto_covered(
    jobs: Seq<Job>,
    threads: usize,
    programs: Seq<(Seq<char>, Program)>,
    i: int,
)
    requires
        0 <= i <= jobs.len(),
        spec_plan_upto(jobs, threads, programs, i) is Ok,
    ensures
        planned_covered(plan_state(jobs, threads, programs, i).0, programs),
    decreases i,
{
    if i > 0 {
        assert(spec_plan_upto(jobs, threads, programs, i - 1) is Ok);
        lemma_plan_upto_covered(jobs, threads, programs, i - 1);
        let st0 = plan_state(jobs, threads, programs, i - 1);
        let pl = st0.0;
        let nid = st0.1;
        let job = jobs[i - 1];
        let prog = map_val(programs, job.run@);
        let st1 = plan_state(jobs, threads, programs, i);
        let ws = if job.on_each is None {
            spec_ws0(job)
        } else {
            spec_fold_deps(
                job.run@,
                programs,
                pl,
                spec_ws0(job),
                spec_deps(job),
                spec_deps(job).len() as int,
            )->Ok_0
        };
        let insts = spec_insts(prog, threads, nid, ws);
        assert(st1.0 == map_set(pl, job.run@, insts));
        assert forall|j: int, f: int|
            0 <= j < insts.len() && 0 <= f < prog.fields@.len() && (prog.fields@[f]).1.option
                is None implies map_has(
            (#[trigger] insts[j]).params,
            (#[trigger] prog.fields@[f]).0,
        ) by {
            assert(insts[j].params == ws[j].0);
            if job.on_each is None {
                lemma_validate_settings_none(prog, job.parameters@, 0, f);
                let t = map_idx(job.parameters@, prog.fields@[f].0);
                assert(0 <= t < job.parameters@.len());
                assert(job.parameters@[t].0 == prog.fields@[f].0);
                assert(ws[j].0 == job.spec_batch()[j]);
                lemma_batch_covers(job, j, t);
            } else {
                lemma_validate_ws_none(prog, ws, 0, j);
                lemma_validate_data_none(prog, ws[j].0, 0, f);
            }
        };
        assert(insts_cover(prog, insts));
        assert forall|a: int|
            0 <= a < st1.0.len() implies map_has(programs, (#[trigger] st1.0[a]).0) && insts_cover(
            map_val(programs, st1.0[a].0),
            st1.0[a].1,
        ) by {
            if map_has(pl, job.run@) {
                if a != map_idx(pl, job.run@) {
                    assert(st1.0[a] == pl[a]);
                }
            } else {
                if a < pl.len() {
                    assert(st1.0[a] == pl[a]);
                }
            }
        };
    }
}

/// Law: after a successful plan, every recorded job instance binds a value
/// (possibly a `Future`) for every field its program declares without an
/// option template.
pub proof fn lemma_required_fields_present(
    exp: Experiment,
    threads: usize,
    programs: Seq<(Seq<char>, Program)>,
)
    requires
        exp.spec_plan(threads, programs) is Ok,
    ensures
        planned_covered(plan_state(exp.jobs@, threads, programs, exp.jobs@.len() as int).0, programs),
{
    lemma_plan_upto_covered(exp.jobs@, threads, programs, exp.jobs@.len() as int);
}

} // verus!
