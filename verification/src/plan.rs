//! Jobs, parameter expansion, and the dependency-linking planner that turns
//! an ordered sequence of job declarations into a flat, ID-addressed list of
//! job instances.

use crate::data::spec_vectorize;
use crate::data::FieldData;
use crate::data::FieldSetting;
use crate::errors::ErrModel;
use crate::errors::PlanError;
use crate::program::data_map_wf;
use crate::program::Output;
use crate::program::Program;
use crate::smap::keys_unique;
use crate::smap::lemma_idx_of;
use crate::smap::lemma_map_set_has;
use crate::smap::map_has;
use crate::smap::map_idx;
use crate::smap::map_set;
use crate::smap::map_val;
use crate::smap::SMap;
use vstd::arithmetic::div_mod::lemma_fundamental_div_mod_converse;
use vstd::prelude::*;
use vstd::string::StringExecFns;

verus! {

/// The views of a sequence of parameter maps.
pub open spec fn assigns_view(s: Seq<SMap<FieldData>>) -> Seq<Seq<(Seq<char>, FieldData)>> {
    s.map_values(|m: SMap<FieldData>| m@)
}

/// Every map in the sequence has distinct keys and well formed values.
pub open spec fn assigns_wf(s: Seq<SMap<FieldData>>) -> bool {
    forall|i: int|
        0 <= i < s.len() ==> (#[trigger] s[i]).wf() && data_map_wf(s[i]@)
}

/// In a map with distinct keys, the key at `i` does not occur among the
/// first `i` entries.
pub proof fn lemma_prefix_fresh<V>(m: Seq<(Seq<char>, V)>, i: int)
    requires
        keys_unique(m),
        0 <= i < m.len(),
    ensures
        !map_has(m.take(i), m[i].0),
        keys_unique(m.take(i)),
{
    if map_has(m.take(i), m[i].0) {
        let j = map_idx(m.take(i), m[i].0);
        assert(m.take(i)[j] == m[j]);
    }
    assert forall|a: int, b: int| 0 <= a < b < i implies (#[trigger] m.take(i)[a]).0 != (
    #[trigger] m.take(i)[b]).0 by {
        assert(m.take(i)[a] == m[a] && m.take(i)[b] == m[b]);
    };
}

/// Binding a well formed value in a map of well formed values keeps every
/// value well formed.
pub proof fn lemma_map_set_data_wf(m: Seq<(Seq<char>, FieldData)>, k: Seq<char>, v: FieldData)
    requires
        data_map_wf(m),
        v.wf(),
    ensures
        data_map_wf(map_set(m, k, v)),
{
    let m2 = map_set(m, k, v);
    assert forall|i: int| 0 <= i < m2.len() implies (#[trigger] m2[i]).1.wf() by {
        if map_has(m, k) {
            if i != map_idx(m, k) {
                assert(m2[i] == m[i]);
            }
        } else {
            if i < m.len() {
                assert(m2[i] == m[i]);
            }
        }
    };
}

/// A copy of a parameter map, entry for entry.
fn dup_assign(m: &SMap<FieldData>) -> (r: SMap<FieldData>)
    requires
        m.wf(),
    ensures
        r@ == m@,
        r.wf(),
{
    let mut out: SMap<FieldData> = SMap::new();
    let n = m.len();
    let mut i: usize = 0;
    proof {
        assert(out@ =~= m@.take(0));
    }
    while i < n
        invariant
            i <= n,
            n == m@.len(),
            m.wf(),
            out.wf(),
            out@ == m@.take(i as int),
        decreases n - i,
    {
        let k = m.key_at(i);
        let v = m.val_at(i);
        proof {
            lemma_prefix_fresh(m@, i as int);
            assert(map_set(m@.take(i as int), m@[i as int].0, m@[i as int].1) =~= m@.take(
                i as int + 1,
            ));
        }
        out.insert(k.clone(), v.dup());
        i = i + 1;
    }
    proof {
        assert(m@.take(n as int) =~= m@);
    }
    out
}

/// The partial assignment `p` extended with `name` bound to each of `vals`
/// in turn, one resulting assignment per value.
pub open spec fn spec_attach(
    p: Seq<(Seq<char>, FieldData)>,
    name: Seq<char>,
    vals: Seq<FieldData>,
) -> Seq<Seq<(Seq<char>, FieldData)>>
    decreases vals.len(),
{
    if vals.len() == 0 {
        Seq::empty()
    } else {
        spec_attach(p, name, vals.drop_last()) + seq![map_set(p, name, vals.last())]
    }
}

/// Every partial assignment in `ps` extended with every value of `vals`:
/// one step of the cartesian product, the value varying fastest.
pub open spec fn spec_cross(
    ps: Seq<Seq<(Seq<char>, FieldData)>>,
    name: Seq<char>,
    vals: Seq<FieldData>,
) -> Seq<Seq<(Seq<char>, FieldData)>>
    decreases ps.len(),
{
    if ps.len() == 0 {
        Seq::empty()
    } else {
        spec_cross(ps.drop_last(), name, vals) + spec_attach(ps.last(), name, vals)
    }
}

/// The cartesian product over the first `i` parameter entries, in stored
/// field order, later fields varying fastest.
pub open spec fn spec_product_upto(entries: Seq<(Seq<char>, FieldSetting)>, i: int) -> Seq<
    Seq<(Seq<char>, FieldData)>,
>
    decreases i,
{
    if i <= 0 {
        seq![Seq::<(Seq<char>, FieldData)>::empty()]
    } else {
        spec_cross(
            spec_product_upto(entries, i - 1),
            entries[i - 1].0,
            spec_vectorize(entries[i - 1].1@),
        )
    }
}

pub proof fn lemma_attach_len(
    p: Seq<(Seq<char>, FieldData)>,
    name: Seq<char>,
    vals: Seq<FieldData>,
)
    ensures
        spec_attach(p, name, vals).len() == vals.len(),
    decreases vals.len(),
{
    if vals.len() > 0 {
        lemma_attach_len(p, name, vals.drop_last());
    }
}

pub proof fn lemma_cross_len(
    ps: Seq<Seq<(Seq<char>, FieldData)>>,
    name: Seq<char>,
    vals: Seq<FieldData>,
)
    ensures
        spec_cross(ps, name, vals).len() == ps.len() * vals.len(),
    decreases ps.len(),
{
    if ps.len() == 0 {
    } else {
        lemma_cross_len(ps.drop_last(), name, vals);
        lemma_attach_len(ps.last(), name, vals);
        assert((ps.len() - 1) * vals.len() + vals.len() == ps.len() * vals.len())
            by (nonlinear_arith);
    }
}

/// The cartesian product of the expanded settings of a parameter map.
fn product(params: &SMap<FieldSetting>) -> (r: Vec<SMap<FieldData>>)
    requires
        params.wf(),
        forall|i: int|
            0 <= i < params@.len() ==> (#[trigger] params@[i]).1@.wf(),
    ensures
        assigns_view(r@) == spec_product_upto(params@, params@.len() as int),
        assigns_wf(r@),
{
    let mut acc: Vec<SMap<FieldData>> = Vec::new();
    acc.push(SMap::new());
    proof {
        assert(assigns_view(acc@) =~= spec_product_upto(params@, 0));
    }
    let n = params.len();
    let mut i: usize = 0;
    while i < n
        invariant
            i <= n,
            n == params@.len(),
            params.wf(),
            forall|t: int|
                0 <= t < params@.len() ==> (#[trigger] params@[t]).1@.wf(),
            assigns_view(acc@) == spec_product_upto(params@, i as int),
            assigns_wf(acc@),
        decreases n - i,
    {
        let name = params.key_at(i);
        let setting = params.val_at(i);
        proof {
            assert(params@[i as int].1@.wf());
        }
        let vals = setting.vectorize();
        let mut next: Vec<SMap<FieldData>> = Vec::new();
        let m = acc.len();
        let mut j: usize = 0;
        proof {
            assert(assigns_view(acc@).take(0) =~= Seq::<Seq<(Seq<char>, FieldData)>>::empty());
            assert(assigns_view(next@) =~= spec_cross(assigns_view(acc@).take(0), name@, vals@));
        }
        while j < m
            invariant
                j <= m,
                m == acc@.len(),
                assigns_wf(acc@),
                assigns_wf(next@),
                vals@ == spec_vectorize(params@[i as int].1@),
                crate::data::all_wf(vals@),
                name@ == params@[i as int].0,
                i < n == params@.len(),
                params.wf(),
                assigns_view(next@) == spec_cross(assigns_view(acc@).take(j as int), name@, vals@),
            decreases m - j,
        {
            let base = &acc[j];
            let vlen = vals.len();
            let mut t: usize = 0;
            proof {
                assert(vals@.take(0) =~= Seq::<FieldData>::empty());
                assert(assigns_view(next@) + spec_attach(base@, name@, vals@.take(0))
                    =~= assigns_view(next@));
            }
            let ghost start = assigns_view(next@);
            while t < vlen
                invariant
                    t <= vlen,
                    vlen == vals@.len(),
                    crate::data::all_wf(vals@),
                    base.wf(),
                    data_map_wf(base@),
                    assigns_wf(next@),
                    assigns_view(next@) == start + spec_attach(base@, name@, vals@.take(t as int)),
                decreases vlen - t,
            {
                let mut m2 = dup_assign(base);
                proof {
                    assert(vals@[t as int].wf());
                    lemma_map_set_has(base@, name@, vals@[t as int], name@);
                    lemma_map_set_data_wf(base@, name@, vals@[t as int]);
                }
                m2.insert(name.clone(), vals[t].dup());
                let ghost prev = next@;
                next.push(m2);
                proof {
                    assert(m2@ == map_set(base@, name@, vals@[t as int]));
                    assert(assigns_view(next@) =~= assigns_view(prev) + seq![m2@]);
                    assert(vals@.take(t as int + 1).drop_last() =~= vals@.take(t as int));
                    assert(vals@.take(t as int + 1).last() == vals@[t as int]);
                    assert(spec_attach(base@, name@, vals@.take(t as int + 1)) == spec_attach(
                        base@,
                        name@,
                        vals@.take(t as int),
                    ) + seq![map_set(base@, name@, vals@[t as int])]);
                    assert((start + spec_attach(base@, name@, vals@.take(t as int))) + seq![m2@]
                        =~= start + spec_attach(base@, name@, vals@.take(t as int + 1)));
                    assert(assigns_view(next@) =~= start + spec_attach(
                        base@,
                        name@,
                        vals@.take(t as int + 1),
                    ));
                }
                t = t + 1;
            }
            proof {
                assert(vals@.take(vlen as int) =~= vals@);
                assert(assigns_view(acc@).take(j as int + 1).drop_last() =~= assigns_view(
                    acc@,
                ).take(j as int));
                assert(assigns_view(acc@).take(j as int + 1).last() == acc@[j as int]@);
                assert(spec_cross(assigns_view(acc@).take(j as int + 1), name@, vals@)
                    == spec_cross(assigns_view(acc@).take(j as int), name@, vals@) + spec_attach(
                    acc@[j as int]@,
                    name@,
                    vals@,
                ));
            }
            j = j + 1;
        }
        proof {
            assert(assigns_view(acc@).take(m as int) =~= assigns_view(acc@));
            assert(assigns_view(next@) == spec_cross(
                spec_product_upto(params@, i as int),
                params@[i as int].0,
                spec_vectorize(params@[i as int].1@),
            ));
            assert(assigns_view(next@) == spec_product_upto(params@, i as int + 1));
        }
        acc = next;
        i = i + 1;
    }
    acc
}

/// One declared unit of work in an experiment: a program reference,
/// parameter settings, an optional repetition count (default one), and an
/// optional list of prior jobs it depends on.
#[derive(Debug)]
pub struct Job {
    pub run: String,
    pub parameters: SMap<FieldSetting>,
    pub repetitions: Option<usize>,
    pub on_each: Option<Vec<String>>,
}

impl Job {
    /// Parameter keys distinct and every setting expandable.
    pub open spec fn wf(&self) -> bool {
        &&& self.parameters.wf()
        &&& forall|i: int|
            0 <= i < self.parameters@.len() ==> (#[trigger] self.parameters@[i]).1@.wf()
    }

    pub open spec fn spec_reps(&self) -> int {
        match self.repetitions {
            Some(r) => r as int,
            None => 1,
        }
    }

    /// The key of the synthetic repetition parameter.
    pub open spec fn rep_key(&self) -> Seq<char> {
        "repetition-"@ + self.run@
    }

    pub open spec fn spec_product(&self) -> Seq<Seq<(Seq<char>, FieldData)>> {
        spec_product_upto(self.parameters@, self.parameters@.len() as int)
    }

    /// The full batch: the cartesian product of the settings, replicated
    /// `repetitions` times by cycling through it; the assignment at
    /// position `i` additionally carries the repetition key bound to its
    /// replicate index `i / R`, where `R` is the product size.
    pub open spec fn spec_batch(&self) -> Seq<Seq<(Seq<char>, FieldData)>> {
        let prod = self.spec_product();
        let base = prod.len() as int;
        Seq::new(
            (self.spec_reps() * base) as nat,
            |i: int|
                map_set(
                    prod[i % base],
                    self.rep_key(),
                    FieldData::UInt((i / base) as usize),
                ),
        )
    }

    pub fn has_depends(&self) -> (r: bool)
        ensures
            r == (self.on_each is Some),
    {
        self.on_each.is_some()
    }

    /// Expands the job's settings into the ordered sequence of concrete
    /// parameter maps, tagging each replicate.
    pub fn batch(&self) -> (r: Result<Vec<SMap<FieldData>>, PlanError>)
        requires
            self.wf(),
        ensures
            match r {
                Ok(v) => assigns_view(v@) == self.spec_batch() && assigns_wf(v@),
                Err(_) => false,
            },
    {
        let prod = product(&self.parameters);
        let rl = prod.len();
        if rl == 0 {
            let out: Vec<SMap<FieldData>> = Vec::new();
            proof {
                assert(self.spec_product().len() == 0);
                assert(self.spec_reps() * 0 == 0) by (nonlinear_arith);
                assert(self.spec_batch().len() == 0);
                assert(assigns_view(out@) =~= self.spec_batch());
            }
            return Ok(out);
        }
        let reps: usize = match self.repetitions {
            Some(r) => r,
            None => 1,
        };
        let mut rk = String::from_str("repetition-");
        rk.append(self.run.as_str());
        let mut out: Vec<SMap<FieldData>> = Vec::new();
        let ghost goal = self.spec_batch();
        proof {
            assert(reps * rl >= 0) by (nonlinear_arith)
                requires reps >= 0 && rl >= 0;
            assert(goal.len() == reps * rl);
            assert(assigns_view(out@) =~= goal.take(0));
        }
        let mut rep: usize = 0;
        while rep < reps
            invariant
                rep <= reps,
                reps as int == self.spec_reps(),
                rl == prod@.len(),
                rl > 0,
                assigns_view(prod@) == self.spec_product(),
                assigns_wf(prod@),
                rk@ == self.rep_key(),
                goal == self.spec_batch(),
                goal.len() == reps * rl,
                out@.len() == rep * rl,
                assigns_view(out@) == goal.take((rep * rl) as int),
                assigns_wf(out@),
            decreases reps - rep,
        {
            let mut j: usize = 0;
            while j < rl
                invariant
                    j <= rl,
                    rep < reps,
                    reps as int == self.spec_reps(),
                    rl == prod@.len(),
                    rl > 0,
                    assigns_view(prod@) == self.spec_product(),
                    assigns_wf(prod@),
                    rk@ == self.rep_key(),
                    goal == self.spec_batch(),
                    goal.len() == reps * rl,
                    out@.len() == rep * rl + j,
                    assigns_view(out@) == goal.take((rep * rl + j) as int),
                    assigns_wf(out@),
                decreases rl - j,
            {
                let ghost idx: int = rep * rl + j;
                proof {
                    assert(rep * rl + j < reps * rl) by (nonlinear_arith)
                        requires rep < reps && j < rl && rl > 0 && rep >= 0 && j >= 0;
                    lemma_fundamental_div_mod_converse(idx, rl as int, rep as int, j as int);
                }
                let base = &prod[j];
                let mut m2 = dup_assign(base);
                proof {
                    lemma_map_set_has(base@, rk@, FieldData::UInt(rep), rk@);
                    lemma_map_set_data_wf(base@, rk@, FieldData::UInt(rep));
                }
                m2.insert(rk.clone(), FieldData::UInt(rep));
                let ghost prev = out@;
                out.push(m2);
                proof {
                    assert(m2@ == map_set(prod@[j as int]@, self.rep_key(), FieldData::UInt(rep)));
                    assert(self.spec_product()[j as int] == prod@[j as int]@);
                    assert(goal[idx] == m2@);
                    assert(assigns_view(out@) =~= assigns_view(prev) + seq![m2@]);
                    assert(goal.take(idx + 1) =~= goal.take(idx) + seq![goal[idx]]);
                    assert(assigns_view(out@) =~= goal.take(idx + 1));
                }
                j = j + 1;
            }
            proof {
                assert(rep * rl + rl == (rep + 1) * rl) by (nonlinear_arith);
            }
            rep = rep + 1;
        }
        proof {
            assert(goal.take((reps * rl) as int) =~= goal);
        }
        Ok(out)
    }
}

/// One fully resolved, ID-addressed, dependency-linked unit of planned
/// work, as the planner emits it.
#[derive(Debug)]
pub struct JobInstance {
    pub id: Option<usize>,
    pub command: String,
    pub params: SMap<FieldData>,
    pub log: String,
    pub depends: Vec<usize>,
    pub threads: usize,
}

/// The mathematical content of a job instance.
pub ghost struct InstModel {
    pub id: Option<usize>,
    pub command: Seq<char>,
    pub params: Seq<(Seq<char>, FieldData)>,
    pub log: Seq<char>,
    pub depends: Seq<usize>,
    pub threads: usize,
}

impl View for JobInstance {
    type V = InstModel;

    open spec fn view(&self) -> InstModel {
        InstModel {
            id: self.id,
            command: self.command@,
            params: self.params@,
            log: self.log@,
            depends: self.depends@,
            threads: self.threads,
        }
    }
}

pub open spec fn insts_view(s: Seq<JobInstance>) -> Seq<InstModel> {
    s.map_values(|j: JobInstance| j@)
}

/// The id of an instance the planner has emitted; planned instances always
/// carry one.
pub open spec fn inst_id(m: InstModel) -> usize {
    match m.id {
        Some(v) => v,
        None => 0,
    }
}

pub open spec fn inst_wf(m: InstModel) -> bool {
    m.id is Some && keys_unique(m.params) && data_map_wf(m.params)
}

pub open spec fn insts_wf(s: Seq<InstModel>) -> bool {
    forall|i: int| 0 <= i < s.len() ==> inst_wf(#[trigger] s[i])
}

/// The planner's accumulated table, viewed: job name to emitted instances.
pub open spec fn planned_view(s: Seq<(Seq<char>, Vec<JobInstance>)>) -> Seq<
    (Seq<char>, Seq<InstModel>),
> {
    s.map_values(|e: (Seq<char>, Vec<JobInstance>)| (e.0, insts_view(e.1@)))
}

pub open spec fn planned_wf(pl: Seq<(Seq<char>, Seq<InstModel>)>) -> bool {
    forall|i: int| 0 <= i < pl.len() ==> insts_wf((#[trigger] pl[i]).1)
}

/// `a` with every binding of `b` folded in, in `b`'s order: on a key
/// collision the later binding wins.
pub open spec fn spec_merge_upto(
    a: Seq<(Seq<char>, FieldData)>,
    b: Seq<(Seq<char>, FieldData)>,
    i: int,
) -> Seq<(Seq<char>, FieldData)>
    decreases i,
{
    if i <= 0 {
        a
    } else {
        map_set(spec_merge_upto(a, b, i - 1), b[i - 1].0, b[i - 1].1)
    }
}

pub open spec fn spec_merge(
    a: Seq<(Seq<char>, FieldData)>,
    b: Seq<(Seq<char>, FieldData)>,
) -> Seq<(Seq<char>, FieldData)> {
    spec_merge_upto(a, b, b.len() as int)
}

/// `a` with one `Future` placeholder bound for each of the first `i`
/// declared output names.
pub open spec fn spec_add_futures(
    a: Seq<(Seq<char>, FieldData)>,
    outs: Seq<(Seq<char>, Output)>,
    i: int,
) -> Seq<(Seq<char>, FieldData)>
    decreases i,
{
    if i <= 0 {
        a
    } else {
        map_set(spec_add_futures(a, outs, i - 1), outs[i - 1].0, FieldData::Future)
    }
}

/// One working item crossed with every instance of a dependency batch: the
/// dependency's resolved parameters override the item's, every output of
/// the dependency's program joins as a `Future`, and the dependency
/// instance's id joins the item's dependency list.
pub open spec fn spec_attach_dep(
    w: (Seq<(Seq<char>, FieldData)>, Seq<usize>),
    insts: Seq<InstModel>,
    outs: Seq<(Seq<char>, Output)>,
) -> Seq<(Seq<(Seq<char>, FieldData)>, Seq<usize>)>
    decreases insts.len(),
{
    if insts.len() == 0 {
        Seq::empty()
    } else {
        spec_attach_dep(w, insts.drop_last(), outs) + seq![
            (
                spec_add_futures(spec_merge(w.0, insts.last().params), outs, outs.len() as int),
                w.1.push(inst_id(insts.last())),
            ),
        ]
    }
}

pub open spec fn spec_cross_dep(
    ws: Seq<(Seq<(Seq<char>, FieldData)>, Seq<usize>)>,
    insts: Seq<InstModel>,
    outs: Seq<(Seq<char>, Output)>,
) -> Seq<(Seq<(Seq<char>, FieldData)>, Seq<usize>)>
    decreases ws.len(),
{
    if ws.len() == 0 {
        Seq::empty()
    } else {
        spec_cross_dep(ws.drop_last(), insts, outs) + spec_attach_dep(ws.last(), insts, outs)
    }
}

/// Folds the first `i` named dependencies into the working set, in the
/// given order; a name no earlier job has planned is an unknown dependency.
pub open spec fn spec_fold_deps(
    run: Seq<char>,
    programs: Seq<(Seq<char>, Program)>,
    planned: Seq<(Seq<char>, Seq<InstModel>)>,
    ws: Seq<(Seq<(Seq<char>, FieldData)>, Seq<usize>)>,
    deps: Seq<Seq<char>>,
    i: int,
) -> Result<Seq<(Seq<(Seq<char>, FieldData)>, Seq<usize>)>, ErrModel>
    decreases i,
{
    if i <= 0 {
        Ok(ws)
    } else {
        match spec_fold_deps(run, programs, planned, ws, deps, i - 1) {
            Err(e) => Err(e),
            Ok(cur) => {
                let dep = deps[i - 1];
                if !map_has(planned, dep) {
                    Err(ErrModel::UnknownDependency(run, dep))
                } else {
                    Ok(
                        spec_cross_dep(
                            cur,
                            map_val(planned, dep),
                            map_val(programs, dep).outputs@,
                        ),
                    )
                }
            },
        }
    }
}

/// The first data-validation failure among the working set's merged
/// assignments, in order.
pub open spec fn spec_validate_ws(
    prog: Program,
    ws: Seq<(Seq<(Seq<char>, FieldData)>, Seq<usize>)>,
    i: int,
) -> Option<ErrModel>
    decreases ws.len() - i,
{
    if i < 0 || i >= ws.len() {
        None
    } else {
        match prog.spec_validate_data(ws[i].0) {
            Some(e) => Some(e),
            None => spec_validate_ws(prog, ws, i + 1),
        }
    }
}

/// The instances a job emits: one per working item, ids assigned in order
/// starting at `nid`, the command rendered from the resolved parameters.
pub open spec fn spec_insts(
    prog: Program,
    threads: usize,
    nid: int,
    ws: Seq<(Seq<(Seq<char>, FieldData)>, Seq<usize>)>,
) -> Seq<InstModel> {
    Seq::new(
        ws.len(),
        |j: int|
            InstModel {
                id: Some((nid + j) as usize),
                command: prog.spec_cmd(ws[j].0),
                params: ws[j].0,
                log: Seq::empty(),
                depends: ws[j].1,
                threads,
            },
    )
}

/// The names a job's `on_each` lists, in order; none when absent.
pub open spec fn spec_deps(job: Job) -> Seq<Seq<char>> {
    match job.on_each {
        Some(v) => v@.map_values(|s: String| s@),
        None => Seq::empty(),
    }
}

/// A batch paired with empty dependency lists: the working set a job
/// starts from.
pub open spec fn spec_ws0(job: Job) -> Seq<(Seq<(Seq<char>, FieldData)>, Seq<usize>)> {
    job.spec_batch().map_values(
        |a: Seq<(Seq<char>, FieldData)>| (a, Seq::<usize>::empty()),
    )
}

pub open spec fn map_keys<V>(m: Seq<(Seq<char>, V)>) -> Seq<Seq<char>> {
    m.map_values(|e: (Seq<char>, V)| e.0)
}

/// Plans one job against the accumulated state: resolve the program,
/// validate, expand, fold dependencies in, and record the emitted
/// instances under the job's run name with fresh consecutive ids.
pub open spec fn spec_plan_job(
    job: Job,
    threads: usize,
    programs: Seq<(Seq<char>, Program)>,
    planned: Seq<(Seq<char>, Seq<InstModel>)>,
    nid: int,
) -> Result<(Seq<(Seq<char>, Seq<InstModel>)>, int), ErrModel> {
    if !map_has(programs, job.run@) {
        Err(ErrModel::InvalidProgram(job.run@, map_keys(programs)))
    } else {
        let prog = map_val(programs, job.run@);
        if job.on_each is None {
            match prog.spec_validate_settings(job.parameters@) {
                Some(e) => Err(e),
                None => {
                    let ws = spec_ws0(job);
                    Ok(
                        (
                            map_set(planned, job.run@, spec_insts(prog, threads, nid, ws)),
                            nid + ws.len(),
                        ),
                    )
                },
            }
        } else {
            match spec_fold_deps(
                job.run@,
                programs,
                planned,
                spec_ws0(job),
                spec_deps(job),
                spec_deps(job).len() as int,
            ) {
                Err(e) => Err(e),
                Ok(ws) => match spec_validate_ws(prog, ws, 0) {
                    Some(e) => Err(e),
                    None => Ok(
                        (
                            map_set(planned, job.run@, spec_insts(prog, threads, nid, ws)),
                            nid + ws.len(),
                        ),
                    ),
                },
            }
        }
    }
}

/// The planner state after the first `i` jobs, walking the declarations in
/// order: the planned table and the next fresh id.
pub open spec fn spec_plan_upto(
    jobs: Seq<Job>,
    threads: usize,
    programs: Seq<(Seq<char>, Program)>,
    i: int,
) -> Result<(Seq<(Seq<char>, Seq<InstModel>)>, int), ErrModel>
    decreases i,
{
    if i <= 0 {
        Ok((Seq::empty(), 0))
    } else {
        match spec_plan_upto(jobs, threads, programs, i - 1) {
            Err(e) => Err(e),
            Ok((pl, nid)) => spec_plan_job(jobs[i - 1], threads, programs, pl, nid),
        }
    }
}

/// The final flat list: the planned table's instance sequences
/// concatenated in the table's stored order (the order the job names were
/// first planned in).
pub open spec fn spec_flatten(pl: Seq<(Seq<char>, Seq<InstModel>)>) -> Seq<InstModel>
    decreases pl.len(),
{
    if pl.len() == 0 {
        Seq::empty()
    } else {
        spec_flatten(pl.drop_last()) + pl.last().1
    }
}

/// An error at step `i` is the outcome of every later step.
pub proof fn lemma_plan_upto_err(
    jobs: Seq<Job>,
    threads: usize,
    programs: Seq<(Seq<char>, Program)>,
    i: int,
    k: int,
)
    requires
        0 <= i <= k,
        spec_plan_upto(jobs, threads, programs, i) is Err,
    ensures
        spec_plan_upto(jobs, threads, programs, k) == spec_plan_upto(jobs, threads, programs, i),
    decreases k - i,
{
    if k > i {
        lemma_plan_upto_err(jobs, threads, programs, i, k - 1);
    }
}

/// Duplicates a dependency id list.
fn dup_ids(v: &Vec<usize>) -> (r: Vec<usize>)
    ensures
        r@ == v@,
{
    let mut out: Vec<usize> = Vec::new();
    let n = v.len();
    let mut i: usize = 0;
    while i < n
        invariant
            i <= n,
            n == v@.len(),
            out@ == v@.take(i as int),
        decreases n - i,
    {
        out.push(v[i]);
        proof {
            assert(out@ =~= v@.take(i as int + 1));
        }
        i = i + 1;
    }
    proof {
        assert(v@.take(n as int) =~= v@);
    }
    out
}

/// Folds `src`'s bindings into `dst`, later bindings overriding earlier
/// ones on the same key.
fn merge_into(dst: &mut SMap<FieldData>, src: &SMap<FieldData>)
    requires
        old(dst).wf(),
        data_map_wf(old(dst)@),
        data_map_wf(src@),
    ensures
        final(dst)@ == spec_merge(old(dst)@, src@),
        final(dst).wf(),
        data_map_wf(final(dst)@),
{
    let n = src.len();
    let mut i: usize = 0;
    while i < n
        invariant
            i <= n,
            n == src@.len(),
            data_map_wf(src@),
            dst.wf(),
            data_map_wf(dst@),
            dst@ == spec_merge_upto(old(dst)@, src@, i as int),
        decreases n - i,
    {
        let k = src.key_at(i);
        let v = src.val_at(i);
        proof {
            assert(src@[i as int].1.wf());
            lemma_map_set_has(dst@, src@[i as int].0, src@[i as int].1, src@[i as int].0);
            lemma_map_set_data_wf(dst@, src@[i as int].0, src@[i as int].1);
        }
        dst.insert(k.clone(), v.dup());
        i = i + 1;
    }
}

/// Binds a `Future` for every declared output name.
fn add_futures(dst: &mut SMap<FieldData>, outs: &SMap<Output>)
    requires
        old(dst).wf(),
        data_map_wf(old(dst)@),
    ensures
        final(dst)@ == spec_add_futures(old(dst)@, outs@, outs@.len() as int),
        final(dst).wf(),
        data_map_wf(final(dst)@),
{
    let n = outs.len();
    let mut i: usize = 0;
    while i < n
        invariant
            i <= n,
            n == outs@.len(),
            dst.wf(),
            data_map_wf(dst@),
            dst@ == spec_add_futures(old(dst)@, outs@, i as int),
        decreases n - i,
    {
        let k = outs.key_at(i);
        proof {
            lemma_map_set_has(dst@, outs@[i as int].0, FieldData::Future, outs@[i as int].0);
            lemma_map_set_data_wf(dst@, outs@[i as int].0, FieldData::Future);
        }
        dst.insert(k.clone(), FieldData::Future);
        i = i + 1;
    }
}

/// A copy of an instance, equal in view.
fn dup_instance(inst: &JobInstance) -> (r: JobInstance)
    requires
        inst.params.wf(),
    ensures
        r@ == inst@,
{
    JobInstance {
        id: inst.id,
        command: inst.command.clone(),
        params: dup_assign(&inst.params),
        log: inst.log.clone(),
        depends: dup_ids(&inst.depends),
        threads: inst.threads,
    }
}

/// The view of a working set.
pub open spec fn ws_view(s: Seq<(SMap<FieldData>, Vec<usize>)>) -> Seq<
    (Seq<(Seq<char>, FieldData)>, Seq<usize>),
> {
    s.map_values(|w: (SMap<FieldData>, Vec<usize>)| (w.0@, w.1@))
}

/// Every working item's map has distinct keys and well formed values.
pub open spec fn ws_wf(s: Seq<(SMap<FieldData>, Vec<usize>)>) -> bool {
    forall|i: int|
        0 <= i < s.len() ==> (#[trigger] s[i]).0.wf() && data_map_wf(s[i].0@)
}

/// Keys and values transfer between the planner's exec table and its view.
proof fn lemma_planned_view_val(s: Seq<(Seq<char>, Vec<JobInstance>)>, k: Seq<char>)
    requires
        keys_unique(s),
    ensures
        keys_unique(planned_view(s)),
        map_has(planned_view(s), k) == map_has(s, k),
        map_has(s, k) ==> map_val(planned_view(s), k) == insts_view(map_val(s, k)@),
{
    let pv = planned_view(s);
    assert(forall|i: int| 0 <= i < s.len() ==> (#[trigger] pv[i]).0 == s[i].0);
    assert(keys_unique(pv));
    if map_has(s, k) {
        let i = map_idx(s, k);
        assert(pv[i].0 == k);
        lemma_idx_of(s, i);
        lemma_idx_of(pv, i);
    }
    if map_has(pv, k) {
        let i = map_idx(pv, k);
        assert(s[i].0 == k);
        assert(map_has(s, k));
    }
}

/// Inserting into the exec table is inserting its view into the viewed
/// table.
proof fn lemma_planned_view_set(
    s: Seq<(Seq<char>, Vec<JobInstance>)>,
    k: Seq<char>,
    v: Vec<JobInstance>,
)
    requires
        keys_unique(s),
    ensures
        planned_view(map_set(s, k, v)) == map_set(planned_view(s), k, insts_view(v@)),
{
    lemma_planned_view_val(s, k);
    if map_has(s, k) {
        assert(map_idx(planned_view(s), k) == map_idx(s, k)) by {
            lemma_idx_of(s, map_idx(s, k));
            lemma_idx_of(planned_view(s), map_idx(s, k));
        };
        assert(planned_view(map_set(s, k, v)) =~= map_set(planned_view(s), k, insts_view(v@)));
    } else {
        assert(planned_view(map_set(s, k, v)) =~= map_set(planned_view(s), k, insts_view(v@)));
    }
}

/// An ordered sequence of job declarations; order is significant, since a
/// job may only depend on jobs planned before it.
#[derive(Debug)]
pub struct Experiment {
    pub jobs: Vec<Job>,
}

impl Experiment {
    pub open spec fn wf(&self) -> bool {
        forall|i: int| 0 <= i < self.jobs@.len() ==> (#[trigger] self.jobs@[i]).wf()
    }

    /// What planning the whole experiment yields: the flattened instance
    /// list, or the first error.
    pub open spec fn spec_plan(&self, threads: usize, programs: Seq<(Seq<char>, Program)>) -> Result<
        Seq<InstModel>,
        ErrModel,
    > {
        match spec_plan_upto(self.jobs@, threads, programs, self.jobs@.len() as int) {
            Ok((pl, nid)) => Ok(spec_flatten(pl)),
            Err(e) => Err(e),
        }
    }

    /// Every id the planning pass would assign fits the id type.
    pub open spec fn plan_ids_fit(&self, threads: usize, programs: Seq<(Seq<char>, Program)>) -> bool {
        forall|i: int|
            0 <= i <= self.jobs@.len() ==> match #[trigger] spec_plan_upto(
                self.jobs@,
                threads,
                programs,
                i,
            ) {
                Ok((pl, nid)) => nid <= usize::MAX,
                Err(_) => true,
            }
    }

    /// Converts the job declarations into a flat sequence of job instances
    /// ready for a broker: ids globally unique and monotonically assigned,
    /// each job's parameters expanded, dependencies resolved to the ids of
    /// instances planned earlier in the same pass.
    pub fn plan(&self, threads: usize, programs: &SMap<Program>) -> (r: Result<
        Vec<JobInstance>,
        PlanError,
    >)
        requires
            self.wf(),
            programs.wf(),
            forall|i: int|
                0 <= i < programs@.len() ==> (#[trigger] programs@[i]).1.wf(),
            self.plan_ids_fit(threads, programs@),
        ensures
            match r {
                Ok(v) => self.spec_plan(threads, programs@) == Ok::<Seq<InstModel>, ErrModel>(
                    insts_view(v@),
                ),
                Err(e) => self.spec_plan(threads, programs@) == Err::<Seq<InstModel>, ErrModel>(
                    e@,
                ),
            },
    {
        let ghost jobs = self.jobs@;
        let n_jobs = self.jobs.len();
        let mut planned: SMap<Vec<JobInstance>> = SMap::new();
        let mut next_id: usize = 0;
        let mut jx: usize = 0;
        proof {
            assert(planned_view(planned@) =~= Seq::<(Seq<char>, Seq<InstModel>)>::empty());
        }
        while jx < n_jobs
            invariant
                jx <= n_jobs,
                n_jobs == jobs.len(),
                jobs == self.jobs@,
                self.wf(),
                programs.wf(),
                forall|i: int|
                    0 <= i < programs@.len() ==> (#[trigger] programs@[i]).1.wf(),
                self.plan_ids_fit(threads, programs@),
                planned.wf(),
                planned_wf(planned_view(planned@)),
                forall|k: Seq<char>|
                    #[trigger] map_has(planned_view(planned@), k) ==> map_has(programs@, k),
                spec_plan_upto(jobs, threads, programs@, jx as int) == Ok::<
                    (Seq<(Seq<char>, Seq<InstModel>)>, int),
                    ErrModel,
                >((planned_view(planned@), next_id as int)),
            decreases n_jobs - jx,
        {
            let job = &self.jobs[jx];
            let ghost plv = planned_view(planned@);
            let ghost nid0 = next_id as int;
            proof {
                assert(jobs[jx as int].wf());
            }
            let prog = match programs.get(&job.run) {
                Some(p) => p,
                None => {
                    let np = programs.len();
                    let mut opts: Vec<String> = Vec::new();
                    let mut t: usize = 0;
                    while t < np
                        invariant
                            t <= np,
                            np == programs@.len(),
                            opts@.len() == t,
                            forall|a: int| 0 <= a < t ==> (#[trigger] opts@[a])@ == programs@[a].0,
                        decreases np - t,
                    {
                        opts.push(programs.key_at(t).clone());
                        t = t + 1;
                    }
                    proof {
                        assert(opts@.map_values(|s: String| s@) =~= map_keys(programs@));
                        assert(spec_plan_job(jobs[jx as int], threads, programs@, plv, nid0)
                            == Err::<(Seq<(Seq<char>, Seq<InstModel>)>, int), ErrModel>(
                            ErrModel::InvalidProgram(job.run@, map_keys(programs@)),
                        ));
                        lemma_plan_upto_err(jobs, threads, programs@, jx as int + 1, jobs.len() as int);
                    }
                    return Err(PlanError::InvalidProgram(job.run.clone(), opts));
                },
            };
            proof {
                assert(0 <= map_idx(programs@, job.run@) < programs@.len());
                assert(programs@[map_idx(programs@, job.run@)].1.wf());
                assert(prog.wf());
            }
            match &job.on_each {
                None => {
                    proof {
                        assert forall|i: int|
                            0 <= i < job.parameters@.len() implies (
                        #[trigger] job.parameters@[i]).1@.data_wf() by {
                            crate::data::lemma_setting_wf_data(job.parameters@[i].1@);
                        };
                    }
                    match prog.validate_parameters(&job.parameters) {
                        Err(e) => {
                            proof {
                                lemma_plan_upto_err(
                                    jobs,
                                    threads,
                                    programs@,
                                    jx as int + 1,
                                    jobs.len() as int,
                                );
                            }
                            return Err(e);
                        },
                        Ok(_) => {},
                    }
                    let assigns = match job.batch() {
                        Ok(v) => v,
                        Err(_) => {
                            proof {
                                assert(false);
                            }
                            Vec::new()
                        },
                    };
                    let ghost ws = spec_ws0(jobs[jx as int]);
                    let ghost goal = spec_insts(*prog, threads, nid0, ws);
                    proof {
                        assert(spec_plan_upto(jobs, threads, programs@, jx as int + 1) == Ok::<
                            (Seq<(Seq<char>, Seq<InstModel>)>, int),
                            ErrModel,
                        >((map_set(plv, job.run@, goal), nid0 + ws.len())));
                        assert(nid0 + ws.len() <= usize::MAX);
                        assert(ws.len() == assigns@.len());
                    }
                    let count = assigns.len();
                    let mut insts: Vec<JobInstance> = Vec::new();
                    let mut j: usize = 0;
                    proof {
                        assert(insts_view(insts@) =~= goal.take(0));
                    }
                    while j < count
                        invariant
                            j <= count,
                            count == assigns@.len(),
                            count == ws.len(),
                            prog.wf(),
                            assigns_wf(assigns@),
                            assigns_view(assigns@) == jobs[jx as int].spec_batch(),
                            ws == spec_ws0(jobs[jx as int]),
                            goal == spec_insts(*prog, threads, nid0, ws),
                            nid0 + ws.len() <= usize::MAX,
                            next_id == nid0 + j,
                            insts_view(insts@) == goal.take(j as int),
                            insts_wf(insts_view(insts@)),
                        decreases count - j,
                    {
                        proof {
                            assert(assigns@[j as int].wf() && data_map_wf(assigns@[j as int]@));
                            assert(ws[j as int].0 == assigns@[j as int]@);
                        }
                        let cmd_str = match prog.cmd(&assigns[j]) {
                            Ok(sv) => sv,
                            Err(_) => {
                                proof {
                                    assert(false);
                                }
                                String::new()
                            },
                        };
                        let inst = JobInstance {
                            id: Some(next_id),
                            command: cmd_str,
                            params: dup_assign(&assigns[j]),
                            log: String::new(),
                            depends: Vec::new(),
                            threads,
                        };
                        proof {
                            assert(inst@ == goal[j as int]);
                        }
                        let ghost prev = insts@;
                        insts.push(inst);
                        proof {
                            assert(insts_view(insts@) =~= insts_view(prev) + seq![inst@]);
                            assert(goal.take(j as int + 1) =~= goal.take(j as int) + seq![
                                goal[j as int],
                            ]);
                        }
                        next_id = next_id + 1;
                        j = j + 1;
                    }
                    proof {
                        assert(goal.take(count as int) =~= goal);
                        lemma_planned_view_set(planned@, job.run@, insts);
                        assert(insts_view(insts@) == goal);
                        lemma_planned_wf_set(plv, job.run@, goal);
                    }
                    planned.insert(job.run.clone(), insts);
                    proof {
                        assert(planned_view(planned@) == map_set(plv, job.run@, goal));
                        assert forall|k: Seq<char>|
                            #[trigger] map_has(planned_view(planned@), k) implies map_has(
                            programs@,
                            k,
                        ) by {
                            lemma_map_set_has(plv, job.run@, goal, k);
                        };
                    }
                },
                Some(deps) => {
                    let assigns = match job.batch() {
                        Ok(v) => v,
                        Err(_) => {
                            proof {
                                assert(false);
                            }
                            Vec::new()
                        },
                    };
                    let ghost ws0 = spec_ws0(jobs[jx as int]);
                    let ghost dseq = spec_deps(jobs[jx as int]);
                    let count0 = assigns.len();
                    let mut ws: Vec<(SMap<FieldData>, Vec<usize>)> = Vec::new();
                    let mut j: usize = 0;
                    proof {
                        assert(ws_view(ws@) =~= ws0.take(0));
                    }
                    while j < count0
                        invariant
                            j <= count0,
                            count0 == assigns@.len(),
                            assigns_wf(assigns@),
                            assigns_view(assigns@) == jobs[jx as int].spec_batch(),
                            ws0 == spec_ws0(jobs[jx as int]),
                            ws_view(ws@) == ws0.take(j as int),
                            ws_wf(ws@),
                        decreases count0 - j,
                    {
                        proof {
                            assert(assigns@[j as int].wf() && data_map_wf(assigns@[j as int]@));
                        }
                        let m2 = dup_assign(&assigns[j]);
                        let ds0: Vec<usize> = Vec::new();
                        let ghost itemv = (m2@, ds0@);
                        let ghost prev = ws@;
                        ws.push((m2, ds0));
                        proof {
                            assert(itemv == ws0[j as int]);
                            assert(ws_view(ws@) =~= ws_view(prev) + seq![itemv]);
                            assert(ws0.take(j as int + 1) =~= ws0.take(j as int) + seq![
                                ws0[j as int],
                            ]);
                        }
                        j = j + 1;
                    }
                    proof {
                        assert(ws0.take(count0 as int) =~= ws0);
                    }
                    let n_deps = deps.len();
                    let mut d: usize = 0;
                    while d < n_deps
                        invariant
                            d <= n_deps,
                            n_deps == dseq.len(),
                            dseq == spec_deps(jobs[jx as int]),
                            deps@.len() == dseq.len(),
                            forall|a: int| 0 <= a < dseq.len() ==> (#[trigger] deps@[a])@ == dseq[a],
                            ws0 == spec_ws0(jobs[jx as int]),
                            planned.wf(),
                            planned_wf(planned_view(planned@)),
                            plv == planned_view(planned@),
                            programs.wf(),
                            forall|i: int|
                                0 <= i < programs@.len() ==> (#[trigger] programs@[i]).1.wf(),
                            forall|k: Seq<char>|
                                #[trigger] map_has(planned_view(planned@), k) ==> map_has(
                                    programs@,
                                    k,
                                ),
                            spec_fold_deps(jobs[jx as int].run@, programs@, plv, ws0, dseq, d as int)
                                == Ok::<Seq<(Seq<(Seq<char>, FieldData)>, Seq<usize>)>, ErrModel>(
                                ws_view(ws@),
                            ),
                            ws_wf(ws@),
                            jobs == self.jobs@,
                            jx < jobs.len(),
                            job.run@ == jobs[jx as int].run@,
                            nid0 == next_id as int,
                            spec_plan_upto(jobs, threads, programs@, jx as int) == Ok::<
                                (Seq<(Seq<char>, Seq<InstModel>)>, int),
                                ErrModel,
                            >((plv, nid0)),
                            map_has(programs@, jobs[jx as int].run@),
                            *prog == map_val(programs@, jobs[jx as int].run@),
                            jobs[jx as int].on_each is Some,
                        decreases n_deps - d,
                    {
                        let dep = &deps[d];
                        let dep_insts = match planned.get(dep) {
                            Some(v) => v,
                            None => {
                                proof {
                                    lemma_planned_view_val(planned@, dep@);
                                    assert(spec_fold_deps(
                                        jobs[jx as int].run@,
                                        programs@,
                                        plv,
                                        ws0,
                                        dseq,
                                        d as int + 1,
                                    ) == Err::<
                                        Seq<(Seq<(Seq<char>, FieldData)>, Seq<usize>)>,
                                        ErrModel,
                                    >(ErrModel::UnknownDependency(jobs[jx as int].run@, dseq[d as int])));
                                    lemma_fold_deps_err(
                                        jobs[jx as int].run@,
                                        programs@,
                                        plv,
                                        ws0,
                                        dseq,
                                        d as int + 1,
                                        dseq.len() as int,
                                    );
                                    lemma_plan_upto_err(
                                        jobs,
                                        threads,
                                        programs@,
                                        jx as int + 1,
                                        jobs.len() as int,
                                    );
                                }
                                return Err(
                                    PlanError::UnknownDependency(job.run.clone(), dep.clone()),
                                );
                            },
                        };
                        proof {
                            lemma_planned_view_val(planned@, dep@);
                        }
                        let dep_prog = match programs.get(dep) {
                            Some(p) => p,
                            None => {
                                proof {
                                    assert(map_has(planned_view(planned@), dep@));
                                    assert(false);
                                }
                                vstd::pervasive::unreached()
                            },
                        };
                        let ghost iv = insts_view(dep_insts@);
                        let ghost outs = dep_prog.outputs@;
                        let ghost cur = ws_view(ws@);
                        proof {
                            assert(iv == map_val(plv, dep@));
                            assert(insts_wf(iv));
                        }
                        let n_ws = ws.len();
                        let n_di = dep_insts.len();
                        let mut nws: Vec<(SMap<FieldData>, Vec<usize>)> = Vec::new();
                        let mut a: usize = 0;
                        proof {
                            assert(ws_view(nws@) =~= spec_cross_dep(cur.take(0), iv, outs));
                        }
                        while a < n_ws
                            invariant
                                a <= n_ws,
                                n_ws == ws@.len(),
                                n_di == iv.len(),
                                n_di == dep_insts@.len(),
                                iv == insts_view(dep_insts@),
                                insts_wf(iv),
                                cur == ws_view(ws@),
                                ws_wf(ws@),
                                outs == dep_prog.outputs@,
                                ws_view(nws@) == spec_cross_dep(cur.take(a as int), iv, outs),
                                ws_wf(nws@),
                            decreases n_ws - a,
                        {
                            let mut b: usize = 0;
                            let ghost base = cur[a as int];
                            proof {
                                assert(base == (ws@[a as int].0@, ws@[a as int].1@));
                                assert(spec_attach_dep(base, iv.take(0), outs) =~= Seq::<
                                    (Seq<(Seq<char>, FieldData)>, Seq<usize>),
                                >::empty());
                                assert(ws_view(nws@) + spec_attach_dep(base, iv.take(0), outs)
                                    =~= ws_view(nws@));
                            }
                            let ghost startv = ws_view(nws@);
                            while b < n_di
                                invariant
                                    b <= n_di,
                                    a < n_ws,
                                    n_ws == ws@.len(),
                                    n_di == iv.len(),
                                    n_di == dep_insts@.len(),
                                    iv == insts_view(dep_insts@),
                                    insts_wf(iv),
                                    base == cur[a as int],
                                    cur == ws_view(ws@),
                                    ws_wf(ws@),
                                    outs == dep_prog.outputs@,
                                    ws_view(nws@) == startv + spec_attach_dep(
                                        base,
                                        iv.take(b as int),
                                        outs,
                                    ),
                                    ws_wf(nws@),
                                decreases n_di - b,
                            {
                                proof {
                                    assert(inst_wf(iv[b as int]));
                                    assert(iv[b as int] == dep_insts@[b as int]@);
                                    assert(ws@[a as int].0.wf() && data_map_wf(ws@[a as int].0@));
                                }
                                let mut m2 = dup_assign(&ws[a].0);
                                merge_into(&mut m2, &dep_insts[b].params);
                                add_futures(&mut m2, &dep_prog.outputs);
                                let mut ds2 = dup_ids(&ws[a].1);
                                let depid = match dep_insts[b].id {
                                    Some(x) => x,
                                    None => {
                                        proof {
                                            assert(false);
                                        }
                                        0
                                    },
                                };
                                ds2.push(depid);
                                let ghost itemv = (m2@, ds2@);
                                let ghost prev = nws@;
                                nws.push((m2, ds2));
                                proof {
                                    assert(itemv == (
                                        spec_add_futures(
                                            spec_merge(base.0, iv[b as int].params),
                                            outs,
                                            outs.len() as int,
                                        ),
                                        base.1.push(inst_id(iv[b as int])),
                                    ));
                                    assert(ws_view(nws@) =~= ws_view(prev) + seq![itemv]);
                                    assert(iv.take(b as int + 1).drop_last() =~= iv.take(b as int));
                                    assert(iv.take(b as int + 1).last() == iv[b as int]);
                                    assert(spec_attach_dep(base, iv.take(b as int + 1), outs)
                                        == spec_attach_dep(base, iv.take(b as int), outs) + seq![
                                        itemv,
                                    ]);
                                    assert(ws_view(nws@) =~= startv + spec_attach_dep(
                                        base,
                                        iv.take(b as int + 1),
                                        outs,
                                    ));
                                }
                                b = b + 1;
                            }
                            proof {
                                assert(iv.take(n_di as int) =~= iv);
                                assert(cur.take(a as int + 1).drop_last() =~= cur.take(a as int));
                                assert(cur.take(a as int + 1).last() == cur[a as int]);
                                assert(spec_cross_dep(cur.take(a as int + 1), iv, outs)
                                    == spec_cross_dep(cur.take(a as int), iv, outs)
                                    + spec_attach_dep(base, iv, outs));
                            }
                            a = a + 1;
                        }
                        proof {
                            assert(cur.take(n_ws as int) =~= cur);
                            assert(map_val(programs@, dep@) == *dep_prog);
                            assert(spec_fold_deps(
                                jobs[jx as int].run@,
                                programs@,
                                plv,
                                ws0,
                                dseq,
                                d as int + 1,
                            ) == Ok::<Seq<(Seq<(Seq<char>, FieldData)>, Seq<usize>)>, ErrModel>(
                                ws_view(nws@),
                            ));
                        }
                        ws = nws;
                        d = d + 1;
                    }
                    let ghost wsv = ws_view(ws@);
                    let n_ws = ws.len();
                    let mut v: usize = 0;
                    while v < n_ws
                        invariant
                            v <= n_ws,
                            n_ws == ws@.len(),
                            wsv == ws_view(ws@),
                            ws_wf(ws@),
                            prog.wf(),
                            spec_validate_ws(*prog, wsv, 0) == spec_validate_ws(
                                *prog,
                                wsv,
                                v as int,
                            ),
                            jobs == self.jobs@,
                            jx < jobs.len(),
                            nid0 == next_id as int,
                            spec_plan_upto(jobs, threads, programs@, jx as int) == Ok::<
                                (Seq<(Seq<char>, Seq<InstModel>)>, int),
                                ErrModel,
                            >((plv, nid0)),
                            map_has(programs@, jobs[jx as int].run@),
                            *prog == map_val(programs@, jobs[jx as int].run@),
                            jobs[jx as int].on_each is Some,
                            dseq == spec_deps(jobs[jx as int]),
                            ws0 == spec_ws0(jobs[jx as int]),
                            spec_fold_deps(
                                jobs[jx as int].run@,
                                programs@,
                                plv,
                                ws0,
                                dseq,
                                dseq.len() as int,
                            ) == Ok::<Seq<(Seq<(Seq<char>, FieldData)>, Seq<usize>)>, ErrModel>(
                                wsv,
                            ),
                        decreases n_ws - v,
                    {
                        proof {
                            assert(ws@[v as int].0.wf() && data_map_wf(ws@[v as int].0@));
                            assert(wsv[v as int].0 == ws@[v as int].0@);
                        }
                        match prog.validate_parameter_data(&ws[v].0) {
                            Err(e) => {
                                proof {
                                    assert(spec_validate_ws(*prog, wsv, v as int) == Some(e@));
                                    lemma_plan_upto_err(
                                        jobs,
                                        threads,
                                        programs@,
                                        jx as int + 1,
                                        jobs.len() as int,
                                    );
                                }
                                return Err(e);
                            },
                            Ok(_) => {},
                        }
                        v = v + 1;
                    }
                    let ghost goal = spec_insts(*prog, threads, nid0, wsv);
                    proof {
                        assert(spec_plan_upto(jobs, threads, programs@, jx as int + 1) == Ok::<
                            (Seq<(Seq<char>, Seq<InstModel>)>, int),
                            ErrModel,
                        >((map_set(plv, job.run@, goal), nid0 + wsv.len())));
                        assert(nid0 + wsv.len() <= usize::MAX);
                    }
                    let count = ws.len();
                    let mut insts: Vec<JobInstance> = Vec::new();
                    let mut j: usize = 0;
                    proof {
                        assert(insts_view(insts@) =~= goal.take(0));
                    }
                    while j < count
                        invariant
                            j <= count,
                            count == ws@.len(),
                            count == wsv.len(),
                            wsv == ws_view(ws@),
                            ws_wf(ws@),
                            prog.wf(),
                            goal == spec_insts(*prog, threads, nid0, wsv),
                            nid0 + wsv.len() <= usize::MAX,
                            next_id == nid0 + j,
                            insts_view(insts@) == goal.take(j as int),
                            insts_wf(insts_view(insts@)),
                        decreases count - j,
                    {
                        proof {
                            assert(ws@[j as int].0.wf() && data_map_wf(ws@[j as int].0@));
                            assert(wsv[j as int] == (ws@[j as int].0@, ws@[j as int].1@));
                        }
                        let cmd_str = match prog.cmd(&ws[j].0) {
                            Ok(sv) => sv,
                            Err(_) => {
                                proof {
                                    assert(false);
                                }
                                String::new()
                            },
                        };
                        let inst = JobInstance {
                            id: Some(next_id),
                            command: cmd_str,
                            params: dup_assign(&ws[j].0),
                            log: String::new(),
                            depends: dup_ids(&ws[j].1),
                            threads,
                        };
                        proof {
                            assert(inst@ == goal[j as int]);
                        }
                        let ghost prev = insts@;
                        insts.push(inst);
                        proof {
                            assert(insts_view(insts@) =~= insts_view(prev) + seq![inst@]);
                            assert(goal.take(j as int + 1) =~= goal.take(j as int) + seq![
                                goal[j as int],
                            ]);
                        }
                        next_id = next_id + 1;
                        j = j + 1;
                    }
                    proof {
                        assert(goal.take(count as int) =~= goal);
                        lemma_planned_view_set(planned@, job.run@, insts);
                        assert(insts_view(insts@) == goal);
                        lemma_planned_wf_set(plv, job.run@, goal);
                    }
                    planned.insert(job.run.clone(), insts);
                    proof {
                        assert(planned_view(planned@) == map_set(plv, job.run@, goal));
                        assert forall|k: Seq<char>|
                            #[trigger] map_has(planned_view(planned@), k) implies map_has(
                            programs@,
                            k,
                        ) by {
                            lemma_map_set_has(plv, job.run@, goal, k);
                        };
                    }
                },
            }
            jx = jx + 1;
        }
        let ghost plv = planned_view(planned@);
        let np = planned.len();
        let mut out: Vec<JobInstance> = Vec::new();
        let mut p: usize = 0;
        proof {
            assert(insts_view(out@) =~= spec_flatten(plv.take(0)));
        }
        while p < np
            invariant
                p <= np,
                np == planned@.len(),
                plv == planned_view(planned@),
                planned.wf(),
                planned_wf(plv),
                insts_view(out@) == spec_flatten(plv.take(p as int)),
            decreases np - p,
        {
            let insts = planned.val_at(p);
            let m = insts.len();
            let mut q: usize = 0;
            let ghost startv = insts_view(out@);
            proof {
                assert(plv[p as int].1 == insts_view(insts@));
                assert(startv + insts_view(insts@).take(0) =~= startv);
            }
            while q < m
                invariant
                    q <= m,
                    p < np,
                    np == planned@.len(),
                    m == insts@.len(),
                    plv == planned_view(planned@),
                    planned.wf(),
                    planned_wf(plv),
                    insts_view(insts@) == plv[p as int].1,
                    insts_view(out@) == startv + insts_view(insts@).take(q as int),
                decreases m - q,
            {
                proof {
                    assert(inst_wf(plv[p as int].1[q as int]));
                    assert(insts@[q as int]@ == plv[p as int].1[q as int]);
                }
                let inst = dup_instance(&insts[q]);
                let ghost prev = out@;
                out.push(inst);
                proof {
                    assert(insts_view(out@) =~= insts_view(prev) + seq![inst@]);
                    assert(insts_view(insts@).take(q as int + 1) =~= insts_view(insts@).take(
                        q as int,
                    ) + seq![insts_view(insts@)[q as int]]);
                    assert(insts_view(out@) =~= startv + insts_view(insts@).take(q as int + 1));
                }
                q = q + 1;
            }
            proof {
                assert(insts_view(insts@).take(m as int) =~= insts_view(insts@));
                assert(plv.take(p as int + 1).drop_last() =~= plv.take(p as int));
                assert(plv.take(p as int + 1).last() == plv[p as int]);
                assert(spec_flatten(plv.take(p as int + 1)) == spec_flatten(plv.take(p as int))
                    + plv[p as int].1);
            }
            p = p + 1;
        }
        proof {
            assert(plv.take(np as int) =~= plv);
        }
        Ok(out)
    }
}

/// Recording a job's instances keeps every planned instance well formed.
proof fn lemma_planned_wf_set(
    pl: Seq<(Seq<char>, Seq<InstModel>)>,
    k: Seq<char>,
    v: Seq<InstModel>,
)
    requires
        planned_wf(pl),
        insts_wf(v),
    ensures
        planned_wf(map_set(pl, k, v)),
{
    let m2 = map_set(pl, k, v);
    assert forall|i: int| 0 <= i < m2.len() implies insts_wf((#[trigger] m2[i]).1) by {
        if map_has(pl, k) {
            if i != map_idx(pl, k) {
                assert(m2[i] == pl[i]);
            }
        } else {
            if i < pl.len() {
                assert(m2[i] == pl[i]);
            }
        }
    };
}

/// An error while folding dependencies is the outcome of the whole fold.
pub proof fn lemma_fold_deps_err(
    run: Seq<char>,
    programs: Seq<(Seq<char>, Program)>,
    planned: Seq<(Seq<char>, Seq<InstModel>)>,
    ws: Seq<(Seq<(Seq<char>, FieldData)>, Seq<usize>)>,
    deps: Seq<Seq<char>>,
    i: int,
    k: int,
)
    requires
        0 <= i <= k,
        spec_fold_deps(run, programs, planned, ws, deps, i) is Err,
    ensures
        spec_fold_deps(run, programs, planned, ws, deps, k) == spec_fold_deps(
            run,
            programs,
            planned,
            ws,
            deps,
            i,
        ),
    decreases k - i,
{
    if k > i {
        lemma_fold_deps_err(run, programs, planned, ws, deps, i, k - 1);
    }
}

} // verus!
