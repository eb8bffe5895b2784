//! The field/value model: the scalar kinds a field may declare, concrete
//! field values, and the settings (single value, list, inclusive range) a
//! job may give for a field, together with the compatibility rules between
//! them and the expansion of a setting into its concrete values.

use crate::decimal::Dec;
use crate::text::render_u64;
use crate::text::spec_digits;
use vstd::prelude::*;
use vstd::string::StringExecFns;

verus! {

/// The declared kind of a field.
#[derive(Debug, Clone, Copy, PartialEq, Eq, Structural)]
pub enum FieldType {
    Str,
    Path,
    UInt,
    Float,
    Bool,
}

/// A concrete field value. `Future` stands for a dependency output that is
/// not known until run time; for typing it counts as a string.
#[derive(Debug, Clone, PartialEq, Eq)]
pub enum FieldData {
    Future,
    Str(String),
    Float(Dec),
    UInt(usize),
    Bool(bool),
}

impl FieldData {
    pub open spec fn wf(self) -> bool {
        match self {
            FieldData::Float(d) => d.wf(),
            _ => true,
        }
    }

    /// A copy that is equal, as a value, to the one copied.
    pub fn dup(&self) -> (r: FieldData)
        ensures
            r == *self,
    {
        match self {
            FieldData::Future => FieldData::Future,
            FieldData::Str(s) => FieldData::Str(s.clone()),
            FieldData::Float(d) => FieldData::Float(*d),
            FieldData::UInt(v) => FieldData::UInt(*v),
            FieldData::Bool(b) => FieldData::Bool(*b),
        }
    }

    pub fn unwrap_usize(&self) -> (r: usize)
        requires
            self is UInt,
        ensures
            *self == FieldData::UInt(r),
    {
        match self {
            FieldData::UInt(u) => *u,
            _ => {
                proof {
                    assert(false);
                }
                0
            },
        }
    }

    pub fn unwrap_float(&self) -> (r: Dec)
        requires
            self is Float,
        ensures
            *self == FieldData::Float(r),
    {
        match self {
            FieldData::Float(d) => *d,
            _ => {
                proof {
                    assert(false);
                }
                Dec { units: 0 }
            },
        }
    }

    /// The plain text form of the value: a string is itself, numbers render
    /// in decimal, booleans as `true`/`false`, and a future as nothing.
    pub open spec fn spec_str(self) -> Seq<char> {
        match self {
            FieldData::Future => Seq::empty(),
            FieldData::Str(s) => s@,
            FieldData::Float(d) => d.spec_render(),
            FieldData::UInt(v) => spec_digits(v as nat),
            FieldData::Bool(b) => if b {
                "true"@
            } else {
                "false"@
            },
        }
    }

    pub fn to_text(&self) -> (r: String)
        requires
            self.wf(),
        ensures
            r@ == self.spec_str(),
    {
        match self {
            FieldData::Future => String::new(),
            FieldData::Str(s) => s.clone(),
            FieldData::Float(d) => d.render(),
            FieldData::UInt(v) => render_u64(*v as u64),
            FieldData::Bool(b) => if *b {
                String::from_str("true")
            } else {
                String::from_str("false")
            },
        }
    }
}

/// The mathematical shape of a setting; lists are their element sequences.
pub ghost enum SettingModel {
    Range { from: FieldData, to: FieldData, step: FieldData },
    List(Seq<FieldData>),
    Value(FieldData),
}

/// How a field may be given values in a job: an inclusive arithmetic range,
/// an explicit list, or one value.
#[derive(Debug, Clone, PartialEq, Eq)]
pub enum FieldSetting {
    Range { from: FieldData, to: FieldData, step: FieldData },
    List(Vec<FieldData>),
    Value(FieldData),
}

impl View for FieldSetting {
    type V = SettingModel;

    open spec fn view(&self) -> SettingModel {
        match *self {
            FieldSetting::Range { from, to, step } => SettingModel::Range { from, to, step },
            FieldSetting::List(v) => SettingModel::List(v@),
            FieldSetting::Value(v) => SettingModel::Value(v),
        }
    }
}

impl SettingModel {
    /// A setting the expansion is defined on: values well formed, and a
    /// range homogeneous (unsigned with unsigned bounds, decimal with
    /// decimal bounds), stepping upward, with its last step representable.
    pub open spec fn wf(self) -> bool {
        match self {
            SettingModel::Range { from, to, step } => match (from, to, step) {
                (FieldData::UInt(f), FieldData::UInt(t), FieldData::UInt(st)) => st > 0 && t + st
                    <= usize::MAX,
                (FieldData::Float(f), FieldData::Float(t), FieldData::Float(st)) => st.units > 0
                    && t.units + st.units <= i64::MAX && f.wf() && t.wf() && st.wf(),
                _ => false,
            },
            SettingModel::List(v) => forall|i: int| 0 <= i < v.len() ==> (#[trigger] v[i]).wf(),
            SettingModel::Value(v) => v.wf(),
        }
    }
}

impl FieldSetting {
    /// A copy whose view equals that of the one copied.
    pub fn dup(&self) -> (r: FieldSetting)
        ensures
            r@ == self@,
    {
        match self {
            FieldSetting::Range { from, to, step } => FieldSetting::Range {
                from: from.dup(),
                to: to.dup(),
                step: step.dup(),
            },
            FieldSetting::List(v) => {
                let mut out: Vec<FieldData> = Vec::new();
                let n = v.len();
                let mut i: usize = 0;
                while i < n
                    invariant
                        i <= n,
                        n == v@.len(),
                        out@.len() == i,
                        forall|j: int| 0 <= j < i ==> out@[j] == v@[j],
                    decreases n - i,
                {
                    out.push(v[i].dup());
                    i = i + 1;
                }
                proof {
                    assert(out@ =~= v@);
                }
                FieldSetting::List(out)
            },
            FieldSetting::Value(v) => FieldSetting::Value(v.dup()),
        }
    }
}

impl FieldType {
    /// The typing table: `Str` and `Path` accept strings and futures,
    /// `UInt` accepts unsigned values and integral decimals, `Float`
    /// decimals, `Bool` booleans; nothing else.
    pub open spec fn spec_matches(self, data: FieldData) -> bool {
        match data {
            FieldData::Str(_) => self == FieldType::Str || self == FieldType::Path,
            FieldData::UInt(_) => self == FieldType::UInt,
            FieldData::Float(d) => self == FieldType::Float || (self == FieldType::UInt
                && d.spec_integral()),
            FieldData::Bool(_) => self == FieldType::Bool,
            FieldData::Future => self == FieldType::Str,
        }
    }

    pub fn matches(&self, data: &FieldData) -> (r: bool)
        requires
            data.wf(),
        ensures
            r == self.spec_matches(*data),
    {
        match data {
            FieldData::Str(_) => *self == FieldType::Str || *self == FieldType::Path,
            FieldData::UInt(_) => *self == FieldType::UInt,
            FieldData::Float(d) => *self == FieldType::Float || (*self == FieldType::UInt
                && d.is_integral()),
            FieldData::Bool(_) => *self == FieldType::Bool,
            FieldData::Future => *self == FieldType::Str,
        }
    }

    /// A range is accepted only by the numeric types, and each bound must
    /// match on its own; a list must match elementwise; a single value
    /// matches as a value.
    pub open spec fn spec_matches_setting(self, s: SettingModel) -> bool {
        match s {
            SettingModel::Range { from, to, step } => (self == FieldType::UInt || self
                == FieldType::Float) && self.spec_matches(from) && self.spec_matches(to)
                && self.spec_matches(step),
            SettingModel::List(v) => forall|i: int|
                0 <= i < v.len() ==> self.spec_matches(#[trigger] v[i]),
            SettingModel::Value(v) => self.spec_matches(v),
        }
    }

    pub fn matches_setting(&self, s: &FieldSetting) -> (r: bool)
        requires
            s@.data_wf(),
        ensures
            r == self.spec_matches_setting(s@),
    {
        match s {
            FieldSetting::Range { from, to, step } => (*self == FieldType::UInt || *self
                == FieldType::Float) && self.matches(from) && self.matches(to) && self.matches(
                step,
            ),
            FieldSetting::List(v) => {
                let n = v.len();
                let mut i: usize = 0;
                while i < n
                    invariant
                        i <= n,
                        n == v@.len(),
                        s@.data_wf(),
                        s@ == SettingModel::List(v@),
                        forall|j: int| 0 <= j < i ==> self.spec_matches(#[trigger] v@[j]),
                    decreases n - i,
                {
                    proof {
                        assert(s@.data_wf());
                        assert(s@ is List);
                        assert(s@->List_0 == v@);
                        assert(v@[i as int].wf());
                    }
                    if !self.matches(&v[i]) {
                        proof {
                            assert(!self.spec_matches(v@[i as int]));
                        }
                        return false;
                    }
                    i = i + 1;
                }
                true
            },
            FieldSetting::Value(v) => self.matches(v),
        }
    }
}

impl SettingModel {
    /// Every value the setting mentions is well formed; weaker than `wf`,
    /// and enough for type checking.
    pub open spec fn data_wf(self) -> bool {
        match self {
            SettingModel::Range { from, to, step } => from.wf() && to.wf() && step.wf(),
            SettingModel::List(v) => forall|i: int| 0 <= i < v.len() ==> (#[trigger] v[i]).wf(),
            SettingModel::Value(v) => v.wf(),
        }
    }
}

/// The unsigned inclusive progression from `cur` by `step`, stopping once
/// the running value passes `end`.
pub open spec fn spec_uint_range(cur: int, end: int, step: int) -> Seq<FieldData>
    decreases end + step - cur,
    when step > 0
{
    if cur > end {
        Seq::empty()
    } else {
        seq![FieldData::UInt(cur as usize)] + spec_uint_range(cur + step, end, step)
    }
}

/// The decimal inclusive progression, over counts of millionths.
pub open spec fn spec_dec_range(cur: int, end: int, step: int) -> Seq<FieldData>
    decreases end + step - cur,
    when step > 0
{
    if cur > end {
        Seq::empty()
    } else {
        seq![FieldData::Float(Dec { units: cur as i64 })] + spec_dec_range(cur + step, end, step)
    }
}

/// The concrete value sequence a setting stands for: a value is a one
/// element sequence, a list is itself, a range is its inclusive
/// progression.
pub open spec fn spec_vectorize(s: SettingModel) -> Seq<FieldData> {
    match s {
        SettingModel::Range { from, to, step } => match (from, to, step) {
            (FieldData::UInt(f), FieldData::UInt(t), FieldData::UInt(st)) => spec_uint_range(
                f as int,
                t as int,
                st as int,
            ),
            (FieldData::Float(f), FieldData::Float(t), FieldData::Float(st)) => spec_dec_range(
                f.units as int,
                t.units as int,
                st.units as int,
            ),
            _ => Seq::empty(),
        },
        SettingModel::List(v) => v,
        SettingModel::Value(v) => seq![v],
    }
}

/// Every value in a vectorized well-formed setting is well formed.
pub open spec fn all_wf(s: Seq<FieldData>) -> bool {
    forall|i: int| 0 <= i < s.len() ==> (#[trigger] s[i]).wf()
}

impl FieldSetting {
    /// Expands the setting into the ordered sequence of concrete values it
    /// stands for.
    #[verifier::rlimit(50)]
    pub fn vectorize(&self) -> (r: Vec<FieldData>)
        requires
            self@.wf(),
        ensures
            r@ == spec_vectorize(self@),
            all_wf(r@),
    {
        match self {
            FieldSetting::Range { from, to, step } => match (from, to, step) {
                (FieldData::UInt(f), FieldData::UInt(t), FieldData::UInt(st)) => {
                    let mut out: Vec<FieldData> = Vec::new();
                    let mut cur: usize = *f;
                    let end: usize = *t;
                    let stp: usize = *st;
                    proof {
                        assert(out@ + spec_uint_range(cur as int, end as int, stp as int)
                            =~= spec_uint_range(f as int, end as int, stp as int));
                    }
                    while cur <= end
                        invariant
                            stp > 0,
                            end + stp <= usize::MAX,
                            all_wf(out@),
                            out@ + spec_uint_range(cur as int, end as int, stp as int)
                                == spec_uint_range(f as int, end as int, stp as int),
                        decreases end + stp - cur,
                    {
                        out.push(FieldData::UInt(cur));
                        proof {
                            assert(spec_uint_range(cur as int, end as int, stp as int)
                                == seq![FieldData::UInt(cur)] + spec_uint_range(
                                cur + stp,
                                end as int,
                                stp as int,
                            ));
                            assert(push_assoc(
                                out@,
                                FieldData::UInt(cur),
                                spec_uint_range(cur + stp, end as int, stp as int),
                            ));
                        }
                        cur = cur + stp;
                    }
                    proof {
                        assert(spec_uint_range(cur as int, end as int, stp as int)
                            =~= Seq::<FieldData>::empty());
                        assert(out@ + Seq::<FieldData>::empty() =~= out@);
                        assert(all_wf(out@));
                        assert(out@ == spec_vectorize(self@));
                    }
                    out
                },
                (FieldData::Float(f), FieldData::Float(t), FieldData::Float(st)) => {
                    let mut out: Vec<FieldData> = Vec::new();
                    let mut cur: i64 = f.units;
                    let end: i64 = t.units;
                    let stp: i64 = st.units;
                    proof {
                        assert(out@ + spec_dec_range(cur as int, end as int, stp as int)
                            =~= spec_dec_range(f.units as int, end as int, stp as int));
                    }
                    while cur <= end
                        invariant
                            stp > 0,
                            end + stp <= i64::MAX,
                            cur > i64::MIN,
                            all_wf(out@),
                            out@ + spec_dec_range(cur as int, end as int, stp as int)
                                == spec_dec_range(f.units as int, end as int, stp as int),
                        decreases end + stp - cur,
                    {
                        out.push(FieldData::Float(Dec { units: cur }));
                        proof {
                            assert(spec_dec_range(cur as int, end as int, stp as int)
                                == seq![FieldData::Float(Dec { units: cur })] + spec_dec_range(
                                cur + stp,
                                end as int,
                                stp as int,
                            ));
                            assert(push_assoc(
                                out@,
                                FieldData::Float(Dec { units: cur }),
                                spec_dec_range(cur + stp, end as int, stp as int),
                            ));
                        }
                        cur = cur + stp;
                    }
                    proof {
                        assert(spec_dec_range(cur as int, end as int, stp as int)
                            =~= Seq::<FieldData>::empty());
                        assert(out@ + Seq::<FieldData>::empty() =~= out@);
                        assert(all_wf(out@));
                        assert(out@ == spec_vectorize(self@));
                    }
                    out
                },
                _ => {
                    proof {
                        assert(false);
                    }
                    Vec::new()
                },
            },
            FieldSetting::List(v) => {
                let mut out: Vec<FieldData> = Vec::new();
                let n = v.len();
                let mut i: usize = 0;
                while i < n
                    invariant
                        i <= n,
                        n == v@.len(),
                        out@.len() == i,
                        self@ == SettingModel::List(v@),
                        self@.wf(),
                        forall|j: int| 0 <= j < i ==> out@[j] == v@[j],
                    decreases n - i,
                {
                    out.push(v[i].dup());
                    i = i + 1;
                }
                proof {
                    assert(out@ =~= v@);
                    assert(self@ is List);
                    assert(self@->List_0 == v@);
                    assert forall|j: int| 0 <= j < out@.len() implies (#[trigger] out@[j]).wf() by {
                        assert(v@[j].wf());
                    };
                    assert(all_wf(out@));
                }
                out
            },
            FieldSetting::Value(v) => {
                let mut out: Vec<FieldData> = Vec::new();
                out.push(v.dup());
                proof {
                    assert(out@ =~= seq![*v]);
                    assert forall|j: int| 0 <= j < out@.len() implies (#[trigger] out@[j]).wf() by {
                        assert(out@[j] == *v);
                    };
                    assert(all_wf(out@));
                }
                out
            },
        }
    }
}

/// `(a.push(x)) + rest == a + (seq![x] + rest)`, the step every range loop
/// above takes.
pub open spec fn push_assoc(a: Seq<FieldData>, x: FieldData, rest: Seq<FieldData>) -> bool {
    a.push(x) + rest =~= a + (seq![x] + rest)
}

/// A setting the expansion is defined on mentions only well formed values.
pub proof fn lemma_setting_wf_data(s: SettingModel)
    requires
        s.wf(),
    ensures
        s.data_wf(),
{
}

} // verus!
