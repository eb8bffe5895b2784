//! Program schemas: typed fields with optional option templates, named
//! outputs, the command renderer, and the two validation passes (settings at
//! plan time, concrete data at dependency-resolution time).

use crate::data::FieldData;
use crate::data::FieldSetting;
use crate::data::FieldType;
use crate::errors::ErrModel;
use crate::errors::PlanError;
use crate::smap::map_has;
use crate::smap::map_idx;
use crate::smap::map_val;
use crate::smap::SMap;
use crate::text::replace_all;
use crate::text::spec_replace_all;
use crate::text::spec_substitute;
use crate::text::substitute_marker;
use vstd::prelude::*;
use vstd::string::StrSliceExecFns;
use vstd::string::StringExecFns;

verus! {

/// Batch policy metadata carried on a field; declared in the schema but not
/// consumed by expansion or resolution. `Off` is the absent policy, the
/// schema's `none`, and the default.
#[derive(Debug, Clone, PartialEq, Eq)]
pub enum BatchType {
    Max,
    Join(String),
    Off,
}

impl Default for BatchType {
    fn default() -> (r: Self)
        ensures
            r == BatchType::Off,
    {
        BatchType::Off
    }
}

/// One declared field of a program: its expected kind, informational
/// aliases, an optional option template (a field with one is rendered as a
/// command line option and is never mandatory), and batch metadata.
#[derive(Debug, PartialEq)]
pub struct Field {
    pub dtype: FieldType,
    pub aka: Vec<String>,
    pub option: Option<String>,
    pub batch: BatchType,
}

impl Field {
    pub fn matches(&self, datum: &FieldData) -> (r: bool)
        requires
            datum.wf(),
        ensures
            r == self.dtype.spec_matches(*datum),
    {
        self.dtype.matches(datum)
    }

    /// The command line fragment a matching value renders to: with no
    /// option template, the value's plain text; with one, a true flag is
    /// the template itself, a false flag is nothing, and any other value is
    /// the template with its first placeholder replaced by the value's
    /// text.
    pub open spec fn spec_fill(self, datum: FieldData) -> Seq<char> {
        match self.option {
            Some(opt) => match datum {
                FieldData::Bool(b) => if b {
                    opt@
                } else {
                    Seq::empty()
                },
                _ => spec_substitute(opt@, datum.spec_str()),
            },
            None => datum.spec_str(),
        }
    }

    /// Renders a value already known to match the field's type.
    pub fn fill_value(&self, datum: &FieldData) -> (r: String)
        requires
            datum.wf(),
            self.dtype.spec_matches(*datum),
        ensures
            r@ == self.spec_fill(*datum),
    {
        match &self.option {
            Some(opt) => match datum {
                FieldData::Bool(b) => if *b {
                    opt.clone()
                } else {
                    String::new()
                },
                _ => {
                    let text = datum.to_text();
                    substitute_marker(opt.as_str(), text.as_str())
                },
            },
            None => datum.to_text(),
        }
    }

    /// Renders a value, re-checking the type so the call is safe without
    /// any earlier validation.
    pub fn fill_with(&self, datum: &FieldData) -> (r: Result<String, PlanError>)
        requires
            datum.wf(),
        ensures
            match r {
                Ok(s) => self.dtype.spec_matches(*datum) && s@ == self.spec_fill(*datum),
                Err(e) => !self.dtype.spec_matches(*datum) && e@ == ErrModel::FieldMismatch(
                    self.dtype,
                    *datum,
                ),
            },
    {
        if self.dtype.matches(datum) {
            Ok(self.fill_value(datum))
        } else {
            Err(PlanError::FieldMismatch(self.dtype, datum.dup()))
        }
    }
}

/// A named output a job of a program is expected to produce.
#[derive(Debug, PartialEq)]
pub struct Output {
    pub msg: String,
    pub aka: Vec<String>,
}

/// Every value in a concrete parameter map is well formed.
pub open spec fn data_map_wf(m: Seq<(Seq<char>, FieldData)>) -> bool {
    forall|i: int| 0 <= i < m.len() ==> (#[trigger] m[i]).1.wf()
}

/// Every setting in a settings map mentions only well formed values.
pub open spec fn settings_map_wf(m: Seq<(Seq<char>, FieldSetting)>) -> bool {
    forall|i: int| 0 <= i < m.len() ==> (#[trigger] m[i]).1@.data_wf()
}

/// A runnable command schema: name, executable, format template with
/// `<field>` placeholders, declared outputs, and declared fields.
#[derive(Debug)]
pub struct Program {
    pub name: String,
    pub bin: String,
    pub format: String,
    pub outputs: SMap<Output>,
    pub fields: SMap<Field>,
}

impl Program {
    pub open spec fn wf(&self) -> bool {
        self.outputs.wf() && self.fields.wf()
    }

    /// The command after the first `i` entries of `params` are applied:
    /// starting from `bin format`, a known, matching field without an
    /// option template substitutes its rendered value for every literal
    /// `<name>`; one with a template appends its fragment; unknown or
    /// mistyped entries are skipped.
    pub open spec fn spec_cmd_upto(self, params: Seq<(Seq<char>, FieldData)>, i: int) -> Seq<char>
        decreases i,
    {
        if i <= 0 {
            self.bin@ + seq![' '] + self.format@
        } else {
            let acc = self.spec_cmd_upto(params, i - 1);
            let k = params[i - 1].0;
            let d = params[i - 1].1;
            if map_has(self.fields@, k) && map_val(self.fields@, k).dtype.spec_matches(d) {
                let fld = map_val(self.fields@, k);
                if fld.option is None {
                    spec_replace_all(acc, seq!['<'] + k + seq!['>'], fld.spec_fill(d))
                } else {
                    acc + fld.spec_fill(d)
                }
            } else {
                acc
            }
        }
    }

    /// The fully rendered command for a concrete parameter map, applied in
    /// the map's stored order.
    pub open spec fn spec_cmd(self, params: Seq<(Seq<char>, FieldData)>) -> Seq<char> {
        self.spec_cmd_upto(params, params.len() as int)
    }

    /// Renders the command line for a concrete parameter map. Unknown and
    /// mistyped entries are skipped, never an error, so the result is
    /// always a command.
    pub fn cmd(&self, params: &SMap<FieldData>) -> (r: Result<String, PlanError>)
        requires
            self.wf(),
            params.wf(),
            data_map_wf(params@),
        ensures
            match r {
                Ok(s) => s@ == self.spec_cmd(params@),
                Err(_) => false,
            },
    {
        let mut fmt = self.bin.clone();
        proof {
            reveal_strlit(" ");
        }
        fmt.append(" ");
        fmt.append(self.format.as_str());
        proof {
            assert(fmt@ =~= self.bin@ + seq![' '] + self.format@);
        }
        let n = params.len();
        let mut i: usize = 0;
        while i < n
            invariant
                i <= n,
                n == params@.len(),
                self.wf(),
                params.wf(),
                data_map_wf(params@),
                fmt@ == self.spec_cmd_upto(params@, i as int),
            decreases n - i,
        {
            let k = params.key_at(i);
            let d = params.val_at(i);
            proof {
                assert(params@[i as int].1.wf());
            }
            match self.fields.get(k) {
                Some(fld) => {
                    if fld.matches(d) {
                        let filled = fld.fill_value(d);
                        if fld.option.is_none() {
                            let mut pat = String::from_str("<");
                            pat.append(k.as_str());
                            pat.append(">");
                            proof {
                                reveal_strlit("<");
                                reveal_strlit(">");
                                assert(pat@ =~= seq!['<'] + params@[i as int].0 + seq!['>']);
                            }
                            fmt = replace_all(fmt.as_str(), pat.as_str(), filled.as_str());
                        } else {
                            fmt.append(filled.as_str());
                        }
                    }
                },
                None => {},
            }
            proof {
                assert(fmt@ == self.spec_cmd_upto(params@, i as int + 1));
            }
            i = i + 1;
        }
        Ok(fmt)
    }

    /// The first validation failure among the declared fields from index
    /// `i` on, against supplied settings: a field with no setting and no
    /// option template is missing; a field whose setting fails type
    /// compatibility is invalid.
    pub open spec fn spec_validate_settings_from(
        self,
        params: Seq<(Seq<char>, FieldSetting)>,
        i: int,
    ) -> Option<ErrModel>
        decreases self.fields@.len() - i,
    {
        if i < 0 || i >= self.fields@.len() {
            None
        } else {
            let k = self.fields@[i].0;
            let fld = self.fields@[i].1;
            if !map_has(params, k) && fld.option is None {
                Some(ErrModel::MissingParameter(k, self.name@))
            } else if map_has(params, k) && !fld.dtype.spec_matches_setting(
                map_val(params, k)@,
            ) {
                Some(ErrModel::InvalidParameterSetting(k, map_val(params, k)@, fld.dtype))
            } else {
                self.spec_validate_settings_from(params, i + 1)
            }
        }
    }

    pub open spec fn spec_validate_settings(
        self,
        params: Seq<(Seq<char>, FieldSetting)>,
    ) -> Option<ErrModel> {
        self.spec_validate_settings_from(params, 0)
    }

    /// Checks supplied settings against every declared field, failing on
    /// the first field (in declaration order) that is missing without an
    /// option template or whose setting does not fit its type.
    pub fn validate_parameters(&self, params: &SMap<FieldSetting>) -> (r: Result<
        (),
        PlanError,
    >)
        requires
            self.wf(),
            params.wf(),
            settings_map_wf(params@),
        ensures
            match r {
                Ok(_) => self.spec_validate_settings(params@) is None,
                Err(e) => self.spec_validate_settings(params@) == Some(e@),
            },
    {
        let n = self.fields.len();
        let mut i: usize = 0;
        while i < n
            invariant
                i <= n,
                n == self.fields@.len(),
                self.wf(),
                params.wf(),
                settings_map_wf(params@),
                self.spec_validate_settings(params@) == self.spec_validate_settings_from(
                    params@,
                    i as int,
                ),
            decreases n - i,
        {
            let k = self.fields.key_at(i);
            let fld = self.fields.val_at(i);
            match params.get(k) {
                None => {
                    if fld.option.is_none() {
                        return Err(
                            PlanError::MissingParameter(k.clone(), self.name.clone()),
                        );
                    }
                },
                Some(setting) => {
                    proof {
                        assert(0 <= map_idx(params@, k@) < params@.len());
                        assert(params@[map_idx(params@, k@)].1@.data_wf());
                    }
                    if !fld.dtype.matches_setting(setting) {
                        return Err(
                            PlanError::InvalidParameterSetting(
                                k.clone(),
                                setting.dup(),
                                fld.dtype,
                            ),
                        );
                    }
                },
            }
            i = i + 1;
        }
        Ok(())
    }

    /// The first validation failure against concrete data, same shape as
    /// the settings pass but checking each value directly.
    pub open spec fn spec_validate_data_from(
        self,
        params: Seq<(Seq<char>, FieldData)>,
        i: int,
    ) -> Option<ErrModel>
        decreases self.fields@.len() - i,
    {
        if i < 0 || i >= self.fields@.len() {
            None
        } else {
            let k = self.fields@[i].0;
            let fld = self.fields@[i].1;
            if !map_has(params, k) && fld.option is None {
                Some(ErrModel::MissingParameter(k, self.name@))
            } else if map_has(params, k) && !fld.dtype.spec_matches(map_val(params, k)) {
                Some(ErrModel::InvalidParameterData(k, map_val(params, k), fld.dtype))
            } else {
                self.spec_validate_data_from(params, i + 1)
            }
        }
    }

    pub open spec fn spec_validate_data(
        self,
        params: Seq<(Seq<char>, FieldData)>,
    ) -> Option<ErrModel> {
        self.spec_validate_data_from(params, 0)
    }

    /// Checks a concrete parameter map against every declared field,
    /// failing on the first field that is missing without an option
    /// template or whose value does not fit its type.
    pub fn validate_parameter_data(&self, params: &SMap<FieldData>) -> (r: Result<
        (),
        PlanError,
    >)
        requires
            self.wf(),
            params.wf(),
            data_map_wf(params@),
        ensures
            match r {
                Ok(_) => self.spec_validate_data(params@) is None,
                Err(e) => self.spec_validate_data(params@) == Some(e@),
            },
    {
        let n = self.fields.len();
        let mut i: usize = 0;
        while i < n
            invariant
                i <= n,
                n == self.fields@.len(),
                self.wf(),
                params.wf(),
                data_map_wf(params@),
                self.spec_validate_data(params@) == self.spec_validate_data_from(
                    params@,
                    i as int,
                ),
            decreases n - i,
        {
            let k = self.fields.key_at(i);
            let fld = self.fields.val_at(i);
            match params.get(k) {
                None => {
                    if fld.option.is_none() {
                        return Err(
                            PlanError::MissingParameter(k.clone(), self.name.clone()),
                        );
                    }
                },
                Some(datum) => {
                    proof {
                        assert(0 <= map_idx(params@, k@) < params@.len());
                        assert(params@[map_idx(params@, k@)].1.wf());
                    }
                    if !fld.dtype.matches(datum) {
                        return Err(
                            PlanError::InvalidParameterData(k.clone(), datum.dup(), fld.dtype),
                        );
                    }
                },
            }
            i = i + 1;
        }
        Ok(())
    }
}

proof fn lemma_validate_settings_some_from(
    p: Program,
    params: Seq<(Seq<char>, FieldSetting)>,
    j: int,
    i: int,
)
    requires
        0 <= j <= i < p.fields@.len(),
        p.fields@[i].1.option is None,
        !map_has(params, p.fields@[i].0),
    ensures
        p.spec_validate_settings_from(params, j) is Some,
    decreases i - j,
{
    if j < i {
        lemma_validate_settings_some_from(p, params, j + 1, i);
    }
}

/// Validation is complete for settings: a program with a declared field
/// that has no option template and no entry in the settings map never
/// validates; the pass always fails with some error.
pub proof fn lemma_validation_completeness(
    p: Program,
    params: Seq<(Seq<char>, FieldSetting)>,
    i: int,
)
    requires
        0 <= i < p.fields@.len(),
        p.fields@[i].1.option is None,
        !map_has(params, p.fields@[i].0),
    ensures
        p.spec_validate_settings(params) is Some,
{
    lemma_validate_settings_some_from(p, params, 0, i);
}

proof fn lemma_validate_data_some_from(
    p: Program,
    params: Seq<(Seq<char>, FieldData)>,
    j: int,
    i: int,
)
    requires
        0 <= j <= i < p.fields@.len(),
        p.fields@[i].1.option is None,
        !map_has(params, p.fields@[i].0),
    ensures
        p.spec_validate_data_from(params, j) is Some,
    decreases i - j,
{
    if j < i {
        lemma_validate_data_some_from(p, params, j + 1, i);
    }
}

/// Validation is complete for concrete data: a declared field without an
/// option template and without an entry in the data map always makes the
/// data pass fail.
pub proof fn lemma_data_validation_completeness(
    p: Program,
    params: Seq<(Seq<char>, FieldData)>,
    i: int,
)
    requires
        0 <= i < p.fields@.len(),
        p.fields@[i].1.option is None,
        !map_has(params, p.fields@[i].0),
    ensures
        p.spec_validate_data(params) is Some,
{
    lemma_validate_data_some_from(p, params, 0, i);
}

} // verus!
