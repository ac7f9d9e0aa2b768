//! The deformation engine.
//!
//! [`FlexoInfo`] owns the text of every field plus the two direction flags,
//! and [`FlexoInfo::compute`] is the single edit entry point: given the label
//! of the field that changed, it recomputes every dependent field in a fixed
//! order and finally re-derives whichever of the before/after pair is not
//! authoritative.  The whole transition is pinned down by [`spec_compute`];
//! a field whose driving value is zero, whose divisor is zero or whose exact
//! result no longer fits the ratio words is blanked rather than left stale.

use vstd::prelude::*;
use crate::ratio::{
    div_fits, hundred_ratio, mul_fits, one_ratio, parse_ratio, ratio_div, ratio_mul, ratio_sub,
    ratio_to_text, spec_div, spec_mul, spec_parse, spec_sub, spec_to_text, sub_fits, Ratio,
};
use crate::ratio::dec_digits_str;
use crate::ratio::dec_digits;
use crate::text::{str_eq, trim, trim_exec};

verus! {

/// One display row: a label and a before/after pair.
pub struct FlexoData {
    pub id: String,
    pub before: String,
    pub after: String,
}

/// The text carried by one display row.
pub struct DataView {
    pub id: Seq<char>,
    pub before: Seq<char>,
    pub after: Seq<char>,
}

impl View for FlexoData {
    type V = DataView;

    open spec fn view(&self) -> DataView {
        DataView { id: self.id@, before: self.before@, after: self.after@ }
    }
}

impl FlexoData {
    pub fn new(id: String, before: String, after: String) -> (r: Self)
        ensures
            r@.id == id@,
            r@.before == before@,
            r@.after == after@,
    {
        Self { id, before, after }
    }
}

/// The whole engine state: every field text, the module rows and the two
/// direction flags.
pub struct EngineView {
    pub gears: Seq<char>,
    pub pitch: Seq<char>,
    pub girth: Seq<char>,
    pub thickness: Seq<char>,
    pub deformation: Seq<char>,
    pub count: Seq<char>,
    pub before: Seq<char>,
    pub after: Seq<char>,
    pub one_data: Seq<DataView>,
    pub data: Seq<DataView>,
    pub compute_girth: bool,
    pub compute_after: bool,
}

/// The calibration constant looked up by the trimmed thickness text; an
/// unrecognized thickness falls back to the constant for `"1.14"`.
pub open spec fn spec_k(t: Seq<char>) -> Ratio {
    if t == "1.14"@ {
        Ratio { neg: false, num: 606, den: 100 }
    } else if t == "1.7"@ {
        Ratio { neg: false, num: 989, den: 100 }
    } else if t == "2.28"@ {
        Ratio { neg: false, num: 1352, den: 100 }
    } else if t == "2.54"@ {
        Ratio { neg: false, num: 1605, den: 100 }
    } else if t == "2.84"@ {
        Ratio { neg: false, num: 1704, den: 100 }
    } else if t == "3.94"@ {
        Ratio { neg: false, num: 2394, den: 100 }
    } else if t == "0.95"@ {
        Ratio { neg: false, num: 54, den: 10 }
    } else {
        Ratio { neg: false, num: 606, den: 100 }
    }
}

/// The new girth text: gear count times pitch, blank when the gear count
/// reads as zero or the exact product no longer fits.
pub open spec fn girth_text(gears: Seq<char>, pitch: Seq<char>) -> Seq<char> {
    let g = spec_parse(gears);
    let p = spec_parse(pitch);
    if g.num == 0 {
        Seq::empty()
    } else if !mul_fits(g, p) {
        Seq::empty()
    } else {
        spec_to_text(spec_mul(g, p))
    }
}

/// The new gear-count text: girth divided by pitch, blank when the girth
/// reads as zero, the pitch reads as zero or the exact quotient no longer
/// fits.
pub open spec fn gears_text(girth: Seq<char>, pitch: Seq<char>) -> Seq<char> {
    let g = spec_parse(girth);
    let p = spec_parse(pitch);
    if g.num == 0 {
        Seq::empty()
    } else if p.num == 0 {
        Seq::empty()
    } else if !div_fits(g, p) {
        Seq::empty()
    } else {
        spec_to_text(spec_div(g, p))
    }
}

/// The new deformation-ratio text: `(1 - K/girth) * 100`, blank when the
/// girth reads as zero or a step of the exact computation no longer fits.
pub open spec fn deformation_text(thickness: Seq<char>, girth: Seq<char>) -> Seq<char> {
    let g = spec_parse(girth);
    if g.num == 0 {
        Seq::empty()
    } else {
        let k = spec_k(trim(thickness));
        if !div_fits(k, g) {
            Seq::empty()
        } else {
            let q = spec_div(k, g);
            if !sub_fits(one_ratio(), q) {
                Seq::empty()
            } else {
                let s = spec_sub(one_ratio(), q);
                if !mul_fits(s, hundred_ratio()) {
                    Seq::empty()
                } else {
                    spec_to_text(spec_mul(s, hundred_ratio()))
                }
            }
        }
    }
}

/// The new after text: before times the ratio over one hundred, blank when
/// the before value reads as zero or the exact computation no longer fits.
pub open spec fn after_text(before: Seq<char>, deformation: Seq<char>) -> Seq<char> {
    let b = spec_parse(before);
    if b.num == 0 {
        Seq::empty()
    } else {
        let r = spec_parse(deformation);
        if !mul_fits(b, r) {
            Seq::empty()
        } else {
            let m = spec_mul(b, r);
            if !div_fits(m, hundred_ratio()) {
                Seq::empty()
            } else {
                spec_to_text(spec_div(m, hundred_ratio()))
            }
        }
    }
}

/// The new before text: after over the ratio times one hundred, blank when
/// the after value reads as zero, the ratio reads as zero or the exact
/// computation no longer fits.
pub open spec fn before_text(after: Seq<char>, deformation: Seq<char>) -> Seq<char> {
    let a = spec_parse(after);
    if a.num == 0 {
        Seq::empty()
    } else {
        let r = spec_parse(deformation);
        if r.num == 0 {
            Seq::empty()
        } else if !div_fits(a, r) {
            Seq::empty()
        } else {
            let q = spec_div(a, r);
            if !mul_fits(q, hundred_ratio()) {
                Seq::empty()
            } else {
                spec_to_text(spec_mul(q, hundred_ratio()))
            }
        }
    }
}

/// Recompute girth from gear count and pitch, then the ratio from the new
/// girth.
pub open spec fn step_girth(v: EngineView) -> EngineView {
    let v1 = EngineView { girth: girth_text(v.gears, v.pitch), ..v };
    EngineView { deformation: deformation_text(v1.thickness, v1.girth), ..v1 }
}

/// Recompute gear count from girth and pitch.
pub open spec fn step_gears(v: EngineView) -> EngineView {
    EngineView { gears: gears_text(v.girth, v.pitch), ..v }
}

/// Recompute the deformation ratio from thickness and girth.
pub open spec fn step_deformation(v: EngineView) -> EngineView {
    EngineView { deformation: deformation_text(v.thickness, v.girth), ..v }
}

/// Recompute the after dimension from the before dimension and the ratio.
pub open spec fn step_after(v: EngineView) -> EngineView {
    EngineView { after: after_text(v.before, v.deformation), ..v }
}

/// Recompute the before dimension from the after dimension and the ratio.
pub open spec fn step_before(v: EngineView) -> EngineView {
    EngineView { before: before_text(v.after, v.deformation), ..v }
}

/// The full transition one edit performs: the field-specific branch (an
/// unknown label changes nothing), then the re-derivation of whichever of
/// the before/after pair is not authoritative.
pub open spec fn spec_compute(v: EngineView, label: Seq<char>) -> EngineView {
    let v1 = if label == "齿数"@ {
        step_girth(EngineView { compute_girth: true, ..v })
    } else if label == "齿距"@ {
        if v.compute_girth {
            step_girth(v)
        } else {
            step_gears(v)
        }
    } else if label == "版辊周长"@ {
        step_deformation(step_gears(EngineView { compute_girth: false, ..v }))
    } else if label == "版材厚度"@ {
        step_deformation(v)
    } else if label == "变形前"@ {
        step_after(EngineView { compute_after: true, ..v })
    } else if label == "变形后"@ {
        step_before(EngineView { compute_after: false, ..v })
    } else {
        v
    };
    if v1.compute_after {
        step_after(v1)
    } else {
        step_before(v1)
    }
}

/// The state a field write leaves behind: the named field holds the new
/// text, everything else is untouched; an unknown label changes nothing.
pub open spec fn spec_set(v: EngineView, label: Seq<char>, text: Seq<char>) -> EngineView {
    if label == "齿数"@ {
        EngineView { gears: text, ..v }
    } else if label == "齿距"@ {
        EngineView { pitch: text, ..v }
    } else if label == "版辊周长"@ {
        EngineView { girth: text, ..v }
    } else if label == "版材厚度"@ {
        EngineView { thickness: text, ..v }
    } else if label == "变形率"@ {
        EngineView { deformation: text, ..v }
    } else if label == "模数"@ {
        EngineView { count: text, ..v }
    } else if label == "变形前"@ {
        EngineView { before: text, ..v }
    } else if label == "变形后"@ {
        EngineView { after: text, ..v }
    } else {
        v
    }
}

/// The engine: every field text, the module rows and the direction flags.
pub struct FlexoInfo {
    gears: String,
    pitch: String,
    girth: String,
    thickness: String,
    deformation: String,
    count: String,
    before: String,
    after: String,
    one_data: Vec<FlexoData>,
    data: Vec<FlexoData>,
    compute_girth: bool,
    compute_after: bool,
}

impl View for FlexoInfo {
    type V = EngineView;

    closed spec fn view(&self) -> EngineView {
        EngineView {
            gears: self.gears@,
            pitch: self.pitch@,
            girth: self.girth@,
            thickness: self.thickness@,
            deformation: self.deformation@,
            count: self.count@,
            before: self.before@,
            after: self.after@,
            one_data: self.one_data@.map_values(|d: FlexoData| d@),
            data: self.data@.map_values(|d: FlexoData| d@),
            compute_girth: self.compute_girth,
            compute_after: self.compute_after,
        }
    }
}

fn k_value(thickness: &str) -> (r: Ratio)
    ensures
        r == spec_k(trim(thickness@)),
        r.wf(),
        r.num >= 1,
{
    let t = trim_exec(thickness);
    if str_eq(t, "1.14") {
        Ratio { neg: false, num: 606, den: 100 }
    } else if str_eq(t, "1.7") {
        Ratio { neg: false, num: 989, den: 100 }
    } else if str_eq(t, "2.28") {
        Ratio { neg: false, num: 1352, den: 100 }
    } else if str_eq(t, "2.54") {
        Ratio { neg: false, num: 1605, den: 100 }
    } else if str_eq(t, "2.84") {
        Ratio { neg: false, num: 1704, den: 100 }
    } else if str_eq(t, "3.94") {
        Ratio { neg: false, num: 2394, den: 100 }
    } else if str_eq(t, "0.95") {
        Ratio { neg: false, num: 54, den: 10 }
    } else {
        Ratio { neg: false, num: 606, den: 100 }
    }
}

impl FlexoInfo {
    /// A fresh engine: pitch `3.175`, thickness `1.7`, both directions
    /// forward, every other field blank, one generic row and ten module rows.
    pub fn new() -> (s: Self)
        ensures
            s@.gears == Seq::<char>::empty(),
            s@.pitch == "3.175"@,
            s@.girth == Seq::<char>::empty(),
            s@.thickness == "1.7"@,
            s@.deformation == Seq::<char>::empty(),
            s@.count == Seq::<char>::empty(),
            s@.before == Seq::<char>::empty(),
            s@.after == Seq::<char>::empty(),
            s@.compute_girth,
            s@.compute_after,
            s@.one_data.len() == 1,
            s@.one_data[0].id == "n模"@,
            s@.one_data[0].before == Seq::<char>::empty(),
            s@.one_data[0].after == Seq::<char>::empty(),
            s@.data.len() == 10,
            forall|i: int|
                0 <= i < 10 ==> (#[trigger] s@.data[i]).id == dec_digits(i + 1) + "模"@
                    && s@.data[i].before == Seq::<char>::empty() && s@.data[i].after
                    == Seq::<char>::empty(),
    {
        let mut data: Vec<FlexoData> = Vec::new();
        let mut i: u128 = 1;
        while i <= 10
            invariant
                1 <= i <= 11,
                data@.len() == i - 1,
                forall|k: int|
                    0 <= k < i - 1 ==> (#[trigger] data@[k])@.id == dec_digits(k + 1) + "模"@
                        && data@[k]@.before == Seq::<char>::empty() && data@[k]@.after
                        == Seq::<char>::empty(),
            decreases 11 - i,
        {
            let mut id = dec_digits_str(i);
            id.append("模");
            data.push(FlexoData { id, before: String::new(), after: String::new() });
            i = i + 1;
        }
        let one = FlexoData {
            id: String::from_str("n模"),
            before: String::new(),
            after: String::new(),
        };
        let mut one_data: Vec<FlexoData> = Vec::new();
        one_data.push(one);
        Self {
            gears: String::new(),
            pitch: String::from_str("3.175"),
            girth: String::new(),
            thickness: String::from_str("1.7"),
            deformation: String::new(),
            count: String::new(),
            before: String::new(),
            after: String::new(),
            one_data,
            data,
            compute_girth: true,
            compute_after: true,
        }
    }

    pub fn gears(&self) -> (r: String)
        ensures
            r@ == self@.gears,
    {
        self.gears.clone()
    }

    pub fn pitch(&self) -> (r: String)
        ensures
            r@ == self@.pitch,
    {
        self.pitch.clone()
    }

    pub fn girth(&self) -> (r: String)
        ensures
            r@ == self@.girth,
    {
        self.girth.clone()
    }

    pub fn thickness(&self) -> (r: String)
        ensures
            r@ == self@.thickness,
    {
        self.thickness.clone()
    }

    pub fn deformation(&self) -> (r: String)
        ensures
            r@ == self@.deformation,
    {
        self.deformation.clone()
    }

    pub fn count(&self) -> (r: String)
        ensures
            r@ == self@.count,
    {
        self.count.clone()
    }

    pub fn before(&self) -> (r: String)
        ensures
            r@ == self@.before,
    {
        self.before.clone()
    }

    pub fn after(&self) -> (r: String)
        ensures
            r@ == self@.after,
    {
        self.after.clone()
    }

    /// Whether girth is currently computed from the gear count.
    pub fn girth_direction(&self) -> (r: bool)
        ensures
            r == self@.compute_girth,
    {
        self.compute_girth
    }

    /// Whether the after dimension is currently computed from the before one.
    pub fn deformation_direction(&self) -> (r: bool)
        ensures
            r == self@.compute_after,
    {
        self.compute_after
    }

    pub fn one_data(&self) -> (r: Vec<FlexoData>)
        ensures
            r@.map_values(|d: FlexoData| d@) == self@.one_data,
    {
        clone_rows(&self.one_data)
    }

    pub fn data(&self) -> (r: Vec<FlexoData>)
        ensures
            r@.map_values(|d: FlexoData| d@) == self@.data,
    {
        clone_rows(&self.data)
    }

    /// Stores normalized text into the field the label names, before an edit
    /// is propagated; an unknown label stores nothing.
    pub fn set_text(&mut self, label: &str, text: String)
        ensures
            final(self)@ == spec_set(old(self)@, label@, text@),
    {
        if str_eq(label, "齿数") {
            self.gears = text;
        } else if str_eq(label, "齿距") {
            self.pitch = text;
        } else if str_eq(label, "版辊周长") {
            self.girth = text;
        } else if str_eq(label, "版材厚度") {
            self.thickness = text;
        } else if str_eq(label, "变形率") {
            self.deformation = text;
        } else if str_eq(label, "模数") {
            self.count = text;
        } else if str_eq(label, "变形前") {
            self.before = text;
        } else if str_eq(label, "变形后") {
            self.after = text;
        }
    }

    fn compute_girth(&mut self)
        ensures
            final(self)@ == step_girth(old(self)@),
    {
        let g = parse_ratio(self.gears.as_str());
        let newgirth: String = if g.num == 0 {
            String::new()
        } else {
            let p = parse_ratio(self.pitch.as_str());
            match ratio_mul(&g, &p) {
                Some(v) => ratio_to_text(&v),
                None => String::new(),
            }
        };
        self.girth = newgirth;
        self.compute_deformation();
    }

    fn compute_gears(&mut self)
        ensures
            final(self)@ == step_gears(old(self)@),
    {
        let g = parse_ratio(self.girth.as_str());
        let newgears: String = if g.num == 0 {
            String::new()
        } else {
            let p = parse_ratio(self.pitch.as_str());
            if p.num == 0 {
                String::new()
            } else {
                match ratio_div(&g, &p) {
                    Some(v) => ratio_to_text(&v),
                    None => String::new(),
                }
            }
        };
        self.gears = newgears;
    }

    fn compute_deformation(&mut self)
        ensures
            final(self)@ == step_deformation(old(self)@),
    {
        let g = parse_ratio(self.girth.as_str());
        let newdef: String = if g.num == 0 {
            String::new()
        } else {
            let k = k_value(self.thickness.as_str());
            match ratio_div(&k, &g) {
                Some(q) => {
                    let one = Ratio { neg: false, num: 1, den: 1 };
                    match ratio_sub(&one, &q) {
                        Some(d) => {
                            let hundred = Ratio { neg: false, num: 100, den: 1 };
                            match ratio_mul(&d, &hundred) {
                                Some(v) => ratio_to_text(&v),
                                None => String::new(),
                            }
                        },
                        None => String::new(),
                    }
                },
                None => String::new(),
            }
        };
        self.deformation = newdef;
    }

    /// Recomputes the after dimension from the before dimension and the
    /// current deformation ratio.
    pub fn compute_after(&mut self)
        ensures
            final(self)@ == step_after(old(self)@),
    {
        let b = parse_ratio(self.before.as_str());
        let newafter: String = if b.num == 0 {
            String::new()
        } else {
            let r = parse_ratio(self.deformation.as_str());
            match ratio_mul(&b, &r) {
                Some(m) => {
                    let hundred = Ratio { neg: false, num: 100, den: 1 };
                    match ratio_div(&m, &hundred) {
                        Some(v) => ratio_to_text(&v),
                        None => String::new(),
                    }
                },
                None => String::new(),
            }
        };
        self.after = newafter;
    }

    /// Recomputes the before dimension from the after dimension and the
    /// current deformation ratio.
    pub fn compute_before(&mut self)
        ensures
            final(self)@ == step_before(old(self)@),
    {
        let a = parse_ratio(self.after.as_str());
        let newbefore: String = if a.num == 0 {
            String::new()
        } else {
            let r = parse_ratio(self.deformation.as_str());
            if r.num == 0 {
                String::new()
            } else {
                match ratio_div(&a, &r) {
                    Some(q) => {
                        let hundred = Ratio { neg: false, num: 100, den: 1 };
                        match ratio_mul(&q, &hundred) {
                            Some(v) => ratio_to_text(&v),
                            None => String::new(),
                        }
                    },
                    None => String::new(),
                }
            }
        };
        self.before = newbefore;
    }

    /// The single edit entry point: propagates an edit of the labelled field
    /// through every dependent field, as [`spec_compute`] states.
    pub fn compute(&mut self, label: &str)
        ensures
            final(self)@ == spec_compute(old(self)@, label@),
    {
        if str_eq(label, "齿数") {
            self.compute_girth = true;
            self.compute_girth();
        } else if str_eq(label, "齿距") {
            if self.compute_girth {
                self.compute_girth();
            } else {
                self.compute_gears();
            }
        } else if str_eq(label, "版辊周长") {
            self.compute_girth = false;
            self.compute_gears();
            self.compute_deformation();
        } else if str_eq(label, "版材厚度") {
            self.compute_deformation();
        } else if str_eq(label, "变形前") {
            self.compute_after = true;
            self.compute_after();
        } else if str_eq(label, "变形后") {
            self.compute_after = false;
            self.compute_before();
        }
        if self.compute_after {
            self.compute_after();
        } else {
            self.compute_before();
        }
    }
}

fn clone_rows(rows: &Vec<FlexoData>) -> (r: Vec<FlexoData>)
    ensures
        r@.map_values(|d: FlexoData| d@) == rows@.map_values(|d: FlexoData| d@),
{
    let mut out: Vec<FlexoData> = Vec::new();
    let mut i: usize = 0;
    while i < rows.len()
        invariant
            i <= rows@.len(),
            out@.len() == i,
            forall|k: int| 0 <= k < i ==> (#[trigger] out@[k])@ == rows@[k]@,
        decreases rows@.len() - i,
    {
        let d = &rows[i];
        out.push(FlexoData { id: d.id.clone(), before: d.before.clone(), after: d.after.clone() });
        i = i + 1;
    }
    proof {
        assert(out@.map_values(|d: FlexoData| d@) =~= rows@.map_values(|d: FlexoData| d@));
    }
    out
}


/// An edit side-effects only the derived fields: the pitch, the thickness,
/// the module count and the display rows are never touched by `compute`.
pub proof fn lemma_compute_touches_derived_only(v: EngineView, label: Seq<char>)
    ensures
        spec_compute(v, label).pitch == v.pitch,
        spec_compute(v, label).thickness == v.thickness,
        spec_compute(v, label).count == v.count,
        spec_compute(v, label).one_data == v.one_data,
        spec_compute(v, label).data == v.data,
{
}

/// Only an edit of the gear count or of the girth moves the girth-direction
/// flag, and only an edit of the before or after dimension moves the
/// deformation-direction flag.
pub proof fn lemma_direction_flags(v: EngineView, label: Seq<char>)
    ensures
        label == "齿数"@ ==> spec_compute(v, label).compute_girth,
        label == "版辊周长"@ ==> !spec_compute(v, label).compute_girth,
        label != "齿数"@ && label != "版辊周长"@ ==> spec_compute(v, label).compute_girth
            == v.compute_girth,
        label == "变形前"@ ==> spec_compute(v, label).compute_after,
        label == "变形后"@ ==> !spec_compute(v, label).compute_after,
        label != "变形前"@ && label != "变形后"@ ==> spec_compute(v, label).compute_after
            == v.compute_after,
{
    reveal_strlit("齿数");
    reveal_strlit("齿距");
    reveal_strlit("版辊周长");
    reveal_strlit("版材厚度");
    reveal_strlit("变形前");
    reveal_strlit("变形后");
    assert("齿数"@.len() == 2 && "齿距"@.len() == 2 && "版辊周长"@.len() == 4 && "版材厚度"@.len()
        == 4 && "变形前"@.len() == 3 && "变形后"@.len() == 3);
    assert("齿数"@[1] != "齿距"@[1]);
    assert("版辊周长"@[1] != "版材厚度"@[1]);
    assert("变形前"@[2] != "变形后"@[2]);
}

/// An edit of the pitch while the gear count is being derived from the girth
/// recomputes the gear count from the existing girth and pitch and leaves
/// the girth itself untouched.
pub proof fn lemma_pitch_edit_keeps_girth(v: EngineView)
    requires
        !v.compute_girth,
    ensures
        spec_compute(v, "齿距"@).girth == v.girth,
        spec_compute(v, "齿距"@).gears == gears_text(v.girth, v.pitch),
{
    reveal_strlit("齿数");
    reveal_strlit("齿距");
    assert("齿距"@ != "齿数"@) by {
        assert("齿距"@[1] != "齿数"@[1]);
    }
}

} // verus!
