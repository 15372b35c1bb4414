//! Plain-text rendering of an analysis: the data-point distribution
//! table, the per-parameter standard errors, and the fitted formula.
//! Rendering is pure formatting over the analysis values, so equal
//! analyses always render to byte-identical text.

use vstd::prelude::*;
use vstd::string::StringExecFns;
use crate::Analysis;
use crate::numfmt::{dec_spec, dec_of, ms, ms_spec, pad_left, pad_left_spec};

verus! {

/// The parameter-value cells of one table row, each right-aligned to
/// five columns, separated by single spaces.
pub open spec fn key_cells(vals: Seq<u32>) -> Seq<char>
    decreases vals.len(),
{
    if vals.len() == 0 {
        Seq::<char>::empty()
    } else {
        key_cells(vals.drop_last()) + (if vals.len() == 1 {
            Seq::<char>::empty()
        } else {
            " "@
        }) + pad_left_spec(dec_spec(vals.last() as int), 5)
    }
}

/// The parameter-name cells of the table header, aligned like the rows.
pub open spec fn name_cells(names: Seq<String>) -> Seq<char>
    decreases names.len(),
{
    if names.len() == 0 {
        Seq::<char>::empty()
    } else {
        name_cells(names.drop_last()) + (if names.len() == 1 {
            Seq::<char>::empty()
        } else {
            " "@
        }) + pad_left_spec(names.last()@, 5)
    }
}

/// One distribution row: parameter values, scaled mean and sigma, and
/// sigma as an approximate one-decimal percentage of the mean.
pub open spec fn dist_row(row: (Vec<u32>, u128, u128)) -> Seq<char> {
    let mean = row.1 as int;
    let sigma = row.2 as int;
    key_cells(row.0@) + "  "@ + pad_left_spec(ms_spec(mean), 8) + "  "@ + pad_left_spec(
        ms_spec(sigma),
        8,
    ) + "  "@ + pad_left_spec(dec_spec(sigma * 100 / mean), 3) + "."@ + dec_spec(
        sigma * 1000 / mean % 10,
    ) + "%\n"@
}

/// The first `t` distribution rows.
pub open spec fn dist_rows(rows: Seq<(Vec<u32>, u128, u128)>, t: int) -> Seq<char>
    decreases t,
{
    if t <= 0 {
        Seq::<char>::empty()
    } else {
        dist_rows(rows, t - 1) + dist_row(rows[t - 1])
    }
}

/// The first `t` standard-error rows.
pub open spec fn quality_rows(names: Seq<String>, errors: Seq<u128>, t: int) -> Seq<char>
    decreases t,
{
    if t <= 0 {
        Seq::<char>::empty()
    } else {
        quality_rows(names, errors, t - 1) + names[t - 1]@ + "      "@ + pad_left_spec(
            ms_spec(errors[t - 1] as int),
            8,
        ) + "\n"@
    }
}

/// The first `t` model-formula rows.
pub open spec fn model_rows(parameters: Seq<(String, u128)>, t: int) -> Seq<char>
    decreases t,
{
    if t <= 0 {
        Seq::<char>::empty()
    } else {
        model_rows(parameters, t - 1) + "    + "@ + parameters[t - 1].0@ + " "@ + pad_left_spec(
            ms_spec(parameters[t - 1].1 as int),
            8,
        ) + "\n"@
    }
}

/// The whole report.
pub open spec fn render_spec(
    base: u128,
    parameters: Seq<(String, u128)>,
    dists: Seq<(Vec<u32>, u128, u128)>,
    names: Seq<String>,
    errors: Seq<u128>,
) -> Seq<char> {
    "Data points distribution:\n"@ + name_cells(names) + "   mean µs  sigma µs       %\n"@
        + dist_rows(dists, dists.len() as int) + "\nQuality and confidence:\nparam     error\n"@
        + quality_rows(names, errors, names.len() as int) + "\nModel:\nTime ~= "@ + pad_left_spec(
        ms_spec(base as int),
        8,
    ) + "\n"@ + model_rows(parameters, parameters.len() as int) + "              µs\n"@
}

/// The analysis can be rendered: every group mean is positive (the
/// percentage column divides by it) and the percentage products stay in
/// range, and there is one standard error per parameter.
pub open spec fn renderable(a: Analysis) -> bool {
    &&& a.errors@.len() == a.params@.len()
    &&& forall|i: int| 0 <= i < a.value_dists@.len() ==> (#[trigger] a.value_dists@[i]).1 > 0
    &&& forall|i: int|
        0 <= i < a.value_dists@.len() ==> (#[trigger] a.value_dists@[i]).2 * 1000 <= u128::MAX
}

/// Equal analysis values render to byte-identical text: rendering reads
/// nothing but its arguments.
pub proof fn lemma_render_deterministic(a: Analysis, b: Analysis)
    requires
        a.base == b.base,
        a.parameters@ == b.parameters@,
        a.value_dists@ == b.value_dists@,
        a.params@ == b.params@,
        a.errors@ == b.errors@,
    ensures
        render_spec(a.base, a.parameters@, a.value_dists@, a.params@, a.errors@) == render_spec(
            b.base,
            b.parameters@,
            b.value_dists@,
            b.params@,
            b.errors@,
        ),
{
}

proof fn lemma_key_cells_step(vals: Seq<u32>, t: int)
    requires
        0 <= t < vals.len(),
    ensures
        key_cells(vals.subrange(0, t + 1)) == key_cells(vals.subrange(0, t)) + (if t == 0 {
            Seq::<char>::empty()
        } else {
            " "@
        }) + pad_left_spec(dec_spec(vals[t] as int), 5),
{
    let pre = vals.subrange(0, t + 1);
    assert(pre.drop_last() =~= vals.subrange(0, t));
    assert(pre.last() == vals[t]);
}

proof fn lemma_name_cells_step(names: Seq<String>, t: int)
    requires
        0 <= t < names.len(),
    ensures
        name_cells(names.subrange(0, t + 1)) == name_cells(names.subrange(0, t)) + (if t == 0 {
            Seq::<char>::empty()
        } else {
            " "@
        }) + pad_left_spec(names[t]@, 5),
{
    let pre = names.subrange(0, t + 1);
    assert(pre.drop_last() =~= names.subrange(0, t));
    assert(pre.last() == names[t]);
}

/// Render the parameter-value cells of one row.
fn key_cells_exec(vals: &Vec<u32>) -> (r: String)
    ensures
        r@ == key_cells(vals@),
{
    let mut r = String::new();
    let mut i: usize = 0;
    proof {
        assert(vals@.subrange(0, 0) =~= Seq::<u32>::empty());
    }
    while i < vals.len()
        invariant
            i <= vals@.len(),
            r@ == key_cells(vals@.subrange(0, i as int)),
        decreases vals@.len() - i,
    {
        proof {
            lemma_key_cells_step(vals@, i as int);
        }
        if i > 0 {
            r.append(" ");
        }
        let cell = pad_left(dec_of(vals[i] as u128).as_str(), 5);
        r.append(cell.as_str());
        i = i + 1;
    }
    proof {
        assert(vals@.subrange(0, vals@.len() as int) =~= vals@);
    }
    r
}

/// Render the header cells of the parameter names.
fn name_cells_exec(names: &Vec<String>) -> (r: String)
    ensures
        r@ == name_cells(names@),
{
    let mut r = String::new();
    let mut i: usize = 0;
    proof {
        assert(names@.subrange(0, 0) =~= Seq::<String>::empty());
    }
    while i < names.len()
        invariant
            i <= names@.len(),
            r@ == name_cells(names@.subrange(0, i as int)),
        decreases names@.len() - i,
    {
        proof {
            lemma_name_cells_step(names@, i as int);
        }
        if i > 0 {
            r.append(" ");
        }
        let cell = pad_left(names[i].as_str(), 5);
        r.append(cell.as_str());
        i = i + 1;
    }
    proof {
        assert(names@.subrange(0, names@.len() as int) =~= names@);
    }
    r
}

/// Render one distribution row.
fn dist_row_exec(row: &(Vec<u32>, u128, u128)) -> (r: String)
    requires
        row.1 > 0,
        row.2 * 1000 <= u128::MAX,
    ensures
        r@ == dist_row(*row),
{
    let mut r = key_cells_exec(&row.0);
    r.append("  ");
    let mt = pad_left(ms(row.1).as_str(), 8);
    r.append(mt.as_str());
    r.append("  ");
    let st = pad_left(ms(row.2).as_str(), 8);
    r.append(st.as_str());
    r.append("  ");
    let pct = pad_left(dec_of(row.2 * 100 / row.1).as_str(), 3);
    r.append(pct.as_str());
    r.append(".");
    let dig = dec_of(row.2 * 1000 / row.1 % 10);
    r.append(dig.as_str());
    r.append("%\n");
    r
}

/// Render one standard-error row.
fn quality_row_exec(name: &String, err: u128) -> (r: String)
    ensures
        r@ == name@ + "      "@ + pad_left_spec(ms_spec(err as int), 8) + "\n"@,
{
    let mut r = String::new();
    r.append(name.as_str());
    r.append("      ");
    let et = pad_left(ms(err).as_str(), 8);
    r.append(et.as_str());
    r.append("\n");
    r
}

/// Render one model-formula row.
fn model_row_exec(p: &(String, u128)) -> (r: String)
    ensures
        r@ == "    + "@ + p.0@ + " "@ + pad_left_spec(ms_spec(p.1 as int), 8) + "\n"@,
{
    let mut r = String::from_str("    + ");
    r.append(p.0.as_str());
    r.append(" ");
    let ct = pad_left(ms(p.1).as_str(), 8);
    r.append(ct.as_str());
    r.append("\n");
    r
}

/// Render the distribution rows.
fn dist_section(dists: &Vec<(Vec<u32>, u128, u128)>) -> (r: String)
    requires
        forall|i: int| 0 <= i < dists@.len() ==> (#[trigger] dists@[i]).1 > 0,
        forall|i: int| 0 <= i < dists@.len() ==> (#[trigger] dists@[i]).2 * 1000 <= u128::MAX,
    ensures
        r@ == dist_rows(dists@, dists@.len() as int),
{
    let mut r = String::new();
    let mut i: usize = 0;
    while i < dists.len()
        invariant
            i <= dists@.len(),
            forall|p: int| 0 <= p < dists@.len() ==> (#[trigger] dists@[p]).1 > 0,
            forall|p: int| 0 <= p < dists@.len() ==> (#[trigger] dists@[p]).2 * 1000 <= u128::MAX,
            r@ == dist_rows(dists@, i as int),
        decreases dists@.len() - i,
    {
        let line = dist_row_exec(&dists[i]);
        r.append(line.as_str());
        i = i + 1;
    }
    r
}

/// Render the standard-error section.
fn quality_section(names: &Vec<String>, errors: &Vec<u128>) -> (r: String)
    requires
        names@.len() == errors@.len(),
    ensures
        r@ == "\nQuality and confidence:\nparam     error\n"@ + quality_rows(
            names@,
            errors@,
            names@.len() as int,
        ),
{
    let mut r = String::from_str("\nQuality and confidence:\nparam     error\n");
    let mut j: usize = 0;
    while j < names.len()
        invariant
            j <= names@.len(),
            names@.len() == errors@.len(),
            r@ == "\nQuality and confidence:\nparam     error\n"@ + quality_rows(
                names@,
                errors@,
                j as int,
            ),
        decreases names@.len() - j,
    {
        let line = quality_row_exec(&names[j], errors[j]);
        r.append(line.as_str());
        j = j + 1;
    }
    r
}

/// Render the fitted-formula section.
fn model_section(base: u128, parameters: &Vec<(String, u128)>) -> (r: String)
    ensures
        r@ == "\nModel:\nTime ~= "@ + pad_left_spec(ms_spec(base as int), 8) + "\n"@ + model_rows(
            parameters@,
            parameters@.len() as int,
        ) + "              µs\n"@,
{
    let mut r = String::from_str("\nModel:\nTime ~= ");
    let bt = pad_left(ms(base).as_str(), 8);
    r.append(bt.as_str());
    r.append("\n");
    let mut t: usize = 0;
    while t < parameters.len()
        invariant
            t <= parameters@.len(),
            r@ == "\nModel:\nTime ~= "@ + pad_left_spec(ms_spec(base as int), 8) + "\n"@
                + model_rows(parameters@, t as int),
        decreases parameters@.len() - t,
    {
        let line = model_row_exec(&parameters[t]);
        r.append(line.as_str());
        t = t + 1;
    }
    r.append("              µs\n");
    r
}

impl Analysis {
    /// Render the report: the data-point distribution table, the
    /// per-parameter standard errors, and the fitted formula, each
    /// nanosecond quantity scaled to microseconds.
    #[verifier::rlimit(100)]
    pub fn render(&self) -> (r: String)
        requires
            renderable(*self),
        ensures
            r@ == render_spec(
                self.base,
                self.parameters@,
                self.value_dists@,
                self.params@,
                self.errors@,
            ),
    {
        let mut r = String::from_str("Data points distribution:\n");
        let header = name_cells_exec(&self.params);
        r.append(header.as_str());
        r.append("   mean µs  sigma µs       %\n");
        let dists = dist_section(&self.value_dists);
        r.append(dists.as_str());
        let quality = quality_section(&self.params, &self.errors);
        r.append(quality.as_str());
        let model = model_section(self.base, &self.parameters);
        r.append(model.as_str());
        r
    }
}

} // verus!
