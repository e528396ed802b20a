use vstd::prelude::*;
use crate::text::{concat, debug_quoted, debug_str, str_eq};

verus! {

broadcast use vstd::string::group_string_axioms;

pub open spec fn spec_preset_names() -> Seq<Seq<char>> {
    seq!["potato"@, "lite"@, "medium"@, "medium-high"@, "high"@]
}

pub open spec fn str_views(v: Seq<&str>) -> Seq<Seq<char>> {
    v.map_values(|s: &str| s@)
}

/// The quality presets, from fastest to most thorough.
pub fn preset_names() -> (r: &'static [&'static str])
    ensures
        str_views(r@) == spec_preset_names(),
{
    let names: &'static [&'static str] = &["potato", "lite", "medium", "medium-high", "high"];
    assert(str_views(names@) =~= spec_preset_names());
    names
}


/// The names one after another with `sep` between them.
pub open spec fn joined(names: Seq<Seq<char>>, sep: Seq<char>) -> Seq<char>
    decreases names.len(),
{
    if names.len() == 0 {
        seq![]
    } else if names.len() == 1 {
        names[0]
    } else {
        joined(names.drop_last(), sep) + sep + names.last()
    }
}

/// The quality preset names joined with `sep`.
pub fn join_preset_names(sep: &str) -> (r: String)
    ensures
        r@ == joined(spec_preset_names(), sep@),
{
    let names = preset_names();
    let mut r = String::new();
    let mut i: usize = 0;
    while i < names.len()
        invariant
            i <= names@.len(),
            str_views(names@) == spec_preset_names(),
            r@ == joined(spec_preset_names().take(i as int), sep@),
        decreases names.len() - i,
    {
        assert(spec_preset_names().take(i + 1).drop_last() =~= spec_preset_names().take(i as int));
        if i > 0 {
            r.append(sep);
        } else {
            assert(spec_preset_names().take(0) =~= seq![]);
        }
        r.append(names[i]);
        i = i + 1;
    }
    assert(spec_preset_names().take(5) =~= spec_preset_names());
    r
}

pub open spec fn unknown_preset_msg(name: Seq<char>) -> Seq<char> {
    "Unknown quality preset "@ + debug_quoted(name) + "; valid presets: "@ + joined(
        spec_preset_names(),
        ", "@,
    )
}

/// The position of `name` among the quality presets.
pub fn quality_preset_index(name: &str) -> (r: Result<usize, String>)
    ensures
        match r {
            Ok(i) => i < 5 && spec_preset_names()[i as int] == name@,
            Err(m) => (forall|i: int| 0 <= i < 5 ==> spec_preset_names()[i] != name@) && m@
                == unknown_preset_msg(name@),
        },
{
    let names = preset_names();
    let mut i: usize = 0;
    assert(names@.len() == str_views(names@).len());
    while i < names.len()
        invariant
            i <= names@.len(),
            names@.len() == 5,
            str_views(names@) == spec_preset_names(),
            forall|j: int| 0 <= j < i ==> spec_preset_names()[j] != name@,
        decreases names.len() - i,
    {
        if str_eq(names[i], name) {
            return Ok(i);
        }
        i = i + 1;
    }
    let mut m = concat("Unknown quality preset ", debug_str(name).as_str());
    m.append("; valid presets: ");
    m.append(join_preset_names(", ").as_str());
    Err(m)
}

/// The quality preset a batch job runs at: its own, else the batch's, else `medium-high`.
pub open spec fn job_quality(job: Option<Seq<char>>, batch: Option<Seq<char>>) -> Seq<char> {
    match job {
        Some(q) => q,
        None => match batch {
            Some(q) => q,
            None => "medium-high"@,
        },
    }
}

pub open spec fn opt_view(o: Option<String>) -> Option<Seq<char>> {
    match o {
        Some(s) => Some(s@),
        None => None,
    }
}

/// The quality preset of each job of a batch, given each job's own preset and the
/// batch's; a batch without jobs is an error.
pub fn batch_quality_presets(jobs: &Vec<Option<String>>, batch: &Option<String>) -> (r: Result<Vec<String>, String>)
    ensures
        match r {
            Ok(v) => jobs@.len() > 0 && v@.len() == jobs@.len() && forall|i: int|
                0 <= i < v@.len() ==> (#[trigger] v@[i])@ == job_quality(opt_view(jobs@[i]), opt_view(*batch)),
            Err(m) => jobs@.len() == 0 && m@ == "batch config must contain at least one job"@,
        },
{
    if jobs.len() == 0 {
        return Err("batch config must contain at least one job".to_string());
    }
    let mut out: Vec<String> = Vec::new();
    let mut i: usize = 0;
    while i < jobs.len()
        invariant
            i <= jobs@.len(),
            out@.len() == i,
            forall|k: int| 0 <= k < i ==> (#[trigger] out@[k])@ == job_quality(opt_view(jobs@[k]), opt_view(*batch)),
        decreases jobs.len() - i,
    {
        let q = match &jobs[i] {
            Some(q) => q.clone(),
            None => match batch {
                Some(q) => q.clone(),
                None => "medium-high".to_string(),
            },
        };
        out.push(q);
        i = i + 1;
    }
    Ok(out)
}

} // verus!
