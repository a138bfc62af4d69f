//! The picture of one schedule: its systems inside their sets, what runs
//! before what, and which systems are ambiguous.

use vstd::prelude::*;
use crate::extract::{schedule_check, schedule_edges, schedule_graph, schedule_keys, schedule_labels, schedule_nodes, schedule_visible};
use crate::model::{GraphError, ScheduleData, SystemInfo};
use crate::picture::{Style, draw, picture_text};

verus! {

/// What to show of a schedule.
pub struct Settings<F> {
    /// Which systems to show; `None` shows all.
    pub include_system: Option<F>,
    /// Whether to draw ambiguities.
    pub ambiguities: bool,
    pub style: Style,
}

impl<F> Default for Settings<F> {
    /// Everything is shown: all systems, the ambiguities, every set as a
    /// cluster, with redundant ordering edges left out.
    fn default() -> (s: Self)
        ensures
            s.include_system is None,
            s.ambiguities,
            s.style.transitive_reduction,
            !s.style.inline_single_member_sets,
    {
        Settings::new()
    }
}

impl<F> Settings<F> {
    /// Everything is shown: all systems, the ambiguities, every set as a
    /// cluster, with redundant ordering edges left out.
    pub fn new() -> (s: Self)
        ensures
            s.include_system is None,
            s.ambiguities,
            s.style.transitive_reduction,
            !s.style.inline_single_member_sets,
    {
        Settings {
            include_system: None,
            ambiguities: true,
            style: Style { transitive_reduction: true, inline_single_member_sets: false },
        }
    }
}

/// `mask` says of every item what the predicate says of it; without a
/// predicate it says yes.
pub open spec fn mask_fits<T, F: Fn(&T) -> bool>(items: Seq<T>, wanted: Option<F>, mask: Seq<bool>) -> bool {
    &&& mask.len() == items.len()
    &&& forall|i: int|
        0 <= i < items.len() ==> match wanted {
            None => #[trigger] mask[i],
            Some(f) => call_ensures(f, (&items[i],), mask[i]),
        }
}

/// The predicate can be asked about every item.
pub open spec fn askable<T, F: Fn(&T) -> bool>(wanted: Option<F>) -> bool {
    match wanted {
        None => true,
        Some(f) => forall|s: &T| call_requires(f, (s,)),
    }
}

/// Asks the predicate about one item; without a predicate the answer is yes.
pub fn ask<T, F: Fn(&T) -> bool>(item: &T, wanted: &Option<F>) -> (b: bool)
    requires
        askable::<T, F>(*wanted),
    ensures
        match *wanted {
            None => b,
            Some(f) => call_ensures(f, (item,), b),
        },
{
    match wanted {
        None => true,
        Some(f) => f(item),
    }
}

/// Asks the predicate about every item, once, in order.
pub fn mask_of<T, F: Fn(&T) -> bool>(items: &Vec<T>, wanted: &Option<F>) -> (mask: Vec<bool>)
    requires
        askable::<T, F>(*wanted),
    ensures
        mask_fits(items@, *wanted, mask@),
{
    let mut mask: Vec<bool> = Vec::new();
    let mut i: usize = 0;
    while i < items.len()
        invariant
            i <= items.len(),
            askable::<T, F>(*wanted),
            mask@.len() == i,
            forall|k: int|
                0 <= k < i ==> match *wanted {
                    None => #[trigger] mask@[k],
                    Some(f) => call_ensures(f, (&items@[k],), mask@[k]),
                },
        decreases items.len() - i,
    {
        let b = ask(&items[i], wanted);
        mask.push(b);
        i += 1;
    }
    mask
}

/// The text of the picture of a schedule in which `mask` says which systems
/// are shown, or the first problem of the schedule.
pub open spec fn schedule_text(
    data: &ScheduleData,
    mask: Seq<bool>,
    ambiguities: bool,
    style: Style,
) -> Result<Seq<char>, GraphError> {
    match schedule_check(data) {
        Err(e) => Err(e),
        Ok(_) => Ok(
            picture_text(
                data.label@,
                schedule_nodes(data),
                schedule_visible(data, mask),
                schedule_edges(data, ambiguities),
                schedule_keys(data),
                schedule_labels(data),
                style,
            ),
        ),
    }
}

/// `r` is the text `t`, or the error `t`.
pub open spec fn gives(r: Result<String, GraphError>, t: Result<Seq<char>, GraphError>) -> bool {
    match t {
        Ok(s) => r is Ok && r->Ok_0@ == s,
        Err(e) => r is Err && r->Err_0 == e,
    }
}

/// Draws a schedule of which `mask` says which systems are shown: a system
/// is shown unless `mask` has an entry for it that says no.
pub fn render_schedule(data: &ScheduleData, mask: &Vec<bool>, ambiguities: bool, style: Style) -> (r:
    Result<String, GraphError>)
    ensures
        gives(r, schedule_text(data, mask@, ambiguities, style)),
{
    match schedule_graph(data, mask, ambiguities) {
        Err(e) => Err(e),
        Ok(g) => Ok(draw(g, data.label.as_str(), style)),
    }
}

/// Draws a schedule as DOT text. The predicate of the settings is asked
/// once about every system; what is drawn is what `render_schedule` draws
/// for its answers.
pub fn schedule_graph_dot<F: Fn(&SystemInfo) -> bool>(data: &ScheduleData, settings: &Settings<F>) -> (r:
    Result<String, GraphError>)
    requires
        askable::<SystemInfo, F>(settings.include_system),
    ensures
        exists|mask: Seq<bool>|
            mask_fits(data.systems@, settings.include_system, mask) && gives(
                r,
                #[trigger] schedule_text(data, mask, settings.ambiguities, settings.style),
            ),
        settings.include_system is None ==> gives(
            r,
            schedule_text(
                data,
                Seq::new(data.systems@.len(), |i: int| true),
                settings.ambiguities,
                settings.style,
            ),
        ),
{
    let mask = mask_of(&data.systems, &settings.include_system);
    if settings.include_system.is_none() {
        assert(mask@ =~= Seq::new(data.systems@.len(), |i: int| true));
    }
    render_schedule(data, &mask, settings.ambiguities, settings.style)
}

} // verus!
