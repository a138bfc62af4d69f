//! Renders the dependency structure of task schedules as DOT graph text:
//! which systems run in which sets, what is ordered before what, which
//! systems are ambiguous, and which system reads or writes which resource.

use vstd::prelude::*;

pub mod collapse;
pub mod data_graph;
pub mod dot;
pub mod event_graph;
pub mod extract;
pub mod graph;
pub mod host;
pub mod ident;
pub mod laws;
pub mod model;
pub mod picture;
pub mod plan;
pub mod reach;
pub mod readings;
pub mod reduce;
pub mod render;
pub mod render_graph;
pub mod schedule_graph;
pub mod seqs;
pub mod simplify;
pub mod text;

use crate::data_graph::{DataGraphContext, collect_contexts, contexts_fit, data_text};
use crate::extract::copy_text;
use crate::model::{GraphError, HostData, ScheduleData, SystemInfo};
use crate::render_graph::{RenderNodeInfo, written_as};
use crate::schedule_graph::{askable, gives, mask_fits, schedule_text};
use crate::seqs::{first_index, lemma_first_index_is, lemma_first_index_none};

verus! {

/// The schedule at `i` has the identifier `label`.
pub open spec fn labelled(host: &HostData, label: Seq<char>, i: int) -> bool {
    host.schedules@[i].label@ == label
}

/// `labelled` as a predicate on positions.
pub open spec fn labelled_pred(host: &HostData, label: Seq<char>) -> spec_fn(int) -> bool {
    |i: int| labelled(host, label, i)
}

/// The position of the first schedule with the identifier `label`.
pub open spec fn schedule_position(host: &HostData, label: Seq<char>) -> Option<int> {
    first_index(host.schedules@.len(), labelled_pred(host, label))
}

/// Looks a schedule up by its identifier.
#[verifier::loop_isolation(false)]
pub fn find_schedule(host: &HostData, label: &str) -> (r: Option<usize>)
    ensures
        match r {
            None => schedule_position(host, label@) is None,
            Some(i) => schedule_position(host, label@) == Some(i as int) && i
                < host.schedules@.len(),
        },
{
    let wanted = copy_text(label);
    let mut i: usize = 0;
    while i < host.schedules.len()
        invariant
            i <= host.schedules.len(),
            forall|k: int| 0 <= k < i ==> !labelled(host, label@, k),
        decreases host.schedules.len() - i,
    {
        if host.schedules[i].label == wanted {
            proof {
                lemma_first_index_is(
                    host.schedules@.len(),
                    labelled_pred(host, label@),
                    i as int,
                );
            }
            return Some(i);
        }
        i += 1;
    }
    proof {
        lemma_first_index_none(host.schedules@.len(), labelled_pred(host, label@));
    }
    None
}

/// The position of the first schedule with the identifier `label`, for a
/// caller who knows that the host has one.
#[verifier::loop_isolation(false)]
pub fn schedule_at(host: &HostData, label: &str) -> (i: usize)
    requires
        schedule_position(host, label@) is Some,
    ensures
        schedule_position(host, label@) == Some(i as int),
        i < host.schedules@.len(),
{
    proof {
        crate::seqs::lemma_first_index(host.schedules@.len(), labelled_pred(host, label@));
    }
    let ghost at = schedule_position(host, label@)->Some_0;
    let wanted = copy_text(label);
    let mut i: usize = 0;
    while host.schedules[i].label != wanted
        invariant
            0 <= i <= at < host.schedules.len(),
        decreases at - i,
    {
        assert(labelled_pred(host, label@)(at));
        assert(labelled(host, label@, at));
        assert(i != at);
        i += 1;
    }
    assert(labelled_pred(host, label@)(i as int));
    i
}

/// `r` is the picture of the schedule with the identifier `label`: the
/// text that `schedule_text` gives for the first schedule of that
/// identifier and for the answers of the predicate about its systems, or
/// the first problem of that schedule.
pub open spec fn schedule_drawn<F: Fn(&SystemInfo) -> bool>(
    host: &HostData,
    label: Seq<char>,
    settings: &schedule_graph::Settings<F>,
    r: Result<String, GraphError>,
) -> bool {
    exists|mask: Seq<bool>|
        mask_fits(
            host.schedules@[schedule_position(host, label)->Some_0].systems@,
            settings.include_system,
            mask,
        ) && gives(
            r,
            #[trigger] schedule_text(
                &host.schedules@[schedule_position(host, label)->Some_0],
                mask,
                settings.ambiguities,
                settings.style,
            ),
        )
}

/// Draws the schedule with the identifier `label` as DOT text. To ask for
/// a schedule that the host does not have is the caller's error:
/// `find_schedule` tells whether it has one.
pub fn schedule_graph_dot<F: Fn(&SystemInfo) -> bool>(
    host: &HostData,
    label: &str,
    settings: &schedule_graph::Settings<F>,
) -> (r: Result<String, GraphError>)
    requires
        schedule_position(host, label@) is Some,
        askable::<SystemInfo, F>(settings.include_system),
    ensures
        schedule_drawn(host, label@, settings, r),
{
    let i = schedule_at(host, label);
    let r = schedule_graph::schedule_graph_dot(&host.schedules[i], settings);
    proof {
        let data = &host.schedules@[i as int];
        let mask = choose|mask: Seq<bool>|
            mask_fits(data.systems@, settings.include_system, mask) && gives(
                r,
                #[trigger] schedule_text(data, mask, settings.ambiguities, settings.style),
            );
        assert(host.schedules@[schedule_position(host, label@)->Some_0] == *data);
        assert(mask_fits(data.systems@, settings.include_system, mask));
        assert(gives(r, schedule_text(data, mask, settings.ambiguities, settings.style)));
    }
    r
}

/// `r` is the picture of the data access of the host, or of its events:
/// the text that `data_text` gives for one context for each schedule that
/// the predicate on schedules shows, in the order of the host, each with
/// the answers of the predicate on systems; or the first problem met.
pub open spec fn data_drawn<S: Fn(&SystemInfo) -> bool, L: Fn(&ScheduleData) -> bool>(
    host: &HostData,
    settings: &data_graph::Settings<S, L>,
    events_only: bool,
    r: Result<String, GraphError>,
) -> bool {
    exists|contexts: Seq<DataGraphContext>, chosen: Seq<bool>|
        #![trigger contexts_fit(host, settings.include_system, settings.include_schedule, contexts, chosen)]
        contexts_fit(host, settings.include_system, settings.include_schedule, contexts, chosen)
            && gives(r, data_text(host, contexts, events_only, settings.style))
}

/// Draws the data access of a host as DOT text: one cluster for each
/// schedule that the settings show, in the order of the host, and the
/// resources that the shown systems touch. Each predicate of the settings
/// is asked once about each of its subjects.
pub fn data_graph_dot<S: Fn(&SystemInfo) -> bool, L: Fn(&ScheduleData) -> bool>(
    host: &HostData,
    settings: &data_graph::Settings<S, L>,
) -> (r: Result<String, GraphError>)
    requires
        askable::<SystemInfo, S>(settings.include_system),
        askable::<ScheduleData, L>(settings.include_schedule),
    ensures
        data_drawn(host, settings, false, r),
{
    let contexts = collect_contexts(host, &settings.include_system, &settings.include_schedule);
    let r = data_graph::print_context(host, &contexts, false, settings.style);
    proof {
        let chosen = choose|chosen: Seq<bool>| #[trigger]
            contexts_fit(
                host,
                settings.include_system,
                settings.include_schedule,
                contexts@,
                chosen,
            );
        assert(contexts_fit(
            host,
            settings.include_system,
            settings.include_schedule,
            contexts@,
            chosen,
        ));
    }
    r
}

/// Draws the events of a host as DOT text: as `data_graph_dot`, with only
/// the resources that hold events, each under the type of its events.
pub fn events_graph_dot<S: Fn(&SystemInfo) -> bool, L: Fn(&ScheduleData) -> bool>(
    host: &HostData,
    settings: &event_graph::Settings<S, L>,
) -> (r: Result<String, GraphError>)
    requires
        askable::<SystemInfo, S>(settings.include_system),
        askable::<ScheduleData, L>(settings.include_schedule),
    ensures
        data_drawn(host, settings, true, r),
{
    let contexts = collect_contexts(host, &settings.include_system, &settings.include_schedule);
    let r = event_graph::print_context(host, &contexts, settings.style);
    proof {
        let chosen = choose|chosen: Seq<bool>| #[trigger]
            contexts_fit(
                host,
                settings.include_system,
                settings.include_schedule,
                contexts@,
                chosen,
            );
        assert(contexts_fit(
            host,
            settings.include_system,
            settings.include_schedule,
            contexts@,
            chosen,
        ));
    }
    r
}

/// `r` is the picture of the render graph of the host: the text that
/// `schedule_text` gives for the graph written as a schedule and for the
/// answers of the predicate about its nodes, or the first problem of the
/// graph.
pub open spec fn render_drawn<F: Fn(&RenderNodeInfo) -> bool>(
    host: &HostData,
    settings: &render_graph::Settings<F>,
    r: Result<String, GraphError>,
) -> bool {
    exists|d: ScheduleData, mask: Seq<bool>|
        written_as(&host.render_graph->Some_0, &d) && mask_fits(
            host.render_graph->Some_0.nodes@,
            settings.include_node,
            mask,
        ) && gives(r, #[trigger] schedule_text(&d, mask, false, settings.style))
}

/// Draws the render graph of a host as DOT text. To ask for the render
/// graph of a host that has none is the caller's error.
pub fn render_graph_dot<F: Fn(&RenderNodeInfo) -> bool>(
    host: &HostData,
    settings: &render_graph::Settings<F>,
) -> (r: Result<String, GraphError>)
    requires
        host.render_graph is Some,
        askable::<RenderNodeInfo, F>(settings.include_node),
    ensures
        render_drawn(host, settings, r),
{
    render_graph::render_graph_dot(host.render_graph.as_ref().unwrap(), settings)
}

} // verus!
