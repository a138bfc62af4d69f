//! The picture of events: the picture of data access with only those
//! resources that hold events, each under the type of its events, so that
//! an edge into an event is a system that sends it and an edge out of it a
//! system that receives it.

use vstd::prelude::*;
use crate::data_graph::{DataGraphContext, data_graph_dot, data_text};
use crate::model::{GraphError, HostData, SystemInfo};
use crate::picture::Style;
use crate::schedule_graph::{askable, gives, mask_fits};

verus! {

/// What to show of the events of a host.
pub type Settings<S, L> = crate::data_graph::Settings<S, L>;

/// What one schedule adds to the picture.
pub type EventGraphContext = DataGraphContext;

/// The context of one schedule for a picture of events: which of its
/// systems the predicate shows.
pub fn events_graph_dot<F: Fn(&SystemInfo) -> bool>(
    host: &HostData,
    schedule: usize,
    include_system: &Option<F>,
) -> (c: EventGraphContext)
    requires
        schedule < host.schedules@.len(),
        askable::<SystemInfo, F>(*include_system),
    ensures
        c.schedule == schedule,
        mask_fits(host.schedules@[schedule as int].systems@, *include_system, c.mask@),
{
    data_graph_dot(host, schedule, include_system)
}

/// Draws the events of the schedules that `contexts` names as DOT text.
pub fn print_context(host: &HostData, contexts: &Vec<EventGraphContext>, style: Style) -> (r: Result<
    String,
    GraphError,
>)
    ensures
        gives(r, data_text(host, contexts@, true, style)),
{
    crate::data_graph::print_context(host, contexts, true, style)
}

} // verus!
