//! Laws on fixed shape: what a gadget records depends on the forms it is given,
//! and on none of the values that a builder has recorded for them.
//!
//! Two builders of one shape, with whatever values, are of one shape again
//! after the same gadget. So the relation that comes out accepts the witness of
//! every other run exactly when that run was given valid values.
use crate::circuit::{group_agree, lemma_same_shape, same_relation};
use crate::circuit::{FieldR1csBuilder, LinExpr, LinForm, Shape};
use crate::development_allocation::{allocation_step, AllocationSchedule};
use crate::integer_program::{accepts_at, program_forms, program_step, ContextTrace};
use crate::paged_spend::{
    groups_step, page_forms, pages_at, stream_step, stream_valid, PageTrace, RunForms,
};
use crate::parent_close::{finalize_step, ArmObligations, CarrierWalks, RecordingWalk};
use crate::recording::RecordedWires;
use crate::scheduled_allocation::{finish_step, reserve_step, ForkAllocationSchedule};
use vstd::prelude::*;

verus! {

broadcast use group_agree;

/// Both builders are valid and of one shape.
pub open spec fn same_shape(x: FieldR1csBuilder, y: FieldR1csBuilder) -> bool {
    x.wf() && y.wf() && x.shape() == y.shape()
}

/// A program is bound by one relation, whatever program, states and context are
/// recorded on its wires. That relation accepts the witness of another run
/// exactly when the interpreter accepts the values of that run.
pub proof fn lemma_program_fixed(
    x0: FieldR1csBuilder,
    x1: FieldR1csBuilder,
    y0: FieldR1csBuilder,
    y1: FieldR1csBuilder,
    program: Seq<[LinExpr; 2]>,
    current: LinForm,
    next: LinForm,
    context: ContextTrace,
    live: LinForm,
)
    requires
        same_shape(x0, y0),
        x1.wf(),
        y1.wf(),
        x1.shape() == program_step(
            x0.shape(),
            program_forms(program),
            current,
            next,
            context.forms(),
            live,
        ),
        y1.shape() == program_step(
            y0.shape(),
            program_forms(program),
            current,
            next,
            context.forms(),
            live,
        ),
        y1.honest() <==> y0.honest() && accepts_at(
            y0,
            program,
            current,
            next,
            context,
            live,
            y0.witness(),
        ),
    ensures
        x1.shape() == y1.shape(),
        same_relation(x1, y1),
        x1.holds(y1.witness()) <==> x0.holds(y0.witness()) && accepts_at(
            y0,
            program,
            current,
            next,
            context,
            live,
            y0.witness(),
        ),
{
    lemma_same_shape(x0, y0);
    lemma_same_shape(x1, y1);
}

/// The relation of a stream depends on the number of pages and on what the host
/// records behind each: not on how the pages are grouped, nor on slots, amounts
/// or anchors. It accepts the witness
/// of another stream of as many pages exactly when that stream is valid.
pub proof fn lemma_stream_fixed(
    x0: FieldR1csBuilder,
    x1: FieldR1csBuilder,
    y0: FieldR1csBuilder,
    y1: FieldR1csBuilder,
    pages: Seq<PageTrace>,
    max_pages: u8,
    host: spec_fn(Shape, int, RunForms) -> Shape,
)
    requires
        same_shape(x0, y0),
        x1.wf(),
        y1.wf(),
        x1.shape() == stream_step(x0.shape(), page_forms(pages), max_pages, host).0,
        y1.shape() == stream_step(y0.shape(), page_forms(pages), max_pages, host).0,
        y1.honest() <==> y0.honest() && stream_valid(
            pages_at(y0, pages, y0.witness()),
            (max_pages + 1) as nat,
        ),
    ensures
        x1.shape() == y1.shape(),
        same_relation(x1, y1),
        x1.holds(y1.witness()) <==> x0.holds(y0.witness()) && stream_valid(
            pages_at(y0, pages, y0.witness()),
            (max_pages + 1) as nat,
        ),
{
    lemma_same_shape(x0, y0);
    lemma_same_shape(x1, y1);
}

/// The relation of the records of a block is the same for every stream.
pub proof fn lemma_groups_fixed(
    x0: FieldR1csBuilder,
    x1: FieldR1csBuilder,
    y0: FieldR1csBuilder,
    y1: FieldR1csBuilder,
    groups: Seq<Seq<LinForm>>,
    tier: nat,
)
    requires
        same_shape(x0, y0),
        x1.wf(),
        y1.wf(),
        x1.shape() == groups_step(x0.shape(), groups, tier).0,
        y1.shape() == groups_step(y0.shape(), groups, tier).0,
    ensures
        x1.shape() == y1.shape(),
        same_relation(x1, y1),
        x1.holds(y1.witness()) <==> y1.honest(),
{
    lemma_same_shape(x1, y1);
}

/// The relation of the development allocation is the same at every height and
/// depth and for every amount.
pub proof fn lemma_allocation_fixed(
    x0: FieldR1csBuilder,
    x1: FieldR1csBuilder,
    y0: FieldR1csBuilder,
    y1: FieldR1csBuilder,
    height: LinForm,
    depth: Seq<LinForm>,
    raw: LinForm,
    schedule: AllocationSchedule,
)
    requires
        same_shape(x0, y0),
        x1.wf(),
        y1.wf(),
        x1.shape() == allocation_step(x0.shape(), height, depth, raw, schedule).0,
        y1.shape() == allocation_step(y0.shape(), height, depth, raw, schedule).0,
    ensures
        x1.shape() == y1.shape(),
        same_relation(x1, y1),
        x1.holds(y1.witness()) <==> y1.honest(),
{
    lemma_same_shape(x1, y1);
}

/// Under one schedule, reserving the outputs and binding them leaves the same
/// relation at every height: the shape after both steps is a function of the
/// shape before and of the forms.
pub proof fn lemma_schedule_fixed(
    x0: FieldR1csBuilder,
    x1: FieldR1csBuilder,
    x2: FieldR1csBuilder,
    y0: FieldR1csBuilder,
    y1: FieldR1csBuilder,
    y2: FieldR1csBuilder,
    height: LinForm,
    depth: Seq<LinForm>,
    raw: LinForm,
    schedule: ForkAllocationSchedule,
)
    requires
        same_shape(x0, y0),
        x2.wf(),
        y2.wf(),
        x1.shape() == reserve_step(x0.shape(), height).0,
        y1.shape() == reserve_step(y0.shape(), height).0,
        x2.shape() == finish_step(
            x1.shape(),
            height,
            depth,
            raw,
            schedule,
            reserve_step(x0.shape(), height).1,
        ),
        y2.shape() == finish_step(
            y1.shape(),
            height,
            depth,
            raw,
            schedule,
            reserve_step(y0.shape(), height).1,
        ),
    ensures
        x2.shape() == y2.shape(),
        same_relation(x2, y2),
        x2.holds(y2.witness()) <==> y2.honest(),
{
    lemma_same_shape(x2, y2);
}

/// A closed parent region is one relation for both tiers and all recordings.
pub proof fn lemma_parent_fixed(
    x0: FieldR1csBuilder,
    x1: FieldR1csBuilder,
    y0: FieldR1csBuilder,
    y1: FieldR1csBuilder,
    walks: CarrierWalks,
    cell: LinForm,
    rec: RecordingWalk,
    arms: Seq<ArmObligations>,
    selectors: Seq<LinForm>,
    children: Seq<RecordedWires>,
    r_prev: Seq<RecordedWires>,
)
    requires
        same_shape(x0, y0),
        x1.wf(),
        y1.wf(),
        x1.shape() == finalize_step(
            x0.shape(),
            walks,
            cell,
            rec,
            arms,
            selectors,
            children,
            r_prev,
        ),
        y1.shape() == finalize_step(
            y0.shape(),
            walks,
            cell,
            rec,
            arms,
            selectors,
            children,
            r_prev,
        ),
    ensures
        x1.shape() == y1.shape(),
        same_relation(x1, y1),
        x1.holds(y1.witness()) <==> y1.honest(),
{
    lemma_same_shape(x1, y1);
}

} // verus!
