//! Which page streams are valid, page by page.
use crate::circuit::FieldR1csBuilder;
use crate::paged_spend::{
    compacted, count_live, countdown, initial_run, lemma_prefix_valid, next_is_live, page_ok, prefix_ok, run_at, stream_ok,
    stream_valid, PageValue, PagedSpendGroupTrace,
};
use crate::trace::int_at;
use crate::circuit::{const_form, lemma_constants, LinForm, Shape};
use crate::field::{fmul, is_bit, lemma_fmul_unit, lemma_xor};
use crate::paged_spend::{
    absorb_step, carry_step, pad_forms, record_step, seed_forms, PageForms, RunForms,
};
use crate::trace::{mul_step, mux_step};
use vstd::arithmetic::power2::pow2;
use vstd::prelude::*;

verus! {

/// What the pages of a group hold together, from its start page up to page `i`.
pub open spec fn total(pages: Seq<PageValue>, i: int, f: spec_fn(PageValue) -> nat) -> nat
    decreases i + 1,
{
    if i < 0 || !pages[i].live {
        0
    } else if pages[i].start {
        f(pages[i])
    } else {
        total(pages, i - 1, f) + f(pages[i])
    }
}

/// The fee that the start page of the group of page `i` pays.
pub open spec fn group_fee(pages: Seq<PageValue>, i: int) -> nat
    decreases i + 1,
{
    if i < 0 || !pages[i].live {
        0
    } else if pages[i].start {
        pages[i].paid_fee
    } else {
        group_fee(pages, i - 1)
    }
}

/// The groups of a stream are whole: a live page starts a group exactly when no group is
/// open before it, no dead page ends one, and none is left open by a dead page or by the
/// end of the stream. From every page the end of its group is less than `cap` pages away,
/// itself counted.
pub open spec fn groups_whole(pages: Seq<PageValue>, cap: nat) -> bool {
    forall|i: int|
        0 <= i < pages.len() ==> {
            let p = #[trigger] pages[i];
            &&& p.start <==> p.live && (i == 0 || pages[i - 1].end)
            &&& p.end ==> p.live
            &&& p.live && !p.end ==> i + 1 < pages.len() && pages[i + 1].live
            &&& p.live && !p.start ==> pages[i - 1].live
            &&& countdown(pages, i) < cap
        }
}

/// Within a group every page has the owner and the epoch of the page before, and pays no
/// fee of its own.
pub open spec fn groups_continued(pages: Seq<PageValue>) -> bool {
    forall|i: int|
        0 <= i < pages.len() && (#[trigger] pages[i]).live && !pages[i].start ==> {
            &&& pages[i].owner == pages[i - 1].owner
            &&& pages[i].epoch == pages[i - 1].epoch
            &&& pages[i].fee == 0
        }
}

/// Positions are used in order: on a page none behind a free one, and in a group none
/// behind a page whose last one is free, for inputs and outputs alike.
pub open spec fn positions_dense(pages: Seq<PageValue>) -> bool {
    forall|i: int|
        0 <= i < pages.len() ==> {
            let p = #[trigger] pages[i];
            &&& forall|k: int, l: int|
                0 <= k < l < p.raw_inputs.len() && #[trigger] p.raw_inputs[l] == 1
                    ==> #[trigger] p.raw_inputs[k] == 1
            &&& forall|k: int, l: int|
                0 <= k < l < p.raw_outputs.len() && #[trigger] p.raw_outputs[l] == 1
                    ==> #[trigger] p.raw_outputs[k] == 1
            &&& p.live && !p.start && p.raw_inputs[0] == 1 ==> pages[i - 1].raw_inputs.last() == 1
            &&& p.live && !p.start && p.raw_outputs[0] == 1 ==> pages[i - 1].raw_outputs.last() == 1
        }
}

/// The counts and sums of a group fit their ranges, with those of a page that follows it
/// too, and every group that ends has an input and spends its inputs on its outputs and
/// its fee.
pub open spec fn groups_balanced(pages: Seq<PageValue>) -> bool {
    let ic = |p: PageValue| p.input_count;
    let oc = |p: PageValue| p.output_count;
    let is = |p: PageValue| p.input_sum;
    let os = |p: PageValue| p.output_sum;
    forall|i: int|
        0 <= i < pages.len() ==> {
            let p = #[trigger] pages[i];
            &&& total(pages, i - 1, ic) + p.input_count < 2048
            &&& total(pages, i - 1, oc) + p.output_count < 512
            &&& total(pages, i - 1, is) + p.input_sum < pow2(74)
            &&& total(pages, i - 1, os) + p.output_sum < pow2(74)
            &&& total(pages, i, os) + group_fee(pages, i) < pow2(74)
            &&& p.end ==> total(pages, i, ic) > 0
            &&& p.end ==> total(pages, i, is) == total(pages, i, os) + group_fee(pages, i)
        }
}

proof fn lemma_run(pages: Seq<PageValue>, remaining: Seq<nat>, n: nat)
    requires
        n <= pages.len(),
    ensures
        ({
            let run = run_at(pages, remaining, n);
            &&& run.input_count == total(pages, n - 1, |p: PageValue| p.input_count)
            &&& run.output_count == total(pages, n - 1, |p: PageValue| p.output_count)
            &&& run.input_sum == total(pages, n - 1, |p: PageValue| p.input_sum)
            &&& run.output_sum == total(pages, n - 1, |p: PageValue| p.output_sum)
            &&& run.fee == group_fee(pages, n - 1)
            &&& n == 0 ==> run == initial_run()
            &&& n > 0 ==> run.end == pages[n - 1].end && run.owner == pages[n - 1].owner
                && run.epoch == pages[n - 1].epoch && run.remaining == remaining[n - 1]
                && run.full_inputs == (pages[n - 1].raw_inputs.last() == 1) && run.full_outputs == (
            pages[n - 1].raw_outputs.last() == 1)
        }),
    decreases n,
{
    if n > 0 {
        lemma_run(pages, remaining, (n - 1) as nat);
    }
}

proof fn lemma_in_order(vals: Seq<u128>)
    ensures
        crate::paged_spend::dense(vals) <==> (forall|k: int, l: int|
            0 <= k < l < vals.len() && #[trigger] vals[l] == 1 ==> #[trigger] vals[k] == 1),
{
    if crate::paged_spend::dense(vals) {
        assert forall|k: int, l: int|
            0 <= k < l < vals.len() && #[trigger] vals[l] == 1 implies #[trigger] vals[k] == 1 by {
            lemma_down(vals, k, l);
        }
    } else {
        let i = choose|i: int|
            0 <= i < vals.len() - 1 && !(#[trigger] vals[i + 1] == 1 ==> vals[i] == 1);
        let l = i + 1;
        assert(vals[l] == 1 && vals[i] != 1);
    }
}

proof fn lemma_down(vals: Seq<u128>, k: int, l: int)
    requires
        crate::paged_spend::dense(vals),
        0 <= k < l < vals.len(),
        vals[l] == 1,
    ensures
        vals[k] == 1,
    decreases l - k,
{
    let i = l - 1;
    assert(vals[i + 1] == 1);
    if k < i {
        lemma_down(vals, k, i);
    }
}

proof fn lemma_ranges()
    ensures
        pow2(11) == 2048,
        pow2(9) == 512,
{
    vstd::arithmetic::power2::lemma2_to64();
}

/// What page `i` of a stream meets when its own countdowns pass.
proof fn lemma_page_forward(pages: Seq<PageValue>, cap: nat, i: int)
    requires
        prefix_ok(pages, cap, pages.len()),
        0 <= i < pages.len(),
    ensures
        ({
            let p = pages[i];
            &&& p.start <==> p.live && (i == 0 || pages[i - 1].end)
            &&& p.end ==> p.live
            &&& p.live && !p.end ==> i + 1 < pages.len() && pages[i + 1].live
            &&& p.live && !p.start ==> pages[i - 1].live
            &&& countdown(pages, i) < cap
        }),
{
    reveal(page_ok);
    let own = Seq::new(pages.len(), |k: int| countdown(pages, k));
    assert(stream_ok(pages, own, cap, pages.len()));
    lemma_run(pages, own, i as nat);
    let p = pages[i];
    assert(page_ok(
        run_at(pages, own, i as nat),
        pages[i],
        own[i],
        next_is_live(pages, i),
        cap,
    ));
    if i > 0 {
        assert(own[i - 1] == countdown(pages, i - 1));
    }
}

/// A page stream is valid when its groups are whole and continued, its positions are used
/// in order, its groups balance, and every live page that does not end its group has its
/// last input position or its last output position in use; and only then.
#[verifier::rlimit(40)]
pub proof fn lemma_stream_rules(pages: Seq<PageValue>, cap: nat)
    ensures
        stream_valid(pages, cap) <==> {
            &&& groups_whole(pages, cap)
            &&& groups_continued(pages)
            &&& positions_dense(pages)
            &&& groups_balanced(pages)
            &&& forall|i: int|
                0 <= i < pages.len() && (#[trigger] pages[i]).live && !pages[i].end
                    ==> pages[i].raw_inputs.last() == 1 || pages[i].raw_outputs.last() == 1
        },
{
    lemma_prefix_valid(pages, cap);
    lemma_ranges();
    reveal(page_ok);
    let own = Seq::new(pages.len(), |k: int| countdown(pages, k));
    let ic = |p: PageValue| p.input_count;
    let oc = |p: PageValue| p.output_count;
    let is = |p: PageValue| p.input_sum;
    let os = |p: PageValue| p.output_sum;
    if stream_valid(pages, cap) {
        assert forall|i: int| 0 <= i < pages.len() implies {
            let p = #[trigger] pages[i];
            &&& p.start <==> p.live && (i == 0 || pages[i - 1].end)
            &&& p.end ==> p.live
            &&& p.live && !p.end ==> i + 1 < pages.len() && pages[i + 1].live
            &&& p.live && !p.start ==> pages[i - 1].live
            &&& countdown(pages, i) < cap
        } by {
            lemma_page_forward(pages, cap, i);
        }
        assert forall|i: int| 0 <= i < pages.len() implies page_ok(
            run_at(pages, own, i as nat),
            #[trigger] pages[i],
            own[i],
            next_is_live(pages, i),
            cap,
        ) && own[i] == countdown(pages, i) by {
            assert(stream_ok(pages, own, cap, pages.len()));
        }
        assert(groups_continued(pages)) by {
            assert forall|i: int|
                0 <= i < pages.len() && (#[trigger] pages[i]).live && !pages[i].start implies {
                &&& pages[i].owner == pages[i - 1].owner
                &&& pages[i].epoch == pages[i - 1].epoch
                &&& pages[i].fee == 0
            } by {
                lemma_run(pages, own, i as nat);
            }
        }
        assert(positions_dense(pages)) by {
            assert forall|i: int| 0 <= i < pages.len() implies {
                let p = #[trigger] pages[i];
                &&& forall|k: int, l: int|
                    0 <= k < l < p.raw_inputs.len() && #[trigger] p.raw_inputs[l] == 1
                        ==> #[trigger] p.raw_inputs[k] == 1
                &&& forall|k: int, l: int|
                    0 <= k < l < p.raw_outputs.len() && #[trigger] p.raw_outputs[l] == 1
                        ==> #[trigger] p.raw_outputs[k] == 1
                &&& p.live && !p.start && p.raw_inputs[0] == 1 ==> pages[i - 1].raw_inputs.last()
                    == 1
                &&& p.live && !p.start && p.raw_outputs[0] == 1 ==> pages[i - 1].raw_outputs.last()
                    == 1
            } by {
                lemma_run(pages, own, i as nat);
                lemma_in_order(pages[i].raw_inputs);
                lemma_in_order(pages[i].raw_outputs);
            }
        }
        assert(groups_balanced(pages)) by {
            assert forall|i: int| 0 <= i < pages.len() implies {
                let p = #[trigger] pages[i];
                &&& total(pages, i - 1, ic) + p.input_count < 2048
                &&& total(pages, i - 1, oc) + p.output_count < 512
                &&& total(pages, i - 1, is) + p.input_sum < pow2(74)
                &&& total(pages, i - 1, os) + p.output_sum < pow2(74)
                &&& total(pages, i, os) + group_fee(pages, i) < pow2(74)
                &&& p.end ==> total(pages, i, ic) > 0
                &&& p.end ==> total(pages, i, is) == total(pages, i, os) + group_fee(pages, i)
            } by {
                lemma_run(pages, own, i as nat);
                lemma_run(pages, own, (i + 1) as nat);
            }
        }
    }
    if groups_whole(pages, cap) && groups_continued(pages) && positions_dense(pages)
        && groups_balanced(pages) && (forall|i: int|
        0 <= i < pages.len() && (#[trigger] pages[i]).live && !pages[i].end
            ==> pages[i].raw_inputs.last() == 1 || pages[i].raw_outputs.last() == 1) {
        assert forall|i: int| 0 <= i < pages.len() implies page_ok(
            run_at(pages, own, i as nat),
            #[trigger] pages[i],
            own[i],
            next_is_live(pages, i),
            cap,
        ) by {
            lemma_run(pages, own, i as nat);
            lemma_run(pages, own, (i + 1) as nat);
            lemma_in_order(pages[i].raw_inputs);
            lemma_in_order(pages[i].raw_outputs);
            let p = pages[i];
            if i > 0 {
                let q = pages[i - 1];
                assert(own[i - 1] == countdown(pages, i - 1));
            }
        }
        assert(stream_ok(pages, own, cap, pages.len()));
    }
}

/// A stream that keeps the other rules, and whose pages before the end of a group have all
/// their output positions in use, is valid whatever inputs it uses; the same of the input
/// positions, whatever outputs it uses.
pub proof fn lemma_full_side_packs(pages: Seq<PageValue>, cap: nat)
    requires
        groups_whole(pages, cap),
        groups_continued(pages),
        positions_dense(pages),
        groups_balanced(pages),
        forall|i: int|
            0 <= i < pages.len() && (#[trigger] pages[i]).live && !pages[i].end ==> {
                ||| pages[i].raw_outputs.len() > 0 && forall|k: int|
                    0 <= k < pages[i].raw_outputs.len() ==> #[trigger] pages[i].raw_outputs[k] == 1
                ||| pages[i].raw_inputs.len() > 0 && forall|k: int|
                    0 <= k < pages[i].raw_inputs.len() ==> #[trigger] pages[i].raw_inputs[k] == 1
            },
    ensures
        stream_valid(pages, cap),
{
    lemma_stream_rules(pages, cap);
}

/// A live page that does not end its group and has a free last position among its inputs
/// and among its outputs makes the stream invalid.
pub proof fn lemma_slack_page_refused(pages: Seq<PageValue>, cap: nat, i: int)
    requires
        0 <= i < pages.len(),
        pages[i].live,
        !pages[i].end,
        pages[i].raw_inputs.last() != 1,
        pages[i].raw_outputs.last() != 1,
    ensures
        !stream_valid(pages, cap),
{
    lemma_stream_rules(pages, cap);
}

/// The countdown of a live page whose group ends at page `e` counts the pages up to there.
pub proof fn lemma_countdown_counts(pages: Seq<PageValue>, i: int, e: int)
    requires
        0 <= i <= e < pages.len(),
        pages[e].live,
        pages[e].end,
        forall|m: int| i <= m < e ==> (#[trigger] pages[m]).live && !pages[m].end,
    ensures
        countdown(pages, i) == e - i + 1,
    decreases e - i,
{
    if i < e {
        assert(pages[i].live && !pages[i].end);
        lemma_countdown_counts(pages, i + 1, e);
    }
}

/// Every page of a valid stream passes where it is bound: the recorded rows ask nothing of
/// the first `n` pages that a valid stream does not meet.
pub proof fn lemma_valid_pages_pass(pages: Seq<PageValue>, cap: nat, n: nat)
    requires
        stream_valid(pages, cap),
        n <= pages.len(),
    ensures
        prefix_ok(pages, cap, n),
{
    lemma_prefix_valid(pages, cap);
}

/// Records are compacted when the live ones come first, by growing closing pages of at most
/// 32 bits, and only then.
pub proof fn lemma_compacted_rules(
    b: FieldR1csBuilder,
    groups: Seq<PagedSpendGroupTrace>,
    z: spec_fn(int) -> u128,
)
    requires
        forall|i: int| 0 <= i < groups.len() ==> is_bit((#[trigger] groups[i]).live.at(z)),
    ensures
        compacted(b, groups, z) <==> {
            &&& forall|i: int|
                0 <= i < groups.len() ==> int_at(b, (#[trigger] groups[i]).end_page@, z) < pow2(32)
            &&& forall|i: int, j: int|
                0 <= i < j < groups.len() && (#[trigger] groups[j]).live.at(z) == 1 ==> (
                #[trigger] groups[i]).live.at(z) == 1 && int_at(b, groups[i].end_page@, z)
                    < int_at(b, groups[j].end_page@, z)
        },
{
    let lives = crate::paged_spend::lives_at(groups, z);
    lemma_in_order(lives);
    if compacted(b, groups, z) {
        assert forall|i: int, j: int|
            0 <= i < j < groups.len() && (#[trigger] groups[j]).live.at(z) == 1 implies (
        #[trigger] groups[i]).live.at(z) == 1 && int_at(b, groups[i].end_page@, z) < int_at(
            b,
            groups[j].end_page@,
            z,
        ) by {
            lemma_compacted_pair(b, groups, z, i, j);
        }
    } else if forall|i: int, j: int|
        0 <= i < j < groups.len() && (#[trigger] groups[j]).live.at(z) == 1 ==> (
        #[trigger] groups[i]).live.at(z) == 1 && int_at(b, groups[i].end_page@, z) < int_at(
            b,
            groups[j].end_page@,
            z,
        ) {
        assert forall|k: int, l: int|
            0 <= k < l < lives.len() && #[trigger] lives[l] == 1 implies #[trigger] lives[k]
            == 1 by {
            assert(groups[l].live.at(z) == 1);
            assert(groups[k].live.at(z) == 1);
        }
    }
}

proof fn lemma_compacted_pair(
    b: FieldR1csBuilder,
    groups: Seq<PagedSpendGroupTrace>,
    z: spec_fn(int) -> u128,
    i: int,
    j: int,
)
    requires
        compacted(b, groups, z),
        0 <= i < j < groups.len(),
        groups[j].live.at(z) == 1,
    ensures
        groups[i].live.at(z) == 1,
        int_at(b, groups[i].end_page@, z) < int_at(b, groups[j].end_page@, z),
    decreases j - i,
{
    let lives = crate::paged_spend::lives_at(groups, z);
    let k = j - 1;
    assert(lives[k + 1] == 1);
    assert(lives[k] == 1);
    assert(groups[k + 1].live.at(z) == 1);
    if i < k {
        lemma_compacted_pair(b, groups, z, i, k);
    }
}

/// Of records whose live ones come first, the count is where the live ones end.
pub proof fn lemma_count_is_length(lives: Seq<u128>, n: nat, k: nat)
    requires
        k <= n <= lives.len(),
        forall|i: int| 0 <= i < k ==> #[trigger] lives[i] == 1,
        forall|i: int| k <= i < n ==> #[trigger] lives[i] == 0,
    ensures
        count_live(lives, n) == k,
    decreases n,
{
    if n > 0 {
        if k == n {
            lemma_count_is_length(lives, (n - 1) as nat, (n - 1) as nat);
        } else {
            lemma_count_is_length(lives, (n - 1) as nat, k);
        }
    }
}

/// A record's lanes, in order: whether it is live, the group's identifier, its owner, its
/// fee, its counts, and the page that closes it.
pub proof fn lemma_record_lanes(group: PagedSpendGroupTrace)
    ensures
        group.lanes().len() == 9,
        group.lanes()[0] == group.live@,
        group.lanes()[1] == group.logical_txid@[0]@,
        group.lanes()[2] == group.logical_txid@[1]@,
        group.lanes()[3] == group.input_owner@[0]@,
        group.lanes()[4] == group.input_owner@[1]@,
        group.lanes()[5] == group.fee@,
        group.lanes()[6] == group.live_input_count@,
        group.lanes()[7] == group.live_output_count@,
        group.lanes()[8] == group.end_page@,
{
}

proof fn lemma_constant_rows(s: Shape, x: u128, y: u128, w: u128)
    ensures
        mul_step(s, const_form(x), const_form(y)) == (s, const_form(fmul(x, y))),
        mux_step(s, const_form(x), const_form(y), const_form(w)) == (
            s,
            const_form(w ^ fmul(x, y ^ w)),
        ),
{
    reveal(mul_step);
    reveal(mux_step);
    lemma_constants(x, y);
    lemma_constants(y, w);
    lemma_constants(y ^ w, 0);
    lemma_constants(x, y ^ w);
    lemma_constants(w, fmul(x, y ^ w));
}

/// A group's hash is seeded with the version, the countdown and the two capacity words, in
/// this order.
pub proof fn lemma_seed_lanes(
    flat: spec_fn(u128) -> u128,
    version: u128,
    remaining: LinForm,
    capacity: [u128; 2],
)
    ensures
        seed_forms(flat, version, remaining, capacity).len() == 4,
        seed_forms(flat, version, remaining, capacity)[0] == const_form(flat(version)),
        seed_forms(flat, version, remaining, capacity)[1] == remaining,
        seed_forms(flat, version, remaining, capacity)[2] == const_form(flat(capacity@[0])),
        seed_forms(flat, version, remaining, capacity)[3] == const_form(flat(capacity@[1])),
{
    reveal(seed_forms);
}

/// A start page is absorbed into the seed and any other page into the state before it: its
/// hash is added to the two rate lanes, and the capacity lanes are kept.
pub proof fn lemma_absorbed_lanes(
    s: Shape,
    start: bool,
    seeded: Seq<u128>,
    previous: Seq<u128>,
    hash: Seq<u128>,
)
    requires
        seeded.len() == 4,
        previous.len() == 4,
        hash.len() == 2,
    ensures
        ({
            let (t, out) = absorb_step(
                s,
                const_form(
                    if start {
                        1
                    } else {
                        0
                    },
                ),
                seeded.map_values(|v: u128| const_form(v)),
                previous.map_values(|v: u128| const_form(v)),
                hash.map_values(|v: u128| const_form(v)),
            );
            let from = if start {
                seeded
            } else {
                previous
            };
            &&& out.len() == 4
            &&& out[0] == const_form(from[0] ^ hash[0])
            &&& out[1] == const_form(from[1] ^ hash[1])
            &&& out[2] == const_form(from[2])
            &&& out[3] == const_form(from[3])
        }),
{
    reveal(absorb_step);
    let bit: u128 = if start {
        1
    } else {
        0
    };
    let from = if start {
        seeded
    } else {
        previous
    };
    assert forall|l: int| 0 <= l < 4 implies previous[l] ^ fmul(bit, seeded[l] ^ previous[l])
        == #[trigger] from[l] by {
        lemma_fmul_unit(seeded[l] ^ previous[l]);
        lemma_xor(previous[l], seeded[l], 0);
        lemma_xor(seeded[l], previous[l], 0);
    }
    assert(from[0] == from[0] && from[1] == from[1] && from[2] == from[2] && from[3] == from[3]);
    lemma_constant_rows(s, bit, seeded[0], previous[0]);
    lemma_constant_rows(s, bit, seeded[1], previous[1]);
    lemma_constant_rows(s, bit, seeded[2], previous[2]);
    lemma_constant_rows(s, bit, seeded[3], previous[3]);
    lemma_constants(from[0], hash[0]);
    lemma_constants(from[1], hash[1]);
}

/// A live page carries its state on, and a dead page carries zero.
pub proof fn lemma_carried_lanes(s: Shape, live: bool, state: Seq<u128>, l: int)
    requires
        state.len() == 4,
        0 <= l < 4,
    ensures
        ({
            let (t, out) = carry_step(
                s,
                const_form(
                    if live {
                        1
                    } else {
                        0
                    },
                ),
                state.map_values(|v: u128| const_form(v)),
            );
            &&& out.len() == 4
            &&& out[l] == const_form(
                if live {
                    state[l]
                } else {
                    0
                },
            )
        }),
{
    reveal(carry_step);
    let bit: u128 = if live {
        1
    } else {
        0
    };
    lemma_constant_rows(s, bit, state[0], 0);
    lemma_constant_rows(s, bit, state[1], 0);
    lemma_constant_rows(s, bit, state[2], 0);
    lemma_constant_rows(s, bit, state[3], 0);
    lemma_fmul_unit(state[0]);
    lemma_fmul_unit(state[1]);
    lemma_fmul_unit(state[2]);
    lemma_fmul_unit(state[3]);
}

/// The padding opens in the lowest byte of the first lane and closes in the highest byte of
/// the second; the capacity lanes are kept.
pub proof fn lemma_padded_lanes(flat: spec_fn(u128) -> u128, state: Seq<u128>)
    requires
        state.len() == 4,
    ensures
        ({
            let out = pad_forms(flat, state.map_values(|v: u128| const_form(v)));
            &&& out.len() == 4
            &&& out[0] == const_form(state[0] ^ flat(128))
            &&& out[1] == const_form(state[1] ^ flat(0x0100_0000_0000_0000_0000_0000_0000_0000))
            &&& out[2] == const_form(state[2])
            &&& out[3] == const_form(state[3])
        }),
{
    reveal(pad_forms);
    lemma_constants(state[0], flat(128));
    lemma_constants(state[1], flat(0x0100_0000_0000_0000_0000_0000_0000_0000));
}

/// The record of a page that closes a group: the identifier that the group's hash gives, the
/// owner of the page, the fee and the counts of the whole group, and the number of the page,
/// counted from one. Any other page leaves a record of zeros.
pub proof fn lemma_record_of_page(
    s: Shape,
    live: bool,
    end: bool,
    owner: (u128, u128),
    fee: u128,
    inputs: u128,
    outputs: u128,
    id: (u128, u128),
    index: nat,
    page: PageForms,
    run: RunForms,
)
    requires
        page.live == const_form(
            if live {
                1
            } else {
                0
            },
        ),
        page.end == const_form(
            if end {
                1
            } else {
                0
            },
        ),
        page.owner == (const_form(owner.0), const_form(owner.1)),
        run.fee == const_form(fee),
        run.input_count == const_form(inputs),
        run.output_count == const_form(outputs),
    ensures
        ({
            let (t, out) = record_step(
                s,
                page,
                run,
                seq![const_form(id.0), const_form(id.1)],
                index,
            );
            let full = seq![
                1u128,
                id.0,
                id.1,
                owner.0,
                owner.1,
                fee,
                inputs,
                outputs,
                (s.flat)((index + 1) as u128),
            ];
            &&& out.len() == 9
            &&& forall|k: int|
                0 <= k < 9 ==> #[trigger] out[k] == const_form(
                    if live && end {
                        full[k]
                    } else {
                        0
                    },
                )
        }),
{
    reveal(record_step);
    let a: u128 = if live {
        1
    } else {
        0
    };
    let e: u128 = if end {
        1
    } else {
        0
    };
    let l: u128 = if live && end {
        1
    } else {
        0
    };
    lemma_fmul_unit(e);
    lemma_constant_rows(s, a, e, 0);
    lemma_constant_rows(s, l, id.0, 0);
    lemma_constant_rows(s, l, id.1, 0);
    lemma_constant_rows(s, l, owner.0, 0);
    lemma_constant_rows(s, l, owner.1, 0);
    lemma_constant_rows(s, l, fee, 0);
    lemma_constant_rows(s, l, inputs, 0);
    lemma_constant_rows(s, l, outputs, 0);
    let at = (s.flat)((index + 1) as u128);
    lemma_constants(l, at);
    lemma_fmul_unit(id.0);
    lemma_fmul_unit(id.1);
    lemma_fmul_unit(owner.0);
    lemma_fmul_unit(owner.1);
    lemma_fmul_unit(fee);
    lemma_fmul_unit(inputs);
    lemma_fmul_unit(outputs);
    lemma_fmul_unit(at);
}

} // verus!
