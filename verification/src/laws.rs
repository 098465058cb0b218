use crate::hints::{lookup, HintEntry};
use crate::scan::{
    apply_spec, count_true, records_of, scan_fold, scan_step, OpAt, ScanEvent, ScanModel,
    TransformError,
};
use crate::section::{section_bytes, BranchRecord};
use crate::splice::spliced;
use vstd::prelude::*;

verus! {

proof fn lemma_count_true_nonneg(s: Seq<bool>)
    ensures
        count_true(s) >= 0,
    decreases s.len(),
{
    if s.len() > 0 {
        lemma_count_true_nonneg(s.drop_last());
    }
}

/// With an empty table every lookup misses.
proof fn lemma_records_empty_table(ops: Seq<OpAt>, start: u64, rel: u32)
    ensures
        records_of(ops, start, rel, Seq::<HintEntry>::empty()) == Seq::<BranchRecord>::empty(),
    decreases ops.len(),
{
    if ops.len() > 0 {
        lemma_records_empty_table(ops.drop_last(), start, rel);
    }
}

proof fn lemma_fold_empty_table(bytes_len: int, events: Seq<ScanEvent>)
    requires
        scan_fold(bytes_len, events, Seq::<HintEntry>::empty()) is Ok,
    ensures
        scan_fold(bytes_len, events, Seq::<HintEntry>::empty())->Ok_0.funcs.len() == 0,
    decreases events.len(),
{
    if events.len() > 0 {
        lemma_fold_empty_table(bytes_len, events.drop_last());
        if let ScanEvent::Body { ops_start, ops } = events.last() {
            lemma_records_empty_table(ops@, ops_start, scan_fold(
                bytes_len,
                events.drop_last(),
                Seq::<HintEntry>::empty(),
            )->Ok_0.n_bodies as u32);
        }
    }
}

/// Round-trip identity: with an empty hint table no function collects a hint,
/// so no section is emitted at all and the output equals the input exactly.
pub proof fn lemma_empty_table_identity(bytes: Seq<u8>, events: Seq<ScanEvent>)
    requires
        apply_spec(bytes, events, Seq::<HintEntry>::empty()) is Ok,
    ensures
        apply_spec(bytes, events, Seq::<HintEntry>::empty()) == Ok::<Seq<u8>, TransformError>(
            bytes,
        ),
{
    lemma_fold_empty_table(bytes.len() as int, events);
}

/// Determinism: the transform is a function of the module bytes, the decoded
/// events and the hint table; two results for equal inputs are byte-identical.
pub proof fn lemma_deterministic(
    bytes: Seq<u8>,
    events: Seq<ScanEvent>,
    table: Seq<HintEntry>,
    r1: Seq<u8>,
    r2: Seq<u8>,
)
    requires
        apply_spec(bytes, events, table) == Ok::<Seq<u8>, TransformError>(r1),
        apply_spec(bytes, events, table) == Ok::<Seq<u8>, TransformError>(r2),
    ensures
        r1 == r2,
{
}

/// Structural facts that every successful scan guarantees: the insertion
/// offset lies inside the module; entries are only emitted for bodies, never
/// empty, keyed by absolute index (imports first), in strictly increasing
/// index order.
pub proof fn lemma_fold_invariants(bytes_len: int, events: Seq<ScanEvent>, table: Seq<HintEntry>)
    requires
        scan_fold(bytes_len, events, table) is Ok,
    ensures
        ({
            let m = scan_fold(bytes_len, events, table)->Ok_0;
            &&& m.n_bodies >= 0
            &&& m.import_funcs as int + m.n_bodies <= u32::MAX as int + 1
            &&& (m.seen_code ==> 0 <= m.code_start <= bytes_len)
            &&& (m.funcs.len() > 0 ==> m.seen_code)
            &&& (m.n_bodies > 0 ==> m.seen_code)
            &&& (forall|k: int|
                0 <= k < m.funcs.len() ==> (#[trigger] m.funcs[k]).branches.len() > 0)
            &&& (forall|k: int|
                0 <= k < m.funcs.len() ==> m.import_funcs <= (#[trigger] m.funcs[k]).function_index
                    && m.funcs[k].function_index < m.import_funcs + m.n_bodies)
            &&& (forall|k1: int, k2: int|
                0 <= k1 < k2 < m.funcs.len() ==> (#[trigger] m.funcs[k1]).function_index < (
                #[trigger] m.funcs[k2]).function_index)
        }),
    decreases events.len(),
{
    if events.len() > 0 {
        lemma_fold_invariants(bytes_len, events.drop_last(), table);
    }
}

/// Empty-hints omission: a function whose hintable instructions match no table
/// entry contributes no entry at all; every emitted entry carries at least one
/// branch.
pub proof fn lemma_no_empty_entries(bytes_len: int, events: Seq<ScanEvent>, table: Seq<HintEntry>)
    requires
        scan_fold(bytes_len, events, table) is Ok,
    ensures
        forall|k: int|
            0 <= k < scan_fold(bytes_len, events, table)->Ok_0.funcs.len() ==> (#[trigger] scan_fold(
                bytes_len,
                events,
                table,
            )->Ok_0.funcs[k]).branches.len() > 0,
{
    lemma_fold_invariants(bytes_len, events, table);
}

/// Emitted entries come in strictly increasing function-index order, as the
/// consumer assumes.
pub proof fn lemma_sorted_indices(bytes_len: int, events: Seq<ScanEvent>, table: Seq<HintEntry>)
    requires
        scan_fold(bytes_len, events, table) is Ok,
    ensures
        forall|k1: int, k2: int|
            0 <= k1 < k2 < scan_fold(bytes_len, events, table)->Ok_0.funcs.len()
                ==> (#[trigger] scan_fold(bytes_len, events, table)->Ok_0.funcs[k1]).function_index
                < (#[trigger] scan_fold(bytes_len, events, table)->Ok_0.funcs[k2]).function_index,
{
    lemma_fold_invariants(bytes_len, events, table);
}

/// Insertion-point invariant: on success with a non-empty section, the output
/// is input-prefix, section, input-suffix: bytes before the insertion offset
/// are the input's bytes before it, and bytes after the inserted section are
/// the input's bytes from the offset on.
pub proof fn lemma_insertion_window(bytes: Seq<u8>, events: Seq<ScanEvent>, table: Seq<HintEntry>)
    requires
        scan_fold(bytes.len() as int, events, table) is Ok,
        scan_fold(bytes.len() as int, events, table)->Ok_0.funcs.len() > 0,
    ensures
        ({
            let m = scan_fold(bytes.len() as int, events, table)->Ok_0;
            let sec = section_bytes(m.funcs);
            let out = apply_spec(bytes, events, table)->Ok_0;
            &&& apply_spec(bytes, events, table) == Ok::<Seq<u8>, TransformError>(
                spliced(bytes, m.code_start, sec),
            )
            &&& out.len() == bytes.len() + sec.len()
            &&& out.take(m.code_start) == bytes.take(m.code_start)
            &&& out.skip(m.code_start + sec.len()) == bytes.skip(m.code_start)
        }),
{
    lemma_fold_invariants(bytes.len() as int, events, table);
    let m = scan_fold(bytes.len() as int, events, table)->Ok_0;
    let sec = section_bytes(m.funcs);
    let out = spliced(bytes, m.code_start, sec);
    assert(out.take(m.code_start) =~= bytes.take(m.code_start));
    assert(out.skip(m.code_start + sec.len()) =~= bytes.skip(m.code_start));
}

/// The body events of the sequence, in order.
pub open spec fn bodies_of(events: Seq<ScanEvent>) -> Seq<ScanEvent>
    decreases events.len(),
{
    if events.len() == 0 {
        Seq::empty()
    } else {
        bodies_of(events.drop_last()) + (if events.last() is Body {
            seq![events.last()]
        } else {
            Seq::<ScanEvent>::empty()
        })
    }
}

/// What a successful scan emits, exactly: one entry per body whose records are
/// non-empty, under absolute index = imported-function count + body ordinal,
/// carrying precisely that body's records; and nothing else.
pub proof fn lemma_fold_correspondence(
    bytes_len: int,
    events: Seq<ScanEvent>,
    table: Seq<HintEntry>,
)
    requires
        scan_fold(bytes_len, events, table) is Ok,
    ensures
        ({
            let m = scan_fold(bytes_len, events, table)->Ok_0;
            let bodies = bodies_of(events);
            &&& m.n_bodies == bodies.len()
            &&& (forall|k: int|
                0 <= k < m.funcs.len() ==> {
                    let j = (#[trigger] m.funcs[k]).function_index - m.import_funcs;
                    &&& 0 <= j < bodies.len()
                    &&& bodies[j] is Body
                    &&& m.funcs[k].branches == records_of(
                        bodies[j]->Body_ops@,
                        bodies[j]->Body_ops_start,
                        j as u32,
                        table,
                    )
                    &&& m.funcs[k].branches.len() > 0
                })
            &&& (forall|j: int|
                0 <= j < bodies.len() && records_of(
                    (#[trigger] bodies[j])->Body_ops@,
                    bodies[j]->Body_ops_start,
                    j as u32,
                    table,
                ).len() > 0 ==> exists|k: int|
                    0 <= k < m.funcs.len() && (#[trigger] m.funcs[k]).function_index
                        == m.import_funcs + j)
        }),
    decreases events.len(),
{
    lemma_fold_invariants(bytes_len, events, table);
    if events.len() > 0 {
        lemma_fold_invariants(bytes_len, events.drop_last(), table);
        lemma_fold_correspondence(bytes_len, events.drop_last(), table);
        let prev = scan_fold(bytes_len, events.drop_last(), table)->Ok_0;
        let m = scan_fold(bytes_len, events, table)->Ok_0;
        let bodies = bodies_of(events);
        let prev_bodies = bodies_of(events.drop_last());
        match events.last() {
            ScanEvent::Imports(_) => {
                assert(bodies =~= prev_bodies);
            },
            ScanEvent::CodeStart { .. } => {
                assert(bodies =~= prev_bodies);
            },
            ScanEvent::Body { ops_start, ops } => {
                assert(bodies =~= prev_bodies.push(events.last()));
                let j0 = prev.n_bodies;
                assert(bodies[j0] == events.last());
                assert forall|j: int|
                    0 <= j < prev_bodies.len() implies #[trigger] bodies[j] == prev_bodies[j] by {}
                let recs = records_of(ops@, ops_start, j0 as u32, table);
                if recs.len() > 0 {
                    assert(m.funcs == prev.funcs.push(
                        crate::section::FuncHintsModel {
                            function_index: (prev.import_funcs + j0 as u32) as u32,
                            branches: recs,
                        },
                    ));
                    assert(m.funcs[m.funcs.len() - 1].function_index - m.import_funcs == j0);
                    assert forall|j: int|
                        0 <= j < bodies.len() && records_of(
                            (#[trigger] bodies[j])->Body_ops@,
                            bodies[j]->Body_ops_start,
                            j as u32,
                            table,
                        ).len() > 0 implies exists|k: int|
                        0 <= k < m.funcs.len() && (#[trigger] m.funcs[k]).function_index
                            == m.import_funcs + j by {
                        if j < j0 {
                            let k = choose|k: int|
                                0 <= k < prev.funcs.len() && (#[trigger] prev.funcs[k]).function_index
                                    == prev.import_funcs + j;
                            assert(m.funcs[k].function_index == m.import_funcs + j);
                        } else {
                            assert(m.funcs[m.funcs.len() - 1].function_index == m.import_funcs
                                + j0);
                        }
                    }
                } else {
                    assert(m.funcs == prev.funcs);
                    assert forall|j: int|
                        0 <= j < bodies.len() && records_of(
                            (#[trigger] bodies[j])->Body_ops@,
                            bodies[j]->Body_ops_start,
                            j as u32,
                            table,
                        ).len() > 0 implies exists|k: int|
                        0 <= k < m.funcs.len() && (#[trigger] m.funcs[k]).function_index
                            == m.import_funcs + j by {
                        if j < j0 {
                            let k = choose|k: int|
                                0 <= k < prev.funcs.len() && (#[trigger] prev.funcs[k]).function_index
                                    == prev.import_funcs + j;
                            assert(m.funcs[k].function_index == m.import_funcs + j);
                        }
                    }
                }
            },
        }
    }
}

/// Shape of a scanner state with the per-function hint lists left out.
pub open spec fn same_shape(m1: ScanModel, m2: ScanModel) -> bool {
    &&& m1.seen_imports == m2.seen_imports
    &&& m1.import_funcs == m2.import_funcs
    &&& m1.seen_code == m2.seen_code
    &&& m1.code_start == m2.code_start
    &&& m1.n_bodies == m2.n_bodies
}

/// Unmatched-hint tolerance, first half: whether the scan succeeds, and with
/// which error it fails, never depends on the hint table. A table entry that
/// matches nothing cannot abort the run.
pub proof fn lemma_errors_table_independent(
    bytes_len: int,
    events: Seq<ScanEvent>,
    t1: Seq<HintEntry>,
    t2: Seq<HintEntry>,
)
    ensures
        scan_fold(bytes_len, events, t1) is Err ==> scan_fold(bytes_len, events, t1) == scan_fold(
            bytes_len,
            events,
            t2,
        ),
        scan_fold(bytes_len, events, t1) is Ok ==> scan_fold(bytes_len, events, t2) is Ok
            && same_shape(
            scan_fold(bytes_len, events, t1)->Ok_0,
            scan_fold(bytes_len, events, t2)->Ok_0,
        ),
    decreases events.len(),
{
    if events.len() > 0 {
        lemma_errors_table_independent(bytes_len, events.drop_last(), t1, t2);
    }
}

/// Unmatched-hint tolerance, second half: every emitted record of one body
/// names the body-relative offset of one of its hintable instructions, with
/// the direction the table gives that offset. A table entry whose offset
/// matches no instruction produces no record.
pub proof fn lemma_records_from_ops(ops: Seq<OpAt>, start: u64, rel: u32, table: Seq<HintEntry>)
    ensures
        forall|b: int|
            0 <= b < records_of(ops, start, rel, table).len() ==> exists|k: int|
                0 <= k < ops.len() && (#[trigger] ops[k]).hintable && ops[k].pos >= start && (
                ops[k].pos - start) as u64 == (#[trigger] records_of(ops, start, rel, table)[b]).offset
                    && lookup(table, rel, records_of(ops, start, rel, table)[b].offset) == Some(
                    records_of(ops, start, rel, table)[b].dir,
                ),
    decreases ops.len(),
{
    if ops.len() > 0 {
        lemma_records_from_ops(ops.drop_last(), start, rel, table);
        let prefix = records_of(ops.drop_last(), start, rel, table);
        let whole = records_of(ops, start, rel, table);
        assert forall|b: int| #![trigger whole[b]] 0 <= b < whole.len() implies exists|k: int|
            0 <= k < ops.len() && (#[trigger] ops[k]).hintable && ops[k].pos >= start && (ops[k].pos
                - start) as u64 == whole[b].offset && lookup(table, rel, whole[b].offset) == Some(
                whole[b].dir,
            ) by {
            if b < prefix.len() {
                assert(whole[b] == prefix[b]);
                let k = choose|k: int|
                    0 <= k < ops.drop_last().len() && (#[trigger] ops.drop_last()[k]).hintable
                        && ops.drop_last()[k].pos >= start && (ops.drop_last()[k].pos - start) as u64
                        == prefix[b].offset && lookup(table, rel, prefix[b].offset) == Some(
                        prefix[b].dir,
                    );
                assert(ops[k] == ops.drop_last()[k]);
            } else {
                let k = ops.len() - 1;
                assert(ops[k] == ops.last());
            }
        }
    }
}

/// No function carries two records at the same offset: with distinct
/// instruction positions, as a decoder yields them, the emitted offsets of one
/// body are pairwise distinct.
pub proof fn lemma_unique_offsets(ops: Seq<OpAt>, start: u64, rel: u32, table: Seq<HintEntry>)
    requires
        forall|i: int, j: int|
            0 <= i < j < ops.len() ==> (#[trigger] ops[i]).pos != (#[trigger] ops[j]).pos,
    ensures
        forall|b1: int, b2: int|
            0 <= b1 < b2 < records_of(ops, start, rel, table).len() ==> (#[trigger] records_of(
                ops,
                start,
                rel,
                table,
            )[b1]).offset != (#[trigger] records_of(ops, start, rel, table)[b2]).offset,
    decreases ops.len(),
{
    if ops.len() > 0 {
        assert(forall|i: int, j: int|
            0 <= i < j < ops.drop_last().len() ==> (#[trigger] ops.drop_last()[i]).pos != (
            #[trigger] ops.drop_last()[j]).pos);
        lemma_unique_offsets(ops.drop_last(), start, rel, table);
        lemma_records_from_ops(ops.drop_last(), start, rel, table);
        let prefix = records_of(ops.drop_last(), start, rel, table);
        let whole = records_of(ops, start, rel, table);
        assert forall|b1: int, b2: int|
            0 <= b1 < b2 < whole.len() implies (#[trigger] whole[b1]).offset != (
        #[trigger] whole[b2]).offset by {
            if b2 == prefix.len() {
                let op = ops.last();
                let k = choose|k: int|
                    0 <= k < ops.drop_last().len() && (#[trigger] ops.drop_last()[k]).hintable
                        && ops.drop_last()[k].pos >= start && (ops.drop_last()[k].pos - start) as u64
                        == prefix[b1].offset && lookup(table, rel, prefix[b1].offset) == Some(
                        prefix[b1].dir,
                    );
                assert(ops[k] == ops.drop_last()[k]);
                assert(ops[k].pos != op.pos);
                assert(whole[b1] == prefix[b1]);
            } else {
                assert(whole[b1] == prefix[b1] && whole[b2] == prefix[b2]);
            }
        }
    }
}

/// Offset correctness: a hintable instruction whose body-relative offset the
/// table maps is recorded with exactly that offset, whatever the widths of the
/// instructions before it.
pub proof fn lemma_offset_recorded(
    ops: Seq<OpAt>,
    start: u64,
    rel: u32,
    table: Seq<HintEntry>,
    k: int,
)
    requires
        0 <= k < ops.len(),
        ops[k].hintable,
        ops[k].pos >= start,
        lookup(table, rel, (ops[k].pos - start) as u64) is Some,
    ensures
        exists|b: int|
            0 <= b < records_of(ops, start, rel, table).len() && (#[trigger] records_of(
                ops,
                start,
                rel,
                table,
            )[b]).offset == (ops[k].pos - start) as u64 && lookup(
                table,
                rel,
                (ops[k].pos - start) as u64,
            ) == Some(records_of(ops, start, rel, table)[b].dir),
    decreases ops.len(),
{
    let whole = records_of(ops, start, rel, table);
    let prefix = records_of(ops.drop_last(), start, rel, table);
    if k == ops.len() - 1 {
        assert(ops.last() == ops[k]);
        let b = whole.len() - 1;
        assert(whole[b].offset == (ops[k].pos - start) as u64);
    } else {
        assert(ops.drop_last()[k] == ops[k]);
        lemma_offset_recorded(ops.drop_last(), start, rel, table, k);
        let b = choose|b: int|
            0 <= b < prefix.len() && (#[trigger] prefix[b]).offset == (ops[k].pos - start) as u64
                && lookup(table, rel, (ops[k].pos - start) as u64) == Some(prefix[b].dir);
        assert(whole[b] == prefix[b]);
    }
}

/// Absolute index correctness: with one import section, the code section, and
/// a first body whose hints resolve under relative index 0, the emitted entry
/// carries absolute index = the number of imported functions, and exactly the
/// records of that body.
pub proof fn lemma_absolute_index(
    bytes: Seq<u8>,
    kinds: Vec<bool>,
    content_start: u64,
    content_end: u64,
    ops_start: u64,
    ops: Vec<OpAt>,
    table: Seq<HintEntry>,
)
    requires
        scan_fold(
            bytes.len() as int,
            seq![
                ScanEvent::Imports(kinds),
                ScanEvent::CodeStart { content_start, content_end },
                ScanEvent::Body { ops_start, ops },
            ],
            table,
        ) is Ok,
        records_of(ops@, ops_start, 0u32, table).len() > 0,
    ensures
        ({
            let m = scan_fold(
                bytes.len() as int,
                seq![
                    ScanEvent::Imports(kinds),
                    ScanEvent::CodeStart { content_start, content_end },
                    ScanEvent::Body { ops_start, ops },
                ],
                table,
            )->Ok_0;
            &&& m.funcs.len() == 1
            &&& m.funcs[0].function_index == count_true(kinds@)
            &&& m.funcs[0].branches == records_of(ops@, ops_start, 0u32, table)
        }),
{
    let ln = bytes.len() as int;
    let events = seq![
        ScanEvent::Imports(kinds),
        ScanEvent::CodeStart { content_start, content_end },
        ScanEvent::Body { ops_start, ops },
    ];
    let s2 = seq![ScanEvent::Imports(kinds), ScanEvent::CodeStart { content_start, content_end }];
    let s1 = seq![ScanEvent::Imports(kinds)];
    assert(s1.drop_last() =~= Seq::<ScanEvent>::empty());
    assert(s1.last() == ScanEvent::Imports(kinds));
    assert(scan_fold(ln, Seq::<ScanEvent>::empty(), table) == Ok::<ScanModel, TransformError>(
        crate::scan::scan_init(),
    ));
    assert(scan_fold(ln, s1, table) == scan_step(
        ln,
        crate::scan::scan_init(),
        ScanEvent::Imports(kinds),
        table,
    ));
    assert(s2.drop_last() =~= s1);
    assert(s2.last() == ScanEvent::CodeStart { content_start, content_end });
    assert(events.drop_last() =~= s2);
    assert(events.last() == ScanEvent::Body { ops_start, ops });
    assert(scan_fold(ln, events, table) is Ok);
    assert(scan_fold(ln, s2, table) is Ok);
    assert(scan_fold(ln, s1, table) is Ok);
    lemma_count_true_nonneg(kinds@);
    let m1 = scan_fold(ln, s1, table)->Ok_0;
    assert(m1.import_funcs == count_true(kinds@) && m1.n_bodies == 0 && m1.funcs.len() == 0);
    let m2 = scan_fold(ln, s2, table)->Ok_0;
    assert(m2.import_funcs == count_true(kinds@) && m2.n_bodies == 0 && m2.funcs.len() == 0);
    let m = scan_fold(ln, events, table)->Ok_0;
    assert(m.funcs == m2.funcs.push(
        crate::section::FuncHintsModel {
            function_index: (m2.import_funcs + 0u32) as u32,
            branches: records_of(ops@, ops_start, 0u32, table),
        },
    ));
}

} // verus!
