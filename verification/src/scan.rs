use crate::codec::{leb_bytes, leb_len};
use crate::hints::{lookup, HintEntry, HintTable};
use crate::section::{section_bytes, BranchHintsSection, BranchRecord, FuncHintsModel, FunctionHints};
use crate::splice::{copy_bytes, splice, spliced};
use vstd::prelude::*;

verus! {

/// One decoded instruction: whether its kind can carry a branch hint (a
/// conditional branch or a conditional block entry), and the position of its
/// opcode in the module's byte stream.
#[derive(Clone, Copy, Debug, PartialEq, Eq, Structural)]
pub struct OpAt {
    pub hintable: bool,
    pub pos: u64,
}

/// What the module decoder reports, reduced to plain values, in the order the
/// decoder yields it.
pub enum ScanEvent {
    /// The import section: one flag per import, true when it imports a function.
    Imports(Vec<bool>),
    /// The code section starts: the range of its content in the byte stream.
    /// Its announced size is the range's length; the header (id byte and size
    /// varint) lies immediately before `content_start`.
    CodeStart { content_start: u64, content_end: u64 },
    /// One function body: where its instruction stream starts, and its
    /// instructions in order.
    Body { ops_start: u64, ops: Vec<OpAt> },
}

/// Why a transform failed. Decode errors come from the module decoder; the
/// rest are malformed or out-of-order module structure.
#[derive(Debug, PartialEq, Eq)]
pub enum TransformError {
    /// The module decoder rejected the input bytes.
    Decode(String),
    /// An import section after the code section began: the import count must
    /// be established before function bodies are scanned.
    ImportsAfterCode,
    /// More than one import section.
    DuplicateImportSection,
    /// More than one code section.
    DuplicateCodeSection,
    /// A function body outside any code section.
    BodyOutsideCodeSection,
    /// More imported functions than the 32-bit index space holds.
    TooManyImportedFunctions,
    /// A function index past the 32-bit index space.
    TooManyFunctions,
    /// A code-section header whose insertion point would fall before the start
    /// or past the end of the module bytes.
    BadCodeSectionHeader,
    /// Function bodies were seen but no code section: nowhere to insert.
    NoCodeSection,
}

/// How many of the flags are set: the number of imported functions.
pub open spec fn count_true(s: Seq<bool>) -> int
    decreases s.len(),
{
    if s.len() == 0 {
        0
    } else {
        count_true(s.drop_last()) + (if s.last() {
            1int
        } else {
            0int
        })
    }
}

/// The branch records of one body: its hintable instructions whose
/// body-relative offset the table maps, in instruction order, each with the
/// direction the table gives for (relative function index, offset).
pub open spec fn records_of(ops: Seq<OpAt>, start: u64, rel: u32, table: Seq<HintEntry>) -> Seq<
    BranchRecord,
>
    decreases ops.len(),
{
    if ops.len() == 0 {
        Seq::empty()
    } else {
        let prefix = records_of(ops.drop_last(), start, rel, table);
        let op = ops.last();
        if op.hintable && op.pos >= start {
            match lookup(table, rel, (op.pos - start) as u64) {
                Some(d) => prefix.push(BranchRecord { dir: d, offset: (op.pos - start) as u64 }),
                None => prefix,
            }
        } else {
            prefix
        }
    }
}

/// Scanner state after some prefix of the decoder's events.
pub struct ScanModel {
    pub seen_imports: bool,
    pub import_funcs: u32,
    pub seen_code: bool,
    pub code_start: int,
    pub n_bodies: int,
    pub funcs: Seq<FuncHintsModel>,
}

pub open spec fn scan_init() -> ScanModel {
    ScanModel {
        seen_imports: false,
        import_funcs: 0,
        seen_code: false,
        code_start: 0,
        n_bodies: 0,
        funcs: Seq::empty(),
    }
}

/// What one decoder event does to the scanner state.
///
/// The import count must come at most once and before the code section. The
/// code section must come at most once; its header position is re-derived by
/// re-encoding the announced content size (the content range's length) and
/// stepping back over that varint and the id byte, and must lie inside the
/// module. Each
/// body is numbered in order; a body whose table lookups all miss contributes
/// nothing, the others contribute their records under the absolute function
/// index (imports counted first).
pub open spec fn scan_step(
    bytes_len: int,
    st: ScanModel,
    ev: ScanEvent,
    table: Seq<HintEntry>,
) -> Result<ScanModel, TransformError> {
    match ev {
        ScanEvent::Imports(kinds) => {
            if st.seen_code {
                Err(TransformError::ImportsAfterCode)
            } else if st.seen_imports {
                Err(TransformError::DuplicateImportSection)
            } else if count_true(kinds@) > u32::MAX {
                Err(TransformError::TooManyImportedFunctions)
            } else {
                Ok(ScanModel {
                    seen_imports: true,
                    import_funcs: count_true(kinds@) as u32,
                    seen_code: st.seen_code,
                    code_start: st.code_start,
                    n_bodies: st.n_bodies,
                    funcs: st.funcs,
                })
            }
        },
        ScanEvent::CodeStart { content_start, content_end } => {
            if st.seen_code {
                Err(TransformError::DuplicateCodeSection)
            } else if content_end < content_start {
                Err(TransformError::BadCodeSectionHeader)
            } else {
                let l = leb_bytes((content_end - content_start) as nat).len() as int;
                if content_start < 1 + l || content_start - 1 - l > bytes_len {
                    Err(TransformError::BadCodeSectionHeader)
                } else {
                    Ok(ScanModel {
                        seen_imports: st.seen_imports,
                        import_funcs: st.import_funcs,
                        seen_code: true,
                        code_start: content_start - 1 - l,
                        n_bodies: st.n_bodies,
                        funcs: st.funcs,
                    })
                }
            }
        },
        ScanEvent::Body { ops_start, ops } => {
            if !st.seen_code {
                Err(TransformError::BodyOutsideCodeSection)
            } else if st.n_bodies > u32::MAX - st.import_funcs {
                Err(TransformError::TooManyFunctions)
            } else {
                let rel = st.n_bodies as u32;
                let recs = records_of(ops@, ops_start, rel, table);
                Ok(ScanModel {
                    seen_imports: st.seen_imports,
                    import_funcs: st.import_funcs,
                    seen_code: st.seen_code,
                    code_start: st.code_start,
                    n_bodies: st.n_bodies + 1,
                    funcs: if recs.len() > 0 {
                        st.funcs.push(
                            FuncHintsModel {
                                function_index: (st.import_funcs + rel) as u32,
                                branches: recs,
                            },
                        )
                    } else {
                        st.funcs
                    },
                })
            }
        },
    }
}

/// The scanner state after a whole event sequence, or the first error.
pub open spec fn scan_fold(
    bytes_len: int,
    events: Seq<ScanEvent>,
    table: Seq<HintEntry>,
) -> Result<ScanModel, TransformError>
    decreases events.len(),
{
    if events.len() == 0 {
        Ok(scan_init())
    } else {
        match scan_fold(bytes_len, events.drop_last(), table) {
            Err(e) => Err(e),
            Ok(st) => scan_step(bytes_len, st, events.last(), table),
        }
    }
}

/// The whole transform on decoded events: if no function collected any hint,
/// the module bytes are returned unchanged, with no section emitted; otherwise
/// the serialized section is spliced in immediately before the code section's
/// header.
pub open spec fn apply_spec(
    bytes: Seq<u8>,
    events: Seq<ScanEvent>,
    table: Seq<HintEntry>,
) -> Result<Seq<u8>, TransformError> {
    match scan_fold(bytes.len() as int, events, table) {
        Err(e) => Err(e),
        Ok(m) => if m.funcs.len() == 0 {
            Ok(bytes)
        } else if !m.seen_code {
            Err(TransformError::NoCodeSection)
        } else {
            Ok(spliced(bytes, m.code_start, section_bytes(m.funcs)))
        },
    }
}

/// An error met at event `i` is the verdict on the whole sequence.
proof fn lemma_fold_err(bytes_len: int, events: Seq<ScanEvent>, table: Seq<HintEntry>, i: int)
    requires
        0 <= i <= events.len(),
        scan_fold(bytes_len, events.take(i), table) is Err,
    ensures
        scan_fold(bytes_len, events, table) == scan_fold(bytes_len, events.take(i), table),
    decreases events.len() - i,
{
    if i < events.len() {
        assert(events.take(i + 1).drop_last() =~= events.take(i));
        lemma_fold_err(bytes_len, events, table, i + 1);
    } else {
        assert(events.take(i) =~= events);
    }
}

/// Runs the scan over plain decoder events and builds the output bytes. The
/// result is exactly what `apply_spec` states, error for error.
#[verifier::loop_isolation(false)]
#[verifier::rlimit(80)]
pub fn apply_events(bytes: &Vec<u8>, events: &Vec<ScanEvent>, table: &HintTable) -> (r: Result<
    Vec<u8>,
    TransformError,
>)
    ensures
        match r {
            Ok(v) => apply_spec(bytes@, events@, table@) == Ok::<Seq<u8>, TransformError>(v@),
            Err(e) => apply_spec(bytes@, events@, table@) == Err::<Seq<u8>, TransformError>(e),
        },
{
    let mut seen_imports = false;
    let mut import_funcs: u32 = 0;
    let mut seen_code = false;
    let mut code_start: usize = 0;
    let mut n_bodies: usize = 0;
    let mut funcs: Vec<FunctionHints> = Vec::new();
    proof {
        assert(events@.take(0) =~= Seq::<ScanEvent>::empty());
        assert(funcs@.map_values(|f: FunctionHints| f@) =~= Seq::<FuncHintsModel>::empty());
    }
    let mut i: usize = 0;
    while i < events.len()
        invariant
            i <= events@.len(),
            code_start <= bytes@.len(),
            n_bodies <= i,
            import_funcs as int + n_bodies as int <= u32::MAX as int + 1,
            scan_fold(bytes@.len() as int, events@.take(i as int), table@) == Ok::<
                ScanModel,
                TransformError,
            >(
                ScanModel {
                    seen_imports,
                    import_funcs,
                    seen_code,
                    code_start: code_start as int,
                    n_bodies: n_bodies as int,
                    funcs: funcs@.map_values(|f: FunctionHints| f@),
                },
            ),
        decreases events@.len() - i,
    {
        let ghost st = ScanModel {
            seen_imports,
            import_funcs,
            seen_code,
            code_start: code_start as int,
            n_bodies: n_bodies as int,
            funcs: funcs@.map_values(|f: FunctionHints| f@),
        };
        proof {
            assert(events@.take(i as int + 1).drop_last() =~= events@.take(i as int));
            assert(events@.take(i as int + 1).last() == events@[i as int]);
            assert(scan_fold(bytes@.len() as int, events@.take(i as int + 1), table@)
                == scan_step(bytes@.len() as int, st, events@[i as int], table@));
        }
        let ev = &events[i];
        match ev {
            ScanEvent::Imports(kinds) => {
                if seen_code {
                    proof {
                        lemma_fold_err(bytes@.len() as int, events@, table@, i as int + 1);
                    }
                    return Err(TransformError::ImportsAfterCode);
                }
                if seen_imports {
                    proof {
                        lemma_fold_err(bytes@.len() as int, events@, table@, i as int + 1);
                    }
                    return Err(TransformError::DuplicateImportSection);
                }
                let mut c: u64 = 0;
                let mut k: usize = 0;
                while k < kinds.len()
                    invariant
                        k <= kinds@.len(),
                        c <= k,
                        c == count_true(kinds@.take(k as int)),
                    decreases kinds@.len() - k,
                {
                    proof {
                        assert(kinds@.take(k as int + 1).drop_last() =~= kinds@.take(k as int));
                    }
                    if kinds[k] {
                        c = c + 1;
                    }
                    k = k + 1;
                }
                assert(kinds@.take(kinds@.len() as int) =~= kinds@);
                if c > u32::MAX as u64 {
                    proof {
                        lemma_fold_err(bytes@.len() as int, events@, table@, i as int + 1);
                    }
                    return Err(TransformError::TooManyImportedFunctions);
                }
                import_funcs = c as u32;
                seen_imports = true;
            },
            ScanEvent::CodeStart { content_start, content_end } => {
                if seen_code {
                    proof {
                        lemma_fold_err(bytes@.len() as int, events@, table@, i as int + 1);
                    }
                    return Err(TransformError::DuplicateCodeSection);
                }
                if *content_end < *content_start {
                    proof {
                        lemma_fold_err(bytes@.len() as int, events@, table@, i as int + 1);
                    }
                    return Err(TransformError::BadCodeSectionHeader);
                }
                let announced: u64 = *content_end - *content_start;
                let l = leb_len(announced);
                if *content_start == 0 || *content_start - 1 < l as u64 {
                    proof {
                        lemma_fold_err(bytes@.len() as int, events@, table@, i as int + 1);
                    }
                    return Err(TransformError::BadCodeSectionHeader);
                }
                let cs = *content_start - 1 - l as u64;
                if cs > bytes.len() as u64 {
                    proof {
                        lemma_fold_err(bytes@.len() as int, events@, table@, i as int + 1);
                    }
                    return Err(TransformError::BadCodeSectionHeader);
                }
                code_start = cs as usize;
                seen_code = true;
            },
            ScanEvent::Body { ops_start, ops } => {
                if !seen_code {
                    proof {
                        lemma_fold_err(bytes@.len() as int, events@, table@, i as int + 1);
                    }
                    return Err(TransformError::BodyOutsideCodeSection);
                }
                if n_bodies as u64 > (u32::MAX - import_funcs) as u64 {
                    proof {
                        lemma_fold_err(bytes@.len() as int, events@, table@, i as int + 1);
                    }
                    return Err(TransformError::TooManyFunctions);
                }
                let rel: u32 = n_bodies as u32;
                let mut branches: Vec<BranchRecord> = Vec::new();
                let mut k: usize = 0;
                while k < ops.len()
                    invariant
                        k <= ops@.len(),
                        branches@ == records_of(ops@.take(k as int), *ops_start, rel, table@),
                    decreases ops@.len() - k,
                {
                    proof {
                        assert(ops@.take(k as int + 1).drop_last() =~= ops@.take(k as int));
                        assert(ops@.take(k as int + 1).last() == ops@[k as int]);
                    }
                    let op = ops[k];
                    if op.hintable && op.pos >= *ops_start {
                        let d = table.resolve(rel, op.pos - *ops_start);
                        match d {
                            Some(dir) => {
                                branches.push(
                                    BranchRecord { dir, offset: op.pos - *ops_start },
                                );
                            },
                            None => {},
                        }
                    }
                    k = k + 1;
                }
                assert(ops@.take(ops@.len() as int) =~= ops@);
                let ghost old_models = funcs@.map_values(|f: FunctionHints| f@);
                if branches.len() > 0 {
                    let fh = FunctionHints { function_index: import_funcs + rel, branches };
                    let ghost fhm = fh@;
                    funcs.push(fh);
                    proof {
                        assert(funcs@.map_values(|f: FunctionHints| f@) =~= old_models.push(fhm));
                    }
                }
                n_bodies = n_bodies + 1;
            },
        }
        i = i + 1;
    }
    assert(events@.take(events@.len() as int) =~= events@);
    if funcs.len() == 0 {
        let out = copy_bytes(bytes);
        return Ok(out);
    }
    if !seen_code {
        return Err(TransformError::NoCodeSection);
    }
    let sec = BranchHintsSection { functions: funcs };
    let sec_bytes = sec.write();
    let out = splice(bytes, code_start, &sec_bytes);
    Ok(out)
}

} // verus!
