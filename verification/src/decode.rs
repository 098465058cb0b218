use crate::hints::HintTable;
use crate::scan::{apply_events, apply_spec, OpAt, ScanEvent, TransformError};
use vstd::prelude::*;

verus! {

#[verifier::external_type_specification]
#[verifier::external_body]
pub struct ExFunctionBody<'a>(wasmparser::FunctionBody<'a>);

#[verifier::external_type_specification]
#[verifier::external_body]
#[verifier::reject_recursive_types(T)]
pub struct ExSectionLimited<'a, T>(wasmparser::SectionLimited<'a, T>);

#[verifier::external_type_specification]
#[verifier::external_body]
pub struct ExImports<'a>(wasmparser::Imports<'a>);

/// Whether wasmparser's decoder accepts the module bytes. The decoder reads
/// the bytes alone, so this is a function of them.
pub uninterp spec fn decode_ok(bytes: Seq<u8>) -> bool;

/// The events the decoder yields for module bytes it accepts: a function of
/// the bytes alone, in stream order.
pub uninterp spec fn events_of(bytes: Seq<u8>) -> Seq<ScanEvent>;

/// Relies on wasmparser's `SectionLimited::into_imports`: one `Import` per
/// imported item, whose `ty` names what kind of item it is; `TypeRef::Func`
/// and `TypeRef::FuncExact` are the function imports.
#[verifier::external_body]
fn import_kinds(r: &wasmparser::ImportSectionReader<'_>) -> (kinds: Result<Vec<bool>, String>) {
    let mut out = Vec::new();
    for imp in r.clone().into_imports() {
        let im = imp.map_err(|e| e.to_string())?;
        out.push(matches!(im.ty, wasmparser::TypeRef::Func(_) | wasmparser::TypeRef::FuncExact(_)));
    }
    Ok(out)
}

/// Relies on wasmparser's `FunctionBody::get_operators_reader`, whose
/// `original_position` is the byte position where the body's instruction
/// stream starts (after the local declarations), and on
/// `into_iter_with_offsets`, which yields each instruction with the byte
/// position of its opcode; `Operator::BrIf` and `Operator::If` are the
/// hintable kinds.
#[verifier::external_body]
fn body_event(body: &wasmparser::FunctionBody<'_>) -> (r: Result<ScanEvent, String>) {
    let reader = body.get_operators_reader().map_err(|e| e.to_string())?;
    let ops_start = reader.original_position();
    let mut ops = Vec::new();
    for item in reader.into_iter_with_offsets() {
        let (op, pos) = item.map_err(|e| e.to_string())?;
        let hintable = matches!(op, wasmparser::Operator::BrIf { .. } | wasmparser::Operator::If { .. });
        ops.push(OpAt { hintable, pos });
    }
    Ok(ScanEvent::Body { ops_start, ops })
}

/// Relies on wasmparser's `Parser::new(0).parse_all` over the whole module:
/// it either rejects the bytes or yields, in stream order, the import section,
/// the code section's start (whose `range` spans the section's announced
/// content) and one entry per function body. What comes back depends on the
/// module bytes alone, so acceptance and the yielded events bear the names
/// `decode_ok` and `events_of`.
#[verifier::external_body]
fn decode_events(data: &Vec<u8>) -> (r: Result<Vec<ScanEvent>, String>)
    ensures
        r is Ok <==> decode_ok(data@),
        r matches Ok(evs) ==> evs@ == events_of(data@),
{
    let mut out = Vec::new();
    for p in wasmparser::Parser::new(0).parse_all(data.as_slice()) {
        match p.map_err(|e| e.to_string())? {
            wasmparser::Payload::ImportSection(r) => out.push(ScanEvent::Imports(import_kinds(&r)?)),
            wasmparser::Payload::CodeSectionStart { range, .. } => out.push(
                ScanEvent::CodeStart { content_start: range.start, content_end: range.end },
            ),
            wasmparser::Payload::CodeSectionEntry(b) => out.push(body_event(&b)?),
            _ => {},
        }
    }
    Ok(out)
}

/// The whole transform. When the module bytes decode, the result — success or
/// failure, and every output byte — is exactly what `apply_spec` states for
/// the decoded events: the input unchanged when no hint matched, else the
/// input with the serialized section spliced in immediately before the code
/// section's header. When the bytes do not decode, a decode error is returned
/// and no output is produced.
pub fn transform(bytes: &Vec<u8>, table: &HintTable) -> (r: Result<Vec<u8>, TransformError>)
    ensures
        !decode_ok(bytes@) ==> r matches Err(TransformError::Decode(_)),
        decode_ok(bytes@) ==> match apply_spec(bytes@, events_of(bytes@), table@) {
            Ok(v) => r matches Ok(o) && o@ == v,
            Err(e) => r matches Err(e2) && e2 == e,
        },
{
    match decode_events(bytes) {
        Err(msg) => Err(TransformError::Decode(msg)),
        Ok(evs) => apply_events(bytes, &evs, table),
    }
}

} // verus!
