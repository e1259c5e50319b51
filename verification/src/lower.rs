//! From the compiler's representation to the IR handed to plugins.

use vstd::prelude::*;
use std::collections::HashMap;
use crate::hir;
use crate::ir;

verus! {

/// The IR scalar kind of a scalar type.
pub open spec fn proto_scalar(sk: hir::ScalarKind) -> ir::ScalarKind {
    match sk {
        hir::ScalarKind::Bool => ir::ScalarKind::Bool,
        hir::ScalarKind::String => ir::ScalarKind::String,
        hir::ScalarKind::Bytes => ir::ScalarKind::Bytes,
        hir::ScalarKind::Int8 => ir::ScalarKind::Int8,
        hir::ScalarKind::Int16 => ir::ScalarKind::Int16,
        hir::ScalarKind::Int32 => ir::ScalarKind::Int32,
        hir::ScalarKind::Int64 => ir::ScalarKind::Int64,
        hir::ScalarKind::Uint8 => ir::ScalarKind::Uint8,
        hir::ScalarKind::Uint16 => ir::ScalarKind::Uint16,
        hir::ScalarKind::Uint32 => ir::ScalarKind::Uint32,
        hir::ScalarKind::Uint64 => ir::ScalarKind::Uint64,
        hir::ScalarKind::Float => ir::ScalarKind::Float,
        hir::ScalarKind::Double => ir::ScalarKind::Double,
    }
}

/// The IR scalar kind of a scalar type.
pub fn scalar_to_proto(sk: hir::ScalarKind) -> (r: ir::ScalarKind)
    ensures
        r == proto_scalar(sk),
{
    match sk {
        hir::ScalarKind::Bool => ir::ScalarKind::Bool,
        hir::ScalarKind::String => ir::ScalarKind::String,
        hir::ScalarKind::Bytes => ir::ScalarKind::Bytes,
        hir::ScalarKind::Int8 => ir::ScalarKind::Int8,
        hir::ScalarKind::Int16 => ir::ScalarKind::Int16,
        hir::ScalarKind::Int32 => ir::ScalarKind::Int32,
        hir::ScalarKind::Int64 => ir::ScalarKind::Int64,
        hir::ScalarKind::Uint8 => ir::ScalarKind::Uint8,
        hir::ScalarKind::Uint16 => ir::ScalarKind::Uint16,
        hir::ScalarKind::Uint32 => ir::ScalarKind::Uint32,
        hir::ScalarKind::Uint64 => ir::ScalarKind::Uint64,
        hir::ScalarKind::Float => ir::ScalarKind::Float,
        hir::ScalarKind::Double => ir::ScalarKind::Double,
    }
}

/// The request for a plugin: the compiled module, with the compiler's
/// version, the plugin's options and its output directory.
pub fn build_request(
    module: ir::Module,
    compiler_version: &str,
    options: HashMap<String, String>,
    output_dir: &str,
) -> (r: ir::OghamCompileRequest)
    ensures
        r.compiler_version@ == compiler_version@,
        r.module == Some(module),
        r.options == options,
        r.output_dir@ == output_dir@,
{
    ir::OghamCompileRequest {
        compiler_version: compiler_version.to_owned(),
        module: Some(module),
        options,
        output_dir: output_dir.to_owned(),
    }
}

/// The name of a scalar kind of the compiler, as written in its definition.
pub open spec fn hir_scalar_name(sk: hir::ScalarKind) -> Seq<char> {
    match sk {
        hir::ScalarKind::Bool => "Bool"@,
        hir::ScalarKind::String => "String"@,
        hir::ScalarKind::Bytes => "Bytes"@,
        hir::ScalarKind::Int8 => "Int8"@,
        hir::ScalarKind::Int16 => "Int16"@,
        hir::ScalarKind::Int32 => "Int32"@,
        hir::ScalarKind::Int64 => "Int64"@,
        hir::ScalarKind::Uint8 => "Uint8"@,
        hir::ScalarKind::Uint16 => "Uint16"@,
        hir::ScalarKind::Uint32 => "Uint32"@,
        hir::ScalarKind::Uint64 => "Uint64"@,
        hir::ScalarKind::Float => "Float"@,
        hir::ScalarKind::Double => "Double"@,
    }
}

/// The name of a scalar kind of the IR, as written in its definition.
pub open spec fn ir_scalar_name(sk: ir::ScalarKind) -> Seq<char> {
    match sk {
        ir::ScalarKind::Unspecified => "Unspecified"@,
        ir::ScalarKind::Bool => "Bool"@,
        ir::ScalarKind::String => "String"@,
        ir::ScalarKind::Bytes => "Bytes"@,
        ir::ScalarKind::Int8 => "Int8"@,
        ir::ScalarKind::Int16 => "Int16"@,
        ir::ScalarKind::Int32 => "Int32"@,
        ir::ScalarKind::Int64 => "Int64"@,
        ir::ScalarKind::Uint8 => "Uint8"@,
        ir::ScalarKind::Uint16 => "Uint16"@,
        ir::ScalarKind::Uint32 => "Uint32"@,
        ir::ScalarKind::Uint64 => "Uint64"@,
        ir::ScalarKind::Float => "Float"@,
        ir::ScalarKind::Double => "Double"@,
    }
}

/// Lowering keeps a scalar kind: each kind of the compiler becomes the IR
/// kind of the same name, never `Unspecified`, and two different kinds never
/// become the same IR kind.
pub proof fn lemma_scalar_lowering_keeps_kind(a: hir::ScalarKind, b: hir::ScalarKind)
    ensures
        ir_scalar_name(proto_scalar(a)) == hir_scalar_name(a),
        proto_scalar(a) != ir::ScalarKind::Unspecified,
        proto_scalar(a) == proto_scalar(b) ==> a == b,
{
}

} // verus!
