//! Verified core of a multi-target code generator: a document pretty-printer,
//! target-language fragments and packages, backend identities and options.
use vstd::prelude::*;

pub mod backend;
pub mod body;
pub mod check;
pub mod checker;
pub mod cli;
pub mod cycles;
pub mod document;
pub mod heritage;
pub mod ir;
pub mod language;
pub mod metadata;
pub mod order;
pub mod output;
pub mod package;
pub mod portable;
pub mod text;
pub mod typing;

pub use backend::{
    capability_name, preflight, validate_backend_request, validate_options, validate_request, BackendError, BackendRegistry, BackendOptions, BackendVersion, CapabilitySupport, IrVersion,
    IrVersionRange, OptionKind, OptionSpec, OptionValue, OptionsSchema, RegistryError, TargetId,
    TargetIdError,
};
pub use body::{
    block_always_returns, check_block, check_contract, check_expression, check_function, check_implementation,
    check_record,
    expression_always_returns, Binding,
    CheckEvent, Flow,
};
pub use check::{check_module_name, valid_identifier, Capability, Diagnostic};
pub use checker::{
    check, check_constants, check_declared_types, check_functions, check_implementations, check_tests,
    check_top_level_names, CheckedModule,
};
pub use portable::{
    Constant, Expression, Field, Function, Implementation, Interface, MethodSignature, Module,
    Parameter, PortableTest, Record, Type, Value,
};
pub use cli::{
    format_version, parse_check_arguments, parse_command, parse_emit_arguments,
    parse_explain_arguments, parse_options, parse_targets_arguments, CheckRequest, Command,
    EmitRequest, MaterializeError,
};
pub use cycles::find_file_cycle;
pub use document::{
    render, render_with_stats, DocView, Document, FinalNewline, RawText, RenderError,
    RenderLimits, RenderOptions, RenderStats, RenderedDocument, TextError,
};
pub use heritage::{
    verify_target_heritage, GeneratedTypeId, GeneratedValueId, HeritageViolation, TargetHeritageBase,
    TargetHeritageEdge, TargetHeritageScope,
};
pub use language::{
    FileGroupId, FileRole, HelperGraphError, ImportGroup, ImportSet, LanguageFragment,
    LanguagePackageError, LanguageUnit, RuntimeHelper, RuntimeHelperGraph, SourceFileRole,
    TextFileRole,
};
pub use metadata::{
    EqualityOperandShape, FailureBehavior, TargetEffect, TargetHeritageFinality,
    TargetHeritagePurpose, TypeParameterVariance,
};
pub use ir::{intrinsic_name, Intrinsic, NodeId, TypeRef};
pub use order::{NameMap, TextSet};
pub use output::{
    assemble_output_manifest, plain_path, DeclaredDependency, GeneratedFile, GeneratedPackage,
    InjectedHelper, OutputContents, OutputFile, OutputManifest,
};
pub use typing::{check_intrinsic, classify_intrinsic, IntrinsicOutcome};
pub use package::{
    assemble_source, render_language_package, render_source, FileGroup, LanguageFile,
    LanguagePackage, LanguageRenderer, LanguageSourceFile,
};

verus! {

} // verus!
