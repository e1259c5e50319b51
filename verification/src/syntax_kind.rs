//! Unified token and node kinds for the Ogham syntax tree.
//!
//! Every value of [`SyntaxKind`] is either a *token* produced by the lexer
//! or a *node* assembled by the parser.

use vstd::prelude::*;
use crate::lexer::Token;
use vstd::std_specs::convert::FromSpecImpl;

verus! {

/// All token and node kinds in the Ogham syntax tree.
#[derive(Debug, Clone, Copy, PartialEq, Eq, PartialOrd, Ord, Hash, Structural)]
pub enum SyntaxKind {
    KwPackage,
    KwImport,
    KwAs,
    KwType,
    KwShape,
    KwEnum,
    KwOneof,
    KwService,
    KwRpc,
    KwAnnotation,
    KwFor,
    KwVoid,
    KwStream,
    KwMap,
    KwPick,
    KwOmit,
    KwTrue,
    KwFalse,
    KwNow,
    KwSelf,
    KwDefault,
    KwCast,
    KwRemoved,
    KwReserved,
    KwFallback,
    LBrace,
    RBrace,
    LParen,
    RParen,
    LAngle,
    RAngle,
    LBracket,
    RBracket,
    Semicolon,
    Comma,
    Dot,
    Eq,
    Colon,
    ColonColon,
    At,
    Question,
    Pipe,
    Arrow,
    BackArrow,
    DotDot,
    Star,
    Brackets,
    Slash,
    Minus,
    StringLiteral,
    FloatLiteral,
    IntLiteral,
    Ident,
    Whitespace,
    LineComment,
    BlockComment,
    LexError,
    Root,
    PackageDecl,
    ImportDecl,
    ImportPath,
    TypeDecl,
    TypeAlias,
    TypeBody,
    TypeParams,
    FieldDecl,
    MappingSource,
    ShapeDecl,
    ShapeField,
    ShapeInclude,
    ShapeInjection,
    EnumDecl,
    EnumValueDecl,
    OneofDecl,
    OneofField,
    ServiceDecl,
    RpcDecl,
    RpcParam,
    InlineType,
    AnnotationDecl,
    AnnotationTargets,
    AnnotationField,
    AnnotationComposition,
    AnnotationCall,
    AnnotationArgs,
    AnnotationArg,
    AnnotationValue,
    AnnotationValueFields,
    TypeRef,
    ArrayType,
    MapType,
    OptionalMarker,
    PickType,
    OmitType,
    QualifiedName,
    IdentList,
    NestedTypeDecl,
    NestedEnumDecl,
    ReservedDecl,
    InlineAnnotationType,
    Error,
}

/// The syntax kind of a lexer token: the variant of the same name.
pub open spec fn token_kind(token: Token) -> SyntaxKind {
    match token {
            Token::KwPackage => SyntaxKind::KwPackage,
            Token::KwImport => SyntaxKind::KwImport,
            Token::KwAs => SyntaxKind::KwAs,
            Token::KwType => SyntaxKind::KwType,
            Token::KwShape => SyntaxKind::KwShape,
            Token::KwEnum => SyntaxKind::KwEnum,
            Token::KwOneof => SyntaxKind::KwOneof,
            Token::KwService => SyntaxKind::KwService,
            Token::KwRpc => SyntaxKind::KwRpc,
            Token::KwAnnotation => SyntaxKind::KwAnnotation,
            Token::KwFor => SyntaxKind::KwFor,
            Token::KwVoid => SyntaxKind::KwVoid,
            Token::KwStream => SyntaxKind::KwStream,
            Token::KwMap => SyntaxKind::KwMap,
            Token::KwPick => SyntaxKind::KwPick,
            Token::KwOmit => SyntaxKind::KwOmit,
            Token::KwTrue => SyntaxKind::KwTrue,
            Token::KwFalse => SyntaxKind::KwFalse,
            Token::KwNow => SyntaxKind::KwNow,
            Token::KwSelf => SyntaxKind::KwSelf,
            Token::KwDefault => SyntaxKind::KwDefault,
            Token::KwCast => SyntaxKind::KwCast,
            Token::KwRemoved => SyntaxKind::KwRemoved,
            Token::KwReserved => SyntaxKind::KwReserved,
            Token::KwFallback => SyntaxKind::KwFallback,
            Token::LBrace => SyntaxKind::LBrace,
            Token::RBrace => SyntaxKind::RBrace,
            Token::LParen => SyntaxKind::LParen,
            Token::RParen => SyntaxKind::RParen,
            Token::LAngle => SyntaxKind::LAngle,
            Token::RAngle => SyntaxKind::RAngle,
            Token::LBracket => SyntaxKind::LBracket,
            Token::RBracket => SyntaxKind::RBracket,
            Token::Semicolon => SyntaxKind::Semicolon,
            Token::Comma => SyntaxKind::Comma,
            Token::Dot => SyntaxKind::Dot,
            Token::Eq => SyntaxKind::Eq,
            Token::Colon => SyntaxKind::Colon,
            Token::ColonColon => SyntaxKind::ColonColon,
            Token::At => SyntaxKind::At,
            Token::Question => SyntaxKind::Question,
            Token::Pipe => SyntaxKind::Pipe,
            Token::Arrow => SyntaxKind::Arrow,
            Token::BackArrow => SyntaxKind::BackArrow,
            Token::DotDot => SyntaxKind::DotDot,
            Token::Star => SyntaxKind::Star,
            Token::Brackets => SyntaxKind::Brackets,
            Token::Slash => SyntaxKind::Slash,
            Token::Minus => SyntaxKind::Minus,
            Token::StringLiteral => SyntaxKind::StringLiteral,
            Token::FloatLiteral => SyntaxKind::FloatLiteral,
            Token::IntLiteral => SyntaxKind::IntLiteral,
            Token::Ident => SyntaxKind::Ident,
            Token::Whitespace => SyntaxKind::Whitespace,
            Token::LineComment => SyntaxKind::LineComment,
            Token::BlockComment => SyntaxKind::BlockComment,
    }
}

impl From<Token> for SyntaxKind {
    fn from(token: Token) -> (k: SyntaxKind)
        ensures
            k == token_kind(token),
    {
        match token {
            Token::KwPackage => SyntaxKind::KwPackage,
            Token::KwImport => SyntaxKind::KwImport,
            Token::KwAs => SyntaxKind::KwAs,
            Token::KwType => SyntaxKind::KwType,
            Token::KwShape => SyntaxKind::KwShape,
            Token::KwEnum => SyntaxKind::KwEnum,
            Token::KwOneof => SyntaxKind::KwOneof,
            Token::KwService => SyntaxKind::KwService,
            Token::KwRpc => SyntaxKind::KwRpc,
            Token::KwAnnotation => SyntaxKind::KwAnnotation,
            Token::KwFor => SyntaxKind::KwFor,
            Token::KwVoid => SyntaxKind::KwVoid,
            Token::KwStream => SyntaxKind::KwStream,
            Token::KwMap => SyntaxKind::KwMap,
            Token::KwPick => SyntaxKind::KwPick,
            Token::KwOmit => SyntaxKind::KwOmit,
            Token::KwTrue => SyntaxKind::KwTrue,
            Token::KwFalse => SyntaxKind::KwFalse,
            Token::KwNow => SyntaxKind::KwNow,
            Token::KwSelf => SyntaxKind::KwSelf,
            Token::KwDefault => SyntaxKind::KwDefault,
            Token::KwCast => SyntaxKind::KwCast,
            Token::KwRemoved => SyntaxKind::KwRemoved,
            Token::KwReserved => SyntaxKind::KwReserved,
            Token::KwFallback => SyntaxKind::KwFallback,
            Token::LBrace => SyntaxKind::LBrace,
            Token::RBrace => SyntaxKind::RBrace,
            Token::LParen => SyntaxKind::LParen,
            Token::RParen => SyntaxKind::RParen,
            Token::LAngle => SyntaxKind::LAngle,
            Token::RAngle => SyntaxKind::RAngle,
            Token::LBracket => SyntaxKind::LBracket,
            Token::RBracket => SyntaxKind::RBracket,
            Token::Semicolon => SyntaxKind::Semicolon,
            Token::Comma => SyntaxKind::Comma,
            Token::Dot => SyntaxKind::Dot,
            Token::Eq => SyntaxKind::Eq,
            Token::Colon => SyntaxKind::Colon,
            Token::ColonColon => SyntaxKind::ColonColon,
            Token::At => SyntaxKind::At,
            Token::Question => SyntaxKind::Question,
            Token::Pipe => SyntaxKind::Pipe,
            Token::Arrow => SyntaxKind::Arrow,
            Token::BackArrow => SyntaxKind::BackArrow,
            Token::DotDot => SyntaxKind::DotDot,
            Token::Star => SyntaxKind::Star,
            Token::Brackets => SyntaxKind::Brackets,
            Token::Slash => SyntaxKind::Slash,
            Token::Minus => SyntaxKind::Minus,
            Token::StringLiteral => SyntaxKind::StringLiteral,
            Token::FloatLiteral => SyntaxKind::FloatLiteral,
            Token::IntLiteral => SyntaxKind::IntLiteral,
            Token::Ident => SyntaxKind::Ident,
            Token::Whitespace => SyntaxKind::Whitespace,
            Token::LineComment => SyntaxKind::LineComment,
            Token::BlockComment => SyntaxKind::BlockComment,
        }
    }
}

impl FromSpecImpl<Token> for SyntaxKind {
    open spec fn obeys_from_spec() -> bool {
        true
    }

    open spec fn from_spec(token: Token) -> SyntaxKind {
        token_kind(token)
    }
}

/// The name of each kind, as `SyntaxKind::name` gives it.
pub open spec fn kind_name(k: SyntaxKind) -> Seq<char> {
    match k {
        SyntaxKind::KwPackage => "KwPackage"@,
        SyntaxKind::KwImport => "KwImport"@,
        SyntaxKind::KwAs => "KwAs"@,
        SyntaxKind::KwType => "KwType"@,
        SyntaxKind::KwShape => "KwShape"@,
        SyntaxKind::KwEnum => "KwEnum"@,
        SyntaxKind::KwOneof => "KwOneof"@,
        SyntaxKind::KwService => "KwService"@,
        SyntaxKind::KwRpc => "KwRpc"@,
        SyntaxKind::KwAnnotation => "KwAnnotation"@,
        SyntaxKind::KwFor => "KwFor"@,
        SyntaxKind::KwVoid => "KwVoid"@,
        SyntaxKind::KwStream => "KwStream"@,
        SyntaxKind::KwMap => "KwMap"@,
        SyntaxKind::KwPick => "KwPick"@,
        SyntaxKind::KwOmit => "KwOmit"@,
        SyntaxKind::KwTrue => "KwTrue"@,
        SyntaxKind::KwFalse => "KwFalse"@,
        SyntaxKind::KwNow => "KwNow"@,
        SyntaxKind::KwSelf => "KwSelf"@,
        SyntaxKind::KwDefault => "KwDefault"@,
        SyntaxKind::KwCast => "KwCast"@,
        SyntaxKind::KwRemoved => "KwRemoved"@,
        SyntaxKind::KwReserved => "KwReserved"@,
        SyntaxKind::KwFallback => "KwFallback"@,
        SyntaxKind::LBrace => "LBrace"@,
        SyntaxKind::RBrace => "RBrace"@,
        SyntaxKind::LParen => "LParen"@,
        SyntaxKind::RParen => "RParen"@,
        SyntaxKind::LAngle => "LAngle"@,
        SyntaxKind::RAngle => "RAngle"@,
        SyntaxKind::LBracket => "LBracket"@,
        SyntaxKind::RBracket => "RBracket"@,
        SyntaxKind::Semicolon => "Semicolon"@,
        SyntaxKind::Comma => "Comma"@,
        SyntaxKind::Dot => "Dot"@,
        SyntaxKind::Eq => "Eq"@,
        SyntaxKind::Colon => "Colon"@,
        SyntaxKind::ColonColon => "ColonColon"@,
        SyntaxKind::At => "At"@,
        SyntaxKind::Question => "Question"@,
        SyntaxKind::Pipe => "Pipe"@,
        SyntaxKind::Arrow => "Arrow"@,
        SyntaxKind::BackArrow => "BackArrow"@,
        SyntaxKind::DotDot => "DotDot"@,
        SyntaxKind::Star => "Star"@,
        SyntaxKind::Brackets => "Brackets"@,
        SyntaxKind::Slash => "Slash"@,
        SyntaxKind::Minus => "Minus"@,
        SyntaxKind::StringLiteral => "StringLiteral"@,
        SyntaxKind::FloatLiteral => "FloatLiteral"@,
        SyntaxKind::IntLiteral => "IntLiteral"@,
        SyntaxKind::Ident => "Ident"@,
        SyntaxKind::Whitespace => "Whitespace"@,
        SyntaxKind::LineComment => "LineComment"@,
        SyntaxKind::BlockComment => "BlockComment"@,
        SyntaxKind::LexError => "LexError"@,
        SyntaxKind::Root => "Root"@,
        SyntaxKind::PackageDecl => "PackageDecl"@,
        SyntaxKind::ImportDecl => "ImportDecl"@,
        SyntaxKind::ImportPath => "ImportPath"@,
        SyntaxKind::TypeDecl => "TypeDecl"@,
        SyntaxKind::TypeAlias => "TypeAlias"@,
        SyntaxKind::TypeBody => "TypeBody"@,
        SyntaxKind::TypeParams => "TypeParams"@,
        SyntaxKind::FieldDecl => "FieldDecl"@,
        SyntaxKind::MappingSource => "MappingSource"@,
        SyntaxKind::ShapeDecl => "ShapeDecl"@,
        SyntaxKind::ShapeField => "ShapeField"@,
        SyntaxKind::ShapeInclude => "ShapeInclude"@,
        SyntaxKind::ShapeInjection => "ShapeInjection"@,
        SyntaxKind::EnumDecl => "EnumDecl"@,
        SyntaxKind::EnumValueDecl => "EnumValueDecl"@,
        SyntaxKind::OneofDecl => "OneofDecl"@,
        SyntaxKind::OneofField => "OneofField"@,
        SyntaxKind::ServiceDecl => "ServiceDecl"@,
        SyntaxKind::RpcDecl => "RpcDecl"@,
        SyntaxKind::RpcParam => "RpcParam"@,
        SyntaxKind::InlineType => "InlineType"@,
        SyntaxKind::AnnotationDecl => "AnnotationDecl"@,
        SyntaxKind::AnnotationTargets => "AnnotationTargets"@,
        SyntaxKind::AnnotationField => "AnnotationField"@,
        SyntaxKind::AnnotationComposition => "AnnotationComposition"@,
        SyntaxKind::AnnotationCall => "AnnotationCall"@,
        SyntaxKind::AnnotationArgs => "AnnotationArgs"@,
        SyntaxKind::AnnotationArg => "AnnotationArg"@,
        SyntaxKind::AnnotationValue => "AnnotationValue"@,
        SyntaxKind::AnnotationValueFields => "AnnotationValueFields"@,
        SyntaxKind::TypeRef => "TypeRef"@,
        SyntaxKind::ArrayType => "ArrayType"@,
        SyntaxKind::MapType => "MapType"@,
        SyntaxKind::OptionalMarker => "OptionalMarker"@,
        SyntaxKind::PickType => "PickType"@,
        SyntaxKind::OmitType => "OmitType"@,
        SyntaxKind::QualifiedName => "QualifiedName"@,
        SyntaxKind::IdentList => "IdentList"@,
        SyntaxKind::NestedTypeDecl => "NestedTypeDecl"@,
        SyntaxKind::NestedEnumDecl => "NestedEnumDecl"@,
        SyntaxKind::ReservedDecl => "ReservedDecl"@,
        SyntaxKind::InlineAnnotationType => "InlineAnnotationType"@,
        SyntaxKind::Error => "Error"@,
    }
}

impl SyntaxKind {
    pub open spec fn spec_is_trivia(self) -> bool {
        self == SyntaxKind::Whitespace || self == SyntaxKind::LineComment || self
            == SyntaxKind::BlockComment
    }

    /// Whitespace and comments.
    #[verifier::when_used_as_spec(spec_is_trivia)]
    pub fn is_trivia(self) -> (r: bool)
        ensures
            r == self.spec_is_trivia(),
    {
        match self {
            SyntaxKind::Whitespace | SyntaxKind::LineComment | SyntaxKind::BlockComment => true,
            _ => false,
        }
    }

    pub open spec fn spec_is_keyword(self) -> bool {
        self == SyntaxKind::KwPackage
        || self == SyntaxKind::KwImport
        || self == SyntaxKind::KwAs
        || self == SyntaxKind::KwType
        || self == SyntaxKind::KwShape
        || self == SyntaxKind::KwEnum
        || self == SyntaxKind::KwOneof
        || self == SyntaxKind::KwService
        || self == SyntaxKind::KwRpc
        || self == SyntaxKind::KwAnnotation
        || self == SyntaxKind::KwFor
        || self == SyntaxKind::KwVoid
        || self == SyntaxKind::KwStream
        || self == SyntaxKind::KwMap
        || self == SyntaxKind::KwPick
        || self == SyntaxKind::KwOmit
        || self == SyntaxKind::KwTrue
        || self == SyntaxKind::KwFalse
        || self == SyntaxKind::KwNow
        || self == SyntaxKind::KwSelf
        || self == SyntaxKind::KwDefault
        || self == SyntaxKind::KwCast
        || self == SyntaxKind::KwRemoved
        || self == SyntaxKind::KwReserved
        || self == SyntaxKind::KwFallback
    }

    /// Every keyword token.
    #[verifier::when_used_as_spec(spec_is_keyword)]
    pub fn is_keyword(self) -> (r: bool)
        ensures
            r == self.spec_is_keyword(),
    {
        match self {
            SyntaxKind::KwPackage
            | SyntaxKind::KwImport
            | SyntaxKind::KwAs
            | SyntaxKind::KwType
            | SyntaxKind::KwShape
            | SyntaxKind::KwEnum
            | SyntaxKind::KwOneof
            | SyntaxKind::KwService
            | SyntaxKind::KwRpc
            | SyntaxKind::KwAnnotation
            | SyntaxKind::KwFor
            | SyntaxKind::KwVoid
            | SyntaxKind::KwStream
            | SyntaxKind::KwMap
            | SyntaxKind::KwPick
            | SyntaxKind::KwOmit
            | SyntaxKind::KwTrue
            | SyntaxKind::KwFalse
            | SyntaxKind::KwNow
            | SyntaxKind::KwSelf
            | SyntaxKind::KwDefault
            | SyntaxKind::KwCast
            | SyntaxKind::KwRemoved
            | SyntaxKind::KwReserved
            | SyntaxKind::KwFallback => true,
            _ => false,
        }
    }

    pub open spec fn spec_is_structural_keyword(self) -> bool {
        self == SyntaxKind::KwType
        || self == SyntaxKind::KwShape
        || self == SyntaxKind::KwEnum
        || self == SyntaxKind::KwOneof
        || self == SyntaxKind::KwService
        || self == SyntaxKind::KwRpc
        || self == SyntaxKind::KwAnnotation
        || self == SyntaxKind::KwPackage
        || self == SyntaxKind::KwImport
        || self == SyntaxKind::KwFor
        || self == SyntaxKind::KwAs
    }

    /// Keywords that introduce declarations: they precede a name and are
    /// not taken as that name.
    #[verifier::when_used_as_spec(spec_is_structural_keyword)]
    pub fn is_structural_keyword(self) -> (r: bool)
        ensures
            r == self.spec_is_structural_keyword(),
    {
        match self {
            SyntaxKind::KwType
            | SyntaxKind::KwShape
            | SyntaxKind::KwEnum
            | SyntaxKind::KwOneof
            | SyntaxKind::KwService
            | SyntaxKind::KwRpc
            | SyntaxKind::KwAnnotation
            | SyntaxKind::KwPackage
            | SyntaxKind::KwImport
            | SyntaxKind::KwFor
            | SyntaxKind::KwAs => true,
            _ => false,
        }
    }

    /// The variant's name.
    pub fn name(self) -> (r: &'static str)
        ensures
            r@ == kind_name(self),
    {
        match self {
            SyntaxKind::KwPackage => "KwPackage",
            SyntaxKind::KwImport => "KwImport",
            SyntaxKind::KwAs => "KwAs",
            SyntaxKind::KwType => "KwType",
            SyntaxKind::KwShape => "KwShape",
            SyntaxKind::KwEnum => "KwEnum",
            SyntaxKind::KwOneof => "KwOneof",
            SyntaxKind::KwService => "KwService",
            SyntaxKind::KwRpc => "KwRpc",
            SyntaxKind::KwAnnotation => "KwAnnotation",
            SyntaxKind::KwFor => "KwFor",
            SyntaxKind::KwVoid => "KwVoid",
            SyntaxKind::KwStream => "KwStream",
            SyntaxKind::KwMap => "KwMap",
            SyntaxKind::KwPick => "KwPick",
            SyntaxKind::KwOmit => "KwOmit",
            SyntaxKind::KwTrue => "KwTrue",
            SyntaxKind::KwFalse => "KwFalse",
            SyntaxKind::KwNow => "KwNow",
            SyntaxKind::KwSelf => "KwSelf",
            SyntaxKind::KwDefault => "KwDefault",
            SyntaxKind::KwCast => "KwCast",
            SyntaxKind::KwRemoved => "KwRemoved",
            SyntaxKind::KwReserved => "KwReserved",
            SyntaxKind::KwFallback => "KwFallback",
            SyntaxKind::LBrace => "LBrace",
            SyntaxKind::RBrace => "RBrace",
            SyntaxKind::LParen => "LParen",
            SyntaxKind::RParen => "RParen",
            SyntaxKind::LAngle => "LAngle",
            SyntaxKind::RAngle => "RAngle",
            SyntaxKind::LBracket => "LBracket",
            SyntaxKind::RBracket => "RBracket",
            SyntaxKind::Semicolon => "Semicolon",
            SyntaxKind::Comma => "Comma",
            SyntaxKind::Dot => "Dot",
            SyntaxKind::Eq => "Eq",
            SyntaxKind::Colon => "Colon",
            SyntaxKind::ColonColon => "ColonColon",
            SyntaxKind::At => "At",
            SyntaxKind::Question => "Question",
            SyntaxKind::Pipe => "Pipe",
            SyntaxKind::Arrow => "Arrow",
            SyntaxKind::BackArrow => "BackArrow",
            SyntaxKind::DotDot => "DotDot",
            SyntaxKind::Star => "Star",
            SyntaxKind::Brackets => "Brackets",
            SyntaxKind::Slash => "Slash",
            SyntaxKind::Minus => "Minus",
            SyntaxKind::StringLiteral => "StringLiteral",
            SyntaxKind::FloatLiteral => "FloatLiteral",
            SyntaxKind::IntLiteral => "IntLiteral",
            SyntaxKind::Ident => "Ident",
            SyntaxKind::Whitespace => "Whitespace",
            SyntaxKind::LineComment => "LineComment",
            SyntaxKind::BlockComment => "BlockComment",
            SyntaxKind::LexError => "LexError",
            SyntaxKind::Root => "Root",
            SyntaxKind::PackageDecl => "PackageDecl",
            SyntaxKind::ImportDecl => "ImportDecl",
            SyntaxKind::ImportPath => "ImportPath",
            SyntaxKind::TypeDecl => "TypeDecl",
            SyntaxKind::TypeAlias => "TypeAlias",
            SyntaxKind::TypeBody => "TypeBody",
            SyntaxKind::TypeParams => "TypeParams",
            SyntaxKind::FieldDecl => "FieldDecl",
            SyntaxKind::MappingSource => "MappingSource",
            SyntaxKind::ShapeDecl => "ShapeDecl",
            SyntaxKind::ShapeField => "ShapeField",
            SyntaxKind::ShapeInclude => "ShapeInclude",
            SyntaxKind::ShapeInjection => "ShapeInjection",
            SyntaxKind::EnumDecl => "EnumDecl",
            SyntaxKind::EnumValueDecl => "EnumValueDecl",
            SyntaxKind::OneofDecl => "OneofDecl",
            SyntaxKind::OneofField => "OneofField",
            SyntaxKind::ServiceDecl => "ServiceDecl",
            SyntaxKind::RpcDecl => "RpcDecl",
            SyntaxKind::RpcParam => "RpcParam",
            SyntaxKind::InlineType => "InlineType",
            SyntaxKind::AnnotationDecl => "AnnotationDecl",
            SyntaxKind::AnnotationTargets => "AnnotationTargets",
            SyntaxKind::AnnotationField => "AnnotationField",
            SyntaxKind::AnnotationComposition => "AnnotationComposition",
            SyntaxKind::AnnotationCall => "AnnotationCall",
            SyntaxKind::AnnotationArgs => "AnnotationArgs",
            SyntaxKind::AnnotationArg => "AnnotationArg",
            SyntaxKind::AnnotationValue => "AnnotationValue",
            SyntaxKind::AnnotationValueFields => "AnnotationValueFields",
            SyntaxKind::TypeRef => "TypeRef",
            SyntaxKind::ArrayType => "ArrayType",
            SyntaxKind::MapType => "MapType",
            SyntaxKind::OptionalMarker => "OptionalMarker",
            SyntaxKind::PickType => "PickType",
            SyntaxKind::OmitType => "OmitType",
            SyntaxKind::QualifiedName => "QualifiedName",
            SyntaxKind::IdentList => "IdentList",
            SyntaxKind::NestedTypeDecl => "NestedTypeDecl",
            SyntaxKind::NestedEnumDecl => "NestedEnumDecl",
            SyntaxKind::ReservedDecl => "ReservedDecl",
            SyntaxKind::InlineAnnotationType => "InlineAnnotationType",
            SyntaxKind::Error => "Error",
        }
    }
}

/// Language marker for the Ogham syntax tree: the one language that
/// [`SyntaxKind`] describes.
#[derive(Debug, Clone, Copy, PartialEq, Eq, PartialOrd, Ord, Hash)]
pub enum OghamLang {
    Ogham,
}

} // verus!
